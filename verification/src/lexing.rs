//! Comment removal for C-style languages (C, Java, Go) and for Python.
//!
//! Both scanners read the input character by character and keep every
//! character that is not part of a removed comment or docstring.
use vstd::prelude::*;
use crate::chars::{
    chars_of, char_is_whitespace, is_white_space, string_from_chars, BACKQUOTE, BACKSLASH,
    DOUBLE_QUOTE, HASH, NEWLINE, SINGLE_QUOTE, SLASH, STAR,
};

verus! {

/// Where the C-style scanner stands.
#[derive(Clone, Copy, PartialEq, Eq, Structural, Debug)]
pub enum CMode {
    Code,
    LineComment,
    BlockComment,
    DoubleQuoted,
    SingleQuoted,
    Backquoted,
}

/// What the C-style scanner emits for the characters from position `i` on, when it
/// reaches `i` in mode `mode`.
pub open spec fn strip_c_from(b: Seq<char>, i: int, mode: CMode) -> Seq<char>
    decreases b.len() - i,
{
    if i < 0 || i >= b.len() {
        Seq::empty()
    } else {
        let c = b[i];
        let has_next = i + 1 < b.len();
        match mode {
            CMode::LineComment => {
                if c == NEWLINE {
                    seq![c] + strip_c_from(b, i + 1, CMode::Code)
                } else {
                    strip_c_from(b, i + 1, CMode::LineComment)
                }
            },
            CMode::BlockComment => {
                if c == STAR && has_next && b[i + 1] == SLASH {
                    strip_c_from(b, i + 2, CMode::Code)
                } else {
                    strip_c_from(b, i + 1, CMode::BlockComment)
                }
            },
            CMode::DoubleQuoted => {
                if c == BACKSLASH && has_next {
                    seq![c, b[i + 1]] + strip_c_from(b, i + 2, mode)
                } else if c == DOUBLE_QUOTE {
                    seq![c] + strip_c_from(b, i + 1, CMode::Code)
                } else {
                    seq![c] + strip_c_from(b, i + 1, mode)
                }
            },
            CMode::SingleQuoted => {
                if c == BACKSLASH && has_next {
                    seq![c, b[i + 1]] + strip_c_from(b, i + 2, mode)
                } else if c == SINGLE_QUOTE {
                    seq![c] + strip_c_from(b, i + 1, CMode::Code)
                } else {
                    seq![c] + strip_c_from(b, i + 1, mode)
                }
            },
            CMode::Backquoted => {
                if c == BACKQUOTE {
                    seq![c] + strip_c_from(b, i + 1, CMode::Code)
                } else {
                    seq![c] + strip_c_from(b, i + 1, mode)
                }
            },
            CMode::Code => {
                if c == SLASH && has_next && b[i + 1] == SLASH {
                    strip_c_from(b, i + 2, CMode::LineComment)
                } else if c == SLASH && has_next && b[i + 1] == STAR {
                    strip_c_from(b, i + 2, CMode::BlockComment)
                } else if c == DOUBLE_QUOTE {
                    seq![c] + strip_c_from(b, i + 1, CMode::DoubleQuoted)
                } else if c == SINGLE_QUOTE {
                    seq![c] + strip_c_from(b, i + 1, CMode::SingleQuoted)
                } else if c == BACKQUOTE {
                    seq![c] + strip_c_from(b, i + 1, CMode::Backquoted)
                } else {
                    seq![c] + strip_c_from(b, i + 1, CMode::Code)
                }
            },
        }
    }
}

/// The text that C-style comment removal leaves of the characters `b`: `//` line
/// comments (their closing newline is kept) and `/* */` block comments are
/// dropped; double-quoted strings, single-quoted character literals and
/// back-quoted raw strings are copied as they are, backslash escapes included.
pub open spec fn strip_c_spec(b: Seq<char>) -> Seq<char> {
    strip_c_from(b, 0, CMode::Code)
}

/// Removes `//` and `/* */` comments from C, Java or Go source, leaving the
/// contents of string, character and raw-string literals untouched.
pub fn strip_c_style_comments(input: &str) -> (out: String)
    ensures
        out@ == strip_c_spec(input@),
{
    string_from_chars(&scan_c_style(input))
}

/// The C-style scanner, emitting into a vector of characters.
pub(crate) fn scan_c_style(input: &str) -> (out: Vec<char>)
    ensures
        out@ == strip_c_spec(input@),
{
    let text = chars_of(input);
    let n = text.len();
    let mut out: Vec<char> = Vec::new();
    let mut i: usize = 0;
    let mut mode = CMode::Code;
    while i < n
        invariant
            n == text@.len(),
            text@ == input@,
            i <= n,
            out@ + strip_c_from(text@, i as int, mode) == strip_c_spec(text@),
        decreases n - i,
    {
        let c = text[i];
        let ghost before = out@;
        let ghost old_i = i;
        let ghost old_mode = mode;
        match mode {
            CMode::LineComment => {
                if c == NEWLINE {
                    mode = CMode::Code;
                    out.push(c);
                }
                i += 1;
            },
            CMode::BlockComment => {
                if c == STAR && i + 1 < n && text[i + 1] == SLASH {
                    mode = CMode::Code;
                    i += 2;
                } else {
                    i += 1;
                }
            },
            CMode::DoubleQuoted => {
                out.push(c);
                if c == BACKSLASH && i + 1 < n {
                    out.push(text[i + 1]);
                    i += 2;
                } else {
                    if c == DOUBLE_QUOTE {
                        mode = CMode::Code;
                    }
                    i += 1;
                }
            },
            CMode::SingleQuoted => {
                out.push(c);
                if c == BACKSLASH && i + 1 < n {
                    out.push(text[i + 1]);
                    i += 2;
                } else {
                    if c == SINGLE_QUOTE {
                        mode = CMode::Code;
                    }
                    i += 1;
                }
            },
            CMode::Backquoted => {
                out.push(c);
                if c == BACKQUOTE {
                    mode = CMode::Code;
                }
                i += 1;
            },
            CMode::Code => {
                if c == SLASH && i + 1 < n && text[i + 1] == SLASH {
                    mode = CMode::LineComment;
                    i += 2;
                } else if c == SLASH && i + 1 < n && text[i + 1] == STAR {
                    mode = CMode::BlockComment;
                    i += 2;
                } else {
                    if c == DOUBLE_QUOTE {
                        mode = CMode::DoubleQuoted;
                    } else if c == SINGLE_QUOTE {
                        mode = CMode::SingleQuoted;
                    } else if c == BACKQUOTE {
                        mode = CMode::Backquoted;
                    }
                    out.push(c);
                    i += 1;
                }
            },
        }
        assert(before + strip_c_from(text@, old_i as int, old_mode) =~= out@ + strip_c_from(text@, i as int, mode));
    }
    out
}

/// Where the Python scanner stands.
#[derive(Clone, Copy, PartialEq, Eq, Structural, Debug)]
pub enum PyMode {
    Code,
    SingleQuoted,
    DoubleQuoted,
    /// Inside a docstring opened by three single quotes, being dropped.
    TripleSingle,
    /// Inside a `"""` docstring that is being dropped.
    TripleDouble,
    /// Inside a `#` comment.
    Comment,
}

/// The Python scanner's state: its mode, whether only whitespace has been
/// seen since the last newline, and whether a triple quote met now would open
/// a docstring.
#[derive(Clone, Copy, PartialEq, Eq, Structural, Debug)]
pub struct PyState {
    pub mode: PyMode,
    pub at_line_start: bool,
    pub can_start_docstring: bool,
}

pub open spec fn py_state(mode: PyMode, at_line_start: bool, can_start_docstring: bool) -> PyState {
    PyState { mode, at_line_start, can_start_docstring }
}

/// Three copies of the quote `q` start at position `i`.
pub open spec fn triple_at(b: Seq<char>, i: int, q: char) -> bool {
    i + 2 < b.len() && b[i] == q && b[i + 1] == q && b[i + 2] == q
}

/// The line flags after the character `c` inside a string literal: a newline
/// starts a line, any other non-whitespace character ends the line start.
pub open spec fn quoted_flags(st: PyState, mode: PyMode, c: char) -> PyState {
    if c == NEWLINE {
        py_state(mode, true, true)
    } else if !is_white_space(c) {
        py_state(mode, false, false)
    } else {
        py_state(mode, st.at_line_start, st.can_start_docstring)
    }
}

/// The line flags after the code character `c`: a newline starts a line;
/// whitespace at the start of a line lets a docstring start; anything else
/// ends both.
pub open spec fn code_flags(st: PyState, c: char) -> PyState {
    if c == NEWLINE {
        py_state(PyMode::Code, true, true)
    } else if is_white_space(c) {
        py_state(PyMode::Code, st.at_line_start, st.at_line_start || st.can_start_docstring)
    } else {
        py_state(PyMode::Code, false, false)
    }
}

/// What the Python scanner emits for the characters from position `i` on, when it
/// reaches `i` in state `st`.
pub open spec fn strip_py_from(b: Seq<char>, i: int, st: PyState) -> Seq<char>
    decreases b.len() - i,
{
    if i < 0 || i >= b.len() {
        Seq::empty()
    } else {
        let c = b[i];
        let ch = c;
        let has_next = i + 1 < b.len();
        match st.mode {
            PyMode::TripleSingle => {
                if triple_at(b, i, SINGLE_QUOTE) {
                    strip_py_from(b, i + 3, py_state(PyMode::Code, st.at_line_start, st.can_start_docstring))
                } else {
                    strip_py_from(b, i + 1, st)
                }
            },
            PyMode::TripleDouble => {
                if triple_at(b, i, DOUBLE_QUOTE) {
                    strip_py_from(b, i + 3, py_state(PyMode::Code, st.at_line_start, st.can_start_docstring))
                } else {
                    strip_py_from(b, i + 1, st)
                }
            },
            PyMode::SingleQuoted => {
                if c == BACKSLASH && has_next {
                    seq![ch, b[i + 1]] + strip_py_from(b, i + 2, st)
                } else {
                    let mode = if c == SINGLE_QUOTE { PyMode::Code } else { PyMode::SingleQuoted };
                    seq![ch] + strip_py_from(b, i + 1, quoted_flags(st, mode, ch))
                }
            },
            PyMode::DoubleQuoted => {
                if c == BACKSLASH && has_next {
                    seq![ch, b[i + 1]] + strip_py_from(b, i + 2, st)
                } else {
                    let mode = if c == DOUBLE_QUOTE { PyMode::Code } else { PyMode::DoubleQuoted };
                    seq![ch] + strip_py_from(b, i + 1, quoted_flags(st, mode, ch))
                }
            },
            PyMode::Comment => {
                if c == NEWLINE {
                    seq![ch] + strip_py_from(b, i + 1, py_state(PyMode::Code, true, true))
                } else {
                    strip_py_from(b, i + 1, st)
                }
            },
            PyMode::Code => {
                if c == HASH {
                    strip_py_from(b, i + 1, py_state(PyMode::Comment, st.at_line_start, st.can_start_docstring))
                } else if triple_at(b, i, SINGLE_QUOTE) {
                    if st.can_start_docstring {
                        strip_py_from(b, i + 3, py_state(PyMode::TripleSingle, st.at_line_start, st.can_start_docstring))
                    } else {
                        seq![ch, ch, ch] + strip_py_from(b, i + 3, py_state(PyMode::SingleQuoted, false, false))
                    }
                } else if triple_at(b, i, DOUBLE_QUOTE) {
                    if st.can_start_docstring {
                        strip_py_from(b, i + 3, py_state(PyMode::TripleDouble, st.at_line_start, st.can_start_docstring))
                    } else {
                        seq![ch, ch, ch] + strip_py_from(b, i + 3, py_state(PyMode::DoubleQuoted, false, false))
                    }
                } else if c == SINGLE_QUOTE {
                    seq![ch] + strip_py_from(b, i + 1, py_state(PyMode::SingleQuoted, false, false))
                } else if c == DOUBLE_QUOTE {
                    seq![ch] + strip_py_from(b, i + 1, py_state(PyMode::DoubleQuoted, false, false))
                } else {
                    seq![ch] + strip_py_from(b, i + 1, code_flags(st, ch))
                }
            },
        }
    }
}

/// The text that Python comment and docstring removal leaves of the characters `b`:
/// `#` comments are dropped up to (not including) their newline; a triple
/// quote that opens where a docstring may start (at the beginning of the input
/// or after only whitespace on its line) opens a docstring, which is dropped
/// with its quotes; every other string literal is copied as it is.
pub open spec fn strip_py_spec(b: Seq<char>) -> Seq<char> {
    strip_py_from(b, 0, py_state(PyMode::Code, true, true))
}

/// Removes `#` comments and docstrings from Python source, leaving the
/// contents of other string literals untouched.
pub fn strip_python_comments_and_docstrings(input: &str) -> (out: String)
    ensures
        out@ == strip_py_spec(input@),
{
    string_from_chars(&scan_python(input))
}

/// The Python scanner, emitting into a vector of characters.
#[verifier::rlimit(30)]
pub(crate) fn scan_python(input: &str) -> (out: Vec<char>)
    ensures
        out@ == strip_py_spec(input@),
{
    let text = chars_of(input);
    let n = text.len();
    let mut out: Vec<char> = Vec::new();
    let mut i: usize = 0;
    let mut mode = PyMode::Code;
    let mut at_line_start = true;
    let mut can_start_docstring = true;
    while i < n
        invariant
            n == text@.len(),
            text@ == input@,
            i <= n,
            !(mode is Comment),
            out@ + strip_py_from(text@, i as int, py_state(mode, at_line_start, can_start_docstring))
                == strip_py_spec(text@),
        decreases n - i,
    {
        let c = text[i];
        let ch = c;
        let ghost before = out@;
        let ghost old_i = i;
        let ghost old_st = py_state(mode, at_line_start, can_start_docstring);
        match mode {
            PyMode::TripleSingle => {
                if n - i > 2 && text[i] == SINGLE_QUOTE && text[i + 1] == SINGLE_QUOTE && text[i
                    + 2] == SINGLE_QUOTE {
                    mode = PyMode::Code;
                    i += 3;
                } else {
                    i += 1;
                }
            },
            PyMode::TripleDouble => {
                if n - i > 2 && text[i] == DOUBLE_QUOTE && text[i + 1] == DOUBLE_QUOTE && text[i
                    + 2] == DOUBLE_QUOTE {
                    mode = PyMode::Code;
                    i += 3;
                } else {
                    i += 1;
                }
            },
            PyMode::SingleQuoted => {
                out.push(ch);
                if c == BACKSLASH && i + 1 < n {
                    out.push(text[i + 1]);
                    i += 2;
                } else {
                    if c == SINGLE_QUOTE {
                        mode = PyMode::Code;
                    }
                    if c == NEWLINE {
                        at_line_start = true;
                        can_start_docstring = true;
                    } else if !char_is_whitespace(ch) {
                        at_line_start = false;
                        can_start_docstring = false;
                    }
                    i += 1;
                }
            },
            PyMode::DoubleQuoted => {
                out.push(ch);
                if c == BACKSLASH && i + 1 < n {
                    out.push(text[i + 1]);
                    i += 2;
                } else {
                    if c == DOUBLE_QUOTE {
                        mode = PyMode::Code;
                    }
                    if c == NEWLINE {
                        at_line_start = true;
                        can_start_docstring = true;
                    } else if !char_is_whitespace(ch) {
                        at_line_start = false;
                        can_start_docstring = false;
                    }
                    i += 1;
                }
            },
            PyMode::Comment => {
                i += 1;
            },
            PyMode::Code => {
                if c == HASH {
                    while i < n && text[i] != NEWLINE
                        invariant
                            n == text@.len(),
                            old_i <= i <= n,
                            before == out@,
                            strip_py_from(text@, old_i as int, old_st) == strip_py_from(
                                text@,
                                i as int,
                                py_state(PyMode::Comment, at_line_start, can_start_docstring),
                            ),
                        decreases n - i,
                    {
                        i += 1;
                    }
                } else if n - i > 2 && text[i] == SINGLE_QUOTE && text[i + 1] == SINGLE_QUOTE
                    && text[i + 2] == SINGLE_QUOTE {
                    if can_start_docstring {
                        mode = PyMode::TripleSingle;
                    } else {
                        out.push(ch);
                        out.push(ch);
                        out.push(ch);
                        mode = PyMode::SingleQuoted;
                        can_start_docstring = false;
                        at_line_start = false;
                    }
                    i += 3;
                } else if n - i > 2 && text[i] == DOUBLE_QUOTE && text[i + 1] == DOUBLE_QUOTE
                    && text[i + 2] == DOUBLE_QUOTE {
                    if can_start_docstring {
                        mode = PyMode::TripleDouble;
                    } else {
                        out.push(ch);
                        out.push(ch);
                        out.push(ch);
                        mode = PyMode::DoubleQuoted;
                        can_start_docstring = false;
                        at_line_start = false;
                    }
                    i += 3;
                } else if c == SINGLE_QUOTE {
                    mode = PyMode::SingleQuoted;
                    out.push(ch);
                    can_start_docstring = false;
                    at_line_start = false;
                    i += 1;
                } else if c == DOUBLE_QUOTE {
                    mode = PyMode::DoubleQuoted;
                    out.push(ch);
                    can_start_docstring = false;
                    at_line_start = false;
                    i += 1;
                } else {
                    out.push(ch);
                    if c == NEWLINE {
                        at_line_start = true;
                        can_start_docstring = true;
                    } else if char_is_whitespace(ch) {
                        if at_line_start {
                            can_start_docstring = true;
                        }
                    } else {
                        at_line_start = false;
                        can_start_docstring = false;
                    }
                    i += 1;
                }
            },
        }
        assert(before + strip_py_from(text@, old_i as int, old_st) =~= out@ + strip_py_from(
            text@,
            i as int,
            py_state(mode, at_line_start, can_start_docstring),
        ));
    }
    out
}

/// The character opens no comment and no literal of the C-style languages.
pub open spec fn c_plain(x: char) -> bool {
    x != SLASH && x != DOUBLE_QUOTE && x != SINGLE_QUOTE && x != BACKQUOTE
}

/// The character opens no comment and no string of Python.
pub open spec fn py_plain(x: char) -> bool {
    x != HASH && x != DOUBLE_QUOTE && x != SINGLE_QUOTE
}

proof fn lemma_strip_c_plain_from(b: Seq<char>, i: int)
    requires
        0 <= i <= b.len(),
        forall|k: int| i <= k < b.len() ==> c_plain(#[trigger] b[k]),
    ensures
        strip_c_from(b, i, CMode::Code) == b.subrange(i, b.len() as int),
    decreases b.len() - i,
{
    if i < b.len() {
        lemma_strip_c_plain_from(b, i + 1);
        assert(b.subrange(i, b.len() as int) =~= seq![b[i]] + b.subrange(i + 1, b.len() as int));
    } else {
        assert(b.subrange(i, b.len() as int) =~= Seq::<char>::empty());
    }
}

/// C-style comment removal keeps text that holds no `/`, no quote and no
/// back quote exactly as it is.
pub proof fn lemma_strip_c_keeps_plain_text(b: Seq<char>)
    requires
        forall|k: int| 0 <= k < b.len() ==> c_plain(#[trigger] b[k]),
    ensures
        strip_c_spec(b) == b,
{
    lemma_strip_c_plain_from(b, 0);
    assert(b.subrange(0, b.len() as int) =~= b);
}

proof fn lemma_strip_py_plain_from(b: Seq<char>, i: int, ls: bool, cs: bool)
    requires
        0 <= i <= b.len(),
        forall|k: int| i <= k < b.len() ==> py_plain(#[trigger] b[k]),
    ensures
        strip_py_from(b, i, py_state(PyMode::Code, ls, cs)) == b.subrange(i, b.len() as int),
    decreases b.len() - i,
{
    if i < b.len() {
        let st = code_flags(py_state(PyMode::Code, ls, cs), b[i]);
        lemma_strip_py_plain_from(b, i + 1, st.at_line_start, st.can_start_docstring);
        assert(!triple_at(b, i, SINGLE_QUOTE) && !triple_at(b, i, DOUBLE_QUOTE));
        assert(b.subrange(i, b.len() as int) =~= seq![b[i]] + b.subrange(i + 1, b.len() as int));
    } else {
        assert(b.subrange(i, b.len() as int) =~= Seq::<char>::empty());
    }
}

/// Python comment and docstring removal keeps text that holds no `#` and no
/// quote exactly as it is.
pub proof fn lemma_strip_py_keeps_plain_text(b: Seq<char>)
    requires
        forall|k: int| 0 <= k < b.len() ==> py_plain(#[trigger] b[k]),
    ensures
        strip_py_spec(b) == b,
{
    lemma_strip_py_plain_from(b, 0, true, true);
    assert(b.subrange(0, b.len() as int) =~= b);
}

proof fn lemma_c_skip_line(b: Seq<char>, k: int, j: int)
    requires
        0 <= k <= j < b.len(),
        forall|m: int| k <= m < j ==> #[trigger] b[m] != NEWLINE,
    ensures
        strip_c_from(b, k, CMode::LineComment) == strip_c_from(b, j, CMode::LineComment),
    decreases j - k,
{
    if k < j {
        lemma_c_skip_line(b, k + 1, j);
    }
}

/// A `//` comment is removed up to its newline, which stays: the scanner
/// continues at the newline as though the comment were not there.
pub proof fn lemma_strip_c_drops_line_comment(b: Seq<char>, i: int, j: int)
    requires
        0 <= i,
        i + 2 <= j < b.len(),
        b[i] == SLASH,
        b[i + 1] == SLASH,
        forall|m: int| i + 2 <= m < j ==> #[trigger] b[m] != NEWLINE,
        b[j] == NEWLINE,
    ensures
        strip_c_from(b, i, CMode::Code) == strip_c_from(b, j, CMode::Code),
{
    lemma_c_skip_line(b, i + 2, j);
}

proof fn lemma_c_skip_block(b: Seq<char>, k: int, j: int)
    requires
        0 <= k <= j,
        j + 1 < b.len(),
        forall|m: int| k <= m < j ==> !(#[trigger] b[m] == STAR && b[m + 1] == SLASH),
    ensures
        strip_c_from(b, k, CMode::BlockComment) == strip_c_from(b, j, CMode::BlockComment),
    decreases j - k,
{
    if k < j {
        lemma_c_skip_block(b, k + 1, j);
    }
}

/// A `/* */` comment is removed whole: the scanner continues after the first
/// `*/` that follows the opening `/*`.
pub proof fn lemma_strip_c_drops_block_comment(b: Seq<char>, i: int, j: int)
    requires
        0 <= i,
        i + 2 <= j,
        j + 1 < b.len(),
        b[i] == SLASH,
        b[i + 1] == STAR,
        forall|m: int| i + 2 <= m < j ==> !(#[trigger] b[m] == STAR && b[m + 1] == SLASH),
        b[j] == STAR,
        b[j + 1] == SLASH,
    ensures
        strip_c_from(b, i, CMode::Code) == strip_c_from(b, j + 2, CMode::Code),
{
    lemma_c_skip_block(b, i + 2, j);
}

proof fn lemma_c_copy_string(b: Seq<char>, k: int, j: int)
    requires
        0 <= k <= j < b.len(),
        forall|m: int| k <= m < j ==> #[trigger] b[m] != DOUBLE_QUOTE && b[m] != BACKSLASH,
        b[j] == DOUBLE_QUOTE,
    ensures
        strip_c_from(b, k, CMode::DoubleQuoted) == b.subrange(k, j + 1) + strip_c_from(
            b,
            j + 1,
            CMode::Code,
        ),
    decreases j - k,
{
    if k < j {
        lemma_c_copy_string(b, k + 1, j);
    }
    assert(b.subrange(k, j + 1) =~= seq![b[k]]
        + b.subrange(k + 1, j + 1));
}

/// A double-quoted string without escapes is kept whole, quotes included,
/// whatever it holds (`//` and `/*` included).
pub proof fn lemma_strip_c_keeps_string(b: Seq<char>, i: int, j: int)
    requires
        0 <= i < j < b.len(),
        b[i] == DOUBLE_QUOTE,
        forall|m: int| i < m < j ==> #[trigger] b[m] != DOUBLE_QUOTE && b[m] != BACKSLASH,
        b[j] == DOUBLE_QUOTE,
    ensures
        strip_c_from(b, i, CMode::Code) == b.subrange(i, j + 1)
            + strip_c_from(b, j + 1, CMode::Code),
{
    lemma_c_copy_string(b, i + 1, j);
    assert(b.subrange(i, j + 1) =~= seq![b[i]]
        + b.subrange(i + 1, j + 1));
}

proof fn lemma_py_skip_comment(b: Seq<char>, k: int, j: int, ls: bool, cs: bool)
    requires
        0 <= k <= j < b.len(),
        forall|m: int| k <= m < j ==> #[trigger] b[m] != NEWLINE,
    ensures
        strip_py_from(b, k, py_state(PyMode::Comment, ls, cs)) == strip_py_from(
            b,
            j,
            py_state(PyMode::Comment, ls, cs),
        ),
    decreases j - k,
{
    if k < j {
        lemma_py_skip_comment(b, k + 1, j, ls, cs);
    }
}

/// A `#` comment is removed up to its newline: the scanner continues at the
/// newline as though the comment were not there.
pub proof fn lemma_strip_py_drops_comment(b: Seq<char>, i: int, j: int, ls: bool, cs: bool)
    requires
        0 <= i < j < b.len(),
        b[i] == HASH,
        forall|m: int| i < m < j ==> #[trigger] b[m] != NEWLINE,
        b[j] == NEWLINE,
    ensures
        strip_py_from(b, i, py_state(PyMode::Code, ls, cs)) == strip_py_from(
            b,
            j,
            py_state(PyMode::Code, ls, cs),
        ),
{
    lemma_py_skip_comment(b, i + 1, j, ls, cs);
}

proof fn lemma_py_skip_docstring(b: Seq<char>, k: int, j: int, ls: bool, cs: bool)
    requires
        0 <= k <= j,
        forall|m: int| k <= m < j ==> !triple_at(b, m, DOUBLE_QUOTE),
    ensures
        strip_py_from(b, k, py_state(PyMode::TripleDouble, ls, cs)) == strip_py_from(
            b,
            j,
            py_state(PyMode::TripleDouble, ls, cs),
        ),
    decreases j - k,
{
    if k < j {
        lemma_py_skip_docstring(b, k + 1, j, ls, cs);
        assert(!triple_at(b, k, DOUBLE_QUOTE));
    }
}

/// A `"""` docstring that opens where a docstring may start is removed whole:
/// the scanner continues after the first closing `"""`, with the line flags
/// it had before the docstring.
pub proof fn lemma_strip_py_drops_docstring(b: Seq<char>, i: int, j: int, ls: bool)
    requires
        0 <= i,
        i + 3 <= j,
        triple_at(b, i, DOUBLE_QUOTE),
        forall|m: int| i + 3 <= m < j ==> !triple_at(b, m, DOUBLE_QUOTE),
        triple_at(b, j, DOUBLE_QUOTE),
    ensures
        strip_py_from(b, i, py_state(PyMode::Code, ls, true)) == strip_py_from(
            b,
            j + 3,
            py_state(PyMode::Code, ls, true),
        ),
{
    lemma_py_skip_docstring(b, i + 3, j, ls, true);
}


/// Scanning the part of `p + r` that lies past `p` is scanning `r`: the
/// scanner only looks forward.
proof fn lemma_strip_c_shift(p: Seq<char>, r: Seq<char>, k: int, m: CMode)
    requires
        0 <= k,
    ensures
        strip_c_from(p + r, p.len() + k, m) == strip_c_from(r, k, m),
    decreases r.len() - k,
{
    if k < r.len() {
        let b = p + r;
        let j = p.len() + k;
        assert(b[j] == r[k]);
        if k + 1 < r.len() {
            assert(b[j + 1] == r[k + 1]);
        }
        let modes = seq![
            CMode::Code,
            CMode::LineComment,
            CMode::BlockComment,
            CMode::DoubleQuoted,
            CMode::SingleQuoted,
            CMode::Backquoted,
        ];
        assert forall|n: int| 0 <= n < 6 implies strip_c_from(b, j + 1, #[trigger] modes[n])
            == strip_c_from(r, k + 1, modes[n]) by {
            lemma_strip_c_shift(p, r, k + 1, modes[n]);
        }
        if k + 2 <= r.len() {
            assert forall|n: int| 0 <= n < 6 implies strip_c_from(b, j + 2, #[trigger] modes[n])
                == strip_c_from(r, k + 2, modes[n]) by {
                lemma_strip_c_shift(p, r, k + 2, modes[n]);
            }
        }
        assert(modes[0] == CMode::Code && modes[1] == CMode::LineComment && modes[2]
            == CMode::BlockComment && modes[3] == CMode::DoubleQuoted && modes[4]
            == CMode::SingleQuoted && modes[5] == CMode::Backquoted);
    }
}

/// In code, a character other than `/` is emitted as it is, first.
proof fn lemma_strip_c_code_first(b: Seq<char>, j: int)
    requires
        0 <= j < b.len(),
        b[j] != SLASH,
    ensures
        strip_c_from(b, j, CMode::Code).len() > 0,
        strip_c_from(b, j, CMode::Code)[0] == b[j],
{
}

/// The mode in which a second pass reads what the scanner emitted from a
/// position reached in mode `m`: a comment leaves nothing of itself, so its
/// output is read as code.
pub open spec fn c_resume(m: CMode) -> CMode {
    match m {
        CMode::LineComment => CMode::Code,
        CMode::BlockComment => CMode::Code,
        _ => m,
    }
}

proof fn lemma_strip_c_idem_from(b: Seq<char>, i: int, m: CMode)
    requires
        0 <= i,
    ensures
        strip_c_from(strip_c_from(b, i, m), 0, c_resume(m)) == strip_c_from(b, i, m),
    decreases b.len() - i,
{
    if i < b.len() {
        let c = b[i];
        let has_next = i + 1 < b.len();
        let t = strip_c_from(b, i, m);
        match m {
            CMode::LineComment => {
                if c == NEWLINE {
                    let rest = strip_c_from(b, i + 1, CMode::Code);
                    lemma_strip_c_idem_from(b, i + 1, CMode::Code);
                    lemma_strip_c_shift(seq![c], rest, 0, CMode::Code);
                    assert(t == seq![c] + rest);
                    assert((seq![c] + rest)[0] == c);
                } else {
                    lemma_strip_c_idem_from(b, i + 1, CMode::LineComment);
                }
            },
            CMode::BlockComment => {
                if c == STAR && has_next && b[i + 1] == SLASH {
                    lemma_strip_c_idem_from(b, i + 2, CMode::Code);
                } else {
                    lemma_strip_c_idem_from(b, i + 1, CMode::BlockComment);
                }
            },
            CMode::DoubleQuoted | CMode::SingleQuoted => {
                let close = if m == CMode::DoubleQuoted { DOUBLE_QUOTE } else { SINGLE_QUOTE };
                if c == BACKSLASH && has_next {
                    let pre = seq![c, b[i + 1]];
                    let rest = strip_c_from(b, i + 2, m);
                    lemma_strip_c_idem_from(b, i + 2, m);
                    lemma_strip_c_shift(pre, rest, 0, m);
                    assert(t == pre + rest);
                    assert((pre + rest)[0] == c && (pre + rest)[1] == b[i + 1]);
                    assert(strip_c_from(pre + rest, 0, m) == pre + strip_c_from(pre + rest, 2, m));
                } else if c == close {
                    let rest = strip_c_from(b, i + 1, CMode::Code);
                    lemma_strip_c_idem_from(b, i + 1, CMode::Code);
                    lemma_strip_c_shift(seq![c], rest, 0, CMode::Code);
                    assert(t == seq![c] + rest);
                    assert((seq![c] + rest)[0] == c);
                } else {
                    let rest = strip_c_from(b, i + 1, m);
                    lemma_strip_c_idem_from(b, i + 1, m);
                    lemma_strip_c_shift(seq![c], rest, 0, m);
                    assert(t == seq![c] + rest);
                    assert((seq![c] + rest)[0] == c);
                    if c == BACKSLASH {
                        assert(rest.len() == 0);
                    }
                }
            },
            CMode::Backquoted => {
                let next = if c == BACKQUOTE { CMode::Code } else { CMode::Backquoted };
                let rest = strip_c_from(b, i + 1, next);
                lemma_strip_c_idem_from(b, i + 1, next);
                lemma_strip_c_shift(seq![c], rest, 0, next);
                assert(t == seq![c] + rest);
                assert((seq![c] + rest)[0] == c);
            },
            CMode::Code => {
                if c == SLASH && has_next && b[i + 1] == SLASH {
                    lemma_strip_c_idem_from(b, i + 2, CMode::LineComment);
                } else if c == SLASH && has_next && b[i + 1] == STAR {
                    lemma_strip_c_idem_from(b, i + 2, CMode::BlockComment);
                } else {
                    let next = if c == DOUBLE_QUOTE {
                        CMode::DoubleQuoted
                    } else if c == SINGLE_QUOTE {
                        CMode::SingleQuoted
                    } else if c == BACKQUOTE {
                        CMode::Backquoted
                    } else {
                        CMode::Code
                    };
                    let rest = strip_c_from(b, i + 1, next);
                    lemma_strip_c_idem_from(b, i + 1, next);
                    lemma_strip_c_shift(seq![c], rest, 0, next);
                    assert(t == seq![c] + rest);
                    assert((seq![c] + rest)[0] == c);
                    if c == SLASH && has_next {
                        lemma_strip_c_code_first(b, i + 1);
                        assert((seq![c] + rest)[1] == b[i + 1]);
                    }
                }
            },
        }
    }
}

/// Removing C-style comments a second time changes nothing: no comment
/// survives the first pass, and the removal never joins the text around a
/// comment into a new comment opener.
pub proof fn lemma_strip_c_idempotent(b: Seq<char>)
    ensures
        strip_c_spec(strip_c_spec(b)) == strip_c_spec(b),
{
    lemma_strip_c_idem_from(b, 0, CMode::Code);
}


/// Scanning the part of `p + r` that lies past `p` is scanning `r`: the
/// Python scanner only looks forward.
#[verifier::spinoff_prover]
proof fn lemma_strip_py_shift(p: Seq<char>, r: Seq<char>, k: int, st: PyState)
    requires
        0 <= k,
    ensures
        strip_py_from(p + r, p.len() + k, st) == strip_py_from(r, k, st),
    decreases r.len() - k,
{
    if k < r.len() {
        let b = p + r;
        let j = p.len() + k;
        let c = r[k];
        assert(b[j] == c);
        if k + 1 < r.len() {
            assert(b[j + 1] == r[k + 1]);
        }
        if k + 2 < r.len() {
            assert(b[j + 2] == r[k + 2]);
        }
        assert(triple_at(b, j, SINGLE_QUOTE) == triple_at(r, k, SINGLE_QUOTE));
        assert(triple_at(b, j, DOUBLE_QUOTE) == triple_at(r, k, DOUBLE_QUOTE));
        let ls = st.at_line_start;
        let cs = st.can_start_docstring;
        match st.mode {
            PyMode::TripleSingle | PyMode::TripleDouble => {
                let q = if st.mode == PyMode::TripleSingle { SINGLE_QUOTE } else { DOUBLE_QUOTE };
                if triple_at(r, k, q) {
                    lemma_strip_py_shift(p, r, k + 3, py_state(PyMode::Code, ls, cs));
                } else {
                    lemma_strip_py_shift(p, r, k + 1, st);
                }
            },
            PyMode::SingleQuoted | PyMode::DoubleQuoted => {
                let q = if st.mode == PyMode::SingleQuoted { SINGLE_QUOTE } else { DOUBLE_QUOTE };
                if c == BACKSLASH && k + 1 < r.len() {
                    lemma_strip_py_shift(p, r, k + 2, st);
                } else {
                    let mode = if c == q { PyMode::Code } else { st.mode };
                    lemma_strip_py_shift(p, r, k + 1, quoted_flags(st, mode, c));
                }
            },
            PyMode::Comment => {
                if c == NEWLINE {
                    lemma_strip_py_shift(p, r, k + 1, py_state(PyMode::Code, true, true));
                } else {
                    lemma_strip_py_shift(p, r, k + 1, st);
                }
            },
            PyMode::Code => {
                if c == HASH {
                    lemma_strip_py_shift(p, r, k + 1, py_state(PyMode::Comment, ls, cs));
                } else if triple_at(r, k, SINGLE_QUOTE) {
                    if cs {
                        lemma_strip_py_shift(p, r, k + 3, py_state(PyMode::TripleSingle, ls, cs));
                    } else {
                        lemma_strip_py_shift(p, r, k + 3, py_state(PyMode::SingleQuoted, false, false));
                    }
                } else if triple_at(r, k, DOUBLE_QUOTE) {
                    if cs {
                        lemma_strip_py_shift(p, r, k + 3, py_state(PyMode::TripleDouble, ls, cs));
                    } else {
                        lemma_strip_py_shift(p, r, k + 3, py_state(PyMode::DoubleQuoted, false, false));
                    }
                } else if c == SINGLE_QUOTE {
                    lemma_strip_py_shift(p, r, k + 1, py_state(PyMode::SingleQuoted, false, false));
                } else if c == DOUBLE_QUOTE {
                    lemma_strip_py_shift(p, r, k + 1, py_state(PyMode::DoubleQuoted, false, false));
                } else {
                    lemma_strip_py_shift(p, r, k + 1, code_flags(st, c));
                }
            },
        }
    }
}

/// What the scanner emits from inside a `#` comment starts with the newline
/// that ends it.
proof fn lemma_strip_py_comment_first(b: Seq<char>, k: int, ls: bool, cs: bool)
    requires
        0 <= k,
    ensures
        strip_py_from(b, k, py_state(PyMode::Comment, ls, cs)).len() > 0 ==> strip_py_from(
            b,
            k,
            py_state(PyMode::Comment, ls, cs),
        )[0] == NEWLINE,
    decreases b.len() - k,
{
    if k < b.len() && b[k] != NEWLINE {
        lemma_strip_py_comment_first(b, k + 1, ls, cs);
    }
}

/// Where no docstring may start, code that does not begin with the quote `q`
/// emits nothing that begins with `q`.
proof fn lemma_strip_py_code_first(b: Seq<char>, j: int, ls: bool, q: char)
    requires
        0 <= j,
        q == SINGLE_QUOTE || q == DOUBLE_QUOTE,
        j < b.len() ==> b[j] != q,
    ensures
        strip_py_from(b, j, py_state(PyMode::Code, ls, false)).len() > 0 ==> strip_py_from(
            b,
            j,
            py_state(PyMode::Code, ls, false),
        )[0] != q,
{
    if j < b.len() && b[j] == HASH {
        lemma_strip_py_comment_first(b, j + 1, ls, false);
    }
}

/// The state in which a second pass reads what the scanner emitted from a
/// position reached in state `st`: a comment or a docstring leaves nothing
/// of itself, so its output is read as code with the line flags it began
/// with.
pub open spec fn py_resume(st: PyState) -> PyState {
    match st.mode {
        PyMode::Comment => py_state(PyMode::Code, st.at_line_start, st.can_start_docstring),
        PyMode::TripleSingle => py_state(PyMode::Code, st.at_line_start, st.can_start_docstring),
        PyMode::TripleDouble => py_state(PyMode::Code, st.at_line_start, st.can_start_docstring),
        _ => st,
    }
}

proof fn lemma_strip_py_idem_one(b: Seq<char>, i: int, c: char, next: PyState, st: PyState)
    requires
        0 <= i < b.len(),
        b[i] == c,
        py_resume(next) == next,
        strip_py_from(b, i, st) == seq![c] + strip_py_from(b, i + 1, next),
        strip_py_from(strip_py_from(b, i + 1, next), 0, next) == strip_py_from(b, i + 1, next),
        strip_py_from(seq![c] + strip_py_from(b, i + 1, next), 0, py_resume(st)) == seq![c]
            + strip_py_from(seq![c] + strip_py_from(b, i + 1, next), 1, next),
    ensures
        strip_py_from(strip_py_from(b, i, st), 0, py_resume(st)) == strip_py_from(b, i, st),
{
    lemma_strip_py_shift(seq![c], strip_py_from(b, i + 1, next), 0, next);
}

#[verifier::rlimit(40)]
proof fn lemma_strip_py_idem_from(b: Seq<char>, i: int, st: PyState)
    requires
        0 <= i,
    ensures
        strip_py_from(strip_py_from(b, i, st), 0, py_resume(st)) == strip_py_from(b, i, st),
    decreases b.len() - i,
{
    if i < b.len() {
        let c = b[i];
        let has_next = i + 1 < b.len();
        let ls = st.at_line_start;
        let cs = st.can_start_docstring;
        let t = strip_py_from(b, i, st);
        match st.mode {
            PyMode::TripleSingle => {
                if triple_at(b, i, SINGLE_QUOTE) {
                    lemma_strip_py_idem_from(b, i + 3, py_state(PyMode::Code, ls, cs));
                } else {
                    lemma_strip_py_idem_from(b, i + 1, st);
                }
            },
            PyMode::TripleDouble => {
                if triple_at(b, i, DOUBLE_QUOTE) {
                    lemma_strip_py_idem_from(b, i + 3, py_state(PyMode::Code, ls, cs));
                } else {
                    lemma_strip_py_idem_from(b, i + 1, st);
                }
            },
            PyMode::SingleQuoted | PyMode::DoubleQuoted => {
                let close = if st.mode == PyMode::SingleQuoted { SINGLE_QUOTE } else { DOUBLE_QUOTE };
                if c == BACKSLASH && has_next {
                    let pre = seq![c, b[i + 1]];
                    let rest = strip_py_from(b, i + 2, st);
                    lemma_strip_py_idem_from(b, i + 2, st);
                    lemma_strip_py_shift(pre, rest, 0, st);
                    assert(t == pre + rest);
                    assert((pre + rest)[0] == c && (pre + rest)[1] == b[i + 1]);
                    assert(strip_py_from(pre + rest, 0, st) == pre + strip_py_from(pre + rest, 2, st));
                } else {
                    let mode = if c == close { PyMode::Code } else { st.mode };
                    let next = quoted_flags(st, mode, c);
                    let rest = strip_py_from(b, i + 1, next);
                    lemma_strip_py_idem_from(b, i + 1, next);
                    assert(t == seq![c] + rest);
                    assert((seq![c] + rest)[0] == c);
                    if c == BACKSLASH {
                        assert(rest.len() == 0);
                    }
                    lemma_strip_py_idem_one(b, i, c, next, st);
                }
            },
            PyMode::Comment => {
                if c == NEWLINE {
                    let next = py_state(PyMode::Code, true, true);
                    let rest = strip_py_from(b, i + 1, next);
                    lemma_strip_py_idem_from(b, i + 1, next);
                    assert(t == seq![c] + rest);
                    assert((seq![c] + rest)[0] == c);
                    assert(code_flags(py_resume(st), c) == next);
                    lemma_strip_py_idem_one(b, i, c, next, st);
                } else {
                    lemma_strip_py_idem_from(b, i + 1, st);
                }
            },
            PyMode::Code => {
                if c == HASH {
                    lemma_strip_py_idem_from(b, i + 1, py_state(PyMode::Comment, ls, cs));
                } else if triple_at(b, i, SINGLE_QUOTE) || triple_at(b, i, DOUBLE_QUOTE) {
                    let q = c;
                    let (doc, quoted) = if q == SINGLE_QUOTE {
                        (PyMode::TripleSingle, PyMode::SingleQuoted)
                    } else {
                        (PyMode::TripleDouble, PyMode::DoubleQuoted)
                    };
                    if cs {
                        lemma_strip_py_idem_from(b, i + 3, py_state(doc, ls, cs));
                    } else {
                        let next = py_state(quoted, false, false);
                        let pre = seq![q, q, q];
                        let rest = strip_py_from(b, i + 3, next);
                        lemma_strip_py_idem_from(b, i + 3, next);
                        lemma_strip_py_shift(pre, rest, 0, next);
                        assert(t == pre + rest);
                        assert((pre + rest)[0] == q && (pre + rest)[1] == q && (pre + rest)[2] == q);
                        assert(triple_at(pre + rest, 0, q));
                        assert(strip_py_from(pre + rest, 0, st) == pre + strip_py_from(pre + rest, 3, next));
                    }
                } else if c == SINGLE_QUOTE || c == DOUBLE_QUOTE {
                    let quoted = if c == SINGLE_QUOTE { PyMode::SingleQuoted } else { PyMode::DoubleQuoted };
                    let next = py_state(quoted, false, false);
                    let rest = strip_py_from(b, i + 1, next);
                    lemma_strip_py_idem_from(b, i + 1, next);
                    let u = seq![c] + rest;
                    assert(t == u);
                    assert(u[0] == c);
                    assert(!triple_at(u, 0, c)) by {
                        if u.len() > 2 && u[1] == c {
                            assert(has_next && b[i + 1] == c);
                            let after = py_state(PyMode::Code, false, false);
                            assert(quoted_flags(next, PyMode::Code, c) == after);
                            assert(rest == seq![c] + strip_py_from(b, i + 2, after));
                            lemma_strip_py_code_first(b, i + 2, false, c);
                            assert(u[2] == strip_py_from(b, i + 2, after)[0]);
                        }
                    }
                    lemma_strip_py_idem_one(b, i, c, next, st);
                } else {
                    let next = code_flags(st, c);
                    let rest = strip_py_from(b, i + 1, next);
                    lemma_strip_py_idem_from(b, i + 1, next);
                    assert(t == seq![c] + rest);
                    assert((seq![c] + rest)[0] == c);
                    lemma_strip_py_idem_one(b, i, c, next, st);
                }
            },
        }
    }
}

/// Removing Python comments and docstrings a second time changes nothing:
/// neither survives the first pass, and what is left around a removed one
/// is read the same way again.
pub proof fn lemma_strip_py_idempotent(b: Seq<char>)
    ensures
        strip_py_spec(strip_py_spec(b)) == strip_py_spec(b),
{
    lemma_strip_py_idem_from(b, 0, py_state(PyMode::Code, true, true));
}


/// The literal mode that the quote `q` opens in C-style code.
pub open spec fn c_literal_mode(q: char) -> CMode {
    if q == DOUBLE_QUOTE {
        CMode::DoubleQuoted
    } else if q == SINGLE_QUOTE {
        CMode::SingleQuoted
    } else {
        CMode::Backquoted
    }
}

proof fn lemma_c_copy_literal(b: Seq<char>, k: int, j: int, q: char)
    requires
        q == DOUBLE_QUOTE || q == SINGLE_QUOTE || q == BACKQUOTE,
        0 <= k <= j < b.len(),
        forall|m: int| k <= m < j ==> #[trigger] b[m] != q && b[m] != BACKSLASH,
        b[j] == q,
    ensures
        strip_c_from(b, k, c_literal_mode(q)) == b.subrange(k, j + 1) + strip_c_from(
            b,
            j + 1,
            CMode::Code,
        ),
    decreases j - k,
{
    if k < j {
        lemma_c_copy_literal(b, k + 1, j, q);
    }
    assert(b.subrange(k, j + 1) =~= seq![b[k]] + b.subrange(k + 1, j + 1));
}

/// A single-quoted character literal without escapes is kept whole, quotes
/// included, whatever it holds (a double quote, `//` or `/*` included), and
/// the scanner goes on in code after it.
pub proof fn lemma_strip_c_keeps_char_literal(b: Seq<char>, i: int, j: int)
    requires
        0 <= i < j < b.len(),
        b[i] == SINGLE_QUOTE,
        forall|m: int| i < m < j ==> #[trigger] b[m] != SINGLE_QUOTE && b[m] != BACKSLASH,
        b[j] == SINGLE_QUOTE,
    ensures
        strip_c_from(b, i, CMode::Code) == b.subrange(i, j + 1) + strip_c_from(b, j + 1, CMode::Code),
{
    lemma_c_copy_literal(b, i + 1, j, SINGLE_QUOTE);
    assert(b.subrange(i, j + 1) =~= seq![b[i]] + b.subrange(i + 1, j + 1));
}

/// A back-quoted raw string is kept whole, quotes included, whatever it
/// holds, and the scanner goes on in code after it.
pub proof fn lemma_strip_c_keeps_raw_string(b: Seq<char>, i: int, j: int)
    requires
        0 <= i < j < b.len(),
        b[i] == BACKQUOTE,
        forall|m: int| i < m < j ==> #[trigger] b[m] != BACKQUOTE && b[m] != BACKSLASH,
        b[j] == BACKQUOTE,
    ensures
        strip_c_from(b, i, CMode::Code) == b.subrange(i, j + 1) + strip_c_from(b, j + 1, CMode::Code),
{
    lemma_c_copy_literal(b, i + 1, j, BACKQUOTE);
    assert(b.subrange(i, j + 1) =~= seq![b[i]] + b.subrange(i + 1, j + 1));
}

/// The docstring mode that the quote `q` opens.
pub open spec fn py_docstring_mode(q: char) -> PyMode {
    if q == SINGLE_QUOTE {
        PyMode::TripleSingle
    } else {
        PyMode::TripleDouble
    }
}

proof fn lemma_py_skip_docstring_q(b: Seq<char>, k: int, j: int, ls: bool, cs: bool, q: char)
    requires
        q == SINGLE_QUOTE || q == DOUBLE_QUOTE,
        0 <= k <= j,
        forall|m: int| k <= m < j ==> !triple_at(b, m, q),
    ensures
        strip_py_from(b, k, py_state(py_docstring_mode(q), ls, cs)) == strip_py_from(
            b,
            j,
            py_state(py_docstring_mode(q), ls, cs),
        ),
    decreases j - k,
{
    if k < j {
        lemma_py_skip_docstring_q(b, k + 1, j, ls, cs, q);
        assert(!triple_at(b, k, q));
    }
}

/// A docstring opened by three single quotes where a docstring may start is
/// removed whole, the newlines inside it included: the scanner continues
/// after the first closing three single quotes, with the line flags it had
/// before the docstring.
pub proof fn lemma_strip_py_drops_single_quoted_docstring(b: Seq<char>, i: int, j: int, ls: bool)
    requires
        0 <= i,
        i + 3 <= j,
        triple_at(b, i, SINGLE_QUOTE),
        forall|m: int| i + 3 <= m < j ==> !triple_at(b, m, SINGLE_QUOTE),
        triple_at(b, j, SINGLE_QUOTE),
    ensures
        strip_py_from(b, i, py_state(PyMode::Code, ls, true)) == strip_py_from(
            b,
            j + 3,
            py_state(PyMode::Code, ls, true),
        ),
{
    lemma_py_skip_docstring_q(b, i + 3, j, ls, true, SINGLE_QUOTE);
    assert(b[i] != HASH);
}


/// The string mode that the quote `q` opens in Python code.
pub open spec fn py_quoted_mode(q: char) -> PyMode {
    if q == SINGLE_QUOTE {
        PyMode::SingleQuoted
    } else {
        PyMode::DoubleQuoted
    }
}

proof fn lemma_py_copy_string(b: Seq<char>, k: int, j: int, q: char, ls: bool, cs: bool)
    requires
        q == SINGLE_QUOTE || q == DOUBLE_QUOTE,
        0 <= k <= j < b.len(),
        forall|m: int| k <= m < j ==> #[trigger] b[m] != q && b[m] != BACKSLASH,
        b[j] == q,
    ensures
        strip_py_from(b, k, py_state(py_quoted_mode(q), ls, cs)) == b.subrange(k, j + 1)
            + strip_py_from(b, j + 1, py_state(PyMode::Code, false, false)),
    decreases j - k,
{
    let st = py_state(py_quoted_mode(q), ls, cs);
    if k < j {
        let next = quoted_flags(st, py_quoted_mode(q), b[k]);
        lemma_py_copy_string(b, k + 1, j, q, next.at_line_start, next.can_start_docstring);
    }
    assert(b.subrange(k, j + 1) =~= seq![b[k]] + b.subrange(k + 1, j + 1));
}

/// A Python string literal in single or double quotes, without escapes, that
/// does not open with three quotes is kept whole, quotes included, whatever
/// it holds (a `#` included); after it a docstring cannot start until the
/// next line.
pub proof fn lemma_strip_py_keeps_string(b: Seq<char>, i: int, j: int, q: char, ls: bool, cs: bool)
    requires
        q == SINGLE_QUOTE || q == DOUBLE_QUOTE,
        0 <= i < j < b.len(),
        b[i] == q,
        !triple_at(b, i, q),
        forall|m: int| i < m < j ==> #[trigger] b[m] != q && b[m] != BACKSLASH,
        b[j] == q,
    ensures
        strip_py_from(b, i, py_state(PyMode::Code, ls, cs)) == b.subrange(i, j + 1) + strip_py_from(
            b,
            j + 1,
            py_state(PyMode::Code, false, false),
        ),
{
    lemma_py_copy_string(b, i + 1, j, q, false, false);
    assert(!triple_at(b, i, SINGLE_QUOTE) && !triple_at(b, i, DOUBLE_QUOTE));
    assert(b.subrange(i, j + 1) =~= seq![b[i]] + b.subrange(i + 1, j + 1));
}

} // verus!
