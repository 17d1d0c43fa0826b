//! Normalization of a submission's source: comment removal for its
//! language, then removal of all whitespace, then optional ASCII lower-casing.
use vstd::prelude::*;
use crate::chars::{
    ascii_lower, char_is_whitespace, char_to_ascii_lowercase, is_white_space, string_from_chars,
};
use crate::lexing::{
    c_plain, lemma_strip_c_keeps_plain_text, lemma_strip_py_keeps_plain_text, py_plain,
    scan_c_style, scan_python, strip_c_spec, strip_py_spec,
};

verus! {

/// The language a submission is written in; it decides the comment syntax.
#[derive(Clone, Copy, PartialEq, Eq, Structural, Debug)]
pub enum Language {
    C,
    Python,
    Java,
    Go,
}

/// Comment removal as the language prescribes: Python's rules for Python,
/// the C-style rules for C, Java and Go.
pub open spec fn strip_for(language: Language, b: Seq<char>) -> Seq<char> {
    match language {
        Language::Python => strip_py_spec(b),
        _ => strip_c_spec(b),
    }
}

/// The characters of `s` that are not whitespace, in order.
pub open spec fn remove_whitespace(s: Seq<char>) -> Seq<char>
    decreases s.len(),
{
    if s.len() == 0 {
        Seq::empty()
    } else if is_white_space(s.last()) {
        remove_whitespace(s.drop_last())
    } else {
        remove_whitespace(s.drop_last()).push(s.last())
    }
}

/// Each character of `s` lower-cased in the ASCII range.
pub open spec fn lower_all(s: Seq<char>) -> Seq<char> {
    s.map_values(|c: char| ascii_lower(c))
}

/// The normalized form of the source characters `b`.
pub open spec fn normalize_spec(b: Seq<char>, language: Language, lowercase: bool) -> Seq<char> {
    let kept = remove_whitespace(strip_for(language, b));
    if lowercase {
        lower_all(kept)
    } else {
        kept
    }
}

/// No character of `s` is whitespace.
pub open spec fn has_no_whitespace(s: Seq<char>) -> bool {
    forall|k: int| 0 <= k < s.len() ==> !is_white_space(#[trigger] s[k])
}

/// No character of `s` is an ASCII capital letter.
pub open spec fn has_no_ascii_upper(s: Seq<char>) -> bool {
    forall|k: int| 0 <= k < s.len() ==> !('A' <= #[trigger] s[k] && s[k] <= 'Z')
}

/// Whitespace removal leaves no whitespace.
pub proof fn lemma_remove_whitespace_clean(s: Seq<char>)
    ensures
        has_no_whitespace(remove_whitespace(s)),
        remove_whitespace(s).len() <= s.len(),
    decreases s.len(),
{
    if s.len() > 0 {
        lemma_remove_whitespace_clean(s.drop_last());
    }
}

/// Lower-casing keeps the absence of whitespace and leaves no capital letter.
pub proof fn lemma_lower_all_clean(s: Seq<char>)
    requires
        has_no_whitespace(s),
    ensures
        has_no_whitespace(lower_all(s)),
        has_no_ascii_upper(lower_all(s)),
        lower_all(s).len() == s.len(),
{
    assert forall|k: int| 0 <= k < s.len() implies !is_white_space(#[trigger] lower_all(s)[k])
        && !('A' <= lower_all(s)[k] && lower_all(s)[k] <= 'Z') by {
        let c = s[k];
        assert(!is_white_space(c));
        if 'A' <= c && c <= 'Z' {
            assert((c as u32) + 32 >= 97);
        }
    }
}

/// Whitespace removal keeps text that holds no whitespace as it is.
pub proof fn lemma_remove_whitespace_keeps_clean(s: Seq<char>)
    requires
        has_no_whitespace(s),
    ensures
        remove_whitespace(s) == s,
    decreases s.len(),
{
    if s.len() > 0 {
        let r = s.drop_last();
        assert(has_no_whitespace(r)) by {
            assert forall|k: int| 0 <= k < r.len() implies !is_white_space(#[trigger] r[k]) by {
                assert(r[k] == s[k]);
            }
        }
        lemma_remove_whitespace_keeps_clean(r);
        assert(!is_white_space(s[s.len() - 1]));
        assert(r.push(s.last()) =~= s);
    }
}

/// The characters of `b` open no comment and no string of `language`.
pub open spec fn plain_for(language: Language, b: Seq<char>) -> bool {
    match language {
        Language::Python => forall|k: int| 0 <= k < b.len() ==> py_plain(#[trigger] b[k]),
        _ => forall|k: int| 0 <= k < b.len() ==> c_plain(#[trigger] b[k]),
    }
}

/// Normalization without lower-casing removes comments and whitespace and
/// nothing else: text that holds neither, nor a quote, is left exactly as it
/// is, whatever its characters.
pub proof fn lemma_normalize_keeps_plain_text(b: Seq<char>, language: Language)
    requires
        plain_for(language, b),
        has_no_whitespace(b),
    ensures
        normalize_spec(b, language, false) == b,
{
    match language {
        Language::Python => lemma_strip_py_keeps_plain_text(b),
        _ => lemma_strip_c_keeps_plain_text(b),
    }
    lemma_remove_whitespace_keeps_clean(b);
}

/// Normalizes a submission's source: removes the language's comments, then
/// every whitespace character, then, if `lowercase` is set, lower-cases the
/// ASCII letters. The result holds no whitespace, and no ASCII capital letter
/// when `lowercase` is set.
pub fn normalize_code(source: &str, language: Language, lowercase: bool) -> (out: String)
    ensures
        out@ == normalize_spec(source@, language, lowercase),
        has_no_whitespace(out@),
        lowercase ==> has_no_ascii_upper(out@),
{
    let stripped = match language {
        Language::Python => scan_python(source),
        _ => scan_c_style(source),
    };
    let ghost full = stripped@;
    let mut kept: Vec<char> = Vec::new();
    let mut i: usize = 0;
    while i < stripped.len()
        invariant
            i <= stripped.len(),
            full == stripped@,
            kept@ == remove_whitespace(full.take(i as int)),
        decreases stripped.len() - i,
    {
        let ch = stripped[i];
        assert(full.take(i as int + 1).drop_last() =~= full.take(i as int));
        if !char_is_whitespace(ch) {
            kept.push(ch);
        }
        i += 1;
    }
    assert(full.take(full.len() as int) =~= full);
    proof {
        lemma_remove_whitespace_clean(full);
    }
    if lowercase {
        let ghost unlowered = kept@;
        let mut j: usize = 0;
        while j < kept.len()
            invariant
                j <= kept.len(),
                kept@.len() == unlowered.len(),
                forall|k: int| 0 <= k < j ==> kept@[k] == ascii_lower(unlowered[k]),
                forall|k: int| j <= k < kept@.len() ==> kept@[k] == unlowered[k],
            decreases kept.len() - j,
        {
            let lowered = char_to_ascii_lowercase(kept[j]);
            kept.set(j, lowered);
            j += 1;
        }
        assert(kept@ =~= lower_all(unlowered));
        proof {
            lemma_lower_all_clean(unlowered);
        }
    }
    string_from_chars(&kept)
}

} // verus!
