use submission_similarity::lexing::{strip_c_style_comments, strip_python_comments_and_docstrings};
use submission_similarity::normalize::{normalize_code, Language};

#[test]
fn strips_c_comments_and_keeps_strings() {
    let src = r#"
            int main() {
              // comment
              char* s = "/* not comment */";
              /* block */
              return 0;
            }
        "#;
    let out = strip_c_style_comments(src);
    assert!(!out.contains("// comment"));
    assert!(!out.contains("/* block */"));
    assert!(out.contains("/* not comment */"));
}

#[test]
fn strips_python_comments_and_docstrings() {
    let src = r#"
def f():
    """this is a docstring"""
    x = 1  # inline
    return x
"#;
    let out = strip_python_comments_and_docstrings(src);
    assert!(!out.contains("docstring"));
    assert!(!out.contains("# inline"));
    assert!(out.contains("return x"));
}

#[test]
fn normalization_removes_whitespace() {
    let src = "a = 1\n\n# comment\nb=2";
    let out = normalize_code(src, Language::Python, false);
    assert_eq!(out, "a=1b=2");
}

#[test]
fn c_line_comment_keeps_its_newline() {
    assert_eq!(strip_c_style_comments("a // x\nb"), "a \nb");
}

#[test]
fn c_block_comment_removed_whole() {
    assert_eq!(strip_c_style_comments("a/* x */b"), "ab");
    assert_eq!(strip_c_style_comments("a/* never closed"), "a");
}

#[test]
fn c_escaped_quote_stays_in_string() {
    assert_eq!(
        strip_c_style_comments(r#"s = "a\"//b"; // c"#),
        r#"s = "a\"//b"; "#
    );
}

#[test]
fn c_char_literal_and_raw_string_kept() {
    assert_eq!(strip_c_style_comments("c = '/'; // x"), "c = '/'; ");
    assert_eq!(strip_c_style_comments("r := `/* raw */` // x"), "r := `/* raw */` ");
}

#[test]
fn c_plain_text_unchanged() {
    let src = "int x = 1 + 2 * 3;\nreturn x;";
    assert_eq!(strip_c_style_comments(src), src);
}

#[test]
fn c_lone_slash_at_end_kept() {
    assert_eq!(strip_c_style_comments("a /"), "a /");
}

#[test]
fn python_plain_text_unchanged() {
    let src = "x = 1\ny = x * 2\n";
    assert_eq!(strip_python_comments_and_docstrings(src), src);
}

#[test]
fn python_comment_removed_newline_kept() {
    assert_eq!(strip_python_comments_and_docstrings("x = 1 # c\ny"), "x = 1 \ny");
}

#[test]
fn python_hash_in_string_kept() {
    assert_eq!(
        strip_python_comments_and_docstrings("s = '# no' # yes"),
        "s = '# no' "
    );
}

#[test]
fn python_docstring_at_line_start_removed() {
    assert_eq!(
        strip_python_comments_and_docstrings("'''doc'''\nx = 1"),
        "\nx = 1"
    );
    assert_eq!(
        strip_python_comments_and_docstrings("    \"\"\"doc\"\"\"\n"),
        "    \n"
    );
}

#[test]
fn python_triple_quote_after_code_is_a_string() {
    assert_eq!(
        strip_python_comments_and_docstrings("s = \"\"\"kept\"\"\""),
        "s = \"\"\"kept\"\"\""
    );
}

#[test]
fn python_escape_in_string_kept() {
    assert_eq!(
        strip_python_comments_and_docstrings(r##"s = "a\"#b" # c"##),
        r##"s = "a\"#b" "##
    );
}

#[test]
fn normalization_lowercases_when_asked() {
    assert_eq!(normalize_code("INT X = 1; // Note", Language::C, true), "intx=1;");
    assert_eq!(normalize_code("INT X = 1; // Note", Language::Java, false), "INTX=1;");
}

#[test]
fn normalization_uses_language_comment_syntax() {
    assert_eq!(normalize_code("a = 1 # c\nb = 2 // 3", Language::Python, false), "a=1b=2//3");
    assert_eq!(normalize_code("a = 1 # c\nb = 2 // 3", Language::Go, false), "a=1#cb=2");
}

#[test]
fn normalization_removes_all_whitespace_kinds() {
    assert_eq!(normalize_code("a\tb\r\nc\x0bd\x0ce", Language::C, false), "abcde");
}

#[test]
fn non_ascii_characters_are_kept() {
    assert_eq!(strip_c_style_comments("é"), "é");
    assert_eq!(strip_python_comments_and_docstrings("s = 'é' # café"), "s = 'é' ");
    assert_eq!(normalize_code("s = 'é'", Language::Python, false), "s='é'");
    assert_eq!(normalize_code("\u{e0}", Language::C, false), "\u{e0}");
    assert_eq!(normalize_code("x = \"ÀÉ\" // ü", Language::C, true), "x=\"ÀÉ\"");
    assert_eq!(normalize_code("é+à*ü", Language::C, false), "é+à*ü");
    assert_eq!(normalize_code("é+à*ü", Language::Python, false), "é+à*ü");
    // A no-break space is whitespace and is removed like any other.
    assert_eq!(normalize_code("a\u{a0}b\u{3000}c", Language::Go, false), "abc");
}

#[test]
fn stripping_twice_changes_nothing() {
    let c_inputs = [
        "a/*x*//b",
        "int x = 1; // c\n/* b */ y = \"//s\";",
        "s = '\\'' + `raw /* */` /* open",
        "/ /* c */ * 2",
    ];
    for input in c_inputs {
        let once = strip_c_style_comments(input);
        assert_eq!(strip_c_style_comments(&once), once, "{input}");
    }
    let py_inputs = [
        "\"\"\"doc\"\"\"\nx = 1 # c\n",
        "x = ''#c\n'y'",
        "  '''a'''  \"\"\"b\"\"\"\ns = '''kept'''",
        "s = \"a\\\"#b\" # c",
    ];
    for input in py_inputs {
        let once = strip_python_comments_and_docstrings(input);
        assert_eq!(strip_python_comments_and_docstrings(&once), once, "{input}");
    }
}
