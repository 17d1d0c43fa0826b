use submission_similarity::normalize::{normalize_code, Language};
use submission_similarity::profile::grams3;
use submission_similarity::similarity::{similarity_parts, SimilarityParts};

fn score(parts: SimilarityParts) -> f64 {
    match parts {
        SimilarityParts::One => 1.0,
        SimilarityParts::Zero => 0.0,
        SimilarityParts::Ratio { dot, left_norm_sq, right_norm_sq } => {
            dot as f64 / ((left_norm_sq as f64).sqrt() * (right_norm_sq as f64).sqrt())
        }
    }
}

#[test]
fn cosine_similarity_identical_is_one() {
    let a = "intmain(){return0;}";
    let b = "intmain(){return0;}";
    let parts = similarity_parts(a, b);
    match parts {
        SimilarityParts::Ratio { dot, left_norm_sq, right_norm_sq } => {
            assert_eq!(dot, left_norm_sq);
            assert_eq!(dot, right_norm_sq);
        }
        other => panic!("unexpected {:?}", other),
    }
    assert!((score(parts) - 1.0).abs() < 1e-9);
}

#[test]
fn grams3_counts_overlapping_windows() {
    let g = grams3("abab");
    assert_eq!(g.get(['a', 'b', 'a']), Some(1));
    assert_eq!(g.get(['b', 'a', 'b']), Some(1));
    assert_eq!(g.get(['a', 'b', 'c']), None);
    let g = grams3("aaaa");
    assert_eq!(g.get(['a', 'a', 'a']), Some(2));
    assert!(!g.is_empty());
}

#[test]
fn grams3_counts_characters_not_bytes() {
    // "é" is one character (two bytes in UTF-8): "aéa" has exactly one window.
    let g = grams3("aéa");
    assert_eq!(g.get(['a', 'é', 'a']), Some(1));
    assert!(grams3("éé").is_empty());
    assert_eq!(grams3("éééé").get(['é', 'é', 'é']), Some(2));
}

#[test]
fn grams3_of_short_text_is_empty() {
    assert!(grams3("ab").is_empty());
    assert!(grams3("").is_empty());
    assert!(!grams3("abc").is_empty());
}

#[test]
fn short_texts_score_by_equality() {
    assert_eq!(similarity_parts("", ""), SimilarityParts::One);
    assert_eq!(similarity_parts("", "abc"), SimilarityParts::Zero);
    assert_eq!(similarity_parts("ab", "ab"), SimilarityParts::One);
    assert_eq!(similarity_parts("ab", "abc"), SimilarityParts::Zero);
}

#[test]
fn disjoint_texts_score_zero() {
    assert_eq!(similarity_parts("abcd", "wxyz"), SimilarityParts::Zero);
}

#[test]
fn partial_overlap_exact_parts() {
    // "abcd": abc, bcd. "abce": abc, bce. One shared gram.
    assert_eq!(
        similarity_parts("abcd", "abce"),
        SimilarityParts::Ratio { dot: 1, left_norm_sq: 2, right_norm_sq: 2 }
    );
    // "aaaa": aaa x2; "aaab": aaa, aab.
    assert_eq!(
        similarity_parts("aaaa", "aaab"),
        SimilarityParts::Ratio { dot: 2, left_norm_sq: 4, right_norm_sq: 2 }
    );
    let s = score(similarity_parts("abcd", "abce"));
    assert!((s - 0.5).abs() < 1e-12);
}

#[test]
fn similarity_is_symmetric() {
    let a = "defbuild(n):return[i*iforiinrange(n)]";
    let b = "defbuild(n):out=[]foriinrange(n):out.append(i*i)returnout";
    match (similarity_parts(a, b), similarity_parts(b, a)) {
        (
            SimilarityParts::Ratio { dot: d1, left_norm_sq: l1, right_norm_sq: r1 },
            SimilarityParts::Ratio { dot: d2, left_norm_sq: l2, right_norm_sq: r2 },
        ) => {
            assert_eq!(d1, d2);
            assert_eq!(l1, r2);
            assert_eq!(r1, l2);
        }
        other => panic!("unexpected {:?}", other),
    }
}

#[test]
fn scores_lie_between_zero_and_one() {
    let texts = ["abcabcabc", "abcxyzabc", "zzzzzz", "abc", "xyzab"];
    for a in texts {
        for b in texts {
            let s = score(similarity_parts(a, b));
            assert!((0.0..=1.0 + 1e-12).contains(&s), "{a} {b} {s}");
            if let SimilarityParts::Ratio { dot, left_norm_sq, right_norm_sq } = similarity_parts(a, b) {
                assert!(dot * dot <= left_norm_sq * right_norm_sq);
            }
        }
    }
}

#[test]
fn comments_and_whitespace_do_not_change_score() {
    let a = normalize_code("total = 0\nfor x in xs:\n    total += x  # add\n", Language::Python, false);
    let b = normalize_code("total=0\n# loop\nfor x in xs:\n  total+=x\n", Language::Python, false);
    assert_eq!(a, b);
    assert!((score(similarity_parts(&a, &b)) - 1.0).abs() < 1e-12);
}
