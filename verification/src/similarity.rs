//! Cosine similarity of the 3-gram profiles of two normalized texts, in
//! exact integer parts: the score is `dot / (sqrt(left_norm_sq) *
//! sqrt(right_norm_sq))`.
use vstd::prelude::*;
use crate::chars::str_equal;
use crate::normalize::{normalize_spec, Language};
use crate::profile::{
    count_in, gram_profile, gram_space, grams3, lemma_first_window_counted, lemma_key3_range,
    lemma_profile_dot_bounds, lemma_profile_empty, profile_dot, profile_dot_exec, profile_norm_sq,
    window_count, window_key,
};
use crate::sums::{
    lemma_cauchy_schwarz, lemma_sum_range_ext, lemma_sum_range_nonneg, lemma_sum_range_split,
    sum_range,
};

verus! {

/// The similarity of two texts, as exact integer parts.
#[derive(Clone, Copy, PartialEq, Eq, Structural, Debug)]
pub enum SimilarityParts {
    /// Score 1: the texts are too short for 3-grams and are equal.
    One,
    /// Score 0: the texts are too short for 3-grams and differ, or they share
    /// no 3-gram.
    Zero,
    /// Score `dot / (sqrt(left_norm_sq) * sqrt(right_norm_sq))`.
    Ratio { dot: u128, left_norm_sq: u128, right_norm_sq: u128 },
}

/// The similarity of the texts `l` and `r`: texts without a 3-gram
/// score 1 when equal and 0 otherwise; texts with 3-grams score the cosine of
/// their 3-gram profiles, which is 0 when they share no 3-gram.
pub open spec fn similarity_spec(l: Seq<char>, r: Seq<char>) -> SimilarityParts {
    if window_count(l) == 0 || window_count(r) == 0 {
        if l == r {
            SimilarityParts::One
        } else {
            SimilarityParts::Zero
        }
    } else {
        let d = profile_dot(gram_profile(l), gram_profile(r));
        let a = profile_norm_sq(gram_profile(l));
        let b = profile_norm_sq(gram_profile(r));
        if d == 0 || a == 0 || b == 0 {
            SimilarityParts::Zero
        } else {
            SimilarityParts::Ratio { dot: d as u128, left_norm_sq: a as u128, right_norm_sq: b as u128 }
        }
    }
}

/// The parts with left and right exchanged.
pub open spec fn swapped(p: SimilarityParts) -> SimilarityParts {
    match p {
        SimilarityParts::Ratio { dot, left_norm_sq, right_norm_sq } => SimilarityParts::Ratio {
            dot,
            left_norm_sq: right_norm_sq,
            right_norm_sq: left_norm_sq,
        },
        _ => p,
    }
}

/// The integer parts of the cosine similarity of the 3-gram profiles of two
/// normalized texts (see `similarity_spec`). When the result is a `Ratio`,
/// its fields are the exact dot product and squared norms.
pub fn similarity_parts(left: &str, right: &str) -> (res: SimilarityParts)
    ensures
        res == similarity_spec(left@, right@),
        res matches SimilarityParts::Ratio { dot, left_norm_sq, right_norm_sq } ==> {
            &&& dot as int == profile_dot(gram_profile(left@), gram_profile(right@))
            &&& left_norm_sq as int == profile_norm_sq(gram_profile(left@))
            &&& right_norm_sq as int == profile_norm_sq(gram_profile(right@))
        },
{
    if left.is_empty() || right.is_empty() {
        return if str_equal(left, right) {
            SimilarityParts::One
        } else {
            SimilarityParts::Zero
        };
    }
    let left_grams = grams3(left);
    let right_grams = grams3(right);
    proof {
        lemma_profile_empty(left@);
        lemma_profile_empty(right@);
    }
    if left_grams.is_empty() || right_grams.is_empty() {
        return if str_equal(left, right) {
            SimilarityParts::One
        } else {
            SimilarityParts::Zero
        };
    }
    let dot = profile_dot_exec(&left_grams, &right_grams, Ghost(left@), Ghost(right@));
    if dot == 0 {
        return SimilarityParts::Zero;
    }
    let left_norm_sq = profile_dot_exec(&left_grams, &left_grams, Ghost(left@), Ghost(left@));
    let right_norm_sq = profile_dot_exec(&right_grams, &right_grams, Ghost(right@), Ghost(right@));
    if left_norm_sq == 0 || right_norm_sq == 0 {
        return SimilarityParts::Zero;
    }
    SimilarityParts::Ratio { dot, left_norm_sq, right_norm_sq }
}

/// The dot product of profiles does not depend on their order.
pub proof fn lemma_profile_dot_commutes(a: Map<int, int>, b: Map<int, int>)
    ensures
        profile_dot(a, b) == profile_dot(b, a),
{
    assert forall|k: int| 0 <= k < gram_space() implies #[trigger] (count_in(a, k) * count_in(b, k))
        == count_in(b, k) * count_in(a, k) by {
        let x = count_in(a, k);
        let y = count_in(b, k);
        assert(x * y == y * x) by (nonlinear_arith);
    }
    lemma_sum_range_ext(
        |k: int| count_in(a, k) * count_in(b, k),
        |k: int| count_in(b, k) * count_in(a, k),
        0,
        gram_space(),
    );
}

/// A text with a 3-gram has a profile of positive norm.
pub proof fn lemma_profile_norm_positive(s: Seq<char>)
    requires
        window_count(s) > 0,
    ensures
        profile_norm_sq(gram_profile(s)) > 0,
{
    let p = gram_profile(s);
    let f = |k: int| count_in(p, k) * count_in(p, k);
    let w = window_key(s, 0);
    lemma_key3_range(s[0], s[1], s[2]);
    lemma_first_window_counted(s, window_count(s));
    assert forall|k: int| 0 <= k < gram_space() implies #[trigger] f(k) >= 0 by {
        let x = count_in(p, k);
        assert(x * x >= 0) by (nonlinear_arith);
    }
    lemma_sum_range_split(f, 0, w, gram_space());
    lemma_sum_range_split(f, w, w + 1, gram_space());
    lemma_sum_range_nonneg(f, 0, w);
    lemma_sum_range_nonneg(f, w + 1, gram_space());
    let c = count_in(p, w);
    assert(c >= 1);
    assert(c * c >= 1) by (nonlinear_arith)
        requires
            c >= 1,
    ;
    assert(sum_range(f, w, w + 1) == sum_range(f, w, w) + f(w));
}

/// Symmetry: comparing `r` with `l` gives the parts of comparing `l` with
/// `r`, with the two norms exchanged; the score is the same.
pub proof fn lemma_similarity_symmetric(l: Seq<char>, r: Seq<char>)
    ensures
        similarity_spec(r, l) == swapped(similarity_spec(l, r)),
{
    lemma_profile_dot_commutes(gram_profile(l), gram_profile(r));
}

/// A text compared with itself scores 1: either it is too short for 3-grams,
/// or the dot product equals both squared norms.
pub proof fn lemma_similarity_identical(s: Seq<char>)
    ensures
        similarity_spec(s, s) == SimilarityParts::One || (similarity_spec(s, s) matches
            SimilarityParts::Ratio { dot, left_norm_sq, right_norm_sq } && dot == left_norm_sq
            && dot == right_norm_sq),
{
    if window_count(s) > 0 {
        lemma_profile_norm_positive(s);
    }
}

/// Scores lie in `[0, 1]`: whenever the parts are a ratio, the dot product is
/// positive and its square is at most the product of the squared norms
/// (Cauchy-Schwarz), so `0 < dot / (sqrt(left_norm_sq) * sqrt(right_norm_sq)) <= 1`.
pub proof fn lemma_similarity_bounded(l: Seq<char>, r: Seq<char>)
    ensures
        similarity_spec(l, r) is Ratio ==> {
            let d = profile_dot(gram_profile(l), gram_profile(r));
            &&& 0 < d
            &&& d * d <= profile_norm_sq(gram_profile(l)) * profile_norm_sq(gram_profile(r))
        },
{
    let pl = gram_profile(l);
    let pr = gram_profile(r);
    lemma_profile_dot_bounds(l, r);
    lemma_cauchy_schwarz(
        |k: int| count_in(pl, k),
        |k: int| count_in(pr, k),
        |k: int| count_in(pl, k) * count_in(pr, k),
        |k: int| count_in(pl, k) * count_in(pl, k),
        |k: int| count_in(pr, k) * count_in(pr, k),
        0,
        gram_space(),
    );
}

/// The parts of a ratio are the exact dot product and squared norms for
/// texts whose lengths fit a `usize`.
pub proof fn lemma_similarity_exact(l: Seq<char>, r: Seq<char>)
    requires
        l.len() <= usize::MAX,
        r.len() <= usize::MAX,
    ensures
        similarity_spec(l, r) matches SimilarityParts::Ratio { dot, left_norm_sq, right_norm_sq }
            ==> {
            &&& dot as int == profile_dot(gram_profile(l), gram_profile(r))
            &&& left_norm_sq as int == profile_norm_sq(gram_profile(l))
            &&& right_norm_sq as int == profile_norm_sq(gram_profile(r))
        },
{
    lemma_profile_dot_bounds(l, r);
    lemma_profile_dot_bounds(l, l);
    lemma_profile_dot_bounds(r, r);
    let m = usize::MAX as int;
    let a = window_count(l);
    let b = window_count(r);
    assert(a * b <= m * m && a * a <= m * m && b * b <= m * m) by (nonlinear_arith)
        requires
            0 <= a <= m,
            0 <= b <= m,
    ;
    assert(m * m < 0x1_0000_0000_0000_0000_0000_0000_0000_0000) by (nonlinear_arith)
        requires
            0 <= m <= 0xffff_ffff_ffff_ffff,
    ;
}

/// Two sources with the same normalized form (they differ only in comments
/// and whitespace, and, with lower-casing, in the case of ASCII letters)
/// score 1 against each other.
pub proof fn lemma_same_normal_form_scores_one(a: Seq<char>, b: Seq<char>, language: Language, lowercase: bool)
    requires
        normalize_spec(a, language, lowercase) == normalize_spec(b, language, lowercase),
    ensures
        ({
            let na = normalize_spec(a, language, lowercase);
            let nb = normalize_spec(b, language, lowercase);
            similarity_spec(na, nb) == SimilarityParts::One || (similarity_spec(na, nb) matches
                SimilarityParts::Ratio { dot, left_norm_sq, right_norm_sq } && dot == left_norm_sq
                && dot == right_norm_sq)
        }),
{
    lemma_similarity_identical(normalize_spec(a, language, lowercase));
}

} // verus!
