//! Finite sums of integer-valued functions, over ranges of keys and over
//! lists of keys, with the facts about them that the similarity measure needs.
use vstd::prelude::*;

verus! {

/// `f(lo) + f(lo + 1) + ... + f(hi - 1)`; zero when the range is empty.
pub open spec fn sum_range(f: spec_fn(int) -> int, lo: int, hi: int) -> int
    decreases hi - lo,
{
    if hi <= lo {
        0
    } else {
        sum_range(f, lo, hi - 1) + f(hi - 1)
    }
}

/// The sum of `f` over the keys listed in `keys`.
pub open spec fn sum_keys(keys: Seq<int>, f: spec_fn(int) -> int) -> int
    decreases keys.len(),
{
    if keys.len() == 0 {
        0
    } else {
        sum_keys(keys.drop_last(), f) + f(keys.last())
    }
}

pub proof fn lemma_sum_range_split(f: spec_fn(int) -> int, lo: int, mid: int, hi: int)
    requires
        lo <= mid <= hi,
    ensures
        sum_range(f, lo, hi) == sum_range(f, lo, mid) + sum_range(f, mid, hi),
    decreases hi - mid,
{
    if hi > mid {
        lemma_sum_range_split(f, lo, mid, hi - 1);
    }
}

pub proof fn lemma_sum_range_zero(f: spec_fn(int) -> int, lo: int, hi: int)
    requires
        forall|k: int| lo <= k < hi ==> #[trigger] f(k) == 0,
    ensures
        sum_range(f, lo, hi) == 0,
    decreases hi - lo,
{
    if hi > lo {
        lemma_sum_range_zero(f, lo, hi - 1);
    }
}

pub proof fn lemma_sum_range_ext(f: spec_fn(int) -> int, g: spec_fn(int) -> int, lo: int, hi: int)
    requires
        forall|k: int| lo <= k < hi ==> #[trigger] f(k) == g(k),
    ensures
        sum_range(f, lo, hi) == sum_range(g, lo, hi),
    decreases hi - lo,
{
    if hi > lo {
        lemma_sum_range_ext(f, g, lo, hi - 1);
    }
}

pub proof fn lemma_sum_range_add(
    f: spec_fn(int) -> int,
    g: spec_fn(int) -> int,
    h: spec_fn(int) -> int,
    lo: int,
    hi: int,
)
    requires
        forall|k: int| lo <= k < hi ==> #[trigger] h(k) == f(k) + g(k),
    ensures
        sum_range(h, lo, hi) == sum_range(f, lo, hi) + sum_range(g, lo, hi),
    decreases hi - lo,
{
    if hi > lo {
        lemma_sum_range_add(f, g, h, lo, hi - 1);
    }
}

pub proof fn lemma_sum_range_nonneg(f: spec_fn(int) -> int, lo: int, hi: int)
    requires
        forall|k: int| lo <= k < hi ==> #[trigger] f(k) >= 0,
    ensures
        sum_range(f, lo, hi) >= 0,
    decreases hi - lo,
{
    if hi > lo {
        lemma_sum_range_nonneg(f, lo, hi - 1);
    }
}

pub proof fn lemma_sum_range_le(f: spec_fn(int) -> int, g: spec_fn(int) -> int, lo: int, hi: int)
    requires
        forall|k: int| lo <= k < hi ==> #[trigger] f(k) <= g(k),
    ensures
        sum_range(f, lo, hi) <= sum_range(g, lo, hi),
    decreases hi - lo,
{
    if hi > lo {
        lemma_sum_range_le(f, g, lo, hi - 1);
    }
}

/// The sum of a function that is `1` at `w` and `0` elsewhere is `1` over any
/// range holding `w`.
pub proof fn lemma_sum_range_indicator(f: spec_fn(int) -> int, w: int, lo: int, hi: int)
    requires
        lo <= w < hi,
        f(w) == 1,
        forall|k: int| lo <= k < hi && k != w ==> #[trigger] f(k) == 0,
    ensures
        sum_range(f, lo, hi) == 1,
{
    lemma_sum_range_split(f, lo, w, hi);
    lemma_sum_range_split(f, w, w + 1, hi);
    lemma_sum_range_zero(f, lo, w);
    lemma_sum_range_zero(f, w + 1, hi);
    assert(sum_range(f, w, w + 1) == sum_range(f, w, w) + f(w));
}

/// A prefix of a list sums to no more than the list, for a function with no
/// negative value.
pub proof fn lemma_sum_keys_prefix(keys: Seq<int>, f: spec_fn(int) -> int, m: int)
    requires
        0 <= m <= keys.len(),
        forall|k: int| #[trigger] f(k) >= 0,
    ensures
        sum_keys(keys.take(m), f) <= sum_keys(keys, f),
    decreases keys.len() - m,
{
    if m < keys.len() {
        lemma_sum_keys_prefix(keys, f, m + 1);
        assert(keys.take(m + 1).drop_last() =~= keys.take(m));
    } else {
        assert(keys.take(m) =~= keys);
    }
}

/// Extending a prefix of the list by one key adds that key's value.
pub proof fn lemma_sum_keys_step(keys: Seq<int>, f: spec_fn(int) -> int, m: int)
    requires
        0 <= m < keys.len(),
    ensures
        sum_keys(keys.take(m + 1), f) == sum_keys(keys.take(m), f) + f(keys[m]),
{
    assert(keys.take(m + 1).drop_last() =~= keys.take(m));
}

/// The inequality that Cauchy-Schwarz needs for one more term.
proof fn lemma_cs_step(p: int, a_sq: int, b_sq: int, x: int, y: int)
    requires
        a_sq >= 0,
        b_sq >= 0,
        p * p <= a_sq * b_sq,
    ensures
        (p + x * y) * (p + x * y) <= (a_sq + x * x) * (b_sq + y * y),
{
    let xx = x * x;
    let yy = y * y;
    let u = a_sq * yy;
    let v = xx * b_sq;
    let z = 2 * (x * y) * p;
    assert(xx >= 0 && yy >= 0) by (nonlinear_arith)
        requires
            xx == x * x,
            yy == y * y,
    ;
    assert(u >= 0 && v >= 0) by (nonlinear_arith)
        requires
            a_sq >= 0,
            b_sq >= 0,
            xx >= 0,
            yy >= 0,
            u == a_sq * yy,
            v == xx * b_sq,
    ;
    assert((u + v) * (u + v) >= 4 * (u * v)) by (nonlinear_arith);
    assert(u * v == (xx * yy) * (a_sq * b_sq)) by (nonlinear_arith)
        requires
            u == a_sq * yy,
            v == xx * b_sq,
    ;
    assert(z * z == 4 * ((xx * yy) * (p * p))) by (nonlinear_arith)
        requires
            z == 2 * (x * y) * p,
            xx == x * x,
            yy == y * y,
    ;
    assert((xx * yy) * (p * p) <= (xx * yy) * (a_sq * b_sq)) by (nonlinear_arith)
        requires
            p * p <= a_sq * b_sq,
            xx >= 0,
            yy >= 0,
    ;
    assert(u + v >= z) by (nonlinear_arith)
        requires
            u >= 0,
            v >= 0,
            (u + v) * (u + v) >= z * z,
    ;
    assert((p + x * y) * (p + x * y) == p * p + z + xx * yy) by (nonlinear_arith)
        requires
            z == 2 * (x * y) * p,
            xx == x * x,
            yy == y * y,
    ;
    assert((a_sq + xx) * (b_sq + yy) == a_sq * b_sq + u + v + xx * yy) by (nonlinear_arith)
        requires
            u == a_sq * yy,
            v == xx * b_sq,
    ;
}

/// Cauchy-Schwarz over a range: the square of the sum of products is at most
/// the product of the sums of squares.
pub proof fn lemma_cauchy_schwarz(
    f: spec_fn(int) -> int,
    g: spec_fn(int) -> int,
    fg: spec_fn(int) -> int,
    ff: spec_fn(int) -> int,
    gg: spec_fn(int) -> int,
    lo: int,
    hi: int,
)
    requires
        forall|k: int| #[trigger] fg(k) == f(k) * g(k),
        forall|k: int| #[trigger] ff(k) == f(k) * f(k),
        forall|k: int| #[trigger] gg(k) == g(k) * g(k),
    ensures
        sum_range(fg, lo, hi) * sum_range(fg, lo, hi) <= sum_range(ff, lo, hi) * sum_range(gg, lo, hi),
    decreases hi - lo,
{
    if hi > lo {
        lemma_cauchy_schwarz(f, g, fg, ff, gg, lo, hi - 1);
        assert forall|k: int| lo <= k < hi - 1 implies #[trigger] ff(k) >= 0 by {
            assert(f(k) * f(k) >= 0) by (nonlinear_arith);
        }
        assert forall|k: int| lo <= k < hi - 1 implies #[trigger] gg(k) >= 0 by {
            assert(g(k) * g(k) >= 0) by (nonlinear_arith);
        }
        lemma_sum_range_nonneg(ff, lo, hi - 1);
        lemma_sum_range_nonneg(gg, lo, hi - 1);
        lemma_cs_step(
            sum_range(fg, lo, hi - 1),
            sum_range(ff, lo, hi - 1),
            sum_range(gg, lo, hi - 1),
            f(hi - 1),
            g(hi - 1),
        );
    }
}

/// A constant factor moves out of a sum.
pub proof fn lemma_sum_range_scale(f: spec_fn(int) -> int, g: spec_fn(int) -> int, c: int, lo: int, hi: int)
    requires
        forall|k: int| lo <= k < hi ==> #[trigger] g(k) == c * f(k),
    ensures
        sum_range(g, lo, hi) == c * sum_range(f, lo, hi),
    decreases hi - lo,
{
    if hi > lo {
        lemma_sum_range_scale(f, g, c, lo, hi - 1);
        let a = sum_range(f, lo, hi - 1);
        let b = f(hi - 1);
        assert(c * a + c * b == c * (a + b)) by (nonlinear_arith);
    }
}

/// Two functions that agree on every listed key have the same sum over the list.
pub proof fn lemma_sum_keys_ext(keys: Seq<int>, f: spec_fn(int) -> int, g: spec_fn(int) -> int)
    requires
        forall|j: int| 0 <= j < keys.len() ==> f(#[trigger] keys[j]) == g(keys[j]),
    ensures
        sum_keys(keys, f) == sum_keys(keys, g),
    decreases keys.len(),
{
    if keys.len() > 0 {
        let rest = keys.drop_last();
        assert forall|j: int| 0 <= j < rest.len() implies f(#[trigger] rest[j]) == g(rest[j]) by {
            assert(rest[j] == keys[j]);
        }
        lemma_sum_keys_ext(rest, f, g);
        assert(f(keys[keys.len() - 1]) == g(keys[keys.len() - 1]));
    }
}

/// A sum over a range equals the sum over a list of distinct keys in that
/// range that holds every key at which the function is not zero.
pub proof fn lemma_sum_range_distinct_keys(f: spec_fn(int) -> int, keys: Seq<int>, lo: int, hi: int)
    requires
        keys.no_duplicates(),
        forall|j: int| 0 <= j < keys.len() ==> lo <= #[trigger] keys[j] < hi,
        forall|k: int| lo <= k < hi && #[trigger] f(k) != 0 ==> keys.contains(k),
    ensures
        sum_range(f, lo, hi) == sum_keys(keys, f),
    decreases keys.len(),
{
    if keys.len() == 0 {
        assert forall|k: int| lo <= k < hi implies #[trigger] f(k) == 0 by {
            if f(k) != 0 {
                assert(keys.contains(k));
            }
        }
        lemma_sum_range_zero(f, lo, hi);
    } else {
        let w = keys.last();
        let rest = keys.drop_last();
        assert(keys[keys.len() - 1] == w);
        let g = |k: int| if k == w { 0int } else { f(k) };
        assert forall|j: int| 0 <= j < rest.len() implies lo <= #[trigger] rest[j] < hi by {
            assert(rest[j] == keys[j]);
        }
        assert(rest.no_duplicates()) by {
            assert forall|a: int, b: int| 0 <= a < rest.len() && 0 <= b < rest.len() && a != b
                implies rest[a] != rest[b] by {
                assert(rest[a] == keys[a] && rest[b] == keys[b]);
            }
        }
        assert forall|k: int| lo <= k < hi && #[trigger] g(k) != 0 implies rest.contains(k) by {
            assert(f(k) != 0 && k != w);
            assert(keys.contains(k));
            let j = choose|j: int| 0 <= j < keys.len() && keys[j] == k;
            assert(j != keys.len() - 1);
            assert(rest[j] == k);
        }
        lemma_sum_range_distinct_keys(g, rest, lo, hi);
        assert forall|j: int| 0 <= j < rest.len() implies g(#[trigger] rest[j]) == f(rest[j]) by {
            assert(rest[j] == keys[j]);
            assert(keys[j] != keys[keys.len() - 1]);
        }
        lemma_sum_keys_ext(rest, g, f);
        lemma_sum_range_split(f, lo, w, hi);
        lemma_sum_range_split(f, w, w + 1, hi);
        lemma_sum_range_split(g, lo, w, hi);
        lemma_sum_range_split(g, w, w + 1, hi);
        lemma_sum_range_ext(f, g, lo, w);
        lemma_sum_range_ext(f, g, w + 1, hi);
        assert(sum_range(f, w, w + 1) == sum_range(f, w, w) + f(w));
        assert(sum_range(g, w, w + 1) == sum_range(g, w, w) + g(w));
        assert(sum_keys(keys, f) == sum_keys(rest, f) + f(w));
    }
}

} // verus!
