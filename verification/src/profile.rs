//! Character 3-gram profiles of normalized code and the integer parts of
//! their cosine similarity.
use vstd::prelude::*;
use std::collections::HashMap;
use crate::chars::chars_of;
use crate::sums::{
    lemma_sum_keys_prefix, lemma_sum_keys_step, lemma_sum_range_add, lemma_sum_range_distinct_keys,
    lemma_sum_range_ext, lemma_sum_range_indicator, lemma_sum_range_le, lemma_sum_range_nonneg,
    lemma_sum_range_scale, lemma_sum_range_zero, sum_keys, sum_range,
};

verus! {

/// The keys of 3-grams of characters lie in `0..gram_space()`.
pub open spec fn gram_space() -> int {
    0x8000_0000_0000_0000
}

/// The key of the 3-gram `[a, b, c]`: the three character codes as the digits
/// of a number in base `2^21` (every code is below `2^21`), which tells
/// 3-grams apart.
pub open spec fn key3(a: char, b: char, c: char) -> int {
    a as int * 0x400_0000_0000 + b as int * 0x20_0000 + c as int
}

/// The key of a 3-gram given as an array.
pub open spec fn gram_key(g: [char; 3]) -> int {
    key3(g@[0], g@[1], g@[2])
}

/// The key of the window of `s` that starts at position `i`.
pub open spec fn window_key(s: Seq<char>, i: int) -> int {
    key3(s[i], s[i + 1], s[i + 2])
}

/// The number of overlapping windows of three characters of `s`.
pub open spec fn window_count(s: Seq<char>) -> int {
    if s.len() >= 3 {
        s.len() - 2
    } else {
        0
    }
}

/// How many of the first `n` windows of `s` have key `k`.
pub open spec fn occurrences(s: Seq<char>, k: int, n: int) -> int
    decreases n,
{
    if n <= 0 {
        0
    } else {
        occurrences(s, k, n - 1) + if window_key(s, n - 1) == k {
            1int
        } else {
            0int
        }
    }
}

/// How many windows of `s` hold the 3-gram with key `k`.
pub open spec fn gram_count(s: Seq<char>, k: int) -> int {
    occurrences(s, k, window_count(s))
}

/// The 3-gram profile of `s`: each 3-gram key that occurs in `s`, mapped to
/// its number of occurrences.
pub open spec fn gram_profile(s: Seq<char>) -> Map<int, int> {
    Map::new(|k: int| gram_count(s, k) > 0, |k: int| gram_count(s, k))
}

/// The count that a profile gives a key, zero for a key it does not hold.
pub open spec fn count_in(m: Map<int, int>, k: int) -> int {
    if m.dom().contains(k) {
        m[k]
    } else {
        0
    }
}

/// The dot product of two profiles taken as vectors indexed by 3-gram keys.
pub open spec fn profile_dot(a: Map<int, int>, b: Map<int, int>) -> int {
    sum_range(|k: int| count_in(a, k) * count_in(b, k), 0, gram_space())
}

/// The squared Euclidean norm of a profile.
pub open spec fn profile_norm_sq(a: Map<int, int>) -> int {
    profile_dot(a, a)
}

pub proof fn lemma_key3_range(a: char, b: char, c: char)
    ensures
        0 <= key3(a, b, c) < gram_space(),
{
    assert(a as int <= 0x10FFFF && b as int <= 0x10FFFF && c as int <= 0x10FFFF);
}

/// Equal keys come from equal 3-grams.
pub proof fn lemma_key3_injective(a: char, b: char, c: char, d: char, e: char, f: char)
    requires
        key3(a, b, c) == key3(d, e, f),
    ensures
        a == d && b == e && c == f,
{
    assert(a as int <= 0x10FFFF && b as int <= 0x10FFFF && c as int <= 0x10FFFF);
    assert(d as int <= 0x10FFFF && e as int <= 0x10FFFF && f as int <= 0x10FFFF);
    assert(a as int == d as int && b as int == e as int && c as int == f as int);
}

pub proof fn lemma_occurrences_bounds(s: Seq<char>, k: int, n: int)
    requires
        n >= 0,
    ensures
        0 <= occurrences(s, k, n) <= n,
    decreases n,
{
    if n > 0 {
        lemma_occurrences_bounds(s, k, n - 1);
    }
}

/// Every window is counted under exactly one key, so the counts of all keys
/// add up to the number of windows.
pub proof fn lemma_occurrences_total(s: Seq<char>, n: int)
    requires
        n >= 0,
    ensures
        sum_range(|k: int| occurrences(s, k, n), 0, gram_space()) == n,
    decreases n,
{
    if n == 0 {
        lemma_sum_range_zero(|k: int| occurrences(s, k, n), 0, gram_space());
    } else {
        lemma_occurrences_total(s, n - 1);
        let w = window_key(s, n - 1);
        let ind = |k: int|
            if w == k {
                1int
            } else {
                0int
            };
        lemma_key3_range(s[n - 1], s[n], s[n + 1]);
        lemma_sum_range_indicator(ind, w, 0, gram_space());
        lemma_sum_range_add(
            |k: int| occurrences(s, k, n - 1),
            ind,
            |k: int| occurrences(s, k, n),
            0,
            gram_space(),
        );
    }
}

/// The counts in the profile of `s` add up to the number of windows of `s`.
pub proof fn lemma_profile_total(s: Seq<char>)
    ensures
        sum_range(|k: int| count_in(gram_profile(s), k), 0, gram_space()) == window_count(s),
{
    assert forall|k: int| 0 <= k < gram_space() implies #[trigger] count_in(gram_profile(s), k)
        == occurrences(s, k, window_count(s)) by {
        lemma_occurrences_bounds(s, k, window_count(s));
    }
    lemma_occurrences_total(s, window_count(s));
    lemma_sum_range_ext(
        |k: int| count_in(gram_profile(s), k),
        |k: int| occurrences(s, k, window_count(s)),
        0,
        gram_space(),
    );
}

pub proof fn lemma_profile_count_bounds(s: Seq<char>, k: int)
    ensures
        0 <= count_in(gram_profile(s), k) <= window_count(s),
{
    lemma_occurrences_bounds(s, k, window_count(s));
}

/// The key of the 3-gram of three characters.
pub(crate) fn key_of(a: char, b: char, c: char) -> (k: u64)
    ensures
        k as int == key3(a, b, c),
        (k as int) < gram_space(),
{
    proof {
        lemma_key3_range(a, b, c);
    }
    (a as u64) * 0x400_0000_0000 + (b as u64) * 0x20_0000 + (c as u64)
}

/// The key by which profiles and 3-gram sets know the 3-gram `gram`.
pub fn gram_key_of(gram: [char; 3]) -> (k: u64)
    ensures
        k as int == gram_key(gram),
{
    key_of(gram[0], gram[1], gram[2])
}

/// `keys` lists exactly the keys of `counts`, each once; every count is
/// positive and every key is a 3-gram key.
pub closed spec fn counts_agree(counts: Map<u64, usize>, keys: Seq<u64>) -> bool {
    &&& forall|a: int, b: int|
        0 <= a < keys.len() && 0 <= b < keys.len() && a != b ==> keys[a] != keys[b]
    &&& forall|k: u64|
        #![trigger counts.contains_key(k)]
        counts.contains_key(k) <==> exists|j: int| 0 <= j < keys.len() && keys[j] == k
    &&& forall|j: int|
        0 <= j < keys.len() ==> {
            &&& (#[trigger] keys[j]) < gram_space()
            &&& counts[keys[j]] > 0
        }
}

/// The counts of the 3-grams of a text: a hash map from 3-gram key to count,
/// and the keys it holds, each once, in the order of their first occurrence.
pub struct GramCounts {
    counts: HashMap<u64, usize>,
    keys: Vec<u64>,
}

impl GramCounts {
    /// The keys list exactly the map's keys, each once; every count is
    /// positive and every key is a 3-gram key.
    #[verifier::type_invariant]
    closed spec fn wf(self) -> bool {
        counts_agree(self.counts@, self.keys@)
    }

    /// The count of a 3-gram, `None` where the text does not hold it.
    pub fn get(&self, gram: [char; 3]) -> (res: Option<usize>)
        ensures
            res == (if self@.dom().contains(gram_key(gram)) {
                Some(self@[gram_key(gram)] as usize)
            } else {
                None::<usize>
            }),
    {
        broadcast use vstd::std_specs::hash::group_hash_axioms;

        proof {
            use_type_invariant(self);
        }
        let key = key_of(gram[0], gram[1], gram[2]);
        match self.counts.get(&key) {
            Some(c) => Some(*c),
            None => None,
        }
    }

    /// The keys of the 3-grams of the text, each once.
    pub(crate) fn distinct_keys(&self) -> (res: Vec<u64>)
        ensures
            forall|a: int, b: int| 0 <= a < res@.len() && 0 <= b < res@.len() && a != b ==> res@[a] != res@[b],
            forall|j: int| 0 <= j < res@.len() ==> (#[trigger] res@[j]) < gram_space(),
            forall|k: int|
                #![trigger self@.dom().contains(k)]
                self@.dom().contains(k) <==> exists|j: int| 0 <= j < res@.len() && res@[j] as int == k,
    {
        proof {
            use_type_invariant(self);
        }
        self.keys.clone()
    }

    /// The text has no 3-gram.
    pub fn is_empty(&self) -> (res: bool)
        ensures
            res == (self@.dom() =~= Set::<int>::empty()),
    {
        proof {
            use_type_invariant(self);
        }
        if self.keys.len() == 0 {
            assert(self@.dom() =~= Set::<int>::empty());
            true
        } else {
            assert(self@.dom().contains(self.keys@[0] as int));
            false
        }
    }
}

impl View for GramCounts {
    type V = Map<int, int>;

    closed spec fn view(&self) -> Map<int, int> {
        Map::new(
            |k: int| exists|j: int| 0 <= j < self.keys@.len() && self.keys@[j] as int == k,
            |k: int| self.counts@[k as u64] as int,
        )
    }
}

/// The 3-gram profile of a text: for each distinct window of three
/// consecutive characters, the number of windows that hold it. A text
/// shorter than three characters has an empty profile.
pub fn grams3(input: &str) -> (res: GramCounts)
    ensures
        res@ == gram_profile(input@),
        input@.len() <= usize::MAX,
{
    broadcast use vstd::std_specs::hash::group_hash_axioms;

    let text = chars_of(input);
    let ghost s = text@;
    let n = text.len();
    let mut counts: HashMap<u64, usize> = HashMap::new();
    let mut keys: Vec<u64> = Vec::new();
    let mut i: usize = 0;
    let limit: usize = if n < 3 {
        0
    } else {
        n - 2
    };
    assert(limit as int == window_count(s));
    while i < limit
        invariant
            s == text@,
            n == s.len(),
            limit as int == window_count(s),
            i <= limit,
            forall|a: int, b: int|
                0 <= a < keys@.len() && 0 <= b < keys@.len() && a != b ==> keys@[a] != keys@[b],
            forall|k: u64|
                #![trigger counts@.contains_key(k)]
                counts@.contains_key(k) <==> exists|j: int| 0 <= j < keys@.len() && keys@[j] == k,
            forall|j: int| 0 <= j < keys@.len() ==> (#[trigger] keys@[j]) < gram_space(),
            forall|k: u64|
                #![trigger counts@[k]]
                counts@.contains_key(k) ==> counts@[k] as int == occurrences(s, k as int, i as int)
                    && counts@[k] > 0,
            forall|k: int|
                #![trigger occurrences(s, k, i as int)]
                occurrences(s, k, i as int) > 0 ==> exists|j: int| 0 <= j < keys@.len() && keys@[j] as int == k,
        decreases limit - i,
    {
        let key = key_of(text[i], text[i + 1], text[i + 2]);
        assert(key as int == window_key(s, i as int));
        let ghost old_keys = keys@;
        let ghost old_counts = counts@;
        match counts.get(&key) {
            Some(c) => {
                let c = *c;
                proof {
                    lemma_occurrences_bounds(s, key as int, i as int);
                }
                counts.insert(key, c + 1);
                assert forall|k: u64| #![trigger counts@.contains_key(k)] counts@.contains_key(k) <==> exists|j: int|
                    0 <= j < keys@.len() && keys@[j] == k by {
                    assert(old_counts.contains_key(k) || k == key ==> counts@.contains_key(k));
                }
                assert forall|k: int|
                    #![trigger occurrences(s, k, i + 1)]
                    occurrences(s, k, i + 1) > 0 implies exists|j: int|
                        0 <= j < keys@.len() && keys@[j] as int == k by {
                    if k == key as int {
                        assert(old_counts.contains_key(key));
                        let j = choose|j: int| 0 <= j < old_keys.len() && old_keys[j] == key;
                        assert(keys@[j] as int == k);
                    } else {
                        assert(occurrences(s, k, i as int) > 0);
                    }
                }
                assert forall|k: u64|
                    #![trigger counts@[k]]
                    counts@.contains_key(k) implies counts@[k] as int == occurrences(s, k as int, i + 1)
                        && counts@[k] > 0 by {
                    if k != key {
                        assert(old_counts.contains_key(k));
                        assert(old_counts[k] == counts@[k]);
                    }
                }
            },
            None => {
                assert(occurrences(s, key as int, i as int) == 0) by {
                    lemma_occurrences_bounds(s, key as int, i as int);
                    if occurrences(s, key as int, i as int) > 0 {
                        let j = choose|j: int| 0 <= j < keys@.len() && keys@[j] as int == key as int;
                        assert(keys@[j] == key);
                        assert(counts@.contains_key(key));
                    }
                }
                counts.insert(key, 1);
                keys.push(key);
                assert(keys@[old_keys.len() as int] == key);
                assert forall|a: int, b: int|
                    0 <= a < keys@.len() && 0 <= b < keys@.len() && a != b implies keys@[a] != keys@[b] by {
                    if a < old_keys.len() && b < old_keys.len() {
                        assert(keys@[a] == old_keys[a] && keys@[b] == old_keys[b]);
                    } else if a < old_keys.len() {
                        assert(keys@[a] == old_keys[a]);
                        assert(old_counts.contains_key(old_keys[a]));
                    } else if b < old_keys.len() {
                        assert(keys@[b] == old_keys[b]);
                        assert(old_counts.contains_key(old_keys[b]));
                    }
                }
                assert forall|k: u64| #![trigger counts@.contains_key(k)] counts@.contains_key(k) <==> exists|j: int|
                    0 <= j < keys@.len() && keys@[j] == k by {
                    if old_counts.contains_key(k) {
                        let j = choose|j: int| 0 <= j < old_keys.len() && old_keys[j] == k;
                        assert(keys@[j] == k);
                    }
                    if exists|j: int| 0 <= j < keys@.len() && keys@[j] == k {
                        let j = choose|j: int| 0 <= j < keys@.len() && keys@[j] == k;
                        if j < old_keys.len() {
                            assert(old_keys[j] == k);
                        }
                    }
                }
                assert forall|j: int| 0 <= j < keys@.len() implies (#[trigger] keys@[j]) < gram_space() by {
                    if j < old_keys.len() {
                        assert(keys@[j] == old_keys[j]);
                    }
                }
                assert forall|k: int|
                    #![trigger occurrences(s, k, i + 1)]
                    occurrences(s, k, i + 1) > 0 implies exists|j: int|
                        0 <= j < keys@.len() && keys@[j] as int == k by {
                    if k == key as int {
                        assert(keys@[old_keys.len() as int] as int == k);
                    } else {
                        assert(occurrences(s, k, i as int) > 0);
                        let j = choose|j: int| 0 <= j < old_keys.len() && old_keys[j] as int == k;
                        assert(keys@[j] as int == k);
                    }
                }
                assert forall|k: u64|
                    #![trigger counts@[k]]
                    counts@.contains_key(k) implies counts@[k] as int == occurrences(s, k as int, i + 1)
                        && counts@[k] > 0 by {
                    if k != key {
                        assert(old_counts.contains_key(k));
                        assert(old_counts[k] == counts@[k]);
                    }
                }
            },
        }
        i += 1;
    }
    proof {
        assert forall|j: int| 0 <= j < keys@.len() implies {
            &&& (#[trigger] keys@[j]) < gram_space()
            &&& counts@[keys@[j]] > 0
        } by {
            assert(counts@.contains_key(keys@[j]));
        }
        assert(counts_agree(counts@, keys@));
    }
    let res = GramCounts { counts, keys };
    proof {
        assert forall|k: int| #[trigger] res@.dom().contains(k) == gram_profile(s).dom().contains(k) by {
            if res@.dom().contains(k) {
                let j = choose|j: int| 0 <= j < res.keys@.len() && res.keys@[j] as int == k;
                assert(res.counts@.contains_key(res.keys@[j]));
            }
            if gram_profile(s).dom().contains(k) {
                assert(occurrences(s, k, i as int) > 0);
            }
        }
        assert forall|k: int| #[trigger] res@.dom().contains(k) implies res@[k] == gram_profile(s)[k] by {
            let j = choose|j: int| 0 <= j < res.keys@.len() && res.keys@[j] as int == k;
            let kk = res.keys@[j];
            assert(res.counts@.contains_key(kk));
            assert(kk as int == k);
        }
        assert(res@ =~= gram_profile(s));
    }
    res
}

/// The first window's 3-gram occurs in every text that has a window.
pub proof fn lemma_first_window_counted(s: Seq<char>, n: int)
    requires
        n >= 1,
    ensures
        occurrences(s, window_key(s, 0), n) >= 1,
    decreases n,
{
    if n > 1 {
        lemma_first_window_counted(s, n - 1);
        lemma_occurrences_bounds(s, window_key(s, 0), n - 1);
    } else {
        assert(occurrences(s, window_key(s, 0), 0) == 0);
    }
}

/// A profile is empty exactly when the text has no window.
pub proof fn lemma_profile_empty(s: Seq<char>)
    ensures
        (gram_profile(s).dom() =~= Set::<int>::empty()) == (window_count(s) == 0),
{
    if window_count(s) > 0 {
        lemma_first_window_counted(s, window_count(s));
        assert(gram_profile(s).dom().contains(window_key(s, 0)));
    } else {
        assert(gram_profile(s).dom() =~= Set::<int>::empty());
    }
}

/// The dot product of two profiles is at least zero and at most the product
/// of their numbers of windows.
pub proof fn lemma_profile_dot_bounds(s: Seq<char>, t: Seq<char>)
    ensures
        0 <= profile_dot(gram_profile(s), gram_profile(t)) <= window_count(s) * window_count(t),
{
    let ps = gram_profile(s);
    let pt = gram_profile(t);
    let rt = window_count(t);
    let f = |k: int| count_in(ps, k) * count_in(pt, k);
    let g = |k: int| count_in(ps, k);
    let h = |k: int| rt * count_in(ps, k);
    assert forall|k: int| 0 <= k < gram_space() implies #[trigger] f(k) >= 0 && f(k) <= h(k) by {
        lemma_profile_count_bounds(s, k);
        lemma_profile_count_bounds(t, k);
        let a = count_in(ps, k);
        let b = count_in(pt, k);
        assert(a * b >= 0 && a * b <= rt * a) by (nonlinear_arith)
            requires
                0 <= a,
                0 <= b <= rt,
        ;
    }
    lemma_sum_range_nonneg(f, 0, gram_space());
    lemma_sum_range_le(f, h, 0, gram_space());
    lemma_sum_range_scale(g, h, rt, 0, gram_space());
    lemma_profile_total(s);
    assert(rt * window_count(s) == window_count(s) * rt) by (nonlinear_arith);
}

/// The dot product of the profiles of two texts, computed over the 3-grams
/// of the first.
pub(crate) fn profile_dot_exec(
    l: &GramCounts,
    r: &GramCounts,
    Ghost(s): Ghost<Seq<char>>,
    Ghost(t): Ghost<Seq<char>>,
) -> (d: u128)
    requires
        l@ == gram_profile(s),
        r@ == gram_profile(t),
        s.len() <= usize::MAX,
        t.len() <= usize::MAX,
    ensures
        d as int == profile_dot(l@, r@),
{
    proof {
        use_type_invariant(l);
        use_type_invariant(r);
    }
    let ghost keys = l.keys@.map_values(|k: u64| k as int);
    let ghost f = |k: int| count_in(l@, k) * count_in(r@, k);
    proof {
        lemma_profile_dot_bounds(s, t);
        let ls = window_count(s);
        let rs = window_count(t);
        let m = usize::MAX as int;
        assert(ls * rs <= m * m) by (nonlinear_arith)
            requires
                0 <= ls <= m,
                0 <= rs <= m,
        ;
        assert(m * m < 0x1_0000_0000_0000_0000_0000_0000_0000_0000 - 1) by (nonlinear_arith)
            requires
                0 <= m <= 0xffff_ffff_ffff_ffff,
        ;
        assert forall|k: int| #[trigger] f(k) >= 0 by {
            lemma_profile_count_bounds(s, k);
            lemma_profile_count_bounds(t, k);
            let a = count_in(l@, k);
            let b = count_in(r@, k);
            assert(a * b >= 0) by (nonlinear_arith)
                requires
                    a >= 0,
                    b >= 0,
            ;
        }
        assert(keys.no_duplicates()) by {
            assert forall|a: int, b: int| 0 <= a < keys.len() && 0 <= b < keys.len() && a != b
                implies keys[a] != keys[b] by {
                assert(l.keys@[a] != l.keys@[b]);
            }
        }
        assert forall|j: int| 0 <= j < keys.len() implies 0 <= #[trigger] keys[j] < gram_space() by {
            assert(keys[j] == l.keys@[j] as int);
        }
        assert forall|k: int| 0 <= k < gram_space() && #[trigger] f(k) != 0 implies keys.contains(k) by {
            assert(l@.dom().contains(k));
            let j = choose|j: int| 0 <= j < l.keys@.len() && l.keys@[j] as int == k;
            assert(keys[j] == k);
        }
        lemma_sum_range_distinct_keys(f, keys, 0, gram_space());
    }
    let mut acc: u128 = 0;
    let mut j: usize = 0;
    let len = l.keys.len();
    while j < len
        invariant
            len == l.keys@.len(),
            keys == l.keys@.map_values(|k: u64| k as int),
            f == (|k: int| count_in(l@, k) * count_in(r@, k)),
            j <= len,
            acc as int == sum_keys(keys.take(j as int), f),
            forall|k: int| #[trigger] f(k) >= 0,
            sum_keys(keys, f) == profile_dot(l@, r@),
            profile_dot(l@, r@) < u128::MAX,
            l.wf(),
            r.wf(),
        decreases len - j,
    {
        let key = l.keys[j];
        let lc = match l.counts.get(&key) {
            Some(c) => *c,
            None => 0,
        };
        let rc = match r.counts.get(&key) {
            Some(c) => *c,
            None => 0,
        };
        proof {
            broadcast use vstd::std_specs::hash::group_hash_axioms;

            assert(l.counts@.contains_key(key));
            assert(l@.dom().contains(key as int));
            assert(count_in(l@, key as int) == lc as int);
            if r.counts@.contains_key(key) {
                let m = choose|m: int| 0 <= m < r.keys@.len() && r.keys@[m] == key;
                assert(r@.dom().contains(key as int));
            } else {
                assert forall|m: int| 0 <= m < r.keys@.len() implies r.keys@[m] as int != key as int by {
                    assert(r.counts@.contains_key(r.keys@[m]));
                }
            }
            assert(count_in(r@, key as int) == rc as int);
            assert(keys[j as int] == key as int);
            assert(f(key as int) == lc as int * rc as int);
            lemma_sum_keys_step(keys, f, j as int);
            lemma_sum_keys_prefix(keys, f, j as int + 1);
        }
        acc = acc + (lc as u128) * (rc as u128);
        j += 1;
    }
    proof {
        assert(keys.take(len as int) =~= keys);
    }
    acc
}

} // verus!
