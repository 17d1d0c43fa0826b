//! Boilerplate shared by submissions: sets of 3-grams, how many submissions
//! hold each 3-gram, and the removal of boilerplate 3-grams from a text.
use vstd::prelude::*;
use crate::chars::chars_of;
use crate::profile::{gram_key, gram_profile, grams3, key3, key_of, window_key};

verus! {

/// The keys listed, as a set.
pub open spec fn keys_as_set(keys: Seq<u64>) -> Set<int> {
    keys.map_values(|k: u64| k as int).to_set()
}

proof fn lemma_keys_as_set_contains(keys: Seq<u64>, k: int)
    ensures
        keys_as_set(keys).contains(k) <==> exists|j: int| 0 <= j < keys.len() && keys[j] as int == k,
{
    let ints = keys.map_values(|x: u64| x as int);
    if keys_as_set(keys).contains(k) {
        let j = choose|j: int| 0 <= j < ints.len() && ints[j] == k;
        assert(keys[j] as int == k);
    }
    if exists|j: int| 0 <= j < keys.len() && keys[j] as int == k {
        let j = choose|j: int| 0 <= j < keys.len() && keys[j] as int == k;
        assert(ints[j] == k);
    }
}

/// The keys are listed by strictly increasing value.
pub open spec fn increasing_keys(keys: Seq<u64>) -> bool {
    forall|a: int, b: int| 0 <= a < b < keys.len() ==> keys[a] < keys[b]
}

/// A set of 3-grams.
pub struct GramSet {
    keys: Vec<u64>,
}

impl View for GramSet {
    type V = Set<int>;

    /// The keys of the 3-grams in the set.
    closed spec fn view(&self) -> Set<int> {
        keys_as_set(self.keys@)
    }
}

/// Looks `key` up in a list of keys sorted by value: its index, or the index
/// at which it would be inserted.
fn search_keys(keys: &Vec<u64>, key: u64) -> (res: Result<usize, usize>)
    requires
        increasing_keys(keys@),
    ensures
        res matches Ok(j) ==> j < keys@.len() && keys@[j as int] == key,
        res matches Err(p) ==> {
            &&& p <= keys@.len()
            &&& forall|j: int| 0 <= j < p ==> #[trigger] keys@[j] < key
            &&& forall|j: int| p <= j < keys@.len() ==> #[trigger] keys@[j] > key
        },
{
    let mut lo: usize = 0;
    let mut hi: usize = keys.len();
    while lo < hi
        invariant
            lo <= hi <= keys@.len(),
            increasing_keys(keys@),
            forall|j: int| 0 <= j < lo ==> #[trigger] keys@[j] < key,
            forall|j: int| hi <= j < keys@.len() ==> #[trigger] keys@[j] > key,
        decreases hi - lo,
    {
        let mid = lo + (hi - lo) / 2;
        let k = keys[mid];
        if k == key {
            return Ok(mid);
        } else if k < key {
            assert forall|j: int| 0 <= j < mid + 1 implies #[trigger] keys@[j] < key by {
                if j < mid {
                    assert(keys@[j] < keys@[mid as int]);
                }
            }
            lo = mid + 1;
        } else {
            assert forall|j: int| mid <= j < keys@.len() implies #[trigger] keys@[j] > key by {
                if j > mid {
                    assert(keys@[mid as int] < keys@[j]);
                }
            }
            hi = mid;
        }
    }
    Err(lo)
}

impl GramSet {
    /// Keys by strictly increasing value.
    #[verifier::type_invariant]
    closed spec fn wf(self) -> bool {
        increasing_keys(self.keys@)
    }

    /// The empty set.
    pub fn new() -> (res: GramSet)
        ensures
            res@ == Set::<int>::empty(),
    {
        let res = GramSet { keys: Vec::new() };
        assert(res@ =~= Set::<int>::empty()) by {
            assert forall|k: int| !res@.contains(k) by {
                lemma_keys_as_set_contains(res.keys@, k);
            }
        }
        res
    }

    /// The 3-grams of a text.
    pub fn of_text(text: &str) -> (res: GramSet)
        ensures
            res@ == gram_profile(text@).dom(),
    {
        let counts = grams3(text);
        let keys = counts.distinct_keys();
        let mut res = GramSet::new();
        let mut j: usize = 0;
        while j < keys.len()
            invariant
                j <= keys@.len(),
                forall|k: int|
                    #[trigger] res@.contains(k) <==> exists|m: int| 0 <= m < j && keys@[m] as int == k,
            decreases keys.len() - j,
        {
            res.insert_key(keys[j]);
            proof {
                assert forall|k: int|
                    #[trigger] res@.contains(k) implies exists|m: int| 0 <= m < j + 1 && keys@[m] as int == k by {
                    if k == keys@[j as int] as int {
                        assert(keys@[j as int] as int == k);
                    }
                }
                assert forall|k: int|
                    (exists|m: int| 0 <= m < j + 1 && keys@[m] as int == k) implies #[trigger] res@.contains(k) by {
                    let m = choose|m: int| 0 <= m < j + 1 && keys@[m] as int == k;
                    if m < j {
                        assert(exists|m2: int| 0 <= m2 < j && keys@[m2] as int == k);
                    }
                }
            }
            j += 1;
        }
        assert(res@ =~= gram_profile(text@).dom()) by {
            assert forall|k: int| #[trigger] res@.contains(k) == counts@.dom().contains(k) by {
            }
        }
        res
    }

    fn contains_key(&self, key: u64) -> (res: bool)
        ensures
            res == self@.contains(key as int),
    {
        proof {
            use_type_invariant(self);
            lemma_keys_as_set_contains(self.keys@, key as int);
        }
        match search_keys(&self.keys, key) {
            Ok(_) => true,
            Err(p) => {
                assert forall|j: int| 0 <= j < self.keys@.len() implies self.keys@[j] as int
                    != key as int by {
                    if j < p {
                        assert(self.keys@[j] < key);
                    } else {
                        assert(self.keys@[j] > key);
                    }
                }
                false
            },
        }
    }

    /// Whether the set holds the 3-gram.
    pub fn contains(&self, gram: [char; 3]) -> (res: bool)
        ensures
            res == self@.contains(gram_key(gram)),
    {
        let key = key_of(gram[0], gram[1], gram[2]);
        self.contains_key(key)
    }

    /// The number of 3-grams in the set.
    pub fn len(&self) -> (res: usize)
        ensures
            res == self@.len(),
    {
        proof {
            use_type_invariant(self);
            let ints = self.keys@.map_values(|x: u64| x as int);
            assert(ints.no_duplicates()) by {
                assert forall|a: int, b: int| 0 <= a < ints.len() && 0 <= b < ints.len() && a != b
                    implies ints[a] != ints[b] by {
                    if a < b {
                        assert(self.keys@[a] < self.keys@[b]);
                    } else {
                        assert(self.keys@[b] < self.keys@[a]);
                    }
                }
            }
            ints.unique_seq_to_set();
        }
        self.keys.len()
    }

    /// Whether the set is empty.
    pub fn is_empty(&self) -> (res: bool)
        ensures
            res == (self@.len() == 0),
    {
        self.len() == 0
    }

    fn insert_key(&mut self, key: u64)
        ensures
            final(self)@ == old(self)@.insert(key as int),
    {
        proof {
            use_type_invariant(&*self);
        }
        let ghost before = self.keys@;
        match search_keys(&self.keys, key) {
            Ok(_) => {
                assert(self@ =~= old(self)@.insert(key as int)) by {
                    lemma_keys_as_set_contains(self.keys@, key as int);
                }
            },
            Err(p) => {
                let mut keys: Vec<u64> = Vec::new();
                std::mem::swap(&mut keys, &mut self.keys);
                assert(keys@ == before);
                keys.insert(p, key);
                assert forall|a: int, b: int| 0 <= a < b < keys@.len() implies keys@[a] < keys@[b] by {
                    if b < p {
                        assert(keys@[a] == before[a] && keys@[b] == before[b]);
                    } else if b == p {
                        assert(keys@[a] == before[a]);
                        assert(before[a] < key);
                    } else if a < p {
                        assert(keys@[a] == before[a] && keys@[b] == before[b - 1]);
                    } else if a == p {
                        assert(keys@[b] == before[b - 1]);
                        assert(before[b - 1] > key);
                    } else {
                        assert(keys@[a] == before[a - 1] && keys@[b] == before[b - 1]);
                    }
                }
                assert(keys_as_set(keys@) =~= keys_as_set(before).insert(key as int)) by {
                    assert forall|k: int| #[trigger] keys_as_set(keys@).contains(k) == keys_as_set(
                        before,
                    ).insert(key as int).contains(k) by {
                        lemma_keys_as_set_contains(keys@, k);
                        lemma_keys_as_set_contains(before, k);
                        if exists|j: int| 0 <= j < keys@.len() && keys@[j] as int == k {
                            let j = choose|j: int| 0 <= j < keys@.len() && keys@[j] as int == k;
                            if j < p {
                                assert(keys@[j] == before[j]);
                            } else if j > p {
                                assert(keys@[j] == before[j - 1]);
                            }
                        }
                        if exists|j: int| 0 <= j < before.len() && before[j] as int == k {
                            let j = choose|j: int| 0 <= j < before.len() && before[j] as int == k;
                            if j < p {
                                assert(keys@[j] == before[j]);
                            } else {
                                assert(keys@[j + 1] == before[j]);
                            }
                        }
                        if k == key as int {
                            assert(keys@[p as int] == key);
                        }
                    }
                }
                self.keys = keys;
            },
        }
    }

    /// Adds a 3-gram to the set.
    pub fn insert(&mut self, gram: [char; 3])
        ensures
            final(self)@ == old(self)@.insert(gram_key(gram)),
    {
        let key = key_of(gram[0], gram[1], gram[2]);
        self.insert_key(key);
    }

    /// The 3-grams that are in this set or in `other`.
    pub fn union(&self, other: &GramSet) -> (res: GramSet)
        ensures
            res@ == self@.union(other@),
    {
        proof {
            use_type_invariant(self);
            use_type_invariant(other);
        }
        let mut res = GramSet { keys: self.keys.clone() };
        assert(res.keys@ == self.keys@);
        let mut j: usize = 0;
        while j < other.keys.len()
            invariant
                j <= other.keys@.len(),
                forall|k: int|
                    #[trigger] res@.contains(k) <==> (self@.contains(k) || exists|m: int|
                        0 <= m < j && other.keys@[m] as int == k),
            decreases other.keys.len() - j,
        {
            let key = other.keys[j];
            res.insert_key(key);
            proof {
                assert forall|k: int|
                    #[trigger] res@.contains(k) implies (self@.contains(k) || exists|m: int|
                        0 <= m < j + 1 && other.keys@[m] as int == k) by {
                    if k == key as int {
                        assert(other.keys@[j as int] as int == k);
                    }
                }
                assert forall|k: int|
                    (self@.contains(k) || exists|m: int| 0 <= m < j + 1 && other.keys@[m] as int == k)
                        implies #[trigger] res@.contains(k) by {
                    if !self@.contains(k) {
                        let m = choose|m: int| 0 <= m < j + 1 && other.keys@[m] as int == k;
                        if m < j {
                            assert(exists|m2: int| 0 <= m2 < j && other.keys@[m2] as int == k);
                        }
                    }
                }
            }
            j += 1;
        }
        assert(res@ =~= self@.union(other@)) by {
            assert forall|k: int| #[trigger] res@.contains(k) == self@.union(other@).contains(k) by {
                lemma_keys_as_set_contains(other.keys@, k);
            }
        }
        res
    }

    /// The set of the 3-grams whose keys are listed.
    pub fn from_keys(keys: &[u64]) -> (res: GramSet)
        ensures
            forall|k: int|
                #[trigger] res@.contains(k) <==> exists|j: int| 0 <= j < keys@.len() && keys@[j] as int == k,
    {
        let mut res = GramSet::new();
        let mut j: usize = 0;
        while j < keys.len()
            invariant
                j <= keys@.len(),
                forall|k: int|
                    #[trigger] res@.contains(k) <==> exists|m: int| 0 <= m < j && keys@[m] as int == k,
            decreases keys.len() - j,
        {
            res.insert_key(keys[j]);
            proof {
                assert forall|k: int|
                    #[trigger] res@.contains(k) implies exists|m: int| 0 <= m < j + 1 && keys@[m] as int == k by {
                    if k == keys@[j as int] as int {
                        assert(keys@[j as int] as int == k);
                    }
                }
                assert forall|k: int|
                    (exists|m: int| 0 <= m < j + 1 && keys@[m] as int == k) implies #[trigger] res@.contains(k) by {
                    let m = choose|m: int| 0 <= m < j + 1 && keys@[m] as int == k;
                    if m < j {
                        assert(exists|m2: int| 0 <= m2 < j && keys@[m2] as int == k);
                    }
                }
            }
            j += 1;
        }
        res
    }
}

/// The string holds the 3-gram with key `k`.
pub open spec fn holds_gram(t: String, k: int) -> bool {
    gram_profile(t@).dom().contains(k)
}

/// How many of the first `n` texts hold the 3-gram with key `k`.
pub open spec fn doc_count(texts: Seq<String>, k: int, n: int) -> int
    decreases n,
{
    if n <= 0 {
        0
    } else {
        doc_count(texts, k, n - 1) + if holds_gram(texts[n - 1], k) {
            1int
        } else {
            0int
        }
    }
}

/// How many of the texts hold the 3-gram with key `k`.
pub open spec fn document_frequency(texts: Seq<String>, k: int) -> int {
    doc_count(texts, k, texts.len() as int)
}

proof fn lemma_doc_count_positive(texts: Seq<String>, k: int, n: int)
    requires
        0 <= n,
    ensures
        0 <= doc_count(texts, k, n) <= n,
        doc_count(texts, k, n) > 0 <==> exists|i: int| 0 <= i < n && holds_gram(texts[i], k),
    decreases n,
{
    if n > 0 {
        lemma_doc_count_positive(texts, k, n - 1);
        if exists|i: int| 0 <= i < n && holds_gram(texts[i], k) {
            let i = choose|i: int| 0 <= i < n && holds_gram(texts[i], k);
            if i < n - 1 {
                assert(exists|i2: int| 0 <= i2 < n - 1 && holds_gram(texts[i2], k));
            }
        }
        if exists|i: int| 0 <= i < n - 1 && holds_gram(texts[i], k) {
            let i = choose|i: int| 0 <= i < n - 1 && holds_gram(texts[i], k);
            assert(0 <= i < n && holds_gram(texts[i], k));
        }
    }
}

/// For every 3-gram that some text holds, its key and the number of texts
/// that hold it, ordered by key.
pub fn document_frequencies(texts: &Vec<String>) -> (res: Vec<(u64, usize)>)
    ensures
        forall|a: int, b: int| 0 <= a < b < res@.len() ==> res@[a].0 < res@[b].0,
        forall|j: int|
            0 <= j < res@.len() ==> {
                &&& (#[trigger] res@[j]).1 as int == document_frequency(texts@, res@[j].0 as int)
                &&& res@[j].1 > 0
            },
        forall|k: int|
            #![trigger document_frequency(texts@, k)]
            document_frequency(texts@, k) > 0 ==> exists|j: int| 0 <= j < res@.len() && res@[j].0 as int == k,
{
    let n = texts.len();
    let mut sets: Vec<GramSet> = Vec::new();
    let mut all = GramSet::new();
    let mut i: usize = 0;
    while i < n
        invariant
            n == texts@.len(),
            i <= n,
            sets@.len() == i,
            forall|m: int| 0 <= m < i ==> (#[trigger] sets@[m])@ == gram_profile(texts@[m]@).dom(),
            forall|k: int|
                #[trigger] all@.contains(k) <==> exists|m: int| 0 <= m < i && holds_gram(texts@[m], k),
        decreases n - i,
    {
        let set = GramSet::of_text(texts[i].as_str());
        all = all.union(&set);
        proof {
            assert forall|k: int|
                #[trigger] all@.contains(k) implies exists|m: int| 0 <= m < i + 1 && holds_gram(texts@[m], k) by {
                if set@.contains(k) {
                    assert(holds_gram(texts@[i as int], k));
                }
            }
            assert forall|k: int|
                (exists|m: int| 0 <= m < i + 1 && holds_gram(texts@[m], k)) implies #[trigger] all@.contains(k) by {
                let m = choose|m: int| 0 <= m < i + 1 && holds_gram(texts@[m], k);
                if m < i {
                    assert(exists|m2: int| 0 <= m2 < i && holds_gram(texts@[m2], k));
                }
            }
        }
        sets.push(set);
        i += 1;
    }
    proof {
        use_type_invariant(&all);
    }
    let mut res: Vec<(u64, usize)> = Vec::new();
    let mut j: usize = 0;
    while j < all.keys.len()
        invariant
            n == texts@.len(),
            sets@.len() == n,
            forall|m: int| 0 <= m < n ==> (#[trigger] sets@[m])@ == gram_profile(texts@[m]@).dom(),
            forall|k: int|
                #[trigger] all@.contains(k) <==> exists|m: int| 0 <= m < n && holds_gram(texts@[m], k),
            increasing_keys(all.keys@),
            j <= all.keys@.len(),
            res@.len() == j,
            forall|m: int| 0 <= m < j ==> (#[trigger] res@[m]).0 == all.keys@[m],
            forall|m: int|
                0 <= m < j ==> {
                    &&& (#[trigger] res@[m]).1 as int == document_frequency(texts@, res@[m].0 as int)
                    &&& res@[m].1 > 0
                },
        decreases all.keys.len() - j,
    {
        let key = all.keys[j];
        let mut count: usize = 0;
        let mut t: usize = 0;
        while t < n
            invariant
                n == texts@.len(),
                sets@.len() == n,
                forall|m: int| 0 <= m < n ==> (#[trigger] sets@[m])@ == gram_profile(texts@[m]@).dom(),
                t <= n,
                count as int == doc_count(texts@, key as int, t as int),
            decreases n - t,
        {
            proof {
                lemma_doc_count_positive(texts@, key as int, t as int);
            }
            if sets[t].contains_key(key) {
                count += 1;
            }
            t += 1;
        }
        proof {
            lemma_doc_count_positive(texts@, key as int, n as int);
            lemma_keys_as_set_contains(all.keys@, key as int);
            assert(all@.contains(key as int));
        }
        res.push((key, count));
        j += 1;
    }
    proof {
        assert forall|a: int, b: int| 0 <= a < b < res@.len() implies res@[a].0 < res@[b].0 by {
            assert(all.keys@[a] < all.keys@[b]);
        }
        assert forall|k: int|
            #![trigger document_frequency(texts@, k)]
            document_frequency(texts@, k) > 0 implies exists|j2: int| 0 <= j2 < res@.len() && res@[j2].0 as int == k by {
            lemma_doc_count_positive(texts@, k, n as int);
            assert(all@.contains(k));
            lemma_keys_as_set_contains(all.keys@, k);
            let m = choose|m: int| 0 <= m < all.keys@.len() && all.keys@[m] as int == k;
            assert(res@[m].0 as int == k);
        }
    }
    res
}

/// What boilerplate removal leaves of the characters `b` from position `i`
/// on: where the window at the current position is a boilerplate 3-gram its
/// three characters are skipped, otherwise the current character is kept.
pub open spec fn without_grams_from(b: Seq<char>, boilerplate: Set<int>, i: int) -> Seq<char>
    decreases b.len() - i,
{
    if i < 0 || i >= b.len() {
        Seq::empty()
    } else if i + 3 <= b.len() && boilerplate.contains(window_key(b, i)) {
        without_grams_from(b, boilerplate, i + 3)
    } else {
        seq![b[i]] + without_grams_from(b, boilerplate, i + 1)
    }
}

/// Removes boilerplate from a normalized text: scanning character by
/// character, the three characters of each boilerplate 3-gram met are
/// skipped and every other character is kept.
pub fn remove_boilerplate(text: &str, boilerplate: &GramSet) -> (res: String)
    ensures
        res@ == without_grams_from(text@, boilerplate@, 0),
{
    let chars = chars_of(text);
    let n = chars.len();
    let mut out: Vec<char> = Vec::new();
    let mut i: usize = 0;
    while i < n
        invariant
            n == chars@.len(),
            chars@ == text@,
            i <= n,
            out@ + without_grams_from(chars@, boilerplate@, i as int) == without_grams_from(
                chars@,
                boilerplate@,
                0,
            ),
        decreases n - i,
    {
        let ghost before = out@;
        let ghost old_i = i;
        let skip = if n - i >= 3 {
            let key = key_of(chars[i], chars[i + 1], chars[i + 2]);
            assert(key as int == window_key(chars@, i as int));
            boilerplate.contains_key(key)
        } else {
            false
        };
        if skip {
            i += 3;
        } else {
            out.push(chars[i]);
            i += 1;
        }
        assert(before + without_grams_from(chars@, boilerplate@, old_i as int) =~= out@
            + without_grams_from(chars@, boilerplate@, i as int));
    }
    crate::chars::string_from_chars(&out)
}

proof fn lemma_without_nothing_from(b: Seq<char>, i: int)
    requires
        0 <= i <= b.len(),
    ensures
        without_grams_from(b, Set::<int>::empty(), i) == b.subrange(i, b.len() as int),
    decreases b.len() - i,
{
    if i < b.len() {
        lemma_without_nothing_from(b, i + 1);
        assert(b.subrange(i, b.len() as int) =~= seq![b[i]]
            + b.subrange(i + 1, b.len() as int));
    } else {
        assert(b.subrange(i, b.len() as int) =~= Seq::<char>::empty());
    }
}

/// With no boilerplate, removal keeps every character.
pub proof fn lemma_no_boilerplate_keeps_text(b: Seq<char>)
    ensures
        without_grams_from(b, Set::<int>::empty(), 0) == b,
{
    lemma_without_nothing_from(b, 0);
    assert(b.subrange(0, b.len() as int) =~= b);
}

proof fn lemma_without_len_from(b: Seq<char>, boilerplate: Set<int>, i: int)
    requires
        0 <= i <= b.len(),
    ensures
        without_grams_from(b, boilerplate, i).len() <= b.len() - i,
    decreases b.len() - i,
{
    if i < b.len() {
        if i + 3 <= b.len() && boilerplate.contains(window_key(b, i)) {
            lemma_without_len_from(b, boilerplate, i + 3);
        } else {
            lemma_without_len_from(b, boilerplate, i + 1);
        }
    }
}

/// Removal only removes: what is left is never longer than the text.
pub proof fn lemma_removal_shrinks(b: Seq<char>, boilerplate: Set<int>)
    ensures
        without_grams_from(b, boilerplate, 0).len() <= b.len(),
{
    lemma_without_len_from(b, boilerplate, 0);
}


/// Removal from the part of `p + r` that lies past `p` is removal from `r`:
/// it only looks forward.
proof fn lemma_without_shift(p: Seq<char>, r: Seq<char>, boilerplate: Set<int>, k: int)
    requires
        0 <= k,
    ensures
        without_grams_from(p + r, boilerplate, p.len() + k) == without_grams_from(r, boilerplate, k),
    decreases r.len() - k,
{
    if k < r.len() {
        let b = p + r;
        let j = p.len() + k;
        assert(b[j] == r[k]);
        if k + 2 < r.len() {
            assert(b[j + 1] == r[k + 1] && b[j + 2] == r[k + 2]);
            assert(window_key(b, j) == window_key(r, k));
        }
        lemma_without_shift(p, r, boilerplate, k + 1);
        if k + 3 <= r.len() {
            lemma_without_shift(p, r, boilerplate, k + 3);
        }
    }
}

/// A boilerplate 3-gram at the start of a text is removed whole, whatever
/// follows it (nothing included), and removal goes on after it.
pub proof fn lemma_boilerplate_gram_removed(g: Seq<char>, r: Seq<char>, boilerplate: Set<int>)
    requires
        g.len() == 3,
        boilerplate.contains(key3(g[0], g[1], g[2])),
    ensures
        without_grams_from(g + r, boilerplate, 0) == without_grams_from(r, boilerplate, 0),
{
    let b = g + r;
    assert(b[0] == g[0] && b[1] == g[1] && b[2] == g[2]);
    lemma_without_shift(g, r, boilerplate, 0);
}

/// A character that does not start a boilerplate 3-gram is kept, and removal
/// goes on with the rest of the text.
pub proof fn lemma_non_boilerplate_char_kept(c: char, r: Seq<char>, boilerplate: Set<int>)
    requires
        !(r.len() >= 2 && boilerplate.contains(key3(c, r[0], r[1]))),
    ensures
        without_grams_from(seq![c] + r, boilerplate, 0) == seq![c] + without_grams_from(r, boilerplate, 0),
{
    let b = seq![c] + r;
    assert(b[0] == c);
    if r.len() >= 2 {
        assert(b[1] == r[0] && b[2] == r[1]);
    }
    lemma_without_shift(seq![c], r, boilerplate, 0);
}

} // verus!
