//! A table that gives each byte string it is shown the next free index, and
//! finds the string of an index and the index of a string again.

use itertools::Itertools;
use std::cmp::Ordering;
use std::collections::HashMap;
use vstd::prelude::*;

verus! {

/// The byte strings of a list of vectors.
pub open spec fn texts(items: Seq<Vec<u8>>) -> Seq<Seq<u8>> {
    Seq::new(items.len(), |i: int| items[i]@)
}

/// Whether `a` comes before `b` in the order of byte strings, looking from
/// index `i` on: at the first index where they differ `a` has the smaller
/// byte, or `a` ends there and `b` goes on.
pub open spec fn lex_less_from(a: Seq<u8>, b: Seq<u8>, i: int) -> bool
    decreases a.len() - i,
{
    if i >= b.len() {
        false
    } else if i >= a.len() {
        true
    } else if a[i] != b[i] {
        a[i] < b[i]
    } else {
        lex_less_from(a, b, i + 1)
    }
}

/// Whether `a` comes before `b` in the order of byte strings.
pub open spec fn lex_less(a: Seq<u8>, b: Seq<u8>) -> bool {
    lex_less_from(a, b, 0)
}

/// How `a` stands to `b` in the order of byte strings.
pub open spec fn lex_order(a: Seq<u8>, b: Seq<u8>) -> Ordering {
    if lex_less(a, b) {
        Ordering::Less
    } else if a == b {
        Ordering::Equal
    } else {
        Ordering::Greater
    }
}

/// Whether no item of `s` comes before an earlier one.
pub open spec fn ascending(s: Seq<Seq<u8>>) -> bool {
    forall|i: int, j: int| 0 <= i < j < s.len() ==> !lex_less(s[j], s[i])
}

/// Two strings that agree from `i` on, and before, are the same, and
/// neither comes before the other.
pub proof fn lemma_lex_equal(a: Seq<u8>, b: Seq<u8>, i: int)
    requires
        0 <= i <= a.len(),
        a.len() == b.len(),
        forall|j: int| 0 <= j < a.len() ==> a[j] == b[j],
    ensures
        a == b,
        !lex_less_from(a, b, i),
    decreases a.len() - i,
{
    assert(a =~= b);
    if i < a.len() {
        lemma_lex_equal(a, b, i + 1);
    }
}

/// A string does not come before itself.
pub proof fn lemma_lex_same(a: Seq<u8>)
    ensures
        !lex_less(a, a),
{
    lemma_lex_equal(a, a, 0);
}

/// Whether two byte strings are the same.
pub fn bytes_eq(a: &Vec<u8>, b: &Vec<u8>) -> (r: bool)
    ensures
        r == (a@ == b@),
{
    if a.len() != b.len() {
        return false;
    }
    let mut i: usize = 0;
    while i < a.len()
        invariant
            0 <= i <= a@.len(),
            a@.len() == b@.len(),
            forall|j: int| 0 <= j < i ==> a@[j] == b@[j],
        decreases a@.len() - i,
    {
        if a[i] != b[i] {
            return false;
        }
        i = i + 1;
    }
    proof {
        assert(a@ =~= b@);
    }
    true
}

/// `lex_less_from` at a machine index.
pub open spec fn lex_less_at(a: Seq<u8>, b: Seq<u8>, i: usize) -> bool {
    lex_less_from(a, b, i as int)
}

/// Whether the first `i` bytes of `a` and `b` are the same.
pub open spec fn same_prefix(a: Seq<u8>, b: Seq<u8>, i: usize) -> bool {
    i <= a.len() && i <= b.len() && forall|j: int| 0 <= j < i ==> a[j] == b[j]
}

/// Strings of one length that are the same all along are the same, and
/// neither comes before the other.
pub proof fn lemma_same_prefix_equal(a: Seq<u8>, b: Seq<u8>, i: usize)
    requires
        same_prefix(a, b, i),
        i == a.len(),
        i == b.len(),
    ensures
        a == b,
        !lex_less_at(a, b, i),
{
    lemma_lex_equal(a, b, i as int);
}

/// What one more byte tells of the order of two strings that are the same
/// up to it.
pub proof fn lemma_lex_step(a: Seq<u8>, b: Seq<u8>, i: usize)
    requires
        same_prefix(a, b, i),
        i < a.len(),
        i < b.len(),
        i < usize::MAX,
    ensures
        a[i as int] < b[i as int] ==> lex_less_at(a, b, i) && a != b,
        a[i as int] > b[i as int] ==> !lex_less_at(a, b, i) && a != b,
        a[i as int] == b[i as int] ==> lex_less_at(a, b, i) == lex_less_at(a, b, (i + 1) as usize)
            && same_prefix(a, b, (i + 1) as usize),
{
}

/// How `a` stands to `b` in the order of byte strings.
pub fn cmp_bytes(a: &Vec<u8>, b: &Vec<u8>) -> (r: Ordering)
    ensures
        r == lex_order(a@, b@),
{
    let mut i: usize = 0;
    while i < a.len() && i < b.len()
        invariant
            same_prefix(a@, b@, i),
            lex_less(a@, b@) == lex_less_at(a@, b@, i),
        decreases a@.len() - i,
    {
        proof {
            lemma_lex_step(a@, b@, i);
        }
        if a[i] < b[i] {
            return Ordering::Less;
        }
        if a[i] > b[i] {
            return Ordering::Greater;
        }
        i = i + 1;
    }
    if a.len() < b.len() {
        Ordering::Less
    } else if a.len() > b.len() {
        proof {
            assert(a@ != b@);
        }
        Ordering::Greater
    } else {
        proof {
            lemma_same_prefix_equal(a@, b@, i);
        }
        Ordering::Equal
    }
}

/// `Itertools::sorted` on the items of `items`, cloned and collected: the
/// same byte strings, each as often as before, in ascending order. The
/// order is that of `Vec<u8>`, which compares byte by byte.
#[verifier::external_body]
fn sorted_items(items: &Vec<Vec<u8>>) -> (r: Vec<Vec<u8>>)
    ensures
        texts(r@).to_multiset() == texts(items@).to_multiset(),
        ascending(texts(r@)),
{
    items.iter().sorted().cloned().collect()
}

/// The hash of the first `n` bytes of a byte string: each byte is added to
/// 31 times the hash of the bytes before it, and what goes beyond 64 bits is
/// dropped.
pub open spec fn hash_upto(bytes: Seq<u8>, n: int) -> u64
    decreases n,
{
    if n <= 0 {
        0
    } else {
        ((hash_upto(bytes, n - 1) * 31 + bytes[n - 1]) % 0x1_0000_0000_0000_0000) as u64
    }
}

/// The hash of a byte string, under which the table finds it again.
pub open spec fn bytes_hash(bytes: Seq<u8>) -> u64 {
    hash_upto(bytes, bytes.len() as int)
}

/// The hash of a byte string.
pub fn hash_bytes(bytes: &Vec<u8>) -> (h: u64)
    ensures
        h == bytes_hash(bytes@),
{
    let mut h: u64 = 0;
    let mut i: usize = 0;
    while i < bytes.len()
        invariant
            0 <= i <= bytes@.len(),
            h == hash_upto(bytes@, i as int),
        decreases bytes@.len() - i,
    {
        let wide: u128 = (h as u128) * 31 + (bytes[i] as u128);
        h = (wide % 0x1_0000_0000_0000_0000u128) as u64;
        i = i + 1;
    }
    h
}

/// Whether `lookup` leads from the hash of each string of `items` to the
/// index of the string, and to no index that is not of a string of that
/// hash.
pub open spec fn indexes(lookup: Map<u64, Vec<usize>>, items: Seq<Seq<u8>>) -> bool {
    &&& forall|i: int|
        0 <= i < items.len() ==> lookup.contains_key(bytes_hash(#[trigger] items[i]))
            && lookup[bytes_hash(items[i])]@.contains(i as usize)
    &&& forall|h: u64, j: int|
        lookup.contains_key(h) && 0 <= j < lookup[h]@.len() ==> (#[trigger] lookup[h]@[j])
            < items.len() && bytes_hash(items[lookup[h]@[j] as int]) == h
}

/// Puts the index `n` under the hash `h`.
fn index_add(lookup: &mut HashMap<u64, Vec<usize>>, h: u64, n: usize)
    ensures
        final(lookup)@.dom() == old(lookup)@.dom().insert(h),
        forall|k: u64| k != h && old(lookup)@.contains_key(k) ==> final(lookup)@[k] == old(
            lookup,
        )@[k],
        final(lookup)@[h]@ == (if old(lookup)@.contains_key(h) {
            old(lookup)@[h]@
        } else {
            Seq::<usize>::empty()
        }).push(n),
{
    let mut bucket = match lookup.remove(&h) {
        Some(bucket) => bucket,
        None => Vec::new(),
    };
    bucket.push(n);
    lookup.insert(h, bucket);
    proof {
        assert(lookup@.dom() =~= old(lookup)@.dom().insert(h));
    }
}

/// Putting the index of a new last string under its hash keeps the lookup
/// in step with the strings.
pub proof fn lemma_indexes_push(
    before: Map<u64, Vec<usize>>,
    after: Map<u64, Vec<usize>>,
    items: Seq<Seq<u8>>,
    more: Seq<Seq<u8>>,
    item: Seq<u8>,
)
    requires
        indexes(before, items),
        items.len() < usize::MAX,
        more == items.push(item),
        after.dom() == before.dom().insert(bytes_hash(item)),
        forall|k: u64| k != bytes_hash(item) && before.contains_key(k) ==> after[k] == before[k],
        after[bytes_hash(item)]@ == (if before.contains_key(bytes_hash(item)) {
            before[bytes_hash(item)]@
        } else {
            Seq::<usize>::empty()
        }).push(items.len() as usize),
    ensures
        indexes(after, more),
{
    let h = bytes_hash(item);
    let n = items.len() as usize;
    assert forall|i: int| 0 <= i < more.len() implies after.contains_key(
        bytes_hash(#[trigger] more[i]),
    ) && after[bytes_hash(more[i])]@.contains(i as usize) by {
        if i < items.len() {
            assert(more[i] == items[i]);
            let k = bytes_hash(items[i]);
            assert(before.contains_key(k) && before[k]@.contains(i as usize));
            assert(after.dom().contains(k));
            if k == h {
                let x = choose|x: int| 0 <= x < before[k]@.len() && before[k]@[x] == i as usize;
                assert(after[k]@[x] == i as usize);
            }
        } else {
            assert(after.dom().contains(h));
            assert(after[h]@[after[h]@.len() - 1] == n);
        }
    }
    assert forall|k: u64, j: int| after.contains_key(k) && 0 <= j < after[k]@.len() implies (
    #[trigger] after[k]@[j]) < more.len() && bytes_hash(more[after[k]@[j] as int]) == k by {
        assert(after.dom().contains(k));
        if k != h {
            assert(before.contains_key(k));
            assert(before[k]@[j] < items.len());
        } else if before.contains_key(h) && j < before[h]@.len() {
            assert(before[h]@[j] < items.len());
            assert(after[h]@[j] == before[h]@[j]);
        }
    }
}

/// A table of byte strings, each with the index at which it came in.
#[derive(Debug, Clone, PartialEq, Eq)]
pub struct IndexedCache {
    cache: Vec<Vec<u8>>,
    /// From the hash of each string to the indexes of the strings of that
    /// hash.
    lookup: HashMap<u64, Vec<usize>>,
}

impl View for IndexedCache {
    type V = Seq<Seq<u8>>;

    closed spec fn view(&self) -> Seq<Seq<u8>> {
        texts(self.cache@)
    }
}

impl IndexedCache {
    /// No string stands in the table twice, and each is found under its
    /// hash.
    pub open spec fn wf(&self) -> bool {
        self@.no_duplicates() && self.indexed()
    }

    /// Whether each string is found under its hash.
    pub closed spec fn indexed(&self) -> bool {
        indexes(self.lookup@, self@)
    }

    /// An empty table.
    pub fn new() -> (s: Self)
        ensures
            s.wf(),
            s@ == Seq::<Seq<u8>>::empty(),
    {
        let s = IndexedCache { cache: Vec::new(), lookup: HashMap::new() };
        assert(s@ =~= Seq::<Seq<u8>>::empty());
        s
    }

    /// A table of the strings of `items`, in their order.
    fn of_items(items: Vec<Vec<u8>>) -> (s: Self)
        ensures
            s@ == texts(items@),
            s.indexed(),
    {
        let mut lookup: HashMap<u64, Vec<usize>> = HashMap::new();
        let mut i: usize = 0;
        while i < items.len()
            invariant
                0 <= i <= items@.len(),
                indexes(lookup@, texts(items@).take(i as int)),
            decreases items@.len() - i,
        {
            let ghost before = lookup@;
            let ghost done = texts(items@).take(i as int);
            let ghost more = texts(items@).take(i as int + 1);
            let h = hash_bytes(&items[i]);
            index_add(&mut lookup, h, i);
            proof {
                assert(items.len() == items@.len());
                assert(more =~= done.push(items@[i as int]@));
                lemma_indexes_push(before, lookup@, done, more, items@[i as int]@);
            }
            i = i + 1;
        }
        proof {
            assert(texts(items@).take(items@.len() as int) =~= texts(items@));
        }
        IndexedCache { cache: items, lookup }
    }

    /// The index of `item`, which is put at the end of the table if it is
    /// not in it yet.
    pub fn cache(&mut self, item: Vec<u8>) -> (n: usize)
        requires
            old(self).wf(),
        ensures
            final(self).wf(),
            n < final(self)@.len(),
            final(self)@[n as int] == item@,
            old(self)@.contains(item@) ==> final(self)@ == old(self)@,
            !old(self)@.contains(item@) ==> final(self)@ == old(self)@.push(item@),
    {
        match self.lookup(&item) {
            Some(n) => n,
            None => {
                let n = self.cache.len();
                let h = hash_bytes(&item);
                let ghost before = self.lookup@;
                self.cache.push(item);
                index_add(&mut self.lookup, h, n);
                proof {
                    assert(self.cache.len() == self.cache@.len());
                    assert(self@ =~= old(self)@.push(item@));
                    lemma_indexes_push(before, self.lookup@, old(self)@, self@, item@);
                }
                n
            },
        }
    }

    /// The index of `item`, if it is in the table.
    pub fn lookup(&self, item: &Vec<u8>) -> (r: Option<usize>)
        requires
            self.indexed(),
        ensures
            match r {
                Some(n) => n < self@.len() && self@[n as int] == item@,
                None => !self@.contains(item@),
            },
    {
        let h = hash_bytes(item);
        match self.lookup.get(&h) {
            None => {
                proof {
                    if self@.contains(item@) {
                        let i = choose|i: int| 0 <= i < self@.len() && self@[i] == item@;
                        assert(self.lookup@.contains_key(bytes_hash(self@[i])));
                    }
                }
                None
            },
            Some(bucket) => {
                let mut j: usize = 0;
                while j < bucket.len()
                    invariant
                        0 <= j <= bucket@.len(),
                        self.indexed(),
                        self.lookup@.contains_key(h),
                        self.lookup@[h] == *bucket,
                        forall|x: int| 0 <= x < j ==> self@[bucket@[x] as int] != item@,
                    decreases bucket@.len() - j,
                {
                    let at = bucket[j];
                    proof {
                        assert(self.lookup@[h]@[j as int] < self@.len());
                    }
                    if bytes_eq(&self.cache[at], item) {
                        return Some(at);
                    }
                    j = j + 1;
                }
                proof {
                    assert(self.cache.len() == self.cache@.len());
                    if self@.contains(item@) {
                        let i = choose|i: int| 0 <= i < self@.len() && self@[i] == item@;
                        assert(self.lookup@[bytes_hash(self@[i])]@.contains(i as usize));
                        let x = choose|x: int| 0 <= x < bucket@.len() && bucket@[x] == i as usize;
                        assert(self@[bucket@[x] as int] != item@);
                    }
                }
                None
            },
        }
    }

    /// The number of strings in the table.
    pub fn len(&self) -> (n: usize)
        ensures
            n == self@.len(),
    {
        self.cache.len()
    }

    /// The string at `index`.
    pub fn get(&self, index: usize) -> (item: &Vec<u8>)
        requires
            index < self@.len(),
        ensures
            item@ == self@[index as int],
    {
        &self.cache[index]
    }

    /// Takes the string that came in last out of the table.
    pub fn remove_last(&mut self) -> (item: Vec<u8>)
        requires
            old(self).wf(),
            old(self)@.len() > 0,
        ensures
            final(self).wf(),
            final(self)@ == old(self)@.drop_last(),
            item@ == old(self)@.last(),
    {
        let last = self.cache.len() - 1;
        let item = self.cache.remove(last);
        let h = hash_bytes(&item);
        let ghost before = self.lookup@;
        proof {
            assert(self@ =~= old(self)@.drop_last());
            assert(old(self)@[last as int] == item@);
            assert(before.contains_key(bytes_hash(old(self)@[last as int])));
        }
        let bucket = self.lookup.remove(&h).unwrap();
        let mut kept: Vec<usize> = Vec::new();
        let mut j: usize = 0;
        while j < bucket.len()
            invariant
                0 <= j <= bucket@.len(),
                forall|x: int| 0 <= x < kept@.len() ==> kept@[x] != last && bucket@.contains(
                    #[trigger] kept@[x],
                ),
                forall|x: int|
                    0 <= x < j && bucket@[x] != last ==> kept@.contains(#[trigger] bucket@[x]),
            decreases bucket@.len() - j,
        {
            let ghost so_far = kept@;
            if bucket[j] != last {
                kept.push(bucket[j]);
            }
            proof {
                assert forall|x: int| 0 <= x < kept@.len() implies kept@[x] != last
                    && bucket@.contains(#[trigger] kept@[x]) by {
                    if x < so_far.len() {
                        assert(kept@[x] == so_far[x]);
                    } else {
                        assert(bucket@[j as int] == kept@[x]);
                    }
                }
                assert forall|x: int| 0 <= x < j + 1 && bucket@[x] != last implies kept@.contains(
                    #[trigger] bucket@[x],
                ) by {
                    if x < j {
                        let y = choose|y: int| 0 <= y < so_far.len() && so_far[y] == bucket@[x];
                        assert(kept@[y] == bucket@[x]);
                    } else {
                        assert(kept@[kept@.len() - 1] == bucket@[x]);
                    }
                }
            }
            j = j + 1;
        }
        if kept.len() > 0 {
            self.lookup.insert(h, kept);
        }
        proof {
            let items = old(self)@;
            let now = self.lookup@;
            assert forall|i: int| 0 <= i < self@.len() implies now.contains_key(
                bytes_hash(#[trigger] self@[i]),
            ) && now[bytes_hash(self@[i])]@.contains(i as usize) by {
                assert(self@[i] == items[i]);
                let k = bytes_hash(items[i]);
                assert(before.contains_key(k) && before[k]@.contains(i as usize));
                if k == h {
                    let x = choose|x: int| 0 <= x < bucket@.len() && bucket@[x] == i as usize;
                    assert(kept@.contains(bucket@[x]));
                }
            }
            assert forall|k: u64, x: int| now.contains_key(k) && 0 <= x < now[k]@.len() implies (
            #[trigger] now[k]@[x]) < self@.len() && bytes_hash(self@[now[k]@[x] as int]) == k by {
                if k == h {
                    assert(bucket@.contains(kept@[x]));
                    let y = choose|y: int| 0 <= y < bucket@.len() && bucket@[y] == kept@[x];
                    assert(before[h]@[y] < items.len());
                } else {
                    assert(before.contains_key(k));
                    assert(before[k]@[x] < items.len());
                    assert(bytes_hash(items[before[k]@[x] as int]) == k);
                }
                assert(self@[now[k]@[x] as int] == items[now[k]@[x] as int]);
            }
        }
        item
    }

    /// A table of the same strings in ascending order.
    pub fn sorted(&self) -> (s: IndexedCache)
        requires
            self.wf(),
        ensures
            s.wf(),
            s@.to_multiset() == self@.to_multiset(),
            ascending(s@),
    {
        let s = IndexedCache::of_items(sorted_items(&self.cache));
        proof {
            self@.lemma_multiset_has_no_duplicates();
            s@.lemma_multiset_has_no_duplicates_conv();
        }
        s
    }

    /// For each string of the table, by index, the place that it has among
    /// the strings in ascending order.
    pub fn encode_index(&self) -> (r: Vec<usize>)
        requires
            self.wf(),
        ensures
            r@.len() == self@.len(),
            exists|s: Seq<Seq<u8>>|
                s.to_multiset() == self@.to_multiset() && ascending(s) && forall|i: int|
                    0 <= i < r@.len() ==> 0 <= #[trigger] r@[i] < s.len() && s[r@[i] as int]
                        == self@[i],
    {
        let sorted = self.sorted();
        let mut r: Vec<usize> = Vec::new();
        let mut i: usize = 0;
        while i < self.cache.len()
            invariant
                0 <= i <= self@.len(),
                r@.len() == i,
                sorted.wf(),
                sorted@.to_multiset() == self@.to_multiset(),
                forall|j: int|
                    0 <= j < i ==> 0 <= #[trigger] r@[j] < sorted@.len() && sorted@[r@[j] as int]
                        == self@[j],
            decreases self@.len() - i,
        {
            proof {
                assert(self@.contains(self@[i as int]));
                vstd::seq_lib::to_multiset_contains(self@, self@[i as int]);
                vstd::seq_lib::to_multiset_contains(sorted@, self@[i as int]);
            }
            match sorted.lookup(&self.cache[i]) {
                Some(n) => r.push(n),
                None => {
                    assert(false);
                },
            }
            i = i + 1;
        }
        proof {
            let s = sorted@;
            assert(s.to_multiset() == self@.to_multiset() && ascending(s) && forall|i: int|
                0 <= i < r@.len() ==> 0 <= #[trigger] r@[i] < s.len() && s[r@[i] as int]
                    == self@[i]);
        }
        r
    }
}

impl Default for IndexedCache {
    fn default() -> (s: Self)
        ensures
            s.wf(),
            s@ == Seq::<Seq<u8>>::empty(),
    {
        IndexedCache::new()
    }
}

} // verus!
