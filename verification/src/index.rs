//! The in-memory index: each live key mapped to the offset of its latest entry.
//!
//! Keys are spread over buckets by a hash of their bytes, held in a `HashMap`
//! keyed by that hash, so that finding a key looks through one bucket only.

use vstd::prelude::*;
use vstd::string::*;
use vstd::utf8::*;
use std::collections::HashMap;

use crate::model::InMemoryEntry;

verus! {

broadcast use vstd::std_specs::hash::group_hash_axioms;

/// The modulus of the key hash.
pub const HASH_MODULUS: u64 = 4294967291;

/// The hash of a key's bytes: a polynomial in 31 over the bytes, modulo a prime
/// below 2^32.
pub open spec fn bytes_hash(b: Seq<u8>) -> u64
    decreases b.len(),
{
    if b.len() == 0 {
        0
    } else {
        ((bytes_hash(b.drop_last()) * 31 + b.last()) % (HASH_MODULUS as int)) as u64
    }
}

/// The hash of a key.
pub open spec fn key_hash(k: Seq<char>) -> u64 {
    bytes_hash(encode_utf8(k))
}

/// Every entry of a bucket has a key whose hash is `h`.
pub open spec fn all_hash_to(s: Seq<InMemoryEntry>, h: u64) -> bool {
    forall|i: int| 0 <= i < s.len() ==> key_hash(#[trigger] s[i].key@) == h
}

/// Computes the hash of a key.
fn hash_key(key: &String) -> (r: u64)
    ensures
        r == key_hash(key@),
{
    let b = key.as_str().as_bytes();
    let mut h: u64 = 0;
    let mut i: usize = 0;
    assert(b@.subrange(0, 0) =~= Seq::<u8>::empty());
    while i < b.len()
        invariant
            i <= b@.len(),
            h == bytes_hash(b@.subrange(0, i as int)),
            h < HASH_MODULUS,
        decreases b@.len() - i,
    {
        assert(b@.subrange(0, i + 1).drop_last() =~= b@.subrange(0, i as int));
        h = (h * 31 + b[i] as u64) % HASH_MODULUS;
        i = i + 1;
    }
    assert(b@.subrange(0, b@.len() as int) =~= b@);
    h
}


/// No two entries hold the same key.
pub open spec fn keys_distinct(s: Seq<InMemoryEntry>) -> bool {
    forall|i: int, j: int| 0 <= i < s.len() && 0 <= j < s.len() && i != j ==> s[i].key@ != s[j].key@
}

/// The position of an entry that holds `k`.
pub open spec fn key_pos(s: Seq<InMemoryEntry>, k: Seq<char>) -> int {
    choose|i: int| 0 <= i < s.len() && s[i].key@ == k
}

/// The map from each key of a bucket's entries to its offset.
pub open spec fn index_of(s: Seq<InMemoryEntry>) -> Map<Seq<char>, u64> {
    Map::new(
        |k: Seq<char>| exists|i: int| 0 <= i < s.len() && s[i].key@ == k,
        |k: Seq<char>| s[key_pos(s, k)].offset,
    )
}

proof fn lemma_index_of_entry(s: Seq<InMemoryEntry>, i: int)
    requires
        keys_distinct(s),
        0 <= i < s.len(),
    ensures
        index_of(s).contains_key(s[i].key@),
        index_of(s)[s[i].key@] == s[i].offset,
{
    let k = s[i].key@;
    assert(0 <= i < s.len() && s[i].key@ == k);
    let j = key_pos(s, k);
    assert(s[j].key@ == k);
}

/// Finds the position of the entry that holds `key`.
fn find_key(entries: &Vec<InMemoryEntry>, key: &String) -> (r: Option<usize>)
    ensures
        match r {
            Some(i) => i < entries@.len() && entries@[i as int].key@ == key@,
            None => forall|i: int| 0 <= i < entries@.len() ==> entries@[i].key@ != key@,
        },
{
    let mut i: usize = 0;
    while i < entries.len()
        invariant
            i <= entries@.len(),
            forall|j: int| 0 <= j < i ==> entries@[j].key@ != key@,
        decreases entries@.len() - i,
    {
        if entries[i].key == *key {
            return Some(i);
        }
        i = i + 1;
    }
    None
}

/// Maps `key` to `offset` in a bucket.
fn index_insert(entries: &mut Vec<InMemoryEntry>, key: String, offset: u64, Ghost(h): Ghost<u64>)
    requires
        keys_distinct(old(entries)@),
        all_hash_to(old(entries)@, h),
        key_hash(key@) == h,
    ensures
        keys_distinct(final(entries)@),
        all_hash_to(final(entries)@, h),
        index_of(final(entries)@) == index_of(old(entries)@).insert(key@, offset),
{
    let ghost old_s = entries@;
    let ghost k = key@;
    match find_key(entries, &key) {
        Some(i) => {
            entries.set(i, InMemoryEntry { key, offset });
            proof {
                let s = entries@;
                assert(s == old_s.update(i as int, s[i as int]));
                assert forall|a: int, b: int| 0 <= a < s.len() && 0 <= b < s.len() && a != b
                    implies s[a].key@ != s[b].key@ by {
                    assert(s[a].key@ == old_s[a].key@ && s[b].key@ == old_s[b].key@);
                }
                lemma_index_of_entry(s, i as int);
                assert forall|a: int| 0 <= a < s.len() implies key_hash(#[trigger] s[a].key@) == h by {
                    assert(s[a].key@ == old_s[a].key@);
                }
                assert forall|k2: Seq<char>| #[trigger] index_of(s).contains_key(k2) <==> index_of(old_s).insert(k, offset).contains_key(k2) by {
                    if index_of(s).contains_key(k2) {
                        let j = key_pos(s, k2);
                        assert(old_s[j].key@ == k2);
                    }
                    if index_of(old_s).contains_key(k2) {
                        let j = key_pos(old_s, k2);
                        assert(s[j].key@ == k2);
                    }
                }
                assert forall|k2: Seq<char>| #[trigger] index_of(s).contains_key(k2) implies index_of(s)[k2] == index_of(old_s).insert(k, offset)[k2] by {
                    if k2 != k {
                        let j = key_pos(s, k2);
                        lemma_index_of_entry(s, j);
                        lemma_index_of_entry(old_s, j);
                    }
                }
                assert(index_of(s) =~= index_of(old_s).insert(k, offset));
            }
        },
        None => {
            entries.push(InMemoryEntry { key, offset });
            proof {
                let s = entries@;
                let n = old_s.len() as int;
                assert forall|a: int, b: int| 0 <= a < s.len() && 0 <= b < s.len() && a != b
                    implies s[a].key@ != s[b].key@ by {
                    if a < n && b < n {
                        assert(s[a] == old_s[a] && s[b] == old_s[b]);
                    }
                }
                lemma_index_of_entry(s, n);
                assert forall|a: int| 0 <= a < s.len() implies key_hash(#[trigger] s[a].key@) == h by {
                    if a < n {
                        assert(s[a] == old_s[a]);
                    }
                }
                assert forall|k2: Seq<char>| #[trigger] index_of(s).contains_key(k2) <==> index_of(old_s).insert(k, offset).contains_key(k2) by {
                    if index_of(s).contains_key(k2) && k2 != k {
                        let j = key_pos(s, k2);
                        assert(j < n);
                        assert(old_s[j].key@ == k2);
                    }
                    if index_of(old_s).contains_key(k2) {
                        let j = key_pos(old_s, k2);
                        assert(s[j].key@ == k2);
                    }
                }
                assert forall|k2: Seq<char>| #[trigger] index_of(s).contains_key(k2) implies index_of(s)[k2] == index_of(old_s).insert(k, offset)[k2] by {
                    if k2 != k {
                        let j = key_pos(s, k2);
                        assert(j < n);
                        assert(s[j] == old_s[j]);
                        lemma_index_of_entry(s, j);
                        lemma_index_of_entry(old_s, j);
                    }
                }
                assert(index_of(s) =~= index_of(old_s).insert(k, offset));
            }
        },
    }
}

/// Drops `key` from a bucket, giving back its entry if it was there.
fn index_remove(entries: &mut Vec<InMemoryEntry>, key: &String, Ghost(h): Ghost<u64>) -> (r: Option<InMemoryEntry>)
    requires
        keys_distinct(old(entries)@),
        all_hash_to(old(entries)@, h),
    ensures
        keys_distinct(final(entries)@),
        all_hash_to(final(entries)@, h),
        index_of(final(entries)@) == index_of(old(entries)@).remove(key@),
        match r {
            Some(e) => index_of(old(entries)@).contains_key(key@) && e.key@ == key@
                && e.offset == index_of(old(entries)@)[key@],
            None => !index_of(old(entries)@).contains_key(key@),
        },
{
    let ghost old_s = entries@;
    let ghost k = key@;
    match find_key(entries, key) {
        Some(i) => {
            proof {
                lemma_index_of_entry(old_s, i as int);
            }
            let removed = entries.remove(i);
            proof {
                let s = entries@;
                assert forall|j: int| 0 <= j < s.len() implies #[trigger] s[j] == (if j < i { old_s[j] } else { old_s[j + 1] }) by {}
                assert forall|a: int| 0 <= a < s.len() implies key_hash(#[trigger] s[a].key@) == h by {
                    let a2 = if a < i { a } else { a + 1 };
                    assert(s[a] == old_s[a2]);
                }
                assert forall|a: int, b: int| 0 <= a < s.len() && 0 <= b < s.len() && a != b
                    implies s[a].key@ != s[b].key@ by {
                    let a2 = if a < i { a } else { a + 1 };
                    let b2 = if b < i { b } else { b + 1 };
                    assert(s[a] == old_s[a2] && s[b] == old_s[b2]);
                }
                assert forall|k2: Seq<char>| #[trigger] index_of(s).contains_key(k2) <==> index_of(old_s).remove(k).contains_key(k2) by {
                    if index_of(s).contains_key(k2) {
                        let j = key_pos(s, k2);
                        let j2 = if j < i { j } else { j + 1 };
                        assert(s[j] == old_s[j2]);
                        assert(old_s[j2].key@ == k2);
                        assert(j2 != i);
                    }
                    if index_of(old_s).contains_key(k2) && k2 != k {
                        let j = key_pos(old_s, k2);
                        assert(j != i);
                        let j2 = if j < i { j } else { j - 1 };
                        assert(s[j2] == old_s[j]);
                        assert(s[j2].key@ == k2);
                    }
                }
                assert forall|k2: Seq<char>| #[trigger] index_of(s).contains_key(k2) implies index_of(s)[k2] == index_of(old_s).remove(k)[k2] by {
                    let j = key_pos(s, k2);
                    let j2 = if j < i { j } else { j + 1 };
                    assert(s[j] == old_s[j2]);
                    lemma_index_of_entry(s, j);
                    lemma_index_of_entry(old_s, j2);
                }
                assert(index_of(s) =~= index_of(old_s).remove(k));
            }
            Some(removed)
        },
        None => {
            proof {
                assert(!index_of(old_s).contains_key(k));
                assert(index_of(old_s) =~= index_of(old_s).remove(k));
            }
            None
        },
    }
}



/// The entries of the bucket for hash `h` (none if there is no such bucket).
pub open spec fn bucket_of(m: Map<u64, Vec<InMemoryEntry>>, h: u64) -> Seq<InMemoryEntry> {
    if m.contains_key(h) {
        m[h]@
    } else {
        Seq::empty()
    }
}

/// The index of live keys: buckets of entries keyed by the hash of their keys,
/// and the list of the hashes that have a bucket.
pub struct KeyIndex {
    buckets: HashMap<u64, Vec<InMemoryEntry>>,
    hashes: Vec<u64>,
}

impl View for KeyIndex {
    type V = Map<Seq<char>, u64>;

    /// Each key mapped to the offset its bucket holds for it.
    closed spec fn view(&self) -> Map<Seq<char>, u64> {
        Map::new(
            |k: Seq<char>| index_of(bucket_of(self.buckets@, key_hash(k))).contains_key(k),
            |k: Seq<char>| index_of(bucket_of(self.buckets@, key_hash(k)))[k],
        )
    }
}

impl KeyIndex {
    /// Each bucket holds distinct keys of its own hash, and the hash list names
    /// each bucket once.
    pub closed spec fn wf(&self) -> bool {
        &&& forall|h: u64| #[trigger] self.buckets@.contains_key(h)
            ==> keys_distinct(self.buckets@[h]@) && all_hash_to(self.buckets@[h]@, h)
        &&& self.hashes@.no_duplicates()
        &&& forall|h: u64| #[trigger] self.buckets@.contains_key(h) <==> self.hashes@.contains(h)
    }

    /// The empty index.
    pub fn new() -> (r: KeyIndex)
        ensures
            r.wf(),
            r@ == Map::<Seq<char>, u64>::empty(),
    {
        let r = KeyIndex { buckets: HashMap::new(), hashes: Vec::new() };
        assert(r@ =~= Map::<Seq<char>, u64>::empty());
        r
    }

    /// The offset the index holds for `key`.
    pub fn get(&self, key: &String) -> (r: Option<u64>)
        requires
            self.wf(),
        ensures
            r == (if self@.contains_key(key@) { Some(self@[key@]) } else { None::<u64> }),
    {
        let h = hash_key(key);
        match self.buckets.get(&h) {
            Some(b) => match find_key(b, key) {
                Some(i) => {
                    proof {
                        lemma_index_of_entry(b@, i as int);
                    }
                    Some(b[i].offset)
                },
                None => None,
            },
            None => None,
        }
    }

    /// Maps `key` to `offset`.
    pub fn insert(&mut self, key: String, offset: u64)
        requires
            old(self).wf(),
        ensures
            final(self).wf(),
            final(self)@ == old(self)@.insert(key@, offset),
    {
        let ghost k = key@;
        let h = hash_key(&key);
        let ghost ob = bucket_of(self.buckets@, h);
        let mut bucket = match self.buckets.remove(&h) {
            Some(b) => {
                assert(old(self).buckets@.contains_key(h));
                b
            },
            None => {
                self.hashes.push(h);
                assert(!old(self).buckets@.contains_key(h));
                assert(self.hashes@ == old(self).hashes@.push(h));
                Vec::new()
            },
        };
        assert(old(self).buckets@.contains_key(h) ==> self.hashes@ == old(self).hashes@);
        assert(!old(self).buckets@.contains_key(h) ==> self.hashes@ == old(self).hashes@.push(h));
        assert(bucket@ == ob);
        index_insert(&mut bucket, key, offset, Ghost(h));
        let ghost nb = bucket;
        self.buckets.insert(h, bucket);
        proof {
            let old_m = old(self).buckets@;
            let m = self.buckets@;
            assert(m == old_m.insert(h, nb));
            assert forall|h2: u64| #[trigger] m.contains_key(h2) <==> self.hashes@.contains(h2) by {
                assert(old_m.contains_key(h2) <==> old(self).hashes@.contains(h2));
                if !old_m.contains_key(h) {
                    assert(old(self).hashes@.push(h)[old(self).hashes@.len() as int] == h);
                    if old(self).hashes@.contains(h2) {
                        let q = choose|q: int| 0 <= q < old(self).hashes@.len() && old(self).hashes@[q] == h2;
                        assert(self.hashes@[q] == h2);
                    }
                    if self.hashes@.contains(h2) && h2 != h {
                        let q = choose|q: int| 0 <= q < self.hashes@.len() && self.hashes@[q] == h2;
                        assert(old(self).hashes@[q] == h2);
                    }
                }
            }
            assert(self.hashes@.no_duplicates()) by {
                if !old_m.contains_key(h) {
                    assert(!old(self).hashes@.contains(h));
                }
            }
            assert forall|k2: Seq<char>| #[trigger] self@.contains_key(k2) <==> old(self)@.insert(k, offset).contains_key(k2) by {
                if key_hash(k2) != h {
                    assert(bucket_of(m, key_hash(k2)) == bucket_of(old_m, key_hash(k2)));
                }
            }
            assert forall|k2: Seq<char>| #[trigger] self@.contains_key(k2) implies self@[k2] == old(self)@.insert(k, offset)[k2] by {
                if key_hash(k2) != h {
                    assert(bucket_of(m, key_hash(k2)) == bucket_of(old_m, key_hash(k2)));
                }
            }
            assert(self@ =~= old(self)@.insert(k, offset));
        }
    }

    /// Drops `key`, giving back its entry if it was there.
    pub fn remove(&mut self, key: &String) -> (r: Option<InMemoryEntry>)
        requires
            old(self).wf(),
        ensures
            final(self).wf(),
            final(self)@ == old(self)@.remove(key@),
            match r {
                Some(e) => old(self)@.contains_key(key@) && e.key@ == key@ && e.offset == old(self)@[key@],
                None => !old(self)@.contains_key(key@),
            },
    {
        let ghost k = key@;
        let h = hash_key(key);
        match self.buckets.remove(&h) {
            None => {
                proof {
                    assert(bucket_of(old(self).buckets@, h) =~= Seq::<InMemoryEntry>::empty());
                    assert(!index_of(Seq::<InMemoryEntry>::empty()).contains_key(k));
                    assert(self.buckets@ == old(self).buckets@);
                    assert(self@ =~= old(self)@.remove(k));
                }
                None
            },
            Some(b) => {
                let mut bucket = b;
                let r = index_remove(&mut bucket, key, Ghost(h));
                let ghost nb = bucket;
                self.buckets.insert(h, bucket);
                proof {
                    let old_m = old(self).buckets@;
                    let m = self.buckets@;
                    assert(m == old_m.insert(h, nb));
                    assert forall|h2: u64| #[trigger] m.contains_key(h2) <==> self.hashes@.contains(h2) by {
                        if h2 != h {
                            assert(old_m.contains_key(h2) <==> old(self).hashes@.contains(h2));
                        }
                    }
                    assert forall|k2: Seq<char>| #[trigger] self@.contains_key(k2) <==> old(self)@.remove(k).contains_key(k2) by {
                        if key_hash(k2) != h {
                            assert(bucket_of(m, key_hash(k2)) == bucket_of(old_m, key_hash(k2)));
                        }
                    }
                    assert forall|k2: Seq<char>| #[trigger] self@.contains_key(k2) implies self@[k2] == old(self)@.remove(k)[k2] by {
                        if key_hash(k2) != h {
                            assert(bucket_of(m, key_hash(k2)) == bucket_of(old_m, key_hash(k2)));
                        }
                    }
                    assert(self@ =~= old(self)@.remove(k));
                }
                r
            },
        }
    }

    /// Empties the index.
    pub fn clear(&mut self)
        ensures
            final(self).wf(),
            final(self)@ == Map::<Seq<char>, u64>::empty(),
    {
        self.buckets.clear();
        self.hashes.clear();
        assert(self@ =~= Map::<Seq<char>, u64>::empty());
    }

    /// All keys of the index, each once.
    pub fn keys(&self) -> (r: Vec<String>)
        requires
            self.wf(),
        ensures
            forall|i: int| 0 <= i < r@.len() ==> self@.contains_key(#[trigger] r@[i]@),
            forall|k: Seq<char>| #[trigger] self@.contains_key(k) ==> exists|i: int| 0 <= i < r@.len() && r@[i]@ == k,
            forall|i: int, j: int| 0 <= i < r@.len() && 0 <= j < r@.len() && i != j ==> r@[i]@ != r@[j]@,
    {
        let mut out: Vec<String> = Vec::new();
        let mut t: usize = 0;
        while t < self.hashes.len()
            invariant
                self.wf(),
                t <= self.hashes@.len(),
                forall|i: int| 0 <= i < out@.len() ==> self@.contains_key(#[trigger] out@[i]@)
                    && self.hashes@.subrange(0, t as int).contains(key_hash(out@[i]@)),
                forall|k: Seq<char>| #[trigger] self@.contains_key(k) && self.hashes@.subrange(0, t as int).contains(key_hash(k))
                    ==> exists|i: int| 0 <= i < out@.len() && out@[i]@ == k,
                forall|i: int, j: int| 0 <= i < out@.len() && 0 <= j < out@.len() && i != j ==> out@[i]@ != out@[j]@,
            decreases self.hashes@.len() - t,
        {
            let h = self.hashes[t];
            assert(self.hashes@.contains(h));
            let b = self.buckets.get(&h).unwrap();
            let ghost before = out@;
            let mut u: usize = 0;
            while u < b.len()
                invariant
                    self.wf(),
                    t < self.hashes@.len(),
                    h == self.hashes@[t as int],
                    self.buckets@.contains_key(h),
                    b@ == self.buckets@[h]@,
                    u <= b@.len(),
                    out@.len() == before.len() + u,
                    forall|i: int| 0 <= i < before.len() ==> out@[i] == before[i],
                    forall|i: int| 0 <= i < u ==> #[trigger] out@[before.len() + i]@ == b@[i].key@,
                    forall|i: int| 0 <= i < before.len() ==> self@.contains_key(#[trigger] before[i]@)
                        && self.hashes@.subrange(0, t as int).contains(key_hash(before[i]@)),
                    forall|i: int, j: int| 0 <= i < before.len() && 0 <= j < before.len() && i != j ==> before[i]@ != before[j]@,
                decreases b@.len() - u,
            {
                out.push(b[u].key.clone());
                u = u + 1;
            }
            proof {
                let hs = self.hashes@;
                assert(hs.subrange(0, t + 1) =~= hs.subrange(0, t as int).push(h));
                assert(!hs.subrange(0, t as int).contains(h)) by {
                    if hs.subrange(0, t as int).contains(h) {
                        let q = choose|q: int| 0 <= q < t && hs.subrange(0, t as int)[q] == h;
                        assert(hs[q] == hs[t as int]);
                    }
                }
                assert forall|i: int| 0 <= u && i >= before.len() && i < out@.len() implies
                    self@.contains_key(#[trigger] out@[i]@) && key_hash(out@[i]@) == h by {
                    let e = i - before.len();
                    assert(out@[before.len() + e]@ == b@[e].key@);
                    lemma_index_of_entry(b@, e);
                }
                assert forall|i: int| 0 <= i < out@.len() implies self@.contains_key(#[trigger] out@[i]@)
                    && hs.subrange(0, t + 1).contains(key_hash(out@[i]@)) by {
                    if i < before.len() {
                        assert(out@[i] == before[i]);
                    } else {
                        assert(key_hash(out@[i]@) == h);
                        assert(hs.subrange(0, t + 1)[t as int] == h);
                    }
                }
                assert forall|k: Seq<char>| #[trigger] self@.contains_key(k) && hs.subrange(0, t + 1).contains(key_hash(k))
                    implies exists|i: int| 0 <= i < out@.len() && out@[i]@ == k by {
                    if hs.subrange(0, t as int).contains(key_hash(k)) {
                        let i = choose|i: int| 0 <= i < before.len() && before[i]@ == k;
                        assert(out@[i] == before[i]);
                    } else {
                        assert(key_hash(k) == h);
                        let e = key_pos(b@, k);
                        assert(out@[before.len() + e]@ == b@[e].key@);
                    }
                }
                assert forall|i: int, j: int| 0 <= i < out@.len() && 0 <= j < out@.len() && i != j implies out@[i]@ != out@[j]@ by {
                    if i < before.len() && j < before.len() {
                        assert(out@[i] == before[i] && out@[j] == before[j]);
                    } else if i >= before.len() && j >= before.len() {
                        assert(out@[before.len() + (i - before.len())]@ == b@[i - before.len()].key@);
                        assert(out@[before.len() + (j - before.len())]@ == b@[j - before.len()].key@);
                    } else if i < before.len() {
                        assert(out@[i] == before[i]);
                        assert(out@[before.len() + (j - before.len())]@ == b@[j - before.len()].key@);
                        assert(key_hash(b@[j - before.len()].key@) == h);
                    } else {
                        assert(out@[j] == before[j]);
                        assert(out@[before.len() + (i - before.len())]@ == b@[i - before.len()].key@);
                        assert(key_hash(b@[i - before.len()].key@) == h);
                    }
                }
            }
            t = t + 1;
        }
        proof {
            assert forall|k: Seq<char>| #[trigger] self@.contains_key(k) implies exists|i: int| 0 <= i < out@.len() && out@[i]@ == k by {
                let h = key_hash(k);
                assert(self.buckets@.contains_key(h));
                assert(self.hashes@.contains(h));
                assert(self.hashes@.subrange(0, t as int) =~= self.hashes@);
            }
        }
        out
    }
}

} // verus!
