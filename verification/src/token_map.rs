//! A map from tokens (sequences of characters) to ids, stored as a
//! separately chained hash table.
use vstd::prelude::*;
use vstd::utf8::encode_utf8;
use crate::text::chars_to_string;

verus! {

/// The prime modulus of the polynomial token hash.
pub const HASH_MODULUS: u64 = 1_000_000_007;

/// Smallest and largest number of buckets a map is created with.
pub const MIN_BUCKETS: usize = 16;

pub const MAX_BUCKETS: usize = 1_048_576;

/// Polynomial hash of a character sequence, `h(s ++ [c]) = (31 * h(s) + c) mod p`.
pub open spec fn chars_hash(s: Seq<char>) -> nat
    decreases s.len(),
{
    if s.len() == 0 {
        0
    } else {
        ((chars_hash(s.drop_last()) * 31 + (s.last() as u32 as nat)) % (HASH_MODULUS as nat)) as nat
    }
}

/// Computes `chars_hash` of a character slice.
pub fn hash_chars(key: &[char]) -> (h: u64)
    ensures
        h == chars_hash(key@),
        h < HASH_MODULUS,
{
    let mut h: u64 = 0;
    let mut i: usize = 0;
    while i < key.len()
        invariant
            i <= key.len(),
            h == chars_hash(key@.take(i as int)),
            h < HASH_MODULUS,
        decreases key.len() - i,
    {
        assert(key@.take(i + 1).drop_last() == key@.take(i as int));
        assert(key@.take(i + 1).last() == key@[i as int]);
        let c: u32 = key[i] as u32;
        h = (h * 31 + c as u64) % HASH_MODULUS;
        i += 1;
    }
    assert(key@.take(key.len() as int) == key@);
    h
}

/// Whether two character slices are equal.
pub fn chars_equal(a: &[char], b: &[char]) -> (r: bool)
    ensures
        r == (a@ == b@),
{
    if a.len() != b.len() {
        return false;
    }
    let mut i: usize = 0;
    while i < a.len()
        invariant
            i <= a.len(),
            a.len() == b.len(),
            forall|k: int| 0 <= k < i ==> a@[k] == b@[k],
        decreases a.len() - i,
    {
        if a[i] != b[i] {
            return false;
        }
        i += 1;
    }
    assert(a@ =~= b@);
    true
}

/// A copy of a character slice.
pub fn copy_chars(a: &[char]) -> (r: Vec<char>)
    ensures
        r@ == a@,
{
    let mut r: Vec<char> = Vec::new();
    let mut i: usize = 0;
    while i < a.len()
        invariant
            i <= a.len(),
            r@ == a@.take(i as int),
        decreases a.len() - i,
    {
        r.push(a[i]);
        i += 1;
        assert(r@ == a@.take(i as int));
    }
    assert(a@.take(a.len() as int) == a@);
    r
}

/// A finite map from tokens to ids.
#[derive(Debug, Clone)]
pub struct TokenMap {
    buckets: Vec<Vec<(Vec<char>, usize)>>,
    count: usize,
}

impl TokenMap {
    pub closed spec fn num_buckets(self) -> nat {
        self.buckets@.len()
    }

    pub closed spec fn bucket_of(self, k: Seq<char>) -> int {
        (chars_hash(k) % self.num_buckets()) as int
    }

    pub closed spec fn bucket_len(self, b: int) -> int {
        self.buckets@[b]@.len() as int
    }

    pub closed spec fn key_at(self, b: int, j: int) -> Seq<char> {
        self.buckets@[b]@[j].0@
    }

    pub closed spec fn val_at(self, b: int, j: int) -> usize {
        self.buckets@[b]@[j].1
    }

    pub closed spec fn has_key(self, k: Seq<char>) -> bool {
        exists|j: int| 0 <= j < self.bucket_len(self.bucket_of(k)) && #[trigger] self.key_at(self.bucket_of(k), j) == k
    }

    pub closed spec fn value_of(self, k: Seq<char>) -> usize {
        let b = self.bucket_of(k);
        let j = choose|j: int| 0 <= j < self.bucket_len(b) && #[trigger] self.key_at(b, j) == k;
        self.val_at(b, j)
    }

    pub closed spec fn as_map(self) -> Map<Seq<char>, usize> {
        Map::new(|k: Seq<char>| self.has_key(k), |k: Seq<char>| self.value_of(k))
    }

    /// The internal invariant: every entry sits in the bucket of its hash,
    /// keys of a bucket are pairwise distinct, and `count` is the number of keys.
    pub closed spec fn wf(self) -> bool {
        &&& self.num_buckets() > 0
        &&& forall|b: int, j: int|
            0 <= b < self.num_buckets() && 0 <= j < self.bucket_len(b) ==> self.bucket_of(
                #[trigger] self.key_at(b, j),
            ) == b
        &&& forall|b: int, j1: int, j2: int|
            0 <= b < self.num_buckets() && 0 <= j1 < self.bucket_len(b) && 0 <= j2
                < self.bucket_len(b) && j1 != j2 ==> #[trigger] self.key_at(b, j1)
                != #[trigger] self.key_at(b, j2)
        &&& self.as_map().dom().finite()
        &&& self.as_map().dom().len() == self.count
    }

    /// A well-formed map has finitely many keys.
    pub proof fn lemma_dom_finite(self)
        requires
            self.wf(),
        ensures
            self@.dom().finite(),
    {
    }

    proof fn lemma_bucket_in_range(self, k: Seq<char>)
        requires
            self.num_buckets() > 0,
        ensures
            0 <= self.bucket_of(k) < self.num_buckets(),
    {
    }

    /// An entry found at position `j` of the key's bucket gives the key's value.
    proof fn lemma_entry_value(self, k: Seq<char>, j: int)
        requires
            self.wf(),
            0 <= j < self.bucket_len(self.bucket_of(k)),
            self.key_at(self.bucket_of(k), j) == k,
        ensures
            self.as_map().contains_key(k),
            self.as_map()[k] == self.val_at(self.bucket_of(k), j),
    {
        let b = self.bucket_of(k);
        self.lemma_bucket_in_range(k);
        assert(self.has_key(k));
        let j2 = choose|j2: int| 0 <= j2 < self.bucket_len(b) && #[trigger] self.key_at(b, j2) == k;
        assert(self.key_at(b, j2) == k);
        if j2 != j {
            assert(self.key_at(b, j) != self.key_at(b, j2));
        }
    }

    /// Any key of the map lies at some position of its bucket.
    proof fn lemma_key_position(self, k: Seq<char>) -> (j: int)
        requires
            self.wf(),
            self.as_map().contains_key(k),
        ensures
            0 <= j < self.bucket_len(self.bucket_of(k)),
            self.key_at(self.bucket_of(k), j) == k,
            self.as_map()[k] == self.val_at(self.bucket_of(k), j),
    {
        assert(self.has_key(k));
        let b = self.bucket_of(k);
        let j = choose|j: int| 0 <= j < self.bucket_len(b) && #[trigger] self.key_at(b, j) == k;
        self.lemma_entry_value(k, j);
        j
    }

    /// An empty map with room for about `cap` keys: its number of buckets is
    /// `cap`, kept between `MIN_BUCKETS` and `MAX_BUCKETS`.
    pub fn with_capacity(cap: usize) -> (res: Self)
        ensures
            res.wf(),
            res@ == Map::<Seq<char>, usize>::empty(),
            res.num_buckets() == (if cap < MIN_BUCKETS {
                MIN_BUCKETS
            } else if cap > MAX_BUCKETS {
                MAX_BUCKETS
            } else {
                cap
            }),
    {
        let nb: usize = if cap < MIN_BUCKETS {
            MIN_BUCKETS
        } else if cap > MAX_BUCKETS {
            MAX_BUCKETS
        } else {
            cap
        };
        let mut buckets: Vec<Vec<(Vec<char>, usize)>> = Vec::new();
        let mut i: usize = 0;
        while i < nb
            invariant
                i <= nb,
                buckets@.len() == i,
                forall|b: int| 0 <= b < i ==> (#[trigger] buckets@[b])@.len() == 0,
            decreases nb - i,
        {
            buckets.push(Vec::new());
            i += 1;
        }
        let res = TokenMap { buckets, count: 0 };
        assert(res.as_map() =~= Map::<Seq<char>, usize>::empty()) by {
            assert forall|k: Seq<char>| !res.has_key(k) by {
                res.lemma_bucket_in_range(k);
            }
        }
        res
    }

    /// An empty map.
    pub fn new() -> (res: Self)
        ensures
            res.wf(),
            res@ == Map::<Seq<char>, usize>::empty(),
    {
        Self::with_capacity(0)
    }

    fn bucket_index(&self, key: &[char]) -> (b: usize)
        requires
            self.wf(),
        ensures
            b == self.bucket_of(key@),
            b < self.num_buckets(),
    {
        let h = hash_chars(key);
        let nb = self.buckets.len();
        (h % (nb as u64)) as usize
    }

    /// The number of keys.
    pub fn len(&self) -> (n: usize)
        requires
            self.wf(),
        ensures
            n == self@.dom().len(),
    {
        self.count
    }

    /// The id of `key`, if `key` is in the map.
    pub fn get(&self, key: &[char]) -> (r: Option<usize>)
        requires
            self.wf(),
        ensures
            r == (if self@.contains_key(key@) {
                Some(self@[key@])
            } else {
                None::<usize>
            }),
    {
        let b = self.bucket_index(key);
        let bucket = &self.buckets[b];
        let mut j: usize = 0;
        while j < bucket.len()
            invariant
                self.wf(),
                b == self.bucket_of(key@),
                b < self.num_buckets(),
                *bucket == self.buckets@[b as int],
                j <= bucket.len(),
                forall|jj: int| 0 <= jj < j ==> self.key_at(b as int, jj) != key@,
            decreases bucket.len() - j,
        {
            if chars_equal(bucket[j].0.as_slice(), key) {
                proof {
                    self.lemma_entry_value(key@, j as int);
                }
                return Some(bucket[j].1);
            }
            j += 1;
        }
        proof {
            if self.as_map().contains_key(key@) {
                let jj = self.lemma_key_position(key@);
            }
        }
        None
    }

    /// Inserts `key` with id `value`, replacing the id that `key` had.
    pub fn insert(&mut self, key: Vec<char>, value: usize)
        requires
            old(self).wf(),
            old(self)@.dom().len() < usize::MAX,
        ensures
            final(self).wf(),
            final(self)@ == old(self)@.insert(key@, value),
    {
        let ghost old_map = self.as_map();
        let ghost old_self = *self;
        let b = self.bucket_index(key.as_slice());
        let mut found: Option<usize> = None;
        {
            let bucket = &self.buckets[b];
            let mut j: usize = 0;
            while j < bucket.len()
                invariant_except_break
                    found.is_none(),
                invariant
                    *self == old_self,
                    old_self.wf(),
                    b == old_self.bucket_of(key@),
                    b < old_self.num_buckets(),
                    *bucket == old_self.buckets@[b as int],
                    j <= bucket.len(),
                    forall|jj: int| 0 <= jj < j ==> old_self.key_at(b as int, jj) != key@,
                ensures
                    match found {
                        Some(jf) => jf < bucket.len() && old_self.key_at(b as int, jf as int) == key@,
                        None => forall|jj: int| 0 <= jj < bucket.len() ==> old_self.key_at(b as int, jj) != key@,
                    },
                decreases bucket.len() - j,
            {
                if chars_equal(bucket[j].0.as_slice(), key.as_slice()) {
                    found = Some(j);
                    break;
                }
                j += 1;
            }
        }
        match found {
            Some(jf) => {
                self.buckets[b][jf].1 = value;
                proof {
                    assert forall|bb: int, jj: int|
                        0 <= bb < self.num_buckets() && 0 <= jj < self.bucket_len(bb) implies
                        #[trigger] self.key_at(bb, jj) == old_self.key_at(bb, jj)
                        && self.bucket_len(bb) == old_self.bucket_len(bb)
                        && (bb != b || jj != jf ==> self.val_at(bb, jj) == old_self.val_at(bb, jj)) by {}
                    assert(self.num_buckets() == old_self.num_buckets());
                    assert forall|k: Seq<char>| #[trigger] self.bucket_of(k) == old_self.bucket_of(k) by {}
                    assert forall|bb: int| 0 <= bb < self.num_buckets() implies #[trigger] self.bucket_len(bb) == old_self.bucket_len(bb) by {}
                    assert(self.as_map() =~= old_map.insert(key@, value)) by {
                        assert forall|k: Seq<char>| #[trigger] self.has_key(k) == (old_self.has_key(k) || k == key@) by {
                            old_self.lemma_bucket_in_range(k);
                            if old_self.has_key(k) {
                                let w = choose|w: int| 0 <= w < old_self.bucket_len(old_self.bucket_of(k)) && #[trigger] old_self.key_at(old_self.bucket_of(k), w) == k;
                                assert(self.key_at(self.bucket_of(k), w) == k);
                            }
                            if k == key@ {
                                assert(self.key_at(self.bucket_of(k), jf as int) == k);
                            }
                            if self.has_key(k) {
                                let w = choose|w: int| 0 <= w < self.bucket_len(self.bucket_of(k)) && #[trigger] self.key_at(self.bucket_of(k), w) == k;
                                assert(old_self.key_at(old_self.bucket_of(k), w) == k);
                            }
                        }
                        assert(self.wf_shape());
                        assert forall|k: Seq<char>| self.has_key(k) implies #[trigger] self.value_of(k) == (if k == key@ { value } else { old_self.value_of(k) }) by {
                            let j = self.lemma_position_of(k);
                            if k == key@ {
                                self.lemma_value_at_shape(k, jf as int);
                            } else {
                                self.lemma_value_at_shape(k, j);
                                old_self.lemma_entry_value(k, j);
                                assert(j != jf || self.bucket_of(k) != b);
                            }
                        }
                    }
                    assert(self.as_map().dom() =~= old_map.dom());
                }
            },
            None => {
                let entry = (key, value);
                proof {
                    assert(!old_self.has_key(key@)) by {
                        if old_self.has_key(key@) {
                            let w = old_self.lemma_position_of(key@);
                        }
                    }
                }
                self.buckets[b].push(entry);
                self.count = self.count + 1;
                proof {
                    assert(self.num_buckets() == old_self.num_buckets());
                    assert forall|k: Seq<char>| #[trigger] self.bucket_of(k) == old_self.bucket_of(k) by {}
                    assert forall|bb: int, jj: int|
                        0 <= bb < old_self.num_buckets() && 0 <= jj < old_self.bucket_len(bb) implies
                        #[trigger] self.key_at(bb, jj) == old_self.key_at(bb, jj)
                        && self.val_at(bb, jj) == old_self.val_at(bb, jj) by {}
                    assert(self.bucket_len(b as int) == old_self.bucket_len(b as int) + 1);
                    assert forall|bb: int| 0 <= bb < self.num_buckets() && bb != b implies #[trigger] self.bucket_len(bb) == old_self.bucket_len(bb) by {}
                    let nj = old_self.bucket_len(b as int);
                    assert(self.key_at(b as int, nj) == key@);
                    assert(self.val_at(b as int, nj) == value);
                    assert(self.wf_shape());
                    assert forall|k: Seq<char>| #[trigger] self.has_key(k) == (old_self.has_key(k) || k == key@) by {
                        old_self.lemma_bucket_in_range(k);
                        if old_self.has_key(k) {
                            let w = old_self.lemma_position_of(k);
                            assert(self.key_at(self.bucket_of(k), w) == k);
                        }
                        if k == key@ {
                            assert(self.key_at(self.bucket_of(k), nj) == k);
                        }
                        if self.has_key(k) {
                            let w = self.lemma_position_of(k);
                            if k != key@ {
                                assert(old_self.key_at(old_self.bucket_of(k), w) == k);
                            }
                        }
                    }
                    assert forall|k: Seq<char>| self.has_key(k) implies #[trigger] self.value_of(k) == (if k == key@ { value } else { old_self.value_of(k) }) by {
                        let j = self.lemma_position_of(k);
                        if k == key@ {
                            self.lemma_value_at_shape(k, nj);
                        } else {
                            self.lemma_value_at_shape(k, j);
                            assert(old_self.key_at(old_self.bucket_of(k), j) == k);
                            old_self.lemma_entry_value(k, j);
                        }
                    }
                    assert(self.as_map() =~= old_map.insert(key@, value));
                    assert(self.as_map().dom() =~= old_map.dom().insert(key@));
                }
            },
        }
    }

    /// Some key whose id is `id`, if there is one.
    pub fn key_with_value(&self, id: usize) -> (r: Option<Vec<char>>)
        requires
            self.wf(),
        ensures
            match r {
                Some(k) => self@.contains_key(k@) && self@[k@] == id,
                None => forall|k: Seq<char>| #[trigger] self@.contains_key(k) ==> self@[k] != id,
            },
    {
        let nb = self.buckets.len();
        let mut b: usize = 0;
        while b < nb
            invariant
                self.wf(),
                nb == self.num_buckets(),
                b <= nb,
                forall|bb: int, jj: int|
                    0 <= bb < b && 0 <= jj < self.bucket_len(bb) ==> #[trigger] self.val_at(bb, jj) != id,
            decreases nb - b,
        {
            let bucket = &self.buckets[b];
            let mut j: usize = 0;
            while j < bucket.len()
                invariant
                    self.wf(),
                    nb == self.num_buckets(),
                    b < nb,
                    *bucket == self.buckets@[b as int],
                    j <= bucket.len(),
                    forall|bb: int, jj: int|
                        0 <= bb < b && 0 <= jj < self.bucket_len(bb) ==> #[trigger] self.val_at(bb, jj) != id,
                    forall|jj: int| 0 <= jj < j ==> #[trigger] self.val_at(b as int, jj) != id,
                decreases bucket.len() - j,
            {
                if bucket[j].1 == id {
                    let k = copy_chars(bucket[j].0.as_slice());
                    proof {
                        assert(self.bucket_of(self.key_at(b as int, j as int)) == b);
                        self.lemma_entry_value(k@, j as int);
                    }
                    return Some(k);
                }
                j += 1;
            }
            b += 1;
        }
        proof {
            assert forall|k: Seq<char>| #[trigger] self@.contains_key(k) implies self@[k] != id by {
                let w = self.lemma_key_position(k);
                self.lemma_bucket_in_range(k);
                assert(self.val_at(self.bucket_of(k), w) != id);
            }
        }
        None
    }

    /// The keys listed by id, for a map whose ids are exactly `0 .. len`.
    pub fn keys_by_id(&self) -> (res: Vec<Vec<char>>)
        requires
            self.wf(),
            ids_are_dense(self@),
        ensures
            res@.len() == self@.dom().len(),
            forall|i: int|
                0 <= i < res@.len() ==> self@.contains_key(#[trigger] res@[i]@) && self@[res@[i]@]
                    == i,
    {
        let n = self.count;
        let mut slots: Vec<Option<Vec<char>>> = Vec::new();
        let mut i: usize = 0;
        while i < n
            invariant
                i <= n,
                slots@.len() == i,
                forall|ii: int| 0 <= ii < i ==> (#[trigger] slots@[ii]) is None,
            decreases n - i,
        {
            slots.push(None);
            i += 1;
        }
        let nb = self.buckets.len();
        let mut b: usize = 0;
        while b < nb
            invariant
                self.wf(),
                ids_are_dense(self@),
                n == self@.dom().len(),
                nb == self.num_buckets(),
                b <= nb,
                slots@.len() == n,
                forall|ii: int|
                    0 <= ii < n ==> match #[trigger] slots@[ii] {
                        Some(t) => self@.contains_key(t@) && self@[t@] == ii,
                        None => true,
                    },
                forall|bb: int, jj: int|
                    0 <= bb < b && 0 <= jj < self.bucket_len(bb) ==> self.val_at(bb, jj) < n
                        && slots@[#[trigger] self.val_at(bb, jj) as int] is Some,
            decreases nb - b,
        {
            let bucket = &self.buckets[b];
            let mut j: usize = 0;
            while j < bucket.len()
                invariant
                    self.wf(),
                    ids_are_dense(self@),
                    n == self@.dom().len(),
                    nb == self.num_buckets(),
                    b < nb,
                    *bucket == self.buckets@[b as int],
                    j <= bucket.len(),
                    slots@.len() == n,
                    forall|ii: int|
                        0 <= ii < n ==> match #[trigger] slots@[ii] {
                            Some(t) => self@.contains_key(t@) && self@[t@] == ii,
                            None => true,
                        },
                    forall|bb: int, jj: int|
                        0 <= bb < b && 0 <= jj < self.bucket_len(bb) ==> self.val_at(bb, jj) < n
                            && slots@[#[trigger] self.val_at(bb, jj) as int] is Some,
                    forall|jj: int|
                        0 <= jj < j ==> self.val_at(b as int, jj) < n
                            && slots@[#[trigger] self.val_at(b as int, jj) as int] is Some,
                decreases bucket.len() - j,
            {
                let ghost k = self.key_at(b as int, j as int);
                proof {
                    assert(self.bucket_of(k) == b);
                    self.lemma_entry_value(k, j as int);
                }
                let id = bucket[j].1;
                let key = copy_chars(bucket[j].0.as_slice());
                slots.set(id, Some(key));
                j += 1;
            }
            b += 1;
        }
        let mut res: Vec<Vec<char>> = Vec::new();
        let mut i: usize = 0;
        while i < n
            invariant
                self.wf(),
                ids_are_dense(self@),
                n == self@.dom().len(),
                nb == self.num_buckets(),
                i <= n,
                slots@.len() == n,
                res@.len() == i,
                forall|ii: int|
                    0 <= ii < n ==> match #[trigger] slots@[ii] {
                        Some(t) => self@.contains_key(t@) && self@[t@] == ii,
                        None => true,
                    },
                forall|bb: int, jj: int|
                    0 <= bb < nb && 0 <= jj < self.bucket_len(bb) ==> self.val_at(bb, jj) < n
                        && slots@[#[trigger] self.val_at(bb, jj) as int] is Some,
                forall|ii: int|
                    0 <= ii < i ==> self@.contains_key(#[trigger] res@[ii]@) && self@[res@[ii]@]
                        == ii,
            decreases n - i,
        {
            proof {
                assert(id_in_use(self@, i as int));
                let k = choose|k: Seq<char>| self@.contains_key(k) && #[trigger] self@[k] == i;
                let w = self.lemma_key_position(k);
                self.lemma_bucket_in_range(k);
                assert(slots@[self.val_at(self.bucket_of(k), w) as int] is Some);
            }
            match &slots[i] {
                Some(t) => {
                    res.push(copy_chars(t.as_slice()));
                },
                None => {
                    res.push(Vec::new());
                },
            }
            i += 1;
        }
        res
    }


    /// Whether the ids are exactly `0 .. len`, each used by one key.
    pub fn has_dense_ids(&self) -> (b: bool)
        requires
            self.wf(),
        ensures
            b == ids_are_dense(self@),
    {
        let n = self.count;
        let mut seen: Vec<bool> = Vec::new();
        let mut i: usize = 0;
        while i < n
            invariant
                i <= n,
                seen@.len() == i,
                forall|ii: int| 0 <= ii < i ==> !(#[trigger] seen@[ii]),
            decreases n - i,
        {
            seen.push(false);
            i += 1;
        }
        let nb = self.buckets.len();
        let mut b: usize = 0;
        while b < nb
            invariant
                self.wf(),
                n == self@.dom().len(),
                nb == self.num_buckets(),
                b <= nb,
                seen@.len() == n,
                forall|ii: int| 0 <= ii < n && #[trigger] seen@[ii] ==> exists|bb: int, jj: int|
                    #![trigger self.val_at(bb, jj)]
                    0 <= bb < b && 0 <= jj < self.bucket_len(bb) && self.val_at(bb, jj) == ii,
                forall|bb: int, jj: int|
                    0 <= bb < b && 0 <= jj < self.bucket_len(bb) ==> #[trigger] self.val_at(bb, jj) < n
                        && seen@[self.val_at(bb, jj) as int],
                forall|bb1: int, jj1: int, bb2: int, jj2: int|
                    0 <= bb1 < b && 0 <= jj1 < self.bucket_len(bb1) && 0 <= bb2 < b && 0 <= jj2
                        < self.bucket_len(bb2) && (bb1 != bb2 || jj1 != jj2) ==> #[trigger] self.val_at(bb1, jj1)
                        != #[trigger] self.val_at(bb2, jj2),
            decreases nb - b,
        {
            let bucket = &self.buckets[b];
            let mut j: usize = 0;
            while j < bucket.len()
                invariant
                    self.wf(),
                    n == self@.dom().len(),
                    nb == self.num_buckets(),
                    b < nb,
                    *bucket == self.buckets@[b as int],
                    j <= bucket.len(),
                    seen@.len() == n,
                    forall|ii: int| 0 <= ii < n && #[trigger] seen@[ii] ==> exists|bb: int, jj: int|
                        #![trigger self.val_at(bb, jj)]
                        ((0 <= bb < b && 0 <= jj < self.bucket_len(bb)) || (bb == b && 0 <= jj < j))
                            && self.val_at(bb, jj) == ii,
                    forall|bb: int, jj: int|
                        ((0 <= bb < b && 0 <= jj < self.bucket_len(bb)) || (bb == b && 0 <= jj < j))
                            ==> #[trigger] self.val_at(bb, jj) < n && seen@[self.val_at(bb, jj) as int],
                    forall|bb1: int, jj1: int, bb2: int, jj2: int|
                        ((0 <= bb1 < b && 0 <= jj1 < self.bucket_len(bb1)) || (bb1 == b && 0 <= jj1 < j))
                            && ((0 <= bb2 < b && 0 <= jj2 < self.bucket_len(bb2)) || (bb2 == b && 0 <= jj2
                            < j)) && (bb1 != bb2 || jj1 != jj2) ==> #[trigger] self.val_at(bb1, jj1)
                            != #[trigger] self.val_at(bb2, jj2),
                decreases bucket.len() - j,
            {
                let id = bucket[j].1;
                let ghost k = self.key_at(b as int, j as int);
                proof {
                    assert(self.bucket_of(k) == b);
                    self.lemma_entry_value(k, j as int);
                }
                if id >= n {
                    proof {
                        assert(self@.contains_key(k) && self@[k] >= self@.dom().len());
                    }
                    return false;
                }
                if seen[id] {
                    proof {
                        let (bb, jj) = choose|bb: int, jj: int|
                            ((0 <= bb < b && 0 <= jj < self.bucket_len(bb)) || (bb == b && 0 <= jj < j))
                                && #[trigger] self.val_at(bb, jj) == id;
                        let k2 = self.key_at(bb, jj);
                        assert(self.bucket_of(k2) == bb);
                        self.lemma_entry_value(k2, jj);
                        if k2 == k {
                            assert(bb == b);
                            assert(self.key_at(b as int, jj) == self.key_at(b as int, j as int));
                        }
                        assert(self@.contains_key(k) && self@.contains_key(k2) && k != k2 && self@[k] == self@[k2]);
                    }
                    return false;
                }
                seen.set(id, true);
                j += 1;
            }
            b += 1;
        }
        let mut i: usize = 0;
        while i < n
            invariant
                self.wf(),
                n == self@.dom().len(),
                nb == self.num_buckets(),
                i <= n,
                seen@.len() == n,
                forall|ii: int| 0 <= ii < n && #[trigger] seen@[ii] ==> exists|bb: int, jj: int|
                    #![trigger self.val_at(bb, jj)]
                    0 <= bb < nb && 0 <= jj < self.bucket_len(bb) && self.val_at(bb, jj) == ii,
                forall|ii: int| 0 <= ii < i ==> #[trigger] seen@[ii],
                forall|bb: int, jj: int|
                    0 <= bb < nb && 0 <= jj < self.bucket_len(bb) ==> #[trigger] self.val_at(bb, jj) < n
                        && seen@[self.val_at(bb, jj) as int],
                forall|bb1: int, jj1: int, bb2: int, jj2: int|
                    0 <= bb1 < nb && 0 <= jj1 < self.bucket_len(bb1) && 0 <= bb2 < nb && 0 <= jj2
                        < self.bucket_len(bb2) && (bb1 != bb2 || jj1 != jj2) ==> #[trigger] self.val_at(bb1, jj1)
                        != #[trigger] self.val_at(bb2, jj2),
            decreases n - i,
        {
            if !seen[i] {
                proof {
                    assert forall|k: Seq<char>| #[trigger] self@.contains_key(k) implies self@[k] != i by {
                        let w = self.lemma_key_position(k);
                        self.lemma_bucket_in_range(k);
                    }
                    if id_in_use(self@, i as int) {
                        let k = choose|k: Seq<char>| self@.contains_key(k) && #[trigger] self@[k] == i as int;
                    }
                }
                return false;
            }
            i += 1;
        }
        proof {
            assert forall|k: Seq<char>| #[trigger] self@.contains_key(k) implies self@[k] < self@.dom().len() by {
                let w = self.lemma_key_position(k);
                self.lemma_bucket_in_range(k);
            }
            assert forall|k1: Seq<char>, k2: Seq<char>|
                #[trigger] self@.contains_key(k1) && #[trigger] self@.contains_key(k2) && k1 != k2
                implies self@[k1] != self@[k2] by {
                let w1 = self.lemma_key_position(k1);
                let w2 = self.lemma_key_position(k2);
                self.lemma_bucket_in_range(k1);
                self.lemma_bucket_in_range(k2);
                let b1 = self.bucket_of(k1);
                let b2 = self.bucket_of(k2);
                assert(b1 != b2 || w1 != w2);
                assert(self.val_at(b1, w1) != self.val_at(b2, w2));
            }
            assert forall|ii: int| 0 <= ii < self@.dom().len() implies #[trigger] id_in_use(self@, ii) by {
                assert(seen@[ii]);
                let (bb, jj) = choose|bb: int, jj: int|
                    0 <= bb < nb && 0 <= jj < self.bucket_len(bb) && #[trigger] self.val_at(bb, jj) == ii;
                let k = self.key_at(bb, jj);
                assert(self.bucket_of(k) == bb);
                self.lemma_entry_value(k, jj);
            }
        }
        true
    }


    /// Whether every key's UTF-8 encoding is at most `limit` bytes long.
    pub fn keys_fit_utf8(&self, limit: usize) -> (b: bool)
        requires
            self.wf(),
        ensures
            b == forall|k: Seq<char>| #[trigger] self@.contains_key(k) ==> encode_utf8(k).len() <= limit,
    {
        let nb = self.buckets.len();
        let mut b: usize = 0;
        while b < nb
            invariant
                self.wf(),
                nb == self.num_buckets(),
                b <= nb,
                forall|bb: int, jj: int|
                    0 <= bb < b && 0 <= jj < self.bucket_len(bb) ==> encode_utf8(#[trigger] self.key_at(bb, jj)).len() <= limit,
            decreases nb - b,
        {
            let bucket = &self.buckets[b];
            let mut j: usize = 0;
            while j < bucket.len()
                invariant
                    self.wf(),
                    nb == self.num_buckets(),
                    b < nb,
                    *bucket == self.buckets@[b as int],
                    j <= bucket.len(),
                    forall|bb: int, jj: int|
                        0 <= bb < b && 0 <= jj < self.bucket_len(bb) ==> encode_utf8(#[trigger] self.key_at(bb, jj)).len() <= limit,
                    forall|jj: int| 0 <= jj < j ==> encode_utf8(#[trigger] self.key_at(b as int, jj)).len() <= limit,
                decreases bucket.len() - j,
            {
                let s = chars_to_string(bucket[j].0.as_slice());
                let bytes = s.as_str().as_bytes();
                assert(bytes@ == encode_utf8(s@));
                if bytes.len() > limit {
                    proof {
                        let k = self.key_at(b as int, j as int);
                        assert(s@ == k);
                        assert(bytes@ == encode_utf8(k));
                        assert(self.bucket_of(k) == b);
                        self.lemma_entry_value(k, j as int);
                        assert(encode_utf8(k).len() > limit);
                        assert(self@.contains_key(k));
                    }
                    return false;
                }
                j += 1;
            }
            b += 1;
        }
        proof {
            assert forall|k: Seq<char>| #[trigger] self@.contains_key(k) implies encode_utf8(k).len() <= limit by {
                let w = self.lemma_key_position(k);
                self.lemma_bucket_in_range(k);
            }
        }
        true
    }

    /// The shape part of the invariant (all but the count).
    closed spec fn wf_shape(self) -> bool {
        &&& self.num_buckets() > 0
        &&& forall|b: int, j: int|
            0 <= b < self.num_buckets() && 0 <= j < self.bucket_len(b) ==> self.bucket_of(
                #[trigger] self.key_at(b, j),
            ) == b
        &&& forall|b: int, j1: int, j2: int|
            0 <= b < self.num_buckets() && 0 <= j1 < self.bucket_len(b) && 0 <= j2
                < self.bucket_len(b) && j1 != j2 ==> #[trigger] self.key_at(b, j1)
                != #[trigger] self.key_at(b, j2)
    }

    proof fn lemma_value_at_shape(self, k: Seq<char>, j: int)
        requires
            self.wf_shape(),
            0 <= j < self.bucket_len(self.bucket_of(k)),
            self.key_at(self.bucket_of(k), j) == k,
        ensures
            self.has_key(k),
            self.value_of(k) == self.val_at(self.bucket_of(k), j),
    {
        let b = self.bucket_of(k);
        assert(self.has_key(k));
        let j2 = choose|j2: int| 0 <= j2 < self.bucket_len(b) && #[trigger] self.key_at(b, j2) == k;
        assert(self.key_at(b, j2) == k);
        if j2 != j {
            assert(self.key_at(b, j) != self.key_at(b, j2));
        }
    }

    proof fn lemma_position_of(self, k: Seq<char>) -> (j: int)
        requires
            self.has_key(k),
        ensures
            0 <= j < self.bucket_len(self.bucket_of(k)),
            self.key_at(self.bucket_of(k), j) == k,
    {
        let b = self.bucket_of(k);
        choose|j: int| 0 <= j < self.bucket_len(b) && #[trigger] self.key_at(b, j) == k
    }
}

/// The ids of `m` are exactly `0 .. m.dom().len()`, each used by one key.
pub open spec fn ids_are_dense(m: Map<Seq<char>, usize>) -> bool {
    &&& forall|k: Seq<char>| #[trigger] m.contains_key(k) ==> m[k] < m.dom().len()
    &&& forall|k1: Seq<char>, k2: Seq<char>|
        #[trigger] m.contains_key(k1) && #[trigger] m.contains_key(k2) && k1 != k2 ==> m[k1] != m[k2]
    &&& forall|i: int| 0 <= i < m.dom().len() ==> #[trigger] id_in_use(m, i)
}

/// Some key of `m` has id `i`.
pub open spec fn id_in_use(m: Map<Seq<char>, usize>, i: int) -> bool {
    exists|k: Seq<char>| m.contains_key(k) && #[trigger] m[k] == i
}

impl View for TokenMap {
    type V = Map<Seq<char>, usize>;

    closed spec fn view(&self) -> Map<Seq<char>, usize> {
        self.as_map()
    }
}

} // verus!
