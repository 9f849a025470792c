//! Giving every distinct token a number, so that the matcher compares
//! numbers in place of contents.
use vstd::prelude::*;
use std::collections::HashMap;
use crate::tokenize::contents;

verus! {

broadcast use vstd::std_specs::hash::group_hash_axioms;

/// The modulus of the content hash: the largest prime below 2^32.
pub const HASH_MODULUS: u64 = 4294967291;

/// A polynomial hash of the bytes.
pub open spec fn hash_of(s: Seq<u8>) -> u64
    decreases s.len(),
{
    if s.len() == 0 {
        7
    } else {
        ((hash_of(s.drop_last()) % HASH_MODULUS) * 31 + s.last() as u64) as u64 % HASH_MODULUS
    }
}

/// Computes the hash of a token.
pub fn hash_bytes(t: &[u8]) -> (h: u64)
    ensures
        h == hash_of(t@),
{
    let n: usize = t.len();
    let mut h: u64 = 7;
    let mut i: usize = 0;
    while i < n
        invariant
            n == t@.len(),
            i <= n,
            h == hash_of(t@.take(i as int)),
            h < HASH_MODULUS,
        decreases n - i,
    {
        assert(t@.take(i + 1).drop_last() =~= t@.take(i as int));
        h = (h % HASH_MODULUS * 31 + t[i] as u64) % HASH_MODULUS;
        i = i + 1;
    }
    assert(t@.take(n as int) =~= t@);
    h
}

/// Whether two tokens hold the same bytes.
pub fn same_bytes(x: &[u8], y: &[u8]) -> (r: bool)
    ensures
        r == (x@ == y@),
{
    let n: usize = x.len();
    if y.len() != n {
        return false;
    }
    let mut i: usize = 0;
    while i < n
        invariant
            n == x@.len(),
            n == y@.len(),
            i <= n,
            forall|j: int| 0 <= j < i ==> x@[j] == y@[j],
        decreases n - i,
    {
        if x[i] != y[i] {
            return false;
        }
        i = i + 1;
    }
    assert(x@ =~= y@);
    true
}

/// The distinct tokens seen so far, each under its number, and for each hash
/// the numbers of the tokens that have it.
pub struct Interner<'a> {
    pub table: Vec<&'a [u8]>,
    pub buckets: HashMap<u64, Vec<usize>>,
    pub slots: Ghost<Seq<int>>,
}

impl<'a> Interner<'a> {
    /// No token stands twice in the table, and every token of the table is
    /// found in the bucket of its hash, at the place that `slots` records.
    pub open spec fn wf(&self) -> bool {
        &&& self.slots@.len() == self.table@.len()
        &&& forall|id: int|
            0 <= id < self.table@.len() ==> {
                let h = hash_of((#[trigger] self.table@[id])@);
                &&& self.buckets@.contains_key(h)
                &&& 0 <= self.slots@[id] < self.buckets@[h]@.len()
                &&& self.buckets@[h]@[self.slots@[id]] == id
            }
        &&& forall|h: u64, k: int|
            self.buckets@.contains_key(h) && 0 <= k < self.buckets@[h]@.len() ==> {
                let id = #[trigger] self.buckets@[h]@[k];
                id < self.table@.len() && hash_of(self.table@[id as int]@) == h
            }
        &&& forall|i: int, j: int|
            0 <= i < j < self.table@.len() ==> (#[trigger] self.table@[i])@ != (
            #[trigger] self.table@[j])@
    }

    /// An interner that has seen no token.
    pub fn new() -> (r: Self)
        ensures
            r.wf(),
            r.table@.len() == 0,
    {
        Interner { table: Vec::new(), buckets: HashMap::new(), slots: Ghost(Seq::empty()) }
    }

    /// The number under which a token with the bytes of `t` stands in `bucket`, if any does.
    fn find(&self, bucket: &Vec<usize>, t: &[u8]) -> (r: Option<usize>)
        requires
            forall|k: int| 0 <= k < bucket@.len() ==> bucket@[k] < self.table@.len(),
        ensures
            match r {
                Some(id) => id < self.table@.len() && self.table@[id as int]@ == t@,
                None => forall|k: int|
                    0 <= k < bucket@.len() ==> self.table@[(#[trigger] bucket@[k]) as int]@ != t@,
            },
    {
        let mut k: usize = 0;
        while k < bucket.len()
            invariant
                k <= bucket@.len(),
                forall|j: int| 0 <= j < bucket@.len() ==> bucket@[j] < self.table@.len(),
                forall|j: int|
                    0 <= j < k ==> self.table@[(#[trigger] bucket@[j]) as int]@ != t@,
            decreases bucket@.len() - k,
        {
            let id: usize = bucket[k];
            if same_bytes(self.table[id], t) {
                return Some(id);
            }
            k = k + 1;
        }
        None
    }

    /// The number of the token `t`; a token not seen before gets the next free number.
    pub fn id_of(&mut self, t: &'a [u8]) -> (id: usize)
        requires
            old(self).wf(),
        ensures
            final(self).wf(),
            old(self).table@.len() <= final(self).table@.len(),
            forall|i: int|
                0 <= i < old(self).table@.len() ==> final(self).table@[i] == old(self).table@[i],
            id < final(self).table@.len(),
            final(self).table@[id as int]@ == t@,
    {
        let h = hash_bytes(t);
        let ghost had = self.buckets@.contains_key(h);
        let found = match self.buckets.get(&h) {
            Some(bucket) => self.find(bucket, t),
            None => None,
        };
        if let Some(id) = found {
            return id;
        }
        proof {
            assert forall|i: int| 0 <= i < self.table@.len() implies (#[trigger] self.table@[i])@
                != t@ by {
                if self.table@[i]@ == t@ {
                    let k = self.slots@[i];
                    assert(self.buckets@[h]@[k] == i);
                }
            }
        }
        let id: usize = self.table.len();
        let ghost old_buckets = self.buckets@;
        let ghost old_table = self.table@;
        let ghost old_slots = self.slots@;
        let taken = self.buckets.remove(&h);
        let mut bucket: Vec<usize> = match taken {
            Some(b) => b,
            None => Vec::new(),
        };
        let ghost old_bucket = bucket@;
        bucket.push(id);
        self.buckets.insert(h, bucket);
        self.table.push(t);
        proof {
            self.slots = Ghost(old_slots.push(old_bucket.len() as int));
            assert(self.buckets@ =~= old_buckets.insert(h, bucket));
            assert(had ==> old_buckets[h]@ == old_bucket);
            assert forall|i: int| 0 <= i < self.table@.len() implies {
                let hh = hash_of((#[trigger] self.table@[i])@);
                &&& self.buckets@.contains_key(hh)
                &&& 0 <= self.slots@[i] < self.buckets@[hh]@.len()
                &&& self.buckets@[hh]@[self.slots@[i]] == i
            } by {
                if i < old_table.len() {
                    assert(self.table@[i] == old_table[i]);
                    let hh = hash_of(old_table[i]@);
                    assert(old_buckets.contains_key(hh));
                }
            }
            assert forall|hh: u64, k: int|
                self.buckets@.contains_key(hh) && 0 <= k < self.buckets@[hh]@.len() implies {
                let e = #[trigger] self.buckets@[hh]@[k];
                e < self.table@.len() && hash_of(self.table@[e as int]@) == hh
            } by {
                if hh == h {
                    if k < old_bucket.len() {
                        assert(old_buckets[h]@[k] == self.buckets@[hh]@[k]);
                    }
                } else {
                    assert(old_buckets[hh]@[k] == self.buckets@[hh]@[k]);
                }
            }
        }
        id
    }

    /// The numbers of the tokens, in order.
    pub fn ids_of(&mut self, tokens: &[&'a [u8]]) -> (ids: Vec<usize>)
        requires
            old(self).wf(),
        ensures
            final(self).wf(),
            old(self).table@.len() <= final(self).table@.len(),
            forall|i: int|
                0 <= i < old(self).table@.len() ==> final(self).table@[i] == old(self).table@[i],
            ids@.len() == tokens@.len(),
            forall|i: int|
                0 <= i < ids@.len() ==> (#[trigger] ids@[i]) < final(self).table@.len()
                    && final(self).table@[ids@[i] as int]@ == tokens@[i]@,
    {
        let n: usize = tokens.len();
        let mut ids: Vec<usize> = Vec::new();
        let mut i: usize = 0;
        while i < n
            invariant
                n == tokens@.len(),
                i <= n,
                self.wf(),
                old(self).table@.len() <= self.table@.len(),
                forall|j: int|
                    0 <= j < old(self).table@.len() ==> self.table@[j] == old(self).table@[j],
                ids@.len() == i,
                forall|j: int|
                    0 <= j < i ==> (#[trigger] ids@[j]) < self.table@.len() && self.table@[ids@[j] as int]@
                        == tokens@[j]@,
            decreases n - i,
        {
            let id = self.id_of(tokens[i]);
            ids.push(id);
            i = i + 1;
        }
        ids
    }
}

/// Equal numbers stand for equal tokens, and only for them.
pub open spec fn agree(
    x_ids: Seq<usize>,
    x: Seq<Seq<u8>>,
    y_ids: Seq<usize>,
    y: Seq<Seq<u8>>,
) -> bool {
    &&& x_ids.len() == x.len()
    &&& y_ids.len() == y.len()
    &&& forall|i: int, j: int|
        0 <= i < x.len() && 0 <= j < y.len() ==> ((#[trigger] x_ids[i] == #[trigger] y_ids[j]) <==> x[i]
            == y[j])
}

/// Numbers the tokens of both sides so that two tokens get the same number
/// exactly when they hold the same bytes.
pub fn intern<'a>(old: &[&'a [u8]], new: &[&'a [u8]]) -> (r: (Vec<usize>, Vec<usize>))
    ensures
        agree(r.0@, contents(old@), r.1@, contents(new@)),
        agree(r.0@, contents(old@), r.0@, contents(old@)),
        agree(r.1@, contents(new@), r.1@, contents(new@)),
{
    let mut interner = Interner::new();
    let old_ids = interner.ids_of(old);
    let new_ids = interner.ids_of(new);
    (old_ids, new_ids)
}

} // verus!
