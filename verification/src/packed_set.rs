//! A set of word vectors (packed states), bucketed by a fingerprint of
//! the words.
use vstd::prelude::*;
use std::collections::HashMap;

verus! {

broadcast use vstd::std_specs::hash::group_hash_axioms;

/// The fingerprint of the words `k`: each word in turn is mixed in by
/// `acc * 1000003 ^ word`, wrapping.
pub open spec fn fingerprint(k: Seq<u64>) -> u64
    decreases k.len(),
{
    if k.len() == 0 {
        0
    } else {
        fingerprint(k.drop_last()).wrapping_mul(1000003) ^ k.last()
    }
}

fn fingerprint_of(k: &Vec<u64>) -> (r: u64)
    ensures
        r == fingerprint(k@),
{
    let mut acc: u64 = 0;
    let mut i: usize = 0;
    while i < k.len()
        invariant
            i <= k.len(),
            acc == fingerprint(k@.take(i as int)),
        decreases k.len() - i,
    {
        assert(k@.take(i + 1).drop_last() =~= k@.take(i as int));
        acc = acc.wrapping_mul(1000003) ^ k[i];
        i = i + 1;
    }
    assert(k@.take(k.len() as int) =~= k@);
    acc
}

fn same_words(a: &Vec<u64>, b: &Vec<u64>) -> (r: bool)
    ensures
        r == (a@ == b@),
{
    if a.len() != b.len() {
        return false;
    }
    let mut i: usize = 0;
    while i < a.len()
        invariant
            i <= a.len() == b.len(),
            forall|j: int| 0 <= j < i ==> a@[j] == b@[j],
        decreases a.len() - i,
    {
        if a[i] != b[i] {
            return false;
        }
        i = i + 1;
    }
    assert(a@ =~= b@);
    true
}

/// A set of word vectors.
pub struct PackedSet {
    buckets: HashMap<u64, Vec<Vec<u64>>>,
}

impl PackedSet {
    /// `k` is in the set.
    pub closed spec fn has(&self, k: Seq<u64>) -> bool {
        &&& self.buckets@.contains_key(fingerprint(k))
        &&& exists|j: int|
            0 <= j < self.buckets@[fingerprint(k)].len() && #[trigger] self.buckets@[fingerprint(
                k,
            )]@[j]@ == k
    }

    /// The empty set.
    pub fn new() -> (s: Self)
        ensures
            forall|k: Seq<u64>| !s.has(k),
    {
        PackedSet { buckets: HashMap::new() }
    }

    /// Whether `k` is in the set.
    pub fn contains(&self, k: &Vec<u64>) -> (r: bool)
        ensures
            r == self.has(k@),
    {
        let fp = fingerprint_of(k);
        match self.buckets.get(&fp) {
            Some(bucket) => {
                let mut j: usize = 0;
                while j < bucket.len()
                    invariant
                        j <= bucket.len(),
                        self.buckets@.contains_key(fp),
                        self.buckets@[fp] == *bucket,
                        fp == fingerprint(k@),
                        forall|t: int| 0 <= t < j ==> bucket@[t]@ != k@,
                    decreases bucket.len() - j,
                {
                    if same_words(&bucket[j], k) {
                        return true;
                    }
                    j = j + 1;
                }
                false
            },
            None => false,
        }
    }

    /// Adds `k` to the set.
    pub fn insert(&mut self, k: Vec<u64>)
        ensures
            forall|x: Seq<u64>| final(self).has(x) <==> (old(self).has(x) || x == k@),
    {
        let fp = fingerprint_of(&k);
        let ghost old_map = self.buckets@;
        let ghost kv = k@;
        let mut bucket = match self.buckets.remove(&fp) {
            Some(b) => b,
            None => Vec::new(),
        };
        let ghost old_bucket = bucket@;
        assert(old_map.contains_key(fp) ==> old_bucket == old_map[fp]@);
        assert(!old_map.contains_key(fp) ==> old_bucket.len() == 0);
        bucket.push(k);
        self.buckets.insert(fp, bucket);
        assert forall|x: Seq<u64>| self.has(x) <==> (old(self).has(x) || x == kv) by {
            if fingerprint(x) == fp {
                if self.has(x) {
                    let j = choose|j: int|
                        0 <= j < self.buckets@[fp].len() && #[trigger] self.buckets@[fp]@[j]@ == x;
                    if j < old_bucket.len() {
                        assert(old_map[fp]@[j]@ == x);
                    }
                }
                if old(self).has(x) {
                    let j = choose|j: int|
                        0 <= j < old_map[fp].len() && #[trigger] old_map[fp]@[j]@ == x;
                    assert(self.buckets@[fp]@[j]@ == x);
                }
                if x == kv {
                    assert(self.buckets@[fp]@[old_bucket.len() as int]@ == x);
                }
            } else {
                assert(self.buckets@[fingerprint(x)] == old_map[fingerprint(x)]);
                assert(self.buckets@.contains_key(fingerprint(x)) == old_map.contains_key(fingerprint(x)));
            }
        }
    }
}

} // verus!
