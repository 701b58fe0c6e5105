//! A set of words, held in buckets keyed by a hash of the word.

use std::collections::HashMap;
use vstd::prelude::*;

verus! {

broadcast use vstd::std_specs::hash::group_hash_axioms;

/// Modulus of the word hash, the largest prime below 2^32.
pub const HASH_MODULUS: u64 = 4294967291;

/// Multiplier of the word hash.
pub const HASH_FACTOR: u64 = 16777619;

/// The bucket key of a word: its characters folded left to right by
/// `h -> (h * HASH_FACTOR + c) mod HASH_MODULUS`, from 0.
pub open spec fn word_hash(w: Seq<char>) -> u64
    decreases w.len(),
{
    if w.len() == 0 {
        0
    } else {
        ((word_hash(w.drop_last()) * HASH_FACTOR + (w.last() as u32)) % (
        HASH_MODULUS as int)) as u64
    }
}

/// Whether some entry of the bucket is `w`.
pub open spec fn bucket_has(bucket: Seq<Vec<char>>, w: Seq<char>) -> bool {
    exists|i: int| 0 <= i < bucket.len() && #[trigger] bucket[i]@ == w
}

/// A finite set of words.
pub struct WordSet {
    buckets: HashMap<u64, Vec<Vec<char>>>,
}

impl View for WordSet {
    type V = Set<Seq<char>>;

    closed spec fn view(&self) -> Set<Seq<char>> {
        Set::new(
            |w: Seq<char>|
                self.buckets@.contains_key(word_hash(w)) && bucket_has(
                    self.buckets@[word_hash(w)]@,
                    w,
                ),
        )
    }
}

/// Computes the bucket key of a word.
fn hash_of(w: &Vec<char>) -> (h: u64)
    ensures
        h == word_hash(w@),
{
    let mut h: u64 = 0;
    let mut i: usize = 0;
    assert(w@.subrange(0, 0) =~= Seq::<char>::empty());
    while i < w.len()
        invariant
            i <= w.len(),
            h == word_hash(w@.subrange(0, i as int)),
            h < HASH_MODULUS,
        decreases w.len() - i,
    {
        let c: u64 = w[i] as u32 as u64;
        proof {
            let next = w@.subrange(0, i + 1);
            assert(next.drop_last() =~= w@.subrange(0, i as int));
            assert(next.last() == w@[i as int]);
            assert(h * HASH_FACTOR <= 4294967291 * 16777619) by (nonlinear_arith)
                requires
                    h < 4294967291,
                    HASH_FACTOR == 16777619,
            ;
        }
        h = (h * HASH_FACTOR + c) % HASH_MODULUS;
        i += 1;
    }
    assert(w@.subrange(0, w.len() as int) =~= w@);
    h
}

/// Looks for `w` among the entries of a bucket.
fn bucket_contains(bucket: &Vec<Vec<char>>, w: &Vec<char>) -> (b: bool)
    ensures
        b == bucket_has(bucket@, w@),
{
    let mut i: usize = 0;
    while i < bucket.len()
        invariant
            i <= bucket.len(),
            forall|j: int| 0 <= j < i ==> bucket@[j]@ != w@,
        decreases bucket.len() - i,
    {
        let entry = &bucket[i];
        if entry.len() == w.len() && crate::text::matches_at(entry, 0, w) {
            assert(entry@.subrange(0, w.len() as int) =~= entry@);
            return true;
        }
        proof {
            if entry@ == w@ {
                assert(entry@.subrange(0, w.len() as int) =~= entry@);
            }
        }
        i += 1;
    }
    false
}

impl WordSet {
    /// The empty set.
    pub fn new() -> (s: WordSet)
        ensures
            s@ == Set::<Seq<char>>::empty(),
    {
        let s = WordSet { buckets: HashMap::new() };
        assert(s@ =~= Set::<Seq<char>>::empty());
        s
    }

    /// Whether `w` is in the set.
    pub fn contains(&self, w: &Vec<char>) -> (b: bool)
        ensures
            b == self@.contains(w@),
    {
        let h = hash_of(w);
        match self.buckets.get(&h) {
            Some(bucket) => bucket_contains(bucket, w),
            None => false,
        }
    }

    /// Adds `w` to the set.
    pub fn insert(&mut self, w: Vec<char>)
        ensures
            final(self)@ == old(self)@.insert(w@),
    {
        let h = hash_of(&w);
        let ghost before = self.buckets@;
        let ghost word = w@;
        let mut bucket = match self.buckets.remove(&h) {
            Some(b) => b,
            None => Vec::new(),
        };
        let ghost old_bucket = bucket@;
        if !bucket_contains(&bucket, &w) {
            bucket.push(w);
            assert(bucket@[bucket.len() - 1]@ == word);
        }
        let ghost new_bucket = bucket@;
        self.buckets.insert(h, bucket);
        proof {
            assert(bucket_has(new_bucket, word));
            assert forall|x: Seq<char>| #[trigger]
                final(self)@.contains(x) == old(self)@.insert(word).contains(x) by {
                if word_hash(x) == h {
                    if x != word {
                        if bucket_has(new_bucket, x) {
                            let i = choose|i: int|
                                0 <= i < new_bucket.len() && #[trigger] new_bucket[i]@ == x;
                            assert(i < old_bucket.len());
                            assert(old_bucket[i]@ == x);
                        }
                        if bucket_has(old_bucket, x) {
                            let i = choose|i: int|
                                0 <= i < old_bucket.len() && #[trigger] old_bucket[i]@ == x;
                            assert(new_bucket[i]@ == x);
                        }
                    }
                }
            }
            assert(final(self)@ =~= old(self)@.insert(word));
        }
    }
}

} // verus!
