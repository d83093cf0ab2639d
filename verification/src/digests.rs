//! Sets of digests.

use std::collections::BTreeMap;
use vstd::prelude::*;
use crate::batch::Digest;

verus! {

/// A set of digests, in buckets by their first bytes.
pub struct DigestSet {
    buckets: BTreeMap<u64, Vec<Digest>>,
}

/// The bucket of a digest.
spec fn bucket_of(digest: Digest) -> u64 {
    (digest.0@[0] * 0x1_0000 + digest.0@[1] * 0x100 + digest.0@[2]) as u64
}

impl View for DigestSet {
    type V = Set<Digest>;

    closed spec fn view(&self) -> Set<Digest> {
        Set::new(
            |digest: Digest|
                self.buckets@.contains_key(bucket_of(digest))
                    && self.buckets@[bucket_of(digest)]@.contains(digest),
        )
    }
}

/// Whether `list` holds `digest`.
fn holds(list: &Vec<Digest>, digest: &Digest) -> (found: bool)
    ensures
        found == list@.contains(*digest),
{
    for i in 0..list.len()
        invariant
            forall|j: int| 0 <= j < i ==> list@[j] != *digest,
    {
        if list[i] == *digest {
            return true;
        }
    }
    false
}

impl DigestSet {
    /// The empty set.
    pub fn new() -> (set: Self)
        ensures
            set@ == Set::<Digest>::empty(),
    {
        let set = DigestSet { buckets: BTreeMap::new() };
        assert(set@ =~= Set::<Digest>::empty());
        set
    }

    /// Adds a digest; says whether it was new.
    pub fn insert(&mut self, digest: Digest) -> (added: bool)
        ensures
            added == !old(self)@.contains(digest),
            final(self)@ == old(self)@.insert(digest),
    {
        let ghost before = self@;
        let bucket: u64 = digest.0[0] as u64 * 0x1_0000 + digest.0[1] as u64 * 0x100
            + digest.0[2] as u64;
        assert(bucket == bucket_of(digest));
        let ghost map_before = self.buckets@;
        let mut list: Vec<Digest> = match self.buckets.remove(&bucket) {
            Some(list) => list,
            None => Vec::new(),
        };
        let ghost known = list@;
        let added = !holds(&list, &digest);
        if added {
            list.push(digest);
        }
        self.buckets.insert(bucket, list);
        proof {
            crate::ordered::lemma_push_contains(known, digest);
            assert forall|d: Digest| self@.contains(d) <==> before.insert(digest).contains(d) by {
                if bucket_of(d) == bucket {
                    assert(map_before.contains_key(bucket) ==> map_before[bucket]@ == known);
                    assert(before.contains(d) <==> known.contains(d));
                }
            }
            assert(self@ =~= before.insert(digest));
        }
        added
    }
}

} // verus!
