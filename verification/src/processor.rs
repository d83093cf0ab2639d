//! The processor: it hashes the batches that are to be stored, and reports their digests.

use ed25519_dalek::Sha512;
use vstd::prelude::*;
use crate::batch::{Digest, WorkerId};

verus! {

/// A batch as the bytes in which it is stored and sent.
pub type SerializedBatchMessage = Vec<u8>;

/// What a worker reports to its primary of a batch that was stored.
#[derive(Clone, Copy, Debug, PartialEq, Eq)]
pub enum WorkerPrimaryMessage {
    /// A batch of our own.
    OurBatch(Digest, WorkerId),
    /// A batch of another authority.
    OthersBatch(Digest, WorkerId),
}

/// The SHA-512 hash of some bytes.
pub uninterp spec fn sha512_of(bytes: Seq<u8>) -> Seq<u8>;

/// Calls `Sha512::digest`, which ed25519-dalek has from sha2: hashes some bytes. Claims that the
/// hash has 64 bytes and is a function of the bytes that are hashed.
#[verifier::external_body]
fn sha512(bytes: &[u8]) -> (hash: Vec<u8>)
    ensures
        hash@ == sha512_of(bytes@),
        hash@.len() == 64,
{
    <Sha512 as ed25519_dalek::Digest>::digest(bytes).to_vec()
}

/// Hashes and stores batches, and hands on their digests.
pub struct Processor;

impl Processor {
    /// The digest that a hash stands for: its first half.
    pub fn truncate(hash: &[u8]) -> (digest: Digest)
        requires
            hash@.len() >= 32,
        ensures
            digest.0@ == hash@.take(32),
    {
        let mut bytes: [u8; 32] = [0u8; 32];
        for i in 0..32
            invariant
                hash@.len() >= 32,
                forall|j: int| 0 <= j < i ==> bytes@[j] == hash@[j],
        {
            bytes[i] = hash[i];
        }
        assert(bytes@ =~= hash@.take(32));
        Digest(bytes)
    }

    /// The digest of a batch.
    pub fn digest(batch: &SerializedBatchMessage) -> (digest: Digest)
        ensures
            digest.0@ == sha512_of(batch@).take(32),
    {
        let hash = sha512(batch);
        Self::truncate(&hash)
    }

    /// What is reported of a batch that was stored.
    pub fn report(digest: Digest, id: WorkerId, own_digest: bool) -> (message: WorkerPrimaryMessage)
        ensures
            message == if own_digest {
                WorkerPrimaryMessage::OurBatch(digest, id)
            } else {
                WorkerPrimaryMessage::OthersBatch(digest, id)
            },
    {
        if own_digest {
            WorkerPrimaryMessage::OurBatch(digest, id)
        } else {
            WorkerPrimaryMessage::OthersBatch(digest, id)
        }
    }

    /// Processes a batch: gives the digest under which it is stored, and what is reported of it.
    pub fn process(id: WorkerId, batch: &SerializedBatchMessage, own_digest: bool) -> (processed: (
        Digest,
        WorkerPrimaryMessage,
    ))
        ensures
            processed.0.0@ == sha512_of(batch@).take(32),
            processed.1 == if own_digest {
                WorkerPrimaryMessage::OurBatch(processed.0, id)
            } else {
                WorkerPrimaryMessage::OthersBatch(processed.0, id)
            },
    {
        let digest = Self::digest(batch);
        (digest, Self::report(digest, id, own_digest))
    }
}

} // verus!
