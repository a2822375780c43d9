//! SHA-256 digests of file contents.

use crate::text::{hex, hex_text};
use sha2::{Digest as _, Sha256};
use vstd::bytes::*;
use vstd::prelude::*;
use vstd::slice::slice_subrange;

verus! {

/// The SHA-256 digest of a sequence of bytes, as the `sha2` crate computes it.
pub uninterp spec fn sha256(data: Seq<u8>) -> Seq<u8>;

/// The largest number of bytes that can be hashed: the number of their bits has to fit in
/// sixty-four bits.
pub const HASH_LIMIT: u64 = 0x1fff_ffff_ffff_ffff;

/// Calls `sha2::Sha256`: a fresh hasher is fed `head` and `tail`, one after the other, and is
/// finished. Claimed of it: the thirty-two bytes that come out depend on nothing but the bytes
/// that went in, taken as one sequence. The hasher counts bits in sixty-four bits, so no more
/// bytes than that allows may go in.
#[verifier::external_body]
fn sha256_of(head: &[u8], tail: &[u8]) -> (digest: [u8; 32])
    requires
        head@.len() + tail@.len() <= HASH_LIMIT,
    ensures
        digest@ == sha256(head@ + tail@),
{
    let mut hasher = Sha256::default();
    hasher.update(head);
    hasher.update(tail);
    hasher.finalize().into()
}

/// A digest of thirty-two bytes, held as two numbers so that it can be the key of a map. Its view
/// is the bytes.
#[derive(Clone, Copy, Debug, PartialEq, Eq, Structural)]
pub struct Digest {
    pub first: u128,
    pub second: u128,
}

impl View for Digest {
    type V = Seq<u8>;

    open spec fn view(&self) -> Seq<u8> {
        spec_u128_to_le_bytes(self.first) + spec_u128_to_le_bytes(self.second)
    }
}

/// The digest that consists of the thirty-two bytes given.
pub open spec fn digest_of_bytes(bytes: Seq<u8>) -> Digest {
    Digest {
        first: spec_u128_from_le_bytes(bytes.subrange(0, 16)),
        second: spec_u128_from_le_bytes(bytes.subrange(16, 32)),
    }
}

/// The SHA-256 digest of some data.
pub open spec fn content_digest(data: Seq<u8>) -> Digest {
    digest_of_bytes(sha256(data))
}

/// A digest and its thirty-two bytes determine each other.
pub proof fn lemma_digest_bytes(digest: Digest, bytes: Seq<u8>)
    ensures
        digest@.len() == 32,
        digest_of_bytes(digest@) == digest,
        bytes.len() == 32 ==> digest_of_bytes(bytes)@ == bytes,
{
    lemma_auto_spec_u128_to_from_le_bytes();
    assert(digest@.subrange(0, 16) =~= spec_u128_to_le_bytes(digest.first));
    assert(digest@.subrange(16, 32) =~= spec_u128_to_le_bytes(digest.second));
    if bytes.len() == 32 {
        assert(digest_of_bytes(bytes)@ =~= bytes);
    }
}

impl Digest {
    /// The digest with the given bytes.
    pub fn from_bytes(bytes: &[u8; 32]) -> (digest: Digest)
        ensures
            digest@ == bytes@,
            digest == digest_of_bytes(bytes@),
    {
        let slice: &[u8] = bytes;
        let first: u128 = u128_from_le_bytes(slice_subrange(slice, 0, 16));
        let second: u128 = u128_from_le_bytes(slice_subrange(slice, 16, 32));
        let digest = Digest { first, second };
        proof {
            lemma_digest_bytes(digest, bytes@);
        }
        digest
    }

    /// The bytes of the digest.
    pub fn to_bytes(&self) -> (bytes: Vec<u8>)
        ensures
            bytes@ == self@,
            bytes@.len() == 32,
    {
        let mut bytes = u128_to_le_bytes(self.first);
        let mut rest = u128_to_le_bytes(self.second);
        bytes.append(&mut rest);
        proof {
            lemma_digest_bytes(*self, self@);
        }
        bytes
    }

    /// The digest of two pieces of data, the second following the first.
    pub fn of_parts(head: &[u8], tail: &[u8]) -> (digest: Digest)
        requires
            head@.len() + tail@.len() <= HASH_LIMIT,
        ensures
            digest == content_digest(head@ + tail@),
            digest@ == sha256(head@ + tail@),
    {
        let bytes = sha256_of(head, tail);
        Digest::from_bytes(&bytes)
    }

    /// The digest of some data.
    pub fn of(data: &[u8]) -> (digest: Digest)
        requires
            data@.len() <= HASH_LIMIT,
        ensures
            digest == content_digest(data@),
            digest@ == sha256(data@),
    {
        let none: Vec<u8> = Vec::new();
        let digest = Digest::of_parts(data, none.as_slice());
        assert(data@ + none@ =~= data@);
        digest
    }

    /// The digest in lower-case hexadecimal.
    pub fn to_hex(&self) -> (text: String)
        ensures
            text@ == hex(self@),
    {
        let bytes = self.to_bytes();
        hex_text(bytes.as_slice())
    }
}

} // verus!
