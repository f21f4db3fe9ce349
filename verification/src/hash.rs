//! Hashing of a byte transcript with SHA-256 and the reduction of the digest
//! to a scalar.
use crate::field::{be_nat, group_order};
use crate::scalar::Scalar;
use vstd::prelude::*;

verus! {

/// The SHA-256 digest of a byte string.
pub uninterp spec fn sha256(data: Seq<u8>) -> Seq<u8>;

/// `sha2::Sha256::digest`: the SHA-256 digest of the bytes, 32 bytes long.
#[verifier::external_body]
fn sha256_digest(data: &[u8]) -> (r: [u8; 32])
    ensures
        r@ == sha256(data@),
{
    let digest = <sha2::Sha256 as sha2::Digest>::digest(data);
    digest.into()
}

/// The scalar that the digest of `data` denotes: the digest read big-endian
/// and reduced modulo the group order.
pub open spec fn digest_scalar(data: Seq<u8>) -> nat {
    be_nat(sha256(data)) % group_order()
}

/// The bytes fed to a hash so far.
pub struct Transcript {
    bytes: Vec<u8>,
}

impl View for Transcript {
    type V = Seq<u8>;

    closed spec fn view(&self) -> Seq<u8> {
        self.bytes@
    }
}

impl Transcript {
    /// A transcript that holds nothing yet.
    pub fn new() -> (r: Transcript)
        ensures
            r@ == Seq::<u8>::empty(),
    {
        Transcript { bytes: Vec::new() }
    }

    /// Feeds `data` after what the transcript holds.
    pub fn update(&mut self, data: &[u8])
        ensures
            final(self)@ == old(self)@ + data@,
    {
        let ghost before = self.bytes@;
        let mut i: usize = 0;
        while i < data.len()
            invariant
                i <= data.len(),
                self.bytes@ == before + data@.subrange(0, i as int),
            decreases data.len() - i,
        {
            self.bytes.push(data[i]);
            i = i + 1;
            assert(data@.subrange(0, i as int) == data@.subrange(0, i - 1).push(data@[i - 1]));
        }
        assert(data@.subrange(0, data@.len() as int) == data@);
    }

    /// The SHA-256 digest of what was fed.
    pub fn finalize(&self) -> (r: [u8; 32])
        ensures
            r@ == sha256(self@),
    {
        sha256_digest(self.bytes.as_slice())
    }
}

/// Finishes the hash of a transcript and maps the digest into the scalar
/// field.
pub fn hash_to_scalar(hasher: &Transcript) -> (r: Scalar)
    ensures
        r@ == digest_scalar(hasher@),
{
    let digest = hasher.finalize();
    Scalar::from_bytes(&digest)
}

} // verus!
