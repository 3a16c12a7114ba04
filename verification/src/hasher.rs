//! Addresses of bytes that come piece by piece.

use vstd::prelude::*;
use crate::canonical;
use crate::canonical::{ContentHash, HashAlg};

verus! {

/// A `sha2::Sha256` at work. It is not looked into; [`absorbed`] names
/// what it was given.
#[verifier::external_body]
pub struct Hasher {
    inner: sha2::Sha256,
}

/// The most bytes that SHA-256 takes: their number of bits fits 64 bits.
pub const MAX_HASHED: u64 = 0x1fff_ffff_ffff_ffff;

/// The bytes that a hasher was given.
pub uninterp spec fn absorbed(h: Hasher) -> Seq<u8>;

impl Hasher {
    /// `sha2::Sha256::new`: a hasher that was given nothing.
    #[verifier::external_body]
    fn new() -> (r: Self)
        ensures
            absorbed(r) == Seq::<u8>::empty(),
    {
        Hasher { inner: <sha2::Sha256 as sha2::Digest>::new() }
    }

    /// `sha2::Sha256::update`: the hasher was given more bytes, behind
    /// those that it had.
    #[verifier::external_body]
    fn update(&mut self, data: &[u8])
        ensures
            absorbed(*final(self)) == absorbed(*old(self)) + data@,
    {
        sha2::Digest::update(&mut self.inner, data)
    }

    /// `sha2::Sha256::finalize`: the SHA-256 digest of what the hasher was
    /// given, as `sha2::Sha256::digest` gives it of the same bytes at once.
    #[verifier::external_body]
    fn finalize(self) -> (r: [u8; 32])
        requires
            absorbed(self).len() <= MAX_HASHED,
        ensures
            r@ == canonical::sha256_digest(absorbed(self)),
    {
        sha2::Digest::finalize(self.inner).into()
    }
}

/// Bytes that come piece by piece: their address and their number, known
/// behind the last piece, without the bytes themselves.
pub struct Staged {
    hasher: Hasher,
    byte_size: u64,
}

impl View for Staged {
    type V = Seq<u8>;

    closed spec fn view(&self) -> Seq<u8> {
        absorbed(self.hasher)
    }
}

impl Staged {
    /// Whether the bytes were all counted, and are no more than can be
    /// hashed.
    pub closed spec fn is_counted(self) -> bool {
        self.byte_size == self@.len() && self@.len() <= MAX_HASHED
    }

    /// No bytes yet.
    pub fn new() -> (r: Self)
        ensures
            r@ == Seq::<u8>::empty(),
            r.is_counted(),
    {
        Staged { hasher: Hasher::new(), byte_size: 0 }
    }

    /// Takes in the next piece.
    pub fn push(&mut self, data: &[u8])
        requires
            old(self).is_counted(),
            old(self)@.len() + data@.len() <= MAX_HASHED,
        ensures
            final(self)@ == old(self)@ + data@,
            final(self).is_counted(),
    {
        self.hasher.update(data);
        self.byte_size += data.len() as u64;
    }

    /// How many bytes there are.
    pub fn byte_size(&self) -> (r: u64)
        requires
            self.is_counted(),
        ensures
            r == self@.len(),
            r <= MAX_HASHED,
    {
        self.byte_size
    }

    /// The address of the bytes.
    pub fn address(self) -> (r: ContentHash)
        requires
            self.is_counted(),
        ensures
            r@ == canonical::sha256_digest(self@),
    {
        ContentHash { alg: HashAlg::Sha256, digest: self.hasher.finalize() }
    }
}

} // verus!
