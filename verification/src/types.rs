//! Base value types: rounds, stakes, digests and authority identities.
//!
//! A digest is a 32-byte hash held as four 64-bit little-endian words; an
//! authority's identity key is held the same way. Keeping both as plain
//! words gives structural equality and a total order that the rest of the
//! crate can reason about directly.

use vstd::bytes::*;
use vstd::prelude::*;

verus! {

/// A protocol round: a monotonically increasing non-negative integer.
pub type Round = u64;

/// Identifier of the worker that holds a payload batch.
pub type WorkerId = u32;

/// Voting power of an authority.
pub type Stake = u64;

/// A 32-byte hash, stored as four little-endian 64-bit words.
#[derive(Clone, Copy, PartialEq, Eq, Structural, Hash, Debug)]
pub struct Digest {
    pub w0: u64,
    pub w1: u64,
    pub w2: u64,
    pub w3: u64,
}

impl Digest {
    /// The canonical 32-byte form: each word in little-endian order.
    pub open spec fn spec_bytes(self) -> Seq<u8> {
        spec_u64_to_le_bytes(self.w0) + spec_u64_to_le_bytes(self.w1)
            + spec_u64_to_le_bytes(self.w2) + spec_u64_to_le_bytes(self.w3)
    }

    pub open spec fn spec_from_bytes(s: Seq<u8>) -> Digest
        recommends
            s.len() == 32,
    {
        Digest {
            w0: spec_u64_from_le_bytes(s.subrange(0, 8)),
            w1: spec_u64_from_le_bytes(s.subrange(8, 16)),
            w2: spec_u64_from_le_bytes(s.subrange(16, 24)),
            w3: spec_u64_from_le_bytes(s.subrange(24, 32)),
        }
    }

    /// The all-zero digest, used as a placeholder before an id is computed.
    pub open spec fn spec_zero() -> Digest {
        Digest { w0: 0, w1: 0, w2: 0, w3: 0 }
    }

    pub fn zero() -> (r: Digest)
        ensures
            r == Digest::spec_zero(),
    {
        Digest { w0: 0, w1: 0, w2: 0, w3: 0 }
    }

    pub fn to_bytes(&self) -> (r: Vec<u8>)
        ensures
            r@ == self.spec_bytes(),
            r@.len() == 32,
    {
        let mut r = u64_to_le_bytes(self.w0);
        let mut b1 = u64_to_le_bytes(self.w1);
        let mut b2 = u64_to_le_bytes(self.w2);
        let mut b3 = u64_to_le_bytes(self.w3);
        r.append(&mut b1);
        r.append(&mut b2);
        r.append(&mut b3);
        r
    }

    pub fn from_bytes(s: &[u8]) -> (r: Digest)
        requires
            s@.len() == 32,
        ensures
            r == Digest::spec_from_bytes(s@),
    {
        let r = Digest {
            w0: u64_from_le_bytes(vstd::slice::slice_subrange(s, 0, 8)),
            w1: u64_from_le_bytes(vstd::slice::slice_subrange(s, 8, 16)),
            w2: u64_from_le_bytes(vstd::slice::slice_subrange(s, 16, 24)),
            w3: u64_from_le_bytes(vstd::slice::slice_subrange(s, 24, 32)),
        };
        r
    }

    /// Strict total order on digests: lexicographic on the word tuple.
    pub open spec fn spec_lt(self, other: Digest) -> bool {
        ||| self.w0 < other.w0
        ||| (self.w0 == other.w0 && self.w1 < other.w1)
        ||| (self.w0 == other.w0 && self.w1 == other.w1 && self.w2 < other.w2)
        ||| (self.w0 == other.w0 && self.w1 == other.w1 && self.w2 == other.w2
            && self.w3 < other.w3)
    }

    pub fn lt(&self, other: &Digest) -> (r: bool)
        ensures
            r == self.spec_lt(*other),
    {
        if self.w0 != other.w0 {
            self.w0 < other.w0
        } else if self.w1 != other.w1 {
            self.w1 < other.w1
        } else if self.w2 != other.w2 {
            self.w2 < other.w2
        } else {
            self.w3 < other.w3
        }
    }
}

/// Round trip between a digest and its canonical 32-byte form.
pub proof fn lemma_digest_bytes_round_trip(d: Digest)
    ensures
        Digest::spec_from_bytes(d.spec_bytes()) == d,
        d.spec_bytes().len() == 32,
{
    lemma_auto_spec_u64_to_from_le_bytes();
    let b = d.spec_bytes();
    assert(b.subrange(0, 8) =~= spec_u64_to_le_bytes(d.w0));
    assert(b.subrange(8, 16) =~= spec_u64_to_le_bytes(d.w1));
    assert(b.subrange(16, 24) =~= spec_u64_to_le_bytes(d.w2));
    assert(b.subrange(24, 32) =~= spec_u64_to_le_bytes(d.w3));
}

/// An authority's identity key, held as four 64-bit little-endian words of
/// its 32-byte public key.
#[derive(Clone, Copy, PartialEq, Eq, Structural, Hash, Debug)]
pub struct PublicKey {
    pub k0: u64,
    pub k1: u64,
    pub k2: u64,
    pub k3: u64,
}

impl PublicKey {
    /// The canonical 32-byte form: each word in little-endian order.
    pub open spec fn spec_bytes(self) -> Seq<u8> {
        spec_u64_to_le_bytes(self.k0) + spec_u64_to_le_bytes(self.k1)
            + spec_u64_to_le_bytes(self.k2) + spec_u64_to_le_bytes(self.k3)
    }

    pub open spec fn spec_from_bytes(s: Seq<u8>) -> PublicKey
        recommends
            s.len() == 32,
    {
        PublicKey {
            k0: spec_u64_from_le_bytes(s.subrange(0, 8)),
            k1: spec_u64_from_le_bytes(s.subrange(8, 16)),
            k2: spec_u64_from_le_bytes(s.subrange(16, 24)),
            k3: spec_u64_from_le_bytes(s.subrange(24, 32)),
        }
    }

    pub fn to_bytes(&self) -> (r: Vec<u8>)
        ensures
            r@ == self.spec_bytes(),
            r@.len() == 32,
    {
        let mut r = u64_to_le_bytes(self.k0);
        let mut b1 = u64_to_le_bytes(self.k1);
        let mut b2 = u64_to_le_bytes(self.k2);
        let mut b3 = u64_to_le_bytes(self.k3);
        r.append(&mut b1);
        r.append(&mut b2);
        r.append(&mut b3);
        r
    }

    pub fn from_bytes(s: &[u8]) -> (r: PublicKey)
        requires
            s@.len() == 32,
        ensures
            r == PublicKey::spec_from_bytes(s@),
    {
        let r = PublicKey {
            k0: u64_from_le_bytes(vstd::slice::slice_subrange(s, 0, 8)),
            k1: u64_from_le_bytes(vstd::slice::slice_subrange(s, 8, 16)),
            k2: u64_from_le_bytes(vstd::slice::slice_subrange(s, 16, 24)),
            k3: u64_from_le_bytes(vstd::slice::slice_subrange(s, 24, 32)),
        };
        r
    }
}

/// Round trip between an identity key and its canonical 32-byte form.
pub proof fn lemma_public_key_bytes_round_trip(p: PublicKey)
    ensures
        PublicKey::spec_from_bytes(p.spec_bytes()) == p,
        p.spec_bytes().len() == 32,
{
    lemma_auto_spec_u64_to_from_le_bytes();
    let b = p.spec_bytes();
    assert(b.subrange(0, 8) =~= spec_u64_to_le_bytes(p.k0));
    assert(b.subrange(8, 16) =~= spec_u64_to_le_bytes(p.k1));
    assert(b.subrange(16, 24) =~= spec_u64_to_le_bytes(p.k2));
    assert(b.subrange(24, 32) =~= spec_u64_to_le_bytes(p.k3));
}

} // verus!
