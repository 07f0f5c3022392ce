//! File signatures and the strategy that computes them.
//!
//! A signature is a comparable fingerprint of one file's content state. The
//! size strategy fingerprints a file by its byte length alone — cheap, but two
//! different files of equal length look identical, a documented trade-off.
//! The hash strategy digests the full contents with 64-bit FNV-1a and detects
//! any content change the digest distinguishes. One strategy is chosen per
//! run and applied to both trees; signatures of different strategies never
//! compare equal, so a mixed run never reports two files as in sync.

use vstd::prelude::*;

verus! {

/// FNV-1a 64-bit offset basis.
pub const FNV_OFFSET: u64 = 0xcbf29ce484222325;

/// FNV-1a 64-bit prime.
pub const FNV_PRIME: u64 = 0x100000001b3;

/// Which fingerprint a run computes for every file of both trees.
#[derive(Clone, Copy, Debug, PartialEq, Eq, Structural)]
pub enum Strategy {
    /// Fingerprint is the byte length; equal lengths pass as equal content.
    Size,
    /// Fingerprint is a digest of the full contents.
    Hash,
}

/// A file's fingerprint under one strategy.
#[derive(Clone, Copy, Debug, PartialEq, Eq, Structural)]
pub enum Signature {
    /// Byte length of the file.
    Size(u64),
    /// FNV-1a digest of the file's bytes.
    Hash(u64),
}

impl Signature {
    /// The strategy this signature was computed under.
    pub open spec fn spec_kind(self) -> Strategy {
        match self {
            Signature::Size(_) => Strategy::Size,
            Signature::Hash(_) => Strategy::Hash,
        }
    }

    /// Returns the strategy this signature was computed under.
    pub fn kind(&self) -> (k: Strategy)
        ensures
            k == self.spec_kind(),
    {
        match self {
            Signature::Size(_) => Strategy::Size,
            Signature::Hash(_) => Strategy::Hash,
        }
    }
}

/// One FNV-1a round: fold a byte into the running digest.
pub open spec fn fnv1a_step(h: u64, b: u8) -> u64 {
    vstd::wrapping::u64_specs::wrapping_mul(h ^ (b as u64), FNV_PRIME)
}

/// The FNV-1a 64-bit digest of a byte sequence.
pub open spec fn fnv1a(s: Seq<u8>) -> u64
    decreases s.len(),
{
    if s.len() == 0 {
        FNV_OFFSET
    } else {
        fnv1a_step(fnv1a(s.drop_last()), s.last())
    }
}

/// Computes the FNV-1a 64-bit digest of a byte vector.
pub fn fnv1a_digest(s: &Vec<u8>) -> (h: u64)
    ensures
        h == fnv1a(s@),
{
    let mut h: u64 = FNV_OFFSET;
    let mut i: usize = 0;
    proof {
        assert(s@.take(0) =~= Seq::<u8>::empty());
    }
    while i < s.len()
        invariant
            i <= s.len(),
            h == fnv1a(s@.take(i as int)),
        decreases s.len() - i,
    {
        proof {
            assert(s@.take(i + 1).drop_last() =~= s@.take(i as int));
            assert(s@.take(i + 1).last() == s@[i as int]);
        }
        h = (h ^ (s[i] as u64)).wrapping_mul(FNV_PRIME);
        i = i + 1;
    }
    proof {
        assert(s@.take(s@.len() as int) =~= s@);
    }
    h
}

/// The size strategy's signature for a file of `len` bytes.
pub fn size_signature(len: u64) -> (s: Signature)
    ensures
        s == Signature::Size(len),
{
    Signature::Size(len)
}

/// The hash strategy's signature for a file with the given contents.
pub fn hash_signature(contents: &Vec<u8>) -> (s: Signature)
    ensures
        s == Signature::Hash(fnv1a(contents@)),
{
    Signature::Hash(fnv1a_digest(contents))
}

} // verus!
