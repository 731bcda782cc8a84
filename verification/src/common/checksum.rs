//! A signature of what a reader sees: equal for equal sights.
//!
//! The signature runs over the visible keys in order, each with its value.
//! Key and value go in with their lengths before them, so that no two
//! different sights are the same string of bytes.

use vstd::prelude::*;
use crate::common::ende::{be_bytes, u64_to_be_bytes};

verus! {

/// A signature, as bytes.
pub type VerChecksum = [u8; 8];

/// The state from which a signature starts.
pub const SEED: u64 = 0xcbf2_9ce4_8422_2325;

/// The factor by which the state is multiplied after every byte.
pub const PRIME: u64 = 0x0000_0100_0000_01b3;

/// The state after one more byte.
pub open spec fn mix(h: u64, byte: u8) -> u64 {
    (h ^ (byte as u64)).wrapping_mul(PRIME)
}

/// The state after the bytes of `s`, one after the other.
pub open spec fn mix_bytes(h: u64, s: Seq<u8>) -> u64
    decreases s.len(),
{
    if s.len() == 0 {
        h
    } else {
        mix(mix_bytes(h, s.drop_last()), s.last())
    }
}

/// The state after a string of bytes with its length before it.
pub open spec fn mix_string(h: u64, s: Seq<u8>) -> u64 {
    mix_bytes(mix_bytes(h, be_bytes(s.len() as u64)), s)
}

/// The state after a key and its value.
pub open spec fn mix_pair(h: u64, pair: (Seq<u8>, Seq<u8>)) -> u64 {
    mix_string(mix_string(h, pair.0), pair.1)
}

/// The signature of a sequence of keys with their values.
pub open spec fn checksum_of(pairs: Seq<(Seq<u8>, Seq<u8>)>) -> u64
    decreases pairs.len(),
{
    if pairs.len() == 0 {
        SEED
    } else {
        mix_pair(checksum_of(pairs.drop_last()), pairs.last())
    }
}

/// The state after the bytes of `s`.
pub fn feed(h: u64, s: &[u8]) -> (r: u64)
    ensures
        r == mix_bytes(h, s@),
{
    let mut r = h;
    let mut i: usize = 0;
    assert(s@.subrange(0, 0) =~= Seq::<u8>::empty());
    while i < s.len()
        invariant
            i <= s.len(),
            r == mix_bytes(h, s@.subrange(0, i as int)),
        decreases s.len() - i,
    {
        proof {
            let a = s@.subrange(0, i + 1);
            assert(a.drop_last() =~= s@.subrange(0, i as int));
            assert(a.last() == s@[i as int]);
        }
        r = (r ^ (s[i] as u64)).wrapping_mul(PRIME);
        i = i + 1;
    }
    assert(s@.subrange(0, s@.len() as int) =~= s@);
    r
}

/// The state after a string of bytes with its length before it.
pub fn feed_string(h: u64, s: &[u8]) -> (r: u64)
    ensures
        r == mix_string(h, s@),
{
    let len: usize = s.len();
    let n = u64_to_be_bytes(len as u64);
    let h1 = feed(h, n.as_slice());
    feed(h1, s)
}

/// The state after a key and its value.
pub fn feed_pair(h: u64, key: &[u8], value: &[u8]) -> (r: u64)
    ensures
        r == mix_pair(h, (key@, value@)),
{
    feed_string(feed_string(h, key), value)
}

} // verus!
