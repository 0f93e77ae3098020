//! Keys of the hash table.
//!
//! The table applies a single default hashing strategy uniformly to its
//! keys: every key type states, as a mathematical function of its logical
//! value, which 64-bit hash it carries, and provides executable hashing
//! and equality that agree with that logical value. Two equal keys
//! therefore always hash identically, while unequal keys may collide.

use vstd::prelude::*;

verus! {

use vstd::string::StringSliceAdditionalSpecFns;
use vstd::utf8::encode_utf8;

/// A key of the table: hashable to a deterministic 64-bit value and
/// decidable for equality, both specified against the key's logical
/// value (its view).
pub trait MapKey: View + Sized {
    /// The hash as a mathematical function of the key's logical value.
    spec fn hash_spec(kv: Self::V) -> u64;

    /// Computes the hash of this key; equal keys hash identically.
    fn hash_key(&self) -> (h: u64)
        ensures
            h == Self::hash_spec(self@),
    ;

    /// Decides whether two keys have equal logical values.
    fn key_eq(&self, other: &Self) -> (eq: bool)
        ensures
            eq == (self@ == other@),
    ;
}

/// Seed of the byte-string hash (the FNV-1a offset basis).
pub const FNV_OFFSET_BASIS: u64 = 0xcbf2_9ce4_8422_2325;

/// Multiplier of the byte-string hash (the 64-bit FNV prime).
pub const FNV_PRIME: u64 = 0x0000_0100_0000_01b3;

/// One round of FNV-1a: fold a byte into the running hash, keeping the
/// low 64 bits of the product.
pub open spec fn fnv1a_step(h: u64, b: u8) -> u64 {
    ((((h ^ (b as u64)) as int) * (FNV_PRIME as int)) % 0x1_0000_0000_0000_0000) as u64
}

/// FNV-1a over a byte string, folding from the left.
pub open spec fn fnv1a(bytes: Seq<u8>) -> u64
    decreases bytes.len(),
{
    if bytes.len() == 0 {
        FNV_OFFSET_BASIS
    } else {
        fnv1a_step(fnv1a(bytes.drop_last()), bytes.last())
    }
}

fn fnv1a_step_exec(h: u64, b: u8) -> (r: u64)
    ensures
        r == fnv1a_step(h, b),
{
    let folded: u128 = (h ^ (b as u64)) as u128;
    let wide: u128 = folded * (FNV_PRIME as u128);
    (wide % 0x1_0000_0000_0000_0000u128) as u64
}

fn fnv1a_bytes(bytes: &[u8]) -> (r: u64)
    ensures
        r == fnv1a(bytes@),
{
    let mut h: u64 = FNV_OFFSET_BASIS;
    let n: usize = bytes.len();
    let mut i: usize = 0;
    while i < n
        invariant
            n == bytes@.len(),
            i <= n,
            h == fnv1a(bytes@.take(i as int)),
        decreases n - i,
    {
        h = fnv1a_step_exec(h, bytes[i]);
        i = i + 1;
        proof {
            assert(bytes@.take(i as int).drop_last() =~= bytes@.take(i as int - 1));
        }
    }
    proof {
        assert(bytes@.take(n as int) =~= bytes@);
    }
    h
}

impl MapKey for u64 {
    open spec fn hash_spec(kv: u64) -> u64 {
        kv
    }

    fn hash_key(&self) -> (h: u64) {
        *self
    }

    fn key_eq(&self, other: &Self) -> (eq: bool) {
        *self == *other
    }
}

impl MapKey for i64 {
    /// Shifts the signed range onto the unsigned one, keeping order.
    open spec fn hash_spec(kv: i64) -> u64 {
        ((kv as int) + 0x8000_0000_0000_0000) as u64
    }

    fn hash_key(&self) -> (h: u64) {
        let wide: i128 = (*self as i128) + 0x8000_0000_0000_0000i128;
        wide as u64
    }

    fn key_eq(&self, other: &Self) -> (eq: bool) {
        *self == *other
    }
}

impl MapKey for String {
    /// FNV-1a over the key's UTF-8 encoding.
    open spec fn hash_spec(kv: Seq<char>) -> u64 {
        fnv1a(encode_utf8(kv))
    }

    fn hash_key(&self) -> (h: u64) {
        fnv1a_bytes(self.as_str().as_bytes())
    }

    fn key_eq(&self, other: &Self) -> (eq: bool) {
        self.eq(other)
    }
}

} // verus!
