//! Keys of the associative table.
//!
//! A key must supply a deterministic hash and an equality test. Determinism
//! is captured by making the hash a specification-level function of the
//! key's abstract value (its view): two keys with equal views always hash
//! alike, in every process and on every call. The executable hash runs
//! `std`'s `DefaultHasher` over a byte encoding of the value, and is proved
//! to return exactly that specification hash.

use std::collections::hash_map::DefaultHasher;
use core::hash::Hasher;
use vstd::prelude::*;
use vstd::std_specs::hash::DefaultHasherAdditionalSpecFns;
use vstd::utf8::encode_utf8;
use vstd::utf8::encode_utf8_decode_utf8;

verus! {

/// The little-endian bytes of a 64-bit quantity, as one hasher write.
pub open spec fn u64_le_bytes(u: u64) -> Seq<u8> {
    seq![
        (u & 0xff) as u8,
        ((u >> 8) & 0xff) as u8,
        ((u >> 16) & 0xff) as u8,
        ((u >> 24) & 0xff) as u8,
        ((u >> 32) & 0xff) as u8,
        ((u >> 40) & 0xff) as u8,
        ((u >> 48) & 0xff) as u8,
        ((u >> 56) & 0xff) as u8,
    ]
}

/// The hash of a 64-bit quantity: what a fresh `DefaultHasher` returns after
/// a single write of the quantity's little-endian bytes.
pub open spec fn u64_hash(u: u64) -> u64 {
    DefaultHasher::spec_finish(seq![u64_le_bytes(u)])
}

/// The hash of a character sequence: what a fresh `DefaultHasher` returns
/// after a single write of the sequence's UTF-8 encoding.
pub open spec fn chars_hash(s: Seq<char>) -> u64 {
    DefaultHasher::spec_finish(seq![encode_utf8(s)])
}

/// The 64-bit two's-complement representation of a signed value.
pub open spec fn i64_bits(v: i64) -> u64 {
    if v >= 0 {
        v as u64
    } else {
        (v + 0x1_0000_0000_0000_0000) as u64
    }
}

/// A key of the associative table: a type with an abstract value (its view),
/// a hash that is a function of that abstract value alone, and an equality
/// test that decides equality of abstract values.
pub trait TableKey: View + Sized {
    /// The hash of any key whose abstract value is `v`.
    spec fn hash_spec(v: Self::V) -> u64;

    /// Computes the hash of this key.
    fn key_hash(&self) -> (h: u64)
        ensures
            h == Self::hash_spec(self@),
    ;

    /// Decides whether this key and `other` have equal abstract values.
    fn key_eq(&self, other: &Self) -> (b: bool)
        ensures
            b == (self@ == other@),
    ;
}

/// Runs a fresh `DefaultHasher` over the little-endian bytes of `u`.
fn hash_u64(u: u64) -> (h: u64)
    ensures
        h == u64_hash(u),
{
    proof {
        assert((u & 0xff) < 256 && ((u >> 8) & 0xff) < 256 && ((u >> 16) & 0xff) < 256
            && ((u >> 24) & 0xff) < 256 && ((u >> 32) & 0xff) < 256 && ((u >> 40) & 0xff) < 256
            && ((u >> 48) & 0xff) < 256 && ((u >> 56) & 0xff) < 256) by (bit_vector);
    }
    let mut bytes: Vec<u8> = Vec::new();
    bytes.push((u & 0xff) as u8);
    bytes.push(((u >> 8) & 0xff) as u8);
    bytes.push(((u >> 16) & 0xff) as u8);
    bytes.push(((u >> 24) & 0xff) as u8);
    bytes.push(((u >> 32) & 0xff) as u8);
    bytes.push(((u >> 40) & 0xff) as u8);
    bytes.push(((u >> 48) & 0xff) as u8);
    bytes.push(((u >> 56) & 0xff) as u8);
    proof {
        assert(bytes@ =~= u64_le_bytes(u));
    }
    let mut hasher = DefaultHasher::new();
    hasher.write(bytes.as_slice());
    proof {
        assert(hasher@ =~= seq![u64_le_bytes(u)]);
    }
    hasher.finish()
}

/// Runs a fresh `DefaultHasher` over the UTF-8 bytes of `s`.
fn hash_str(s: &str) -> (h: u64)
    ensures
        h == chars_hash(s@),
{
    let mut hasher = DefaultHasher::new();
    hasher.write(s.as_bytes());
    proof {
        assert(hasher@ =~= seq![encode_utf8(s@)]);
    }
    hasher.finish()
}

/// Computes the 64-bit two's-complement representation of `v`.
fn i64_to_bits(v: i64) -> (u: u64)
    ensures
        u == i64_bits(v),
{
    if v >= 0 {
        v as u64
    } else {
        ((v as i128) + 0x1_0000_0000_0000_0000i128) as u64
    }
}

impl TableKey for u64 {
    open spec fn hash_spec(v: u64) -> u64 {
        u64_hash(v)
    }

    fn key_hash(&self) -> (h: u64) {
        hash_u64(*self)
    }

    fn key_eq(&self, other: &Self) -> (b: bool) {
        *self == *other
    }
}

impl TableKey for u32 {
    open spec fn hash_spec(v: u32) -> u64 {
        u64_hash(v as u64)
    }

    fn key_hash(&self) -> (h: u64) {
        hash_u64(*self as u64)
    }

    fn key_eq(&self, other: &Self) -> (b: bool) {
        *self == *other
    }
}

impl TableKey for u16 {
    open spec fn hash_spec(v: u16) -> u64 {
        u64_hash(v as u64)
    }

    fn key_hash(&self) -> (h: u64) {
        hash_u64(*self as u64)
    }

    fn key_eq(&self, other: &Self) -> (b: bool) {
        *self == *other
    }
}

impl TableKey for u8 {
    open spec fn hash_spec(v: u8) -> u64 {
        u64_hash(v as u64)
    }

    fn key_hash(&self) -> (h: u64) {
        hash_u64(*self as u64)
    }

    fn key_eq(&self, other: &Self) -> (b: bool) {
        *self == *other
    }
}

impl TableKey for usize {
    open spec fn hash_spec(v: usize) -> u64 {
        u64_hash(v as u64)
    }

    fn key_hash(&self) -> (h: u64) {
        hash_u64(*self as u64)
    }

    fn key_eq(&self, other: &Self) -> (b: bool) {
        *self == *other
    }
}

impl TableKey for i64 {
    open spec fn hash_spec(v: i64) -> u64 {
        u64_hash(i64_bits(v))
    }

    fn key_hash(&self) -> (h: u64) {
        hash_u64(i64_to_bits(*self))
    }

    fn key_eq(&self, other: &Self) -> (b: bool) {
        *self == *other
    }
}

impl TableKey for i32 {
    open spec fn hash_spec(v: i32) -> u64 {
        u64_hash(i64_bits(v as i64))
    }

    fn key_hash(&self) -> (h: u64) {
        hash_u64(i64_to_bits(*self as i64))
    }

    fn key_eq(&self, other: &Self) -> (b: bool) {
        *self == *other
    }
}

impl TableKey for i16 {
    open spec fn hash_spec(v: i16) -> u64 {
        u64_hash(i64_bits(v as i64))
    }

    fn key_hash(&self) -> (h: u64) {
        hash_u64(i64_to_bits(*self as i64))
    }

    fn key_eq(&self, other: &Self) -> (b: bool) {
        *self == *other
    }
}

impl TableKey for i8 {
    open spec fn hash_spec(v: i8) -> u64 {
        u64_hash(i64_bits(v as i64))
    }

    fn key_hash(&self) -> (h: u64) {
        hash_u64(i64_to_bits(*self as i64))
    }

    fn key_eq(&self, other: &Self) -> (b: bool) {
        *self == *other
    }
}

impl TableKey for isize {
    open spec fn hash_spec(v: isize) -> u64 {
        u64_hash(i64_bits(v as i64))
    }

    fn key_hash(&self) -> (h: u64) {
        hash_u64(i64_to_bits(*self as i64))
    }

    fn key_eq(&self, other: &Self) -> (b: bool) {
        *self == *other
    }
}

impl TableKey for String {
    open spec fn hash_spec(v: Seq<char>) -> u64 {
        chars_hash(v)
    }

    fn key_hash(&self) -> (h: u64) {
        hash_str(self.as_str())
    }

    fn key_eq(&self, other: &Self) -> (b: bool) {
        self.eq(other)
    }
}

impl TableKey for &str {
    open spec fn hash_spec(v: Seq<char>) -> u64 {
        chars_hash(v)
    }

    fn key_hash(&self) -> (h: u64) {
        hash_str(self)
    }

    fn key_eq(&self, other: &Self) -> (b: bool) {
        let a = self.as_bytes();
        let b = other.as_bytes();
        if a.len() != b.len() {
            return false;
        }
        let mut i: usize = 0;
        while i < a.len()
            invariant
                i <= a@.len(),
                a@.len() == b@.len(),
                forall|j: int| 0 <= j < i ==> a@[j] == b@[j],
                a@ == encode_utf8(self@),
                b@ == encode_utf8(other@),
            decreases a@.len() - i,
        {
            if a[i] != b[i] {
                return false;
            }
            i += 1;
        }
        proof {
            assert(a@ =~= b@);
            encode_utf8_decode_utf8(self@);
            encode_utf8_decode_utf8(other@);
        }
        true
    }
}

} // verus!
