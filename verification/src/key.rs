//! Keys a dictionary can store.
//!
//! A dictionary key must offer three executable operations — hashing,
//! equality, and duplication — and each must be pinned to the mathematical
//! value of the key, so that the probing logic built on top of them can be
//! reasoned about. The [`DictKey`] trait states those obligations; this module
//! implements it for two integer key types, hashing through `std`'s
//! `DefaultHasher`, whose behaviour vstd specifies. Other key types implement
//! the trait in the same way.

use std::collections::hash_map::DefaultHasher;
use std::hash::Hasher;
use vstd::prelude::*;
use vstd::std_specs::hash::DefaultHasherAdditionalSpecFns;

verus! {

/// The eight little-endian bytes of a 64-bit value: the byte sequence the
/// hasher is fed.
pub open spec fn le_bytes_of_u64(x: u64) -> Seq<u8> {
    seq![
        (x % 256) as u8,
        ((x / 0x100) % 256) as u8,
        ((x / 0x1_0000) % 256) as u8,
        ((x / 0x100_0000) % 256) as u8,
        ((x / 0x1_0000_0000) % 256) as u8,
        ((x / 0x100_0000_0000) % 256) as u8,
        ((x / 0x1_0000_0000_0000) % 256) as u8,
        ((x / 0x100_0000_0000_0000) % 256) as u8,
    ]
}

/// The hash `DefaultHasher` assigns to a 64-bit value fed to it as one write
/// of its eight little-endian bytes.
pub open spec fn u64_hash(x: u64) -> u64 {
    DefaultHasher::spec_finish(seq![le_bytes_of_u64(x)])
}

/// Hashes a 64-bit value with `DefaultHasher`, writing its eight
/// little-endian bytes in a single call.
pub fn hash_u64(x: u64) -> (h: u64)
    ensures
        h == u64_hash(x),
{
    let mut bytes: Vec<u8> = Vec::new();
    bytes.push((x % 256) as u8);
    bytes.push(((x / 0x100) % 256) as u8);
    bytes.push(((x / 0x1_0000) % 256) as u8);
    bytes.push(((x / 0x100_0000) % 256) as u8);
    bytes.push(((x / 0x1_0000_0000) % 256) as u8);
    bytes.push(((x / 0x100_0000_0000) % 256) as u8);
    bytes.push(((x / 0x1_0000_0000_0000) % 256) as u8);
    bytes.push(((x / 0x100_0000_0000_0000) % 256) as u8);
    let mut hasher = DefaultHasher::new();
    hasher.write(bytes.as_slice());
    proof {
        assert(bytes@ =~= le_bytes_of_u64(x));
        assert(hasher@ =~= seq![le_bytes_of_u64(x)]);
    }
    hasher.finish()
}

/// A key a [`crate::dictionary::Dictionary`] can store. The three executable
/// operations the probing logic needs — hashing, equality, duplication — each
/// agree with the mathematical value of the key:
/// the hash is a function of the value alone (so probing a key twice walks
/// the same slots), equality decides equality of values, and a duplicate is
/// equal to its original.
pub trait DictKey: Sized {
    /// The hash of the key, as a function of its value.
    spec fn spec_hash(&self) -> u64;

    /// Computes the hash of the key.
    fn key_hash(&self) -> (h: u64)
        ensures
            h == self.spec_hash(),
    ;

    /// Decides whether two keys are equal.
    fn key_eq(&self, other: &Self) -> (eq: bool)
        ensures
            eq == (self == other),
    ;

    /// Makes an owned copy of the key.
    fn dup(&self) -> (copy: Self)
        ensures
            copy == *self,
    ;
}

impl DictKey for u64 {
    open spec fn spec_hash(&self) -> u64 {
        u64_hash(*self)
    }

    fn key_hash(&self) -> (h: u64) {
        hash_u64(*self)
    }

    fn key_eq(&self, other: &Self) -> (eq: bool) {
        *self == *other
    }

    fn dup(&self) -> (copy: Self) {
        *self
    }
}

impl DictKey for i32 {
    open spec fn spec_hash(&self) -> u64 {
        u64_hash(*self as u64)
    }

    fn key_hash(&self) -> (h: u64) {
        hash_u64(#[verifier::truncate] (*self as u64))
    }

    fn key_eq(&self, other: &Self) -> (eq: bool) {
        *self == *other
    }

    fn dup(&self) -> (copy: Self) {
        *self
    }
}

} // verus!
