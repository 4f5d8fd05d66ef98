//! A dynamic universal RSA accumulator.
//!
//! The accumulator is a constant-size commitment `V = g^(prod M) mod n` to a
//! set `M` of odd prime exponents derived from byte strings, supporting
//! membership and non-membership witnesses and non-interactive proofs of
//! knowledge of an exponent (PoKE2, Boneh-Bunz-Fisch 2018).
use vstd::prelude::*;

pub mod codec;
pub mod bignum;
pub mod arith;
pub mod error;
pub mod hash;
pub mod key;
pub mod accumulator;
pub mod witness;
pub mod nonwitness;
pub mod poke2;
pub mod memproof;
pub mod nonmemproof;

verus! {

/// Bit length of each safe-prime factor of the modulus.
pub const MIN_SIZE_PRIME: usize = 1024;

/// Byte width of one safe-prime factor on the wire.
pub const FACTOR_SIZE: usize = MIN_SIZE_PRIME / 8;

/// Byte width of the fixed part of a serialized accumulator.
pub const MIN_BYTES: usize = FACTOR_SIZE * 5 + 4;

/// Byte width of one hashed prime member on the wire.
pub const MEMBER_SIZE: usize = 32;

/// Bit length of one hashed prime member.
pub const MEMBER_SIZE_BITS: usize = 256;

} // verus!
