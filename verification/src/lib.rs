//! Number-theoretic transform over a fixed prime field.
//!
//! The transform engine works in the field of integers modulo
//! `MODULUS`, a prime whose multiplicative group order is divisible by
//! every power of two up to 2^23, with `PRIMITIVE_ROOT` a generator of
//! that group.  On top of the transform sits a convolution driver that
//! multiplies two coefficient sequences in O(n log n).

use vstd::prelude::*;

pub mod modarith;
pub mod bitrev;
pub mod transform;

verus! {

/// The fixed prime modulus of the field.
pub const MODULUS: u64 = 998_244_353;

/// A generator of the multiplicative group modulo `MODULUS`.
pub const PRIMITIVE_ROOT: u64 = 3;

} // verus!
