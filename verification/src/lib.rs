//! Arbitrary-precision binary floating-point arithmetic.
//!
//! Numbers are sign-magnitude: a mantissa of 64-bit limbs (little-endian,
//! most-significant bit of the top limb set) and a signed exponent, with
//! reserved exponents for zero, infinity and NaN.  Every operation rounds
//! its exact result once, at a caller-chosen precision and rounding mode,
//! and returns a status bitmask.

pub mod add;
pub mod bits;
pub mod cmp;
pub mod conv;
pub mod dbuf;
pub mod div;
pub mod dyadic;
pub mod fastdiv;
pub mod laws;
pub mod limb_ops;
pub mod num;
pub mod ops;
pub mod round;
pub mod sqrt;

