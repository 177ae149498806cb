//! Parameters of the ring scheme over `Z_q[X]/(X^N + 1)`.
use vstd::prelude::*;

verus! {

/// Ring degree.
pub const N: usize = 16;
/// Ciphertext modulus `q = 2^35`.
pub const Q: i64 = 34359738368;
/// Number of bits of `q`.
pub const L: usize = 35;
/// Number of RLWE samples in the public key.
pub const M: usize = 4;
/// Gadget column offset used for small integers.
pub const INT_SCALE_SHIFT: usize = 17;
/// Plaintext modulus of the slot packing (a prime with `T = 1 mod 2N`).
pub const T: i64 = 97;
/// A primitive `2N`-th root of unity modulo `T`.
pub const OMEGA: i64 = 28;

} // verus!
