//! Parameters of the matrix (LWE) scheme.
use vstd::prelude::*;

verus! {

/// LWE dimension `n`.
pub const N_LWE: usize = 4;
/// Ciphertext modulus `q = 2^24`.
pub const Q: i64 = 16777216;
/// Number of bits of `q`.
pub const L: usize = 24;
/// Number of gadget columns, `(n + 1) * L`.
pub const N_COLS: usize = 120;
/// Number of LWE samples in the public key.
pub const M: usize = 25;
/// Gadget column offset used for small integers.
pub const INT_SCALE_SHIFT: usize = 14;

} // verus!
