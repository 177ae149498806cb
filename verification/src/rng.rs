//! The source of randomness: `rand`'s thread-local generator.
use vstd::prelude::*;
use rand::Rng;
use rand::rngs::ThreadRng;

verus! {

#[verifier::external_type_specification]
#[verifier::external_body]
pub struct ExThreadRng(rand::rngs::ThreadRng);

/// One draw of `rand::Rng::gen_range` over the inclusive range `lo..=hi`.
/// `rand` documents the draw as uniform over the range and panics on an empty
/// range; the contract states only that the value lies in the range, since which
/// value comes out is chance.
#[verifier::external_body]
pub(crate) fn gen_range(rng: &mut ThreadRng, lo: i64, hi: i64) -> (r: i64)
    requires
        lo <= hi,
    ensures
        lo <= r <= hi,
{
    rng.gen_range(lo..=hi)
}

} // verus!
