//! The bootstrapping key: RGSW encryptions of the bits of an LWE secret key.
use vstd::prelude::*;
use rand::rngs::ThreadRng;
use crate::params::rgsw::L;
use crate::rgsw::{encrypt, encryptable, is_rgsw_encryption, PolyMatrix, RgswBitCiphertext};
use crate::rgsw::poly::pconst;

verus! {

/// RGSW encryptions of the bits of an LWE secret key, one per bit.
#[derive(Clone, Debug)]
pub struct BootstrappingKey {
    pub bk: Vec<RgswBitCiphertext>,
}

/// Encrypts each bit of the LWE secret key `lwe_sk` under the RGSW public key.
pub fn generate_bootstrapping_key(rgsw_pk: &PolyMatrix, lwe_sk: &[i64], rng: &mut ThreadRng) -> (key:
    BootstrappingKey)
    requires
        forall|i: int| 0 <= i < lwe_sk@.len() ==> #[trigger] lwe_sk@[i] == 0 || lwe_sk@[i] == 1,
        lwe_sk@.len() > 0 ==> encryptable(rgsw_pk@),
    ensures
        key.bk@.len() == lwe_sk@.len(),
        forall|i: int|
            0 <= i < lwe_sk@.len() ==> is_rgsw_encryption(
                rgsw_pk@,
                pconst(lwe_sk@[i] as int),
                (#[trigger] key.bk@[i]).0@,
            ) && key.bk@[i].0@.wf() && key.bk@[i].0.rows == rgsw_pk.cols && key.bk@[i].0.cols
                == 2 * L,
{
    let mut bk: Vec<RgswBitCiphertext> = Vec::new();
    let mut i: usize = 0;
    while i < lwe_sk.len()
        invariant
            i <= lwe_sk@.len(),
            bk@.len() == i,
            forall|k: int| 0 <= k < lwe_sk@.len() ==> #[trigger] lwe_sk@[k] == 0 || lwe_sk@[k] == 1,
            lwe_sk@.len() > 0 ==> encryptable(rgsw_pk@),
            forall|k: int|
                0 <= k < i ==> is_rgsw_encryption(
                    rgsw_pk@,
                    pconst(lwe_sk@[k] as int),
                    (#[trigger] bk@[k]).0@,
                ) && bk@[k].0@.wf() && bk@[k].0.rows == rgsw_pk.cols && bk@[k].0.cols == 2 * L,
        decreases lwe_sk@.len() - i,
    {
        let bit = lwe_sk[i];
        let c = encrypt(rgsw_pk, bit, rng).unwrap();
        bk.push(c);
        i += 1;
    }
    BootstrappingKey { bk }
}

} // verus!
