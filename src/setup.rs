//! The trusted setup's secret scalar and the map from application values to field
//! elements.
use vstd::prelude::*;
use crate::field::{le_bytes_value, modulus, scalar_from_le_bytes, Scalar};
use ark_bls12_381::Fr;
use ark_ff::PrimeField;
use ark_std::rand::{rngs::StdRng, SeedableRng};
use ark_std::UniformRand;

verus! {

/// The seed from which the trusted setup's secret is drawn.
pub const SETUP_SEED: u64 = 0x5eed_acc0_0b1e_5eed;

/// The BLAKE2b digest (32 bytes) of the little-endian bytes of `x`.
pub uninterp spec fn i64_digest(x: i64) -> Seq<u8>;

/// The scalar that ark-ff samples uniformly from a `StdRng` seeded with `seed`.
pub uninterp spec fn seeded_scalar(seed: u64) -> int;

/// The trusted setup's secret `s`.
pub open spec fn secret() -> int {
    seeded_scalar(SETUP_SEED)
}

/// The field element that stands for the application value `x`.
pub open spec fn element_value(x: i64) -> int {
    le_bytes_value(i64_digest(x)) % modulus()
}

/// Relies on blake2b_simd: the 32-byte BLAKE2b digest of `x.to_le_bytes()`, which
/// depends on `x` alone.
#[verifier::external_body]
fn digest_i64(x: i64) -> (r: Vec<u8>)
    ensures
        r@ == i64_digest(x),
        r@.len() == 32,
{
    blake2b_simd::Params::new().hash_length(32).hash(&x.to_le_bytes()).as_bytes().to_vec()
}

/// Relies on ark-std's `StdRng::seed_from_u64` and ark-ff's `UniformRand` for `Fr`:
/// a seeded generator yields the same scalar for the same seed.
#[verifier::external_body]
fn sample_seeded(seed: u64) -> (r: Scalar)
    ensures
        r@ == seeded_scalar(seed),
{
    let mut rng = StdRng::seed_from_u64(seed);
    let r = Fr::rand(&mut rng).into_repr();
    Scalar { l0: r.0[0], l1: r.0[1], l2: r.0[2], l3: r.0[3] }
}

/// The trusted setup's secret scalar.
pub(crate) fn secret_scalar() -> (r: Scalar)
    ensures
        r@ == secret(),
{
    sample_seeded(SETUP_SEED)
}

/// Maps an application value to the field through its digest.
pub fn element_to_field(x: &i64) -> (r: Scalar)
    ensures
        r@ == element_value(*x),
{
    let d = digest_i64(*x);
    scalar_from_le_bytes(&d)
}

} // verus!
