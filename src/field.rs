//! Elements of the BLS12-381 scalar field, held as canonical little-endian limbs.
//!
//! The arithmetic itself is done by ark-ff; each operation is a thin wrapper whose
//! contract states the result as an integer modulo the field's prime.
use vstd::prelude::*;
use vstd::arithmetic::div_mod::lemma_fundamental_div_mod;
use ark_bls12_381::Fr;
use ark_ff::{BigInteger256, Field, PrimeField};

verus! {

/// The prime order of the scalar field (and of the groups G1, G2, GT).
pub open spec fn modulus() -> int {
    0x73eda753299d7d483339d80809a1d80553bda402fffe5bfeffffffff00000001int
}

/// The integer that four little-endian 64-bit limbs denote.
pub open spec fn limbs_value(l0: u64, l1: u64, l2: u64, l3: u64) -> int {
    l0 as int + l1 as int * 0x1_0000_0000_0000_0000int + l2 as int
        * 0x1_0000_0000_0000_0000_0000_0000_0000_0000int + l3 as int
        * 0x1_0000_0000_0000_0000_0000_0000_0000_0000_0000_0000_0000_0000int
}

/// The integer that a little-endian byte string denotes.
pub open spec fn le_bytes_value(b: Seq<u8>) -> int
    decreases b.len(),
{
    if b.len() == 0 {
        0
    } else {
        b[0] as int + 256 * le_bytes_value(b.skip(1))
    }
}

/// A field element in canonical form: its value lies in `[0, modulus())`.
#[derive(Debug, Clone, Copy, PartialEq, Eq, Structural)]
pub struct Scalar {
    pub(crate) l0: u64,
    pub(crate) l1: u64,
    pub(crate) l2: u64,
    pub(crate) l3: u64,
}

impl View for Scalar {
    type V = int;

    closed spec fn view(&self) -> int {
        limbs_value(self.l0, self.l1, self.l2, self.l3) % modulus()
    }
}

impl Scalar {
    #[verifier::type_invariant]
    spec fn canonical(self) -> bool {
        limbs_value(self.l0, self.l1, self.l2, self.l3) < modulus()
    }

    /// Every scalar's value lies in `[0, modulus())`.
    pub proof fn lemma_range(self)
        ensures
            0 <= self@ < modulus(),
    {
    }

    pub fn zero() -> (r: Scalar)
        ensures
            r@ == 0,
    {
        Scalar { l0: 0, l1: 0, l2: 0, l3: 0 }
    }

    pub fn one() -> (r: Scalar)
        ensures
            r@ == 1,
    {
        let r = Scalar { l0: 1, l1: 0, l2: 0, l3: 0 };
        assert(r@ == 1);
        r
    }

    /// Tells whether this is the zero element.
    pub fn is_zero(&self) -> (r: bool)
        ensures
            r == (self@ == 0),
    {
        proof {
            use_type_invariant(self);
        }
        self.l0 == 0 && self.l1 == 0 && self.l2 == 0 && self.l3 == 0
    }
}

impl Scalar {
    /// Tells whether two scalars are the same field element.
    pub fn equals(&self, o: &Scalar) -> (r: bool)
        ensures
            r == (self@ == o@),
    {
        let d = scalar_sub(self, o);
        proof {
            self.lemma_range();
            o.lemma_range();
            if d@ == 0 {
                lemma_fundamental_div_mod(self@ - o@, modulus());
                assert(self@ - o@ == modulus() * ((self@ - o@) / modulus()));
                assert(self@ == o@) by (nonlinear_arith)
                    requires
                        self@ - o@ == modulus() * ((self@ - o@) / modulus()),
                        0 <= self@ < modulus(),
                        0 <= o@ < modulus(),
                ;
            }
        }
        d.is_zero()
    }
}

/// Two field values whose difference is zero modulo the prime are equal.
pub proof fn lemma_difference_zero(a: int, b: int)
    requires
        0 <= a < modulus(),
        0 <= b < modulus(),
        (a - b) % modulus() == 0,
    ensures
        a == b,
{
    lemma_fundamental_div_mod(a - b, modulus());
    assert(a == b) by (nonlinear_arith)
        requires
            a - b == modulus() * ((a - b) / modulus()),
            0 <= a < modulus(),
            0 <= b < modulus(),
    ;
}

/// Relies on ark-ff's field subtraction of `Fr`.
#[verifier::external_body]
pub(crate) fn scalar_sub(a: &Scalar, b: &Scalar) -> (r: Scalar)
    ensures
        r@ == (a@ - b@) % modulus(),
{
    let r = (Fr::from_repr(BigInteger256([a.l0, a.l1, a.l2, a.l3])).unwrap() - Fr::from_repr(BigInteger256([b.l0, b.l1, b.l2, b.l3])).unwrap()).into_repr();
    Scalar { l0: r.0[0], l1: r.0[1], l2: r.0[2], l3: r.0[3] }
}

/// Relies on ark-ff's field multiplication of `Fr`.
#[verifier::external_body]
pub(crate) fn scalar_mul(a: &Scalar, b: &Scalar) -> (r: Scalar)
    ensures
        r@ == (a@ * b@) % modulus(),
{
    let r = (Fr::from_repr(BigInteger256([a.l0, a.l1, a.l2, a.l3])).unwrap() * Fr::from_repr(BigInteger256([b.l0, b.l1, b.l2, b.l3])).unwrap()).into_repr();
    Scalar { l0: r.0[0], l1: r.0[1], l2: r.0[2], l3: r.0[3] }
}

/// Relies on ark-ff's `Field::inverse`: `None` exactly for zero, else the inverse.
#[verifier::external_body]
pub(crate) fn scalar_inverse(a: &Scalar) -> (r: Option<Scalar>)
    ensures
        r is None <==> a@ == 0,
        r matches Some(i) ==> (i@ * a@) % modulus() == 1,
{
    Fr::from_repr(BigInteger256([a.l0, a.l1, a.l2, a.l3])).unwrap().inverse().map(|i| {
        let r = i.into_repr();
        Scalar { l0: r.0[0], l1: r.0[1], l2: r.0[2], l3: r.0[3] }
    })
}

/// Relies on ark-ff's `PrimeField::from_le_bytes_mod_order`: the little-endian
/// integer of the bytes, reduced modulo the field's prime.
#[verifier::external_body]
pub(crate) fn scalar_from_le_bytes(b: &Vec<u8>) -> (r: Scalar)
    ensures
        r@ == le_bytes_value(b@) % modulus(),
{
    let r = Fr::from_le_bytes_mod_order(b.as_slice()).into_repr();
    Scalar { l0: r.0[0], l1: r.0[1], l2: r.0[2], l3: r.0[3] }
}

} // verus!
