//! The groups G1, G2 and GT of BLS12-381 and their pairing.
//!
//! Group elements are held as their canonical compressed encodings. Every element
//! of G1 (or G2) that the library holds is a power of the group's generator, so its
//! view is that exponent, an integer in `[0, modulus())`. The curve arithmetic is
//! done by ark-ec; the wrappers state what they return over these exponents.
use vstd::prelude::*;
use crate::field::{modulus, Scalar};
use vstd::arithmetic::div_mod::lemma_small_mod;
use ark_bls12_381::{Bls12_381, Fq12, Fr, G1Affine, G1Projective, G2Affine, G2Projective};
use ark_ec::{AffineCurve, PairingEngine, ProjectiveCurve};
use ark_ff::{BigInteger256, PrimeField};
use ark_serialize::{CanonicalDeserialize, CanonicalSerialize};

verus! {

/// The compressed encoding of `g1^k`, for the generator `g1` of G1.
pub uninterp spec fn g1_power_encoding(k: int) -> Seq<u8>;

/// The compressed encoding of `g2^k`, for the generator `g2` of G2.
pub uninterp spec fn g2_power_encoding(k: int) -> Seq<u8>;

/// The encoding of the pairing of two encoded points.
pub uninterp spec fn pairing_encoding(p: Seq<u8>, q: Seq<u8>) -> Seq<u8>;

/// The encoding of the product of two encoded elements of GT.
pub uninterp spec fn gt_product_encoding(x: Seq<u8>, y: Seq<u8>) -> Seq<u8>;

/// The encoding of `e(g1, g2)^k`.
pub open spec fn gt_power_encoding(k: int) -> Seq<u8> {
    pairing_encoding(g1_power_encoding(k), g2_power_encoding(1))
}

/// A point of G1.
#[derive(Debug)]
pub struct G1Point {
    enc: Vec<u8>,
}

/// A point of G2.
#[derive(Debug)]
pub struct G2Point {
    enc: Vec<u8>,
}

/// An element of the target group GT.
#[derive(Debug)]
pub struct GtElem {
    enc: Vec<u8>,
}

impl View for G1Point {
    type V = int;

    /// The discrete logarithm of the point to the base `g1`.
    closed spec fn view(&self) -> int {
        (choose|k: int| 0 <= k < modulus() && self.enc@ == g1_power_encoding(k)) % modulus()
    }
}

impl View for G2Point {
    type V = int;

    /// The discrete logarithm of the point to the base `g2`.
    closed spec fn view(&self) -> int {
        (choose|k: int| 0 <= k < modulus() && self.enc@ == g2_power_encoding(k)) % modulus()
    }
}

impl View for GtElem {
    type V = int;

    /// The discrete logarithm of the element to the base `e(g1, g2)`.
    closed spec fn view(&self) -> int {
        (choose|k: int| 0 <= k < modulus() && self.enc@ == gt_power_encoding(k)) % modulus()
    }
}

impl G1Point {
    #[verifier::type_invariant]
    spec fn is_power(self) -> bool {
        exists|k: int| 0 <= k < modulus() && self.enc@ == g1_power_encoding(k)
    }

    /// The point `g1^k`.
    pub fn generator_pow(k: &Scalar) -> (r: G1Point)
        ensures
            r@ == k@,
    {
        let r = g1_generator_pow(k);
        proof {
            k.lemma_range();
            assert(0 <= k@ < modulus() && r.enc@ == g1_power_encoding(k@));
            lemma_small_mod(k@ as nat, modulus() as nat);
        }
        r
    }

    /// The point multiplied by the scalar `k`: `(g1^a)^k = g1^(a*k)`.
    pub fn scale(&self, k: &Scalar) -> (r: G1Point)
        ensures
            r@ == (self@ * k@) % modulus(),
    {
        proof {
            use_type_invariant(self);
            k.lemma_range();
        }
        let r = g1_scale(self, k);
        proof {
            let a = choose|a: int| 0 <= a < modulus() && self.enc@ == g1_power_encoding(a);
            lemma_small_mod(a as nat, modulus() as nat);
            let c = (self@ * k@) % modulus();
            assert(0 <= c < modulus() && r.enc@ == g1_power_encoding(c));
            lemma_small_mod(c as nat, modulus() as nat);
        }
        r
    }

    /// Every point's logarithm lies in `[0, modulus())`.
    pub proof fn lemma_range(&self)
        ensures
            0 <= self@ < modulus(),
    {
    }

    /// A copy of this point.
    pub fn copy(&self) -> (r: G1Point)
        ensures
            r@ == self@,
    {
        proof {
            use_type_invariant(self);
        }
        G1Point { enc: self.enc.clone() }
    }

    /// Tells whether two points are equal.
    pub fn equals(&self, o: &G1Point) -> (r: bool)
        ensures
            r == (self@ == o@),
    {
        proof {
            use_type_invariant(self);
            use_type_invariant(o);
        }
        same_bytes(&self.enc, &o.enc)
    }
}

impl Clone for G1Point {
    fn clone(&self) -> (r: G1Point) {
        self.copy()
    }
}

impl Clone for G2Point {
    fn clone(&self) -> (r: G2Point) {
        self.copy()
    }
}

impl PartialEq for G2Point {
    fn eq(&self, o: &G2Point) -> (r: bool) {
        self.equals(o)
    }
}

impl vstd::std_specs::cmp::PartialEqSpecImpl for G2Point {
    open spec fn obeys_eq_spec() -> bool {
        true
    }

    open spec fn eq_spec(&self, o: &G2Point) -> bool {
        self@ == o@
    }
}

impl Eq for G1Point {
}

impl Eq for G2Point {
}

impl PartialEq for G1Point {
    fn eq(&self, o: &G1Point) -> (r: bool) {
        self.equals(o)
    }
}

impl vstd::std_specs::cmp::PartialEqSpecImpl for G1Point {
    open spec fn obeys_eq_spec() -> bool {
        true
    }

    open spec fn eq_spec(&self, o: &G1Point) -> bool {
        self@ == o@
    }
}

impl G2Point {
    #[verifier::type_invariant]
    spec fn is_power(self) -> bool {
        exists|k: int| 0 <= k < modulus() && self.enc@ == g2_power_encoding(k)
    }

    /// The point `g2^k`.
    pub fn generator_pow(k: &Scalar) -> (r: G2Point)
        ensures
            r@ == k@,
    {
        let r = g2_generator_pow(k);
        proof {
            k.lemma_range();
            assert(0 <= k@ < modulus() && r.enc@ == g2_power_encoding(k@));
            lemma_small_mod(k@ as nat, modulus() as nat);
        }
        r
    }

    /// A copy of this point.
    pub fn copy(&self) -> (r: G2Point)
        ensures
            r@ == self@,
    {
        proof {
            use_type_invariant(self);
        }
        G2Point { enc: self.enc.clone() }
    }

    /// Tells whether two points are equal.
    pub fn equals(&self, o: &G2Point) -> (r: bool)
        ensures
            r == (self@ == o@),
    {
        proof {
            use_type_invariant(self);
            use_type_invariant(o);
        }
        same_bytes(&self.enc, &o.enc)
    }
}

impl GtElem {
    #[verifier::type_invariant]
    spec fn is_power(self) -> bool {
        exists|k: int| 0 <= k < modulus() && self.enc@ == gt_power_encoding(k)
    }

    /// The pairing `e(p, q)`, which is `e(g1, g2)^(log p * log q)`.
    pub fn pairing(p: &G1Point, q: &G2Point) -> (r: GtElem)
        ensures
            r@ == (p@ * q@) % modulus(),
    {
        proof {
            use_type_invariant(p);
            use_type_invariant(q);
        }
        let r = pairing_of(p, q);
        proof {
            let a = choose|a: int| 0 <= a < modulus() && p.enc@ == g1_power_encoding(a);
            let b = choose|b: int| 0 <= b < modulus() && q.enc@ == g2_power_encoding(b);
            lemma_small_mod(a as nat, modulus() as nat);
            lemma_small_mod(b as nat, modulus() as nat);
            let c = (p@ * q@) % modulus();
            assert(0 <= c < modulus() && r.enc@ == gt_power_encoding(c));
            lemma_small_mod(c as nat, modulus() as nat);
        }
        r
    }

    /// The product of two elements of GT.
    pub fn product(&self, y: &GtElem) -> (r: GtElem)
        ensures
            r@ == (self@ + y@) % modulus(),
    {
        proof {
            use_type_invariant(self);
            use_type_invariant(y);
        }
        let r = gt_product(self, y);
        proof {
            let a = choose|a: int| 0 <= a < modulus() && self.enc@ == gt_power_encoding(a);
            let b = choose|b: int| 0 <= b < modulus() && y.enc@ == gt_power_encoding(b);
            lemma_small_mod(a as nat, modulus() as nat);
            lemma_small_mod(b as nat, modulus() as nat);
            let c = (self@ + y@) % modulus();
            assert(0 <= c < modulus() && r.enc@ == gt_power_encoding(c));
            lemma_small_mod(c as nat, modulus() as nat);
        }
        r
    }

    /// Tells whether two elements are equal.
    pub fn equals(&self, o: &GtElem) -> (r: bool)
        ensures
            r == (self@ == o@),
    {
        proof {
            use_type_invariant(self);
            use_type_invariant(o);
        }
        same_bytes(&self.enc, &o.enc)
    }
}

/// Tells whether two byte strings are equal.
fn same_bytes(a: &Vec<u8>, b: &Vec<u8>) -> (r: bool)
    ensures
        r == (a@ == b@),
{
    if a.len() != b.len() {
        return false;
    }
    let mut i: usize = 0;
    while i < a.len()
        invariant
            a@.len() == b@.len(),
            i <= a@.len(),
            forall|j: int| 0 <= j < i ==> a@[j] == b@[j],
        decreases a@.len() - i,
    {
        if a[i] != b[i] {
            return false;
        }
        i = i + 1;
    }
    proof {
        assert(a@ =~= b@);
    }
    true
}

/// Relies on ark-ec's scalar multiplication of the G1 generator and ark-serialize's
/// compressed encoding: a point of the group of prime order `modulus()`, which is a
/// different point for each exponent below the order.
#[verifier::external_body]
fn g1_generator_pow(k: &Scalar) -> (r: G1Point)
    ensures
        r.enc@ == g1_power_encoding(k@),
        forall|j: int| 0 <= j < modulus() && g1_power_encoding(j) == r.enc@ ==> j == k@,
{
    let s = Fr::from_repr(BigInteger256([k.l0, k.l1, k.l2, k.l3])).unwrap();
    let p: G1Affine = G1Projective::prime_subgroup_generator().mul(s.into_repr()).into_affine();
    let mut enc = Vec::new();
    p.serialize(&mut enc).unwrap();
    G1Point { enc }
}

/// Relies on ark-ec's `AffineCurve::mul` on G1 and ark-serialize's compressed
/// encoding: `(g1^a)^k = g1^(a*k)`, one power of `g1` below the order `modulus()`.
#[verifier::external_body]
fn g1_scale(p: &G1Point, k: &Scalar) -> (r: G1Point)
    ensures
        forall|a: int|
            0 <= a < modulus() && p.enc@ == #[trigger] g1_power_encoding(a) ==> r.enc@
                == g1_power_encoding((a * k@) % modulus()),
        forall|j1: int, j2: int|
            0 <= j1 < modulus() && 0 <= j2 < modulus() && r.enc@ == g1_power_encoding(j1)
                && r.enc@ == g1_power_encoding(j2) ==> j1 == j2,
{
    let a = G1Affine::deserialize(p.enc.as_slice()).unwrap();
    let s = Fr::from_repr(BigInteger256([k.l0, k.l1, k.l2, k.l3])).unwrap();
    let mut enc = Vec::new();
    a.mul(s.into_repr()).into_affine().serialize(&mut enc).unwrap();
    G1Point { enc }
}

/// Relies on ark-ec's scalar multiplication of the G2 generator and ark-serialize's
/// compressed encoding: a point of the group of prime order `modulus()`, which is a
/// different point for each exponent below the order.
#[verifier::external_body]
fn g2_generator_pow(k: &Scalar) -> (r: G2Point)
    ensures
        r.enc@ == g2_power_encoding(k@),
        forall|j: int| 0 <= j < modulus() && g2_power_encoding(j) == r.enc@ ==> j == k@,
{
    let s = Fr::from_repr(BigInteger256([k.l0, k.l1, k.l2, k.l3])).unwrap();
    let p: G2Affine = G2Projective::prime_subgroup_generator().mul(s.into_repr()).into_affine();
    let mut enc = Vec::new();
    p.serialize(&mut enc).unwrap();
    G2Point { enc }
}

/// Relies on ark-ec's BLS12-381 pairing, which is bilinear and non-degenerate:
/// `e(g1^a, g2^b) = e(g1, g2)^(a*b)`, and `e(g1, g2)` has order `modulus()`, so the
/// result is one power of `e(g1, g2)` below that order.
#[verifier::external_body]
fn pairing_of(p: &G1Point, q: &G2Point) -> (r: GtElem)
    ensures
        r.enc@ == pairing_encoding(p.enc@, q.enc@),
        forall|a: int, b: int|
            0 <= a < modulus() && 0 <= b < modulus() && p.enc@ == #[trigger] g1_power_encoding(a)
                && q.enc@ == #[trigger] g2_power_encoding(b) ==> r.enc@ == gt_power_encoding((a * b) % modulus()),
        forall|c1: int, c2: int|
            0 <= c1 < modulus() && 0 <= c2 < modulus() && r.enc@ == gt_power_encoding(c1)
                && r.enc@ == gt_power_encoding(c2) ==> c1 == c2,
{
    let a = G1Affine::deserialize(p.enc.as_slice()).unwrap();
    let b = G2Affine::deserialize(q.enc.as_slice()).unwrap();
    let mut enc = Vec::new();
    Bls12_381::pairing(a, b).serialize(&mut enc).unwrap();
    GtElem { enc }
}

/// Relies on ark-ff's multiplication in `Fq12`: `e(g1, g2)^a * e(g1, g2)^b = e(g1, g2)^(a+b)`,
/// one power of `e(g1, g2)` below its order `modulus()`.
#[verifier::external_body]
fn gt_product(x: &GtElem, y: &GtElem) -> (r: GtElem)
    ensures
        r.enc@ == gt_product_encoding(x.enc@, y.enc@),
        forall|a: int, b: int|
            0 <= a < modulus() && 0 <= b < modulus() && x.enc@ == #[trigger] gt_power_encoding(a)
                && y.enc@ == #[trigger] gt_power_encoding(b) ==> r.enc@ == gt_power_encoding((a + b) % modulus()),
        forall|c1: int, c2: int|
            0 <= c1 < modulus() && 0 <= c2 < modulus() && r.enc@ == gt_power_encoding(c1)
                && r.enc@ == gt_power_encoding(c2) ==> c1 == c2,
{
    let a = Fq12::deserialize(x.enc.as_slice()).unwrap();
    let b = Fq12::deserialize(y.enc.as_slice()).unwrap();
    let mut enc = Vec::new();
    (a * b).serialize(&mut enc).unwrap();
    GtElem { enc }
}

} // verus!
