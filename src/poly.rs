//! Dense univariate polynomials over the scalar field, with coefficients listed
//! from the constant term up, and the extended Euclidean algorithm on them.
//!
//! Multiplication, subtraction, division and evaluation are ark-poly's; their
//! contracts state the polynomial identities they satisfy at every point of the field.
use vstd::prelude::*;
use vstd::arithmetic::div_mod::{
    lemma_fundamental_div_mod, lemma_fundamental_div_mod_converse_mod, lemma_mod_multiples_vanish,
    lemma_small_mod,
};
use crate::field::{modulus, scalar_mul, Scalar};
use ark_bls12_381::Fr;
use ark_ff::{BigInteger256, PrimeField};
use ark_poly::univariate::{DenseOrSparsePolynomial, DensePolynomial};
use ark_poly::{Polynomial, UVPolynomial};

verus! {

/// A bound on the total length of two factors, within what ark-poly's FFT domains hold.
pub const MAX_PRODUCT_LEN: usize = 0x1000_0000;

/// The value of the polynomial `c` at the point `z`, reduced modulo the field's prime.
pub open spec fn poly_eval(c: Seq<Scalar>, z: int) -> int
    decreases c.len(),
{
    if c.len() == 0 {
        0
    } else {
        (c[0]@ + z * poly_eval(c.skip(1), z)) % modulus()
    }
}

/// The coefficient list has no zero at its top.
pub open spec fn normalized(c: Seq<Scalar>) -> bool {
    c.len() == 0 || c.last()@ != 0
}

/// A field point.
pub open spec fn in_field(z: int) -> bool {
    0 <= z < modulus()
}

/// Scaling every coefficient by `k` scales the value at every point by `k`.
pub proof fn lemma_eval_scale(c: Seq<Scalar>, r: Seq<Scalar>, k: int, z: int)
    requires
        r.len() == c.len(),
        forall|i: int| 0 <= i < c.len() ==> #[trigger] r[i]@ == (c[i]@ * k) % modulus(),
    ensures
        poly_eval(r, z) == (poly_eval(c, z) * k) % modulus(),
    decreases c.len(),
{
    if c.len() > 0 {
        let p = modulus();
        assert forall|i: int| 0 <= i < c.skip(1).len() implies #[trigger] r.skip(1)[i]@ == (c.skip(1)[i]@ * k) % p by {
            assert(r.skip(1)[i] == r[i + 1]);
            assert(c.skip(1)[i] == c[i + 1]);
        }
        lemma_eval_scale(c.skip(1), r.skip(1), k, z);
        assert(r[0]@ == (c[0]@ * k) % p);
        let c0 = c[0]@;
        let e = poly_eval(c.skip(1), z);
        let re = poly_eval(r.skip(1), z);
        // r(z) = (c0·k mod p + z·(e·k mod p)) mod p = ((c0 + z·e)·k) mod p = ((c0 + z·e) mod p · k) mod p
        lemma_fundamental_div_mod(c0 * k, p);
        lemma_fundamental_div_mod(e * k, p);
        lemma_fundamental_div_mod(c0 + z * e, p);
        let k1 = (c0 * k) / p;
        let k2 = (e * k) / p;
        let k3 = (c0 + z * e) / p;
        let m = (c0 + z * e) % p;
        assert(z * ((e * k) % p) == z * e * k - p * (z * k2)) by (nonlinear_arith)
            requires
                e * k == p * k2 + (e * k) % p,
        ;
        assert(m * k == c0 * k + z * e * k - p * (k3 * k)) by (nonlinear_arith)
            requires
                c0 + z * e == p * k3 + m,
        ;
        assert(p * (k3 * k - k1 - z * k2) == p * (k3 * k) - p * k1 - p * (z * k2)) by {
            broadcast use vstd::arithmetic::mul::group_mul_is_distributive;

        }
        assert((c0 * k) % p + z * ((e * k) % p) == (m * k) + p * (k3 * k - k1 - z * k2));
        vstd::arithmetic::div_mod::lemma_mod_multiples_vanish(k3 * k - k1 - z * k2, m * k, p);
        assert(p * (k3 * k - k1 - z * k2) + m * k == (m * k) + p * (k3 * k - k1 - z * k2));
    }
}

/// The coefficients of `c`, each multiplied by `k`.
pub fn scale_poly(c: &Vec<Scalar>, k: &Scalar) -> (r: Vec<Scalar>)
    ensures
        r@.len() == c@.len(),
        forall|z: int| #[trigger] poly_eval(r@, z) == (poly_eval(c@, z) * k@) % modulus(),
{
    let mut r: Vec<Scalar> = Vec::new();
    let mut i: usize = 0;
    while i < c.len()
        invariant
            i <= c@.len(),
            r@.len() == i,
            forall|j: int| 0 <= j < i ==> #[trigger] r@[j]@ == (c@[j]@ * k@) % modulus(),
        decreases c@.len() - i,
    {
        r.push(scalar_mul(&c[i], k));
        i = i + 1;
    }
    proof {
        assert forall|z: int| #[trigger] poly_eval(r@, z) == (poly_eval(c@, z) * k@) % modulus() by {
            lemma_eval_scale(c@, r@, k@, z);
        }
    }
    r
}

/// Relies on ark-poly's `&DensePolynomial * &DensePolynomial`: the product, with
/// its top zeros removed (zero when a factor is empty; otherwise its degree is the
/// sum of the factors' degrees, the field having no zero divisors); the FFT domain
/// must hold both factors' lengths.
#[verifier::external_body]
pub(crate) fn poly_product(a: &Vec<Scalar>, b: &Vec<Scalar>) -> (r: Vec<Scalar>)
    requires
        a@.len() + b@.len() <= MAX_PRODUCT_LEN,
    ensures
        forall|z: int| in_field(z) ==> #[trigger] poly_eval(r@, z) == (poly_eval(a@, z) * poly_eval(b@, z)) % modulus(),
        normalized(r@),
        r@.len() <= a@.len() + b@.len(),
        a@.len() == 0 || b@.len() == 0 ==> r@.len() == 0,
        normalized(a@) && normalized(b@) && a@.len() > 0 && b@.len() > 0 ==> r@.len() == a@.len() + b@.len() - 1,
{
    let to = |k: &Scalar| Fr::from_repr(BigInteger256([k.l0, k.l1, k.l2, k.l3])).unwrap();
    let pa = DensePolynomial::from_coefficients_vec(a.iter().map(to).collect());
    let pb = DensePolynomial::from_coefficients_vec(b.iter().map(to).collect());
    (&pa * &pb).coeffs.iter().map(|c| {
        let r = c.into_repr();
        Scalar { l0: r.0[0], l1: r.0[1], l2: r.0[2], l3: r.0[3] }
    }).collect()
}

/// Relies on ark-poly's `&DensePolynomial - &DensePolynomial`: the difference, with
/// its top zeros removed.
#[verifier::external_body]
pub(crate) fn poly_difference(a: &Vec<Scalar>, b: &Vec<Scalar>) -> (r: Vec<Scalar>)
    ensures
        forall|z: int| in_field(z) ==> #[trigger] poly_eval(r@, z) == (poly_eval(a@, z) - poly_eval(b@, z)) % modulus(),
        normalized(r@),
        r@.len() <= a@.len() || r@.len() <= b@.len(),
{
    let to = |k: &Scalar| Fr::from_repr(BigInteger256([k.l0, k.l1, k.l2, k.l3])).unwrap();
    let pa = DensePolynomial::from_coefficients_vec(a.iter().map(to).collect());
    let pb = DensePolynomial::from_coefficients_vec(b.iter().map(to).collect());
    (&pa - &pb).coeffs.iter().map(|c| {
        let r = c.into_repr();
        Scalar { l0: r.0[0], l1: r.0[1], l2: r.0[2], l3: r.0[3] }
    }).collect()
}

/// Relies on ark-poly's `DenseOrSparsePolynomial::divide_with_q_and_r`: quotient and
/// remainder, the remainder shorter than the divisor and than the dividend, and the
/// dividend itself (with a zero quotient) when it is the shorter; it panics on a
/// zero divisor.
#[verifier::external_body]
pub(crate) fn poly_divide(n: &Vec<Scalar>, d: &Vec<Scalar>) -> (r: (Vec<Scalar>, Vec<Scalar>))
    requires
        normalized(d@),
        d@.len() > 0,
    ensures
        forall|z: int| in_field(z) ==> #[trigger] poly_eval(n@, z) == (poly_eval(r.0@, z) * poly_eval(d@, z) + poly_eval(r.1@, z)) % modulus(),
        normalized(r.1@),
        r.1@.len() < d@.len(),
        r.1@.len() <= n@.len(),
        r.0@.len() <= n@.len(),
        normalized(n@) && n@.len() < d@.len() ==> r.1@ == n@ && r.0@.len() == 0,
{
    let poly = |v: &Vec<Scalar>| DensePolynomial::from_coefficients_vec(v.iter().map(|k| Fr::from_repr(BigInteger256([k.l0, k.l1, k.l2, k.l3])).unwrap()).collect());
    let (q, r) = DenseOrSparsePolynomial::from(poly(n)).divide_with_q_and_r(&poly(d).into()).unwrap();
    let back = |p: DensePolynomial<Fr>| {
        p.coeffs.iter().map(|c| c.into_repr().0).map(|l| Scalar { l0: l[0], l1: l[1], l2: l[2], l3: l[3] }).collect()
    };
    (back(q), back(r))
}

/// Relies on ark-poly's `Polynomial::evaluate`: the value of the polynomial at `z`.
#[verifier::external_body]
pub(crate) fn poly_evaluate(p: &Vec<Scalar>, z: &Scalar) -> (r: Scalar)
    ensures
        r@ == poly_eval(p@, z@),
{
    let pp = DensePolynomial::from_coefficients_vec(p.iter().map(|k| Fr::from_repr(BigInteger256([k.l0, k.l1, k.l2, k.l3])).unwrap()).collect());
    let r = pp.evaluate(&Fr::from_repr(BigInteger256([z.l0, z.l1, z.l2, z.l3])).unwrap()).into_repr();
    Scalar { l0: r.0[0], l1: r.0[1], l2: r.0[2], l3: r.0[3] }
}

/// `u·a + v·b = g` at the point `z`.
pub open spec fn bezout_at(a: Seq<Scalar>, b: Seq<Scalar>, u: Seq<Scalar>, v: Seq<Scalar>, g: Seq<Scalar>, z: int) -> bool {
    (poly_eval(u, z) * poly_eval(a, z) + poly_eval(v, z) * poly_eval(b, z)) % modulus() == poly_eval(g, z)
}

/// Every value of `poly_eval` lies in `[0, modulus())`.
pub proof fn lemma_eval_range(c: Seq<Scalar>, z: int)
    ensures
        0 <= poly_eval(c, z) < modulus(),
{
}

/// A constant polynomial takes its constant's value everywhere.
pub proof fn lemma_eval_constant(c: Seq<Scalar>, z: int)
    requires
        c.len() == 1,
    ensures
        poly_eval(c, z) == c[0]@,
{
    assert(c.skip(1).len() == 0);
    assert(poly_eval(c.skip(1), z) == 0);
    c[0].lemma_range();
    lemma_small_mod(c[0]@ as nat, modulus() as nat);
}

/// A polynomial `c0 + c1·X` evaluates to `c0 + c1·z`.
pub proof fn lemma_eval_pair(c: Seq<Scalar>, z: int)
    requires
        c.len() == 2,
    ensures
        poly_eval(c, z) == (c[0]@ + z * c[1]@) % modulus(),
{
    lemma_eval_constant(c.skip(1), z);
    assert(c.skip(1)[0] == c[1]);
}

/// The root of `c0 + c1·X`: `z = −c0·c1^(-1)` makes it zero.
pub proof fn lemma_linear_root(p: int, c0: int, c1: int, ci: int, neg: int, root: int)
    requires
        p > 1,
        (ci * c1) % p == 1,
        neg == (0 - c0) % p,
        root == (neg * ci) % p,
    ensures
        (c0 + root * c1) % p == 0,
{
    lemma_fundamental_div_mod(0 - c0, p);
    lemma_fundamental_div_mod(neg * ci, p);
    lemma_fundamental_div_mod(ci * c1, p);
    let k1 = (0 - c0) / p;
    let k2 = (neg * ci) / p;
    let k3 = (ci * c1) / p;
    assert(root * c1 == neg * (ci * c1) - p * (k2 * c1)) by (nonlinear_arith)
        requires
            neg * ci == p * k2 + root,
    ;
    assert(neg * (ci * c1) == p * (neg * k3) + neg) by (nonlinear_arith)
        requires
            ci * c1 == p * k3 + 1,
    ;
    let kk = neg * k3 - k2 * c1 - k1;
    assert(p * kk == p * (neg * k3) - p * (k2 * c1) - p * k1) by {
        broadcast use vstd::arithmetic::mul::group_mul_is_distributive;

    }
    assert(c0 + root * c1 == kk * p + 0) by (nonlinear_arith)
        requires
            root * c1 == neg * (ci * c1) - p * (k2 * c1),
            neg * (ci * c1) == p * (neg * k3) + neg,
            0 - c0 == p * k1 + neg,
            p * kk == p * (neg * k3) - p * (k2 * c1) - p * k1,
    ;
    lemma_fundamental_div_mod_converse_mod(c0 + root * c1, p, kk, 0);
}

/// The linear factor `X − e`, as coefficients `[−e, 1]`, evaluates to `z − e`.
pub(crate) proof fn lemma_eval_linear(c: Seq<Scalar>, e: int, z: int)
    requires
        c.len() == 2,
        c[0]@ == (0 - e) % modulus(),
        c[1]@ == 1,
    ensures
        poly_eval(c, z) == (z - e) % modulus(),
{
    lemma_eval_constant(c.skip(1), z);
    assert(c.skip(1)[0] == c[1]);
    assert(poly_eval(c.skip(1), z) == 1);
    assert(poly_eval(c, z) == (c[0]@ + z * poly_eval(c.skip(1), z)) % modulus());
    assert(poly_eval(c, z) == (c[0]@ + z) % modulus());
    lemma_fundamental_div_mod(0 - e, modulus());
    let k = (0 - e) / modulus();
    lemma_mod_multiples_vanish(-k, z - e, modulus());
    assert(modulus() * (-k) + (z - e) == c[0]@ + z);
}

/// One reduction step of the Euclidean algorithm keeps the Bézout relation: from
/// `r0 = q·r1 + rem`, `u2 = u0 - q·u1` and `v2 = v0 - q·v1` it follows that
/// `u2·a + v2·b = rem`.
proof fn lemma_bezout_step(
    p: int,
    a: int,
    b: int,
    u0: int,
    v0: int,
    r0: int,
    u1: int,
    v1: int,
    r1: int,
    q: int,
    rem: int,
    qu: int,
    qv: int,
    u2: int,
    v2: int,
)
    requires
        p > 0,
        (u0 * a + v0 * b) % p == r0,
        (u1 * a + v1 * b) % p == r1,
        r0 == (q * r1 + rem) % p,
        0 <= rem < p,
        qu == (q * u1) % p,
        u2 == (u0 - qu) % p,
        qv == (q * v1) % p,
        v2 == (v0 - qv) % p,
    ensures
        (u2 * a + v2 * b) % p == rem,
{
    lemma_fundamental_div_mod(u0 * a + v0 * b, p);
    lemma_fundamental_div_mod(u1 * a + v1 * b, p);
    lemma_fundamental_div_mod(q * r1 + rem, p);
    lemma_fundamental_div_mod(q * u1, p);
    lemma_fundamental_div_mod(u0 - qu, p);
    lemma_fundamental_div_mod(q * v1, p);
    lemma_fundamental_div_mod(v0 - qv, p);
    let k1 = (u0 * a + v0 * b) / p;
    let k2 = (u1 * a + v1 * b) / p;
    let k3 = (q * r1 + rem) / p;
    let k4 = (q * u1) / p;
    let k5 = (u0 - qu) / p;
    let k6 = (q * v1) / p;
    let k7 = (v0 - qv) / p;
    let kk = k1 - k3 - q * k2 + k4 * a + k6 * b - k5 * a - k7 * b;
    assert(u2 * a == u0 * a - qu * a - p * (k5 * a)) by (nonlinear_arith)
        requires
            u0 - qu == p * k5 + u2,
    ;
    assert(v2 * b == v0 * b - qv * b - p * (k7 * b)) by (nonlinear_arith)
        requires
            v0 - qv == p * k7 + v2,
    ;
    assert(qu * a == q * u1 * a - p * (k4 * a)) by (nonlinear_arith)
        requires
            q * u1 == p * k4 + qu,
    ;
    assert(qv * b == q * v1 * b - p * (k6 * b)) by (nonlinear_arith)
        requires
            q * v1 == p * k6 + qv,
    ;
    assert(q * (u1 * a + v1 * b) == q * (p * k2 + r1));
    assert(q * (u1 * a + v1 * b) == q * u1 * a + q * v1 * b) by (nonlinear_arith);
    assert(q * (p * k2 + r1) == p * (q * k2) + q * r1) by (nonlinear_arith);
    assert(p * kk == p * k1 - p * k3 - p * (q * k2) + p * (k4 * a) + p * (k6 * b) - p * (k5 * a) - p * (
    k7 * b)) by {
        broadcast use vstd::arithmetic::mul::group_mul_is_distributive;

    }
    assert(kk * p == p * kk) by (nonlinear_arith);
    assert(u2 * a + v2 * b == kk * p + rem);
    lemma_fundamental_div_mod_converse_mod(u2 * a + v2 * b, p, kk, rem);
}

/// The longer length of two coefficient lists, and at least 1.
pub open spec fn long_side(a: Seq<Scalar>, b: Seq<Scalar>) -> int {
    if a.len() >= b.len() && a.len() >= 1 {
        a.len() as int
    } else if b.len() >= 1 {
        b.len() as int
    } else {
        1
    }
}

/// One reduction step keeps `x` a combination of the remainders: from
/// `x = s0·r0 + s1·r1` and `r0 = q·r1 + m` it follows that `x = (s0·q + s1)·r1 + s0·m`.
proof fn lemma_combination_step(p: int, x: int, s0: int, s1: int, r0: int, r1: int, q: int, m: int)
    requires
        p > 0,
        x == (s0 * r0 + s1 * r1) % p,
        r0 == (q * r1 + m) % p,
    ensures
        x == ((s0 * q + s1) * r1 + s0 * m) % p,
{
    lemma_fundamental_div_mod(q * r1 + m, p);
    let k = (q * r1 + m) / p;
    let y = (s0 * q + s1) * r1 + s0 * m;
    assert(s0 * r0 + s1 * r1 == p * (-(s0 * k)) + y) by (nonlinear_arith)
        requires
            q * r1 + m == p * k + r0,
            y == (s0 * q + s1) * r1 + s0 * m,
    ;
    lemma_mod_multiples_vanish(-(s0 * k), y, p);
}

/// The extended Euclidean algorithm: a polynomial `g` with `u·a + v·b = g`, found by
/// carrying the Bézout coefficients through each reduction. `g` is the last nonzero
/// remainder, not scaled to be monic. There is none when both inputs are zero, nor
/// when a coefficient product would outgrow `MAX_PRODUCT_LEN`.
pub fn xgcd(a: &Vec<Scalar>, b: &Vec<Scalar>) -> (r: Option<(Vec<Scalar>, Vec<Scalar>, Vec<Scalar>)>)
    requires
        normalized(a@),
        normalized(b@),
    ensures
        a@.len() == 0 && b@.len() == 0 ==> r is None,
        a@.len() > 0 && b@.len() == 0 ==> (r matches Some((g, u, v)) && g@ == a@ && u@.len() == 1 && u@[0]@
            == 1 && v@.len() == 0),
        a@.len() == 0 && b@.len() > 0 ==> (r matches Some((g, u, v)) && g@ == b@ && u@.len() == 0 && v@.len()
            == 1 && v@[0]@ == 1),
        0 < a@.len() < MAX_PRODUCT_LEN && b@.len() == 1 ==> (r matches Some((g, u, v)) && g@ == b@ && u@.len() == 0 && v@.len()
            == 1 && v@[0]@ == 1),
        !(a@.len() == 0 && b@.len() == 0) && (b@.len() + 2) * long_side(a@, b@) <= MAX_PRODUCT_LEN
            ==> r is Some,
        r matches Some((g, u, v)) ==> {
            &&& normalized(g@)
            &&& g@.len() > 0
            &&& forall|z: int| in_field(z) ==> #[trigger] bezout_at(a@, b@, u@, v@, g@, z)
            &&& forall|z: int| in_field(z) && #[trigger] poly_eval(g@, z) == 0 ==> poly_eval(a@, z) == 0
                && poly_eval(b@, z) == 0
            &&& a@.len() > 0 ==> g@.len() <= a@.len()
        },
{
    if a.len() == 0 && b.len() == 0 {
        return None;
    }
    let mut r0 = a.clone();
    let mut r1 = b.clone();
    let mut u0: Vec<Scalar> = vec![Scalar::one()];
    let mut u1: Vec<Scalar> = Vec::new();
    let mut v0: Vec<Scalar> = Vec::new();
    let mut v1: Vec<Scalar> = vec![Scalar::one()];
    let ghost m = long_side(a@, b@);
    let ghost mut k: int = 0;
    let ghost mut sa0: spec_fn(int) -> int = |z: int| 1int;
    let ghost mut sa1: spec_fn(int) -> int = |z: int| 0int;
    let ghost mut sb0: spec_fn(int) -> int = |z: int| 0int;
    let ghost mut sb1: spec_fn(int) -> int = |z: int| 1int;
    proof {
        assert forall|z: int| in_field(z) implies #[trigger] bezout_at(a@, b@, u0@, v0@, r0@, z) by {
            lemma_eval_constant(u0@, z);
            lemma_eval_range(a@, z);
            lemma_small_mod(poly_eval(a@, z) as nat, modulus() as nat);
        }
        assert forall|z: int| in_field(z) implies #[trigger] bezout_at(a@, b@, u1@, v1@, r1@, z) by {
            lemma_eval_constant(v1@, z);
            lemma_eval_range(b@, z);
            lemma_small_mod(poly_eval(b@, z) as nat, modulus() as nat);
        }
        assert forall|z: int| in_field(z) implies #[trigger] poly_eval(a@, z) == (sa0(z) * poly_eval(r0@, z) + sa1(z) * poly_eval(r1@, z)) % modulus() by {
            lemma_eval_range(a@, z);
            lemma_eval_range(b@, z);
            lemma_small_mod(poly_eval(a@, z) as nat, modulus() as nat);
            assert(sa0(z) == 1 && sa1(z) == 0);
            assert(r0@ == a@ && r1@ == b@);
        }
        assert forall|z: int| in_field(z) implies #[trigger] poly_eval(b@, z) == (sb0(z) * poly_eval(r0@, z) + sb1(z) * poly_eval(r1@, z)) % modulus() by {
            lemma_eval_range(a@, z);
            lemma_eval_range(b@, z);
            lemma_small_mod(poly_eval(b@, z) as nat, modulus() as nat);
            assert(sb0(z) == 0 && sb1(z) == 1);
            assert(r0@ == a@ && r1@ == b@);
        }
    }
    while r1.len() > 0
        invariant
            normalized(r0@),
            normalized(r1@),
            r0@.len() > 0 || r1@.len() > 0,
            u0@.len() <= MAX_PRODUCT_LEN,
            u1@.len() <= MAX_PRODUCT_LEN,
            v0@.len() <= MAX_PRODUCT_LEN,
            v1@.len() <= MAX_PRODUCT_LEN,
            forall|z: int| in_field(z) ==> #[trigger] bezout_at(a@, b@, u0@, v0@, r0@, z),
            forall|z: int| in_field(z) ==> #[trigger] bezout_at(a@, b@, u1@, v1@, r1@, z),
            forall|z: int| in_field(z) ==> #[trigger] poly_eval(a@, z) == (sa0(z) * poly_eval(r0@, z) + sa1(z) * poly_eval(r1@, z)) % modulus(),
            forall|z: int| in_field(z) ==> #[trigger] poly_eval(b@, z) == (sb0(z) * poly_eval(r0@, z) + sb1(z) * poly_eval(r1@, z)) % modulus(),
            a@.len() > 0 ==> r0@.len() > 0 && (r0@.len() <= a@.len() || r1@.len() <= a@.len()) && (r1@.len() == 0 ==> r0@.len() <= a@.len()),
            m == long_side(a@, b@),
            r0@.len() <= m,
            r1@.len() <= m,
            0 <= k,
            k + r1@.len() <= b@.len() + 1,
            k == 0 ==> r0@ == a@ && r1@ == b@ && u0@.len() == 1 && u0@[0]@ == 1 && v0@.len() == 0
                && u1@.len() == 0 && v1@.len() == 1 && v1@[0]@ == 1,
            b@.len() == 0 ==> k == 0,
            (a@.len() == 0 || b@.len() == 1) && k >= 1 ==> r1@.len() == 0 && r0@ == b@ && u0@.len() == 0
                && v0@.len() == 1 && v0@[0]@ == 1,
            u0@.len() <= (k + 1) * m,
            u1@.len() <= (k + 1) * m,
            v0@.len() <= (k + 1) * m,
            v1@.len() <= (k + 1) * m,
        decreases r1@.len(),
    {
        let (q, rem) = poly_divide(&r0, &r1);
        proof {
            if (b@.len() + 2) * m <= MAX_PRODUCT_LEN {
                assert((k + 2) * m <= (b@.len() + 2) * m) by (nonlinear_arith)
                    requires
                        k + 2 <= b@.len() + 2,
                        m >= 1,
                ;
                assert((k + 2) * m == (k + 1) * m + m) by (nonlinear_arith);
            }
        }
        if q.len() > MAX_PRODUCT_LEN || u1.len() > MAX_PRODUCT_LEN - q.len() || v1.len()
            > MAX_PRODUCT_LEN - q.len() {
            return None;
        }
        let qu = poly_product(&q, &u1);
        let u2 = poly_difference(&u0, &qu);
        let qv = poly_product(&q, &v1);
        let v2 = poly_difference(&v0, &qv);
        proof {
            assert forall|z: int| in_field(z) implies #[trigger] bezout_at(a@, b@, u2@, v2@, rem@, z) by {
                assert(bezout_at(a@, b@, u0@, v0@, r0@, z));
                assert(bezout_at(a@, b@, u1@, v1@, r1@, z));
                assert(poly_eval(r0@, z) == (poly_eval(q@, z) * poly_eval(r1@, z) + poly_eval(rem@, z)) % modulus());
                assert(poly_eval(qu@, z) == (poly_eval(q@, z) * poly_eval(u1@, z)) % modulus());
                assert(poly_eval(u2@, z) == (poly_eval(u0@, z) - poly_eval(qu@, z)) % modulus());
                assert(poly_eval(qv@, z) == (poly_eval(q@, z) * poly_eval(v1@, z)) % modulus());
                assert(poly_eval(v2@, z) == (poly_eval(v0@, z) - poly_eval(qv@, z)) % modulus());
                lemma_eval_range(rem@, z);
                lemma_bezout_step(
                    modulus(),
                    poly_eval(a@, z),
                    poly_eval(b@, z),
                    poly_eval(u0@, z),
                    poly_eval(v0@, z),
                    poly_eval(r0@, z),
                    poly_eval(u1@, z),
                    poly_eval(v1@, z),
                    poly_eval(r1@, z),
                    poly_eval(q@, z),
                    poly_eval(rem@, z),
                    poly_eval(qu@, z),
                    poly_eval(qv@, z),
                    poly_eval(u2@, z),
                    poly_eval(v2@, z),
                );
            }
        }
        proof {
            let qs = q@;
            let (a0, a1, b0, b1) = (sa0, sa1, sb0, sb1);
            assert forall|z: int| in_field(z) implies #[trigger] poly_eval(a@, z) == ((a0(z) * poly_eval(qs, z) + a1(z)) * poly_eval(r1@, z) + a0(z) * poly_eval(rem@, z)) % modulus() by {
                assert(poly_eval(r0@, z) == (poly_eval(qs, z) * poly_eval(r1@, z) + poly_eval(rem@, z)) % modulus());
                lemma_combination_step(modulus(), poly_eval(a@, z), a0(z), a1(z), poly_eval(r0@, z), poly_eval(r1@, z), poly_eval(qs, z), poly_eval(rem@, z));
            }
            assert forall|z: int| in_field(z) implies #[trigger] poly_eval(b@, z) == ((b0(z) * poly_eval(qs, z) + b1(z)) * poly_eval(r1@, z) + b0(z) * poly_eval(rem@, z)) % modulus() by {
                assert(poly_eval(r0@, z) == (poly_eval(qs, z) * poly_eval(r1@, z) + poly_eval(rem@, z)) % modulus());
                lemma_combination_step(modulus(), poly_eval(b@, z), b0(z), b1(z), poly_eval(r0@, z), poly_eval(r1@, z), poly_eval(qs, z), poly_eval(rem@, z));
            }
            assert((k + 1) * m + m == (k + 2) * m) by (nonlinear_arith);
            assert((k + 1) * m <= (k + 2) * m) by (nonlinear_arith)
                requires
                    m >= 1,
            ;
            k = k + 1;
            sa0 = |z: int| a0(z) * poly_eval(qs, z) + a1(z);
            sa1 = a0;
            sb0 = |z: int| b0(z) * poly_eval(qs, z) + b1(z);
            sb1 = b0;
        }
        r0 = r1;
        r1 = rem;
        u0 = u1;
        u1 = u2;
        v0 = v1;
        v1 = v2;
    }
    proof {
        assert forall|z: int| in_field(z) && #[trigger] poly_eval(r0@, z) == 0 implies poly_eval(a@, z) == 0
            && poly_eval(b@, z) == 0 by {
            assert(poly_eval(r1@, z) == 0);
        }
    }
    Some((r0, u0, v0))
}

} // verus!
