//! The dynamic accumulator: a constant-size commitment `g1^P(s)` to a set `S` of
//! field elements, where `P(X) = ∏_{e∈S}(X − e)` and `s` is the trusted setup's
//! secret, with proofs of membership and non-membership.
//!
//! A point of G1 is viewed as its logarithm to the base `g1`, so the accumulator's
//! value is viewed as the exponent `P(s)`, and each pairing check as an equation
//! between exponents.
use vstd::prelude::*;
use vstd::arithmetic::div_mod::lemma_small_mod;
use crate::field::{lemma_difference_zero, modulus, scalar_inverse, scalar_mul, scalar_sub, Scalar};
use crate::group::{G1Point, G2Point, GtElem};
use crate::poly::{
    bezout_at, in_field, lemma_eval_constant, lemma_eval_linear, lemma_eval_pair, lemma_linear_root,
    long_side, normalized, poly_eval, poly_evaluate, poly_product, xgcd, MAX_PRODUCT_LEN,
};
use crate::product::{
    factor, lemma_assoc_mod, lemma_cancel, lemma_contains_push, lemma_inverse_product, lemma_no_dup_push,
    lemma_normalized_bezout, lemma_swap_factors, lemma_vanishing_concat,
    lemma_vanishing_permutation, lemma_vanishing_range, lemma_vanishing_remove, set_exponent,
    vanishing_eval, values,
};
use crate::setup::{element_to_field, element_value, secret, secret_scalar};

verus! {

/// A set of `n` elements is small enough for the polynomial arithmetic of a
/// non-membership proof to stay within `MAX_PRODUCT_LEN`.
pub open spec fn within_size(n: int) -> bool {
    (2 * n + 4) * (2 * n + 4) <= MAX_PRODUCT_LEN
}

/// `A·(X − x) + B·P_S = 1` at every point of the field: the polynomials `A`, `B`
/// certify that `x` is not a root of `P_S`.
pub open spec fn non_membership_witness(a: Seq<Scalar>, b: Seq<Scalar>, set: Seq<int>, x: int) -> bool {
    forall|z: int| in_field(z) ==> #[trigger] (((vanishing_eval(set, z) * poly_eval(b, z)) % modulus()
        + (poly_eval(a, z) * ((z - x) % modulus())) % modulus()) % modulus()) == 1
}

/// At most one element of `s` is outside `t`.
pub open spec fn at_most_one_outside(s: Seq<int>, t: Seq<int>) -> bool {
    forall|x: int, y: int|
        s.contains(x) && !t.contains(x) && s.contains(y) && !t.contains(y) ==> x == y
}

/// The errors of the accumulator's operations.
#[derive(Debug, Clone, Copy, PartialEq, Eq, Structural)]
pub enum AccumulatorError {
    /// The element is already in the set.
    Duplicate,
    /// The element is not in the set.
    NotFound,
    /// The element is in the set, so its non-membership cannot be proved.
    Present,
    /// A required inverse does not exist (the element equals the secret).
    Arithmetic,
    /// The extended Euclidean algorithm gave no unit gcd.
    Infeasible,
}

/// A proof that an element was added: `new_acc = old_acc^(s − element)`.
#[derive(Debug, Clone, PartialEq, Eq)]
pub struct AddProof {
    pub old_acc_value: G1Point,
    pub new_acc_value: G1Point,
    pub element: Scalar,
}

/// A proof that an element was deleted: `new_acc^(s − element) = old_acc`.
#[derive(Debug, Clone, PartialEq, Eq)]
pub struct DeleteProof {
    pub old_acc_value: G1Point,
    pub new_acc_value: G1Point,
    pub element: Scalar,
}

/// A proof that an element is in the set: the witness is the accumulator of the set
/// without the element.
#[derive(Debug, Clone, PartialEq, Eq)]
pub struct MembershipProof {
    pub witness: G1Point,
    pub element: Scalar,
}

/// A proof that an element `x` is not in the set: `g2^B(s)` and `g1^A(s)` for
/// polynomials with `A(X)(X − x) + B(X)P(X) = 1`.
#[derive(Debug, Clone, PartialEq, Eq)]
pub struct NonMembershipProof {
    pub element: Scalar,
    /// `g2^B(s)`.
    pub witness: G2Point,
    /// `g1^A(s)`.
    pub g1_a: G1Point,
}

/// A proof that an accumulator `acc_I` commits to the intersection `I` of the sets
/// `S1`, `S2` of two accumulators `A1`, `A2`. With `Q1 = P_{S1∖I}` and
/// `Q2 = P_{S2∖I}`, it carries `g2^Q1(s)`, `g2^Q2(s)` and Bézout witnesses
/// `g1^u(s)`, `g1^v(s)` with `u·Q1 + v·Q2 = 1`, which shows that `S1∖I` and `S2∖I`
/// share no element.
#[derive(Debug, Clone, PartialEq, Eq)]
pub struct IntersectionProof {
    pub q1_g2: G2Point,
    pub q2_g2: G2Point,
    pub u_g1: G1Point,
    pub v_g1: G1Point,
}

/// A proof that an accumulator `acc_U` commits to the union of two sets: the
/// intersection's accumulator with its proof, and `acc_U = A1^Q2(s)`, that is,
/// `U = S1 + (S2∖I)`.
#[derive(Debug, Clone, PartialEq, Eq)]
pub struct UnionProof {
    pub intersection_acc: G1Point,
    pub intersection: IntersectionProof,
}

/// What `verify_intersection` checks, over logarithms: `acc_I^Q1(s) = A1`,
/// `acc_I^Q2(s) = A2` and `u(s)·Q1(s) + v(s)·Q2(s) = 1`.
pub open spec fn intersection_holds(a1: int, a2: int, ai: int, pf: IntersectionProof) -> bool {
    &&& (ai * pf.q1_g2@) % modulus() == a1
    &&& (ai * pf.q2_g2@) % modulus() == a2
    &&& ((pf.u_g1@ * pf.q1_g2@) % modulus() + (pf.v_g1@ * pf.q2_g2@) % modulus()) % modulus() == 1
}

/// What `verify_union` checks, over logarithms: the intersection proof holds and
/// `A1^Q2(s) = acc_U`.
pub open spec fn union_holds(a1: int, a2: int, au: int, pf: UnionProof) -> bool {
    &&& intersection_holds(a1, a2, pf.intersection_acc@, pf.intersection)
    &&& (a1 * pf.intersection.q2_g2@) % modulus() == au
}

/// The answer to a query: a proof of membership or one of non-membership.
#[derive(Debug, Clone, PartialEq, Eq)]
pub enum QueryResult {
    Membership(MembershipProof),
    NonMembership(NonMembershipProof),
}

impl AddProof {
    /// Checks `e(new_acc, g2) = e(old_acc, g2^(s − element))`, that is, that the new
    /// exponent is the old one times `s − element`.
    pub fn verify(&self) -> (r: bool)
        ensures
            r == (self.new_acc_value@ == (self.old_acc_value@ * factor(self.element@)) % modulus()),
    {
        let s = secret_scalar();
        let w = scalar_sub(&s, &self.element);
        let g2_w = G2Point::generator_pow(&w);
        let g2 = G2Point::generator_pow(&Scalar::one());
        let lhs = GtElem::pairing(&self.new_acc_value, &g2);
        let rhs = GtElem::pairing(&self.old_acc_value, &g2_w);
        proof {
            self.new_acc_value.lemma_range();
            lemma_small_mod(self.new_acc_value@ as nat, modulus() as nat);
        }
        lhs.equals(&rhs)
    }
}

impl DeleteProof {
    /// Checks `e(new_acc, g2^(s − element)) = e(old_acc, g2)`, that is, that the new
    /// exponent times `s − element` is the old one.
    pub fn verify(&self) -> (r: bool)
        ensures
            r == ((self.new_acc_value@ * factor(self.element@)) % modulus() == self.old_acc_value@),
    {
        let s = secret_scalar();
        let w = scalar_sub(&s, &self.element);
        let g2_w = G2Point::generator_pow(&w);
        let g2 = G2Point::generator_pow(&Scalar::one());
        let lhs = GtElem::pairing(&self.new_acc_value, &g2_w);
        let rhs = GtElem::pairing(&self.old_acc_value, &g2);
        proof {
            self.old_acc_value.lemma_range();
            lemma_small_mod(self.old_acc_value@ as nat, modulus() as nat);
        }
        lhs.equals(&rhs)
    }
}

impl MembershipProof {
    /// Checks `e(witness, g2^(s − element)) = e(accumulator, g2)`.
    pub fn verify(&self, accumulator: &G1Point) -> (r: bool)
        ensures
            r == ((self.witness@ * factor(self.element@)) % modulus() == accumulator@),
    {
        let s = secret_scalar();
        let w = scalar_sub(&s, &self.element);
        let g2_w = G2Point::generator_pow(&w);
        let g2 = G2Point::generator_pow(&Scalar::one());
        let lhs = GtElem::pairing(&self.witness, &g2_w);
        let rhs = GtElem::pairing(accumulator, &g2);
        proof {
            accumulator.lemma_range();
            lemma_small_mod(accumulator@ as nat, modulus() as nat);
        }
        lhs.equals(&rhs)
    }
}

/// The polynomial `∏_{e∈v}(X − e)`, built one linear factor at a time; `None` when
/// it would outgrow `MAX_PRODUCT_LEN`.
fn vanishing_poly(v: &Vec<Scalar>) -> (r: Option<Vec<Scalar>>)
    ensures
        2 * v@.len() + 2 <= MAX_PRODUCT_LEN ==> r is Some,
        v@.len() == 0 ==> (r matches Some(p) && p@.len() == 1 && p@[0]@ == 1),
        r matches Some(p) ==> p@.len() == v@.len() + 1,
        r matches Some(p) ==> normalized(p@) && forall|z: int| in_field(z) ==> #[trigger] poly_eval(p@, z)
            == vanishing_eval(values(v@), z),
{
    let mut p: Vec<Scalar> = vec![Scalar::one()];
    proof {
        assert forall|z: int| in_field(z) implies #[trigger] poly_eval(p@, z) == vanishing_eval(
            values(v@).take(0),
            z,
        ) by {
            lemma_eval_constant(p@, z);
        }
    }
    let mut i: usize = 0;
    while i < v.len()
        invariant
            i <= v@.len(),
            normalized(p@),
            p@.len() == i + 1,
            i == 0 ==> p@.len() == 1 && p@[0]@ == 1,
            forall|z: int| in_field(z) ==> #[trigger] poly_eval(p@, z) == vanishing_eval(values(v@).take(i as int), z),
        decreases v@.len() - i,
    {
        let e = v[i];
        let linear = vec![scalar_sub(&Scalar::zero(), &e), Scalar::one()];
        if p.len() > MAX_PRODUCT_LEN - 2 {
            return None;
        }
        proof {
            assert(linear@.len() == 2);
            assert(linear@.last()@ == 1);
            assert(normalized(linear@));
            assert(normalized(p@) && p@.len() > 0);
        }
        let next = poly_product(&p, &linear);
        proof {
            assert(next@.len() == p@.len() + 1);
            assert(values(v@)[i as int] == e@);
            assert(values(v@).take(i + 1).drop_last() =~= values(v@).take(i as int));
            assert forall|z: int| in_field(z) implies #[trigger] poly_eval(next@, z) == vanishing_eval(
                values(v@).take(i + 1),
                z,
            ) by {
                lemma_eval_linear(linear@, e@, z);
                assert(poly_eval(p@, z) == vanishing_eval(values(v@).take(i as int), z));
            }
        }
        p = next;
        i = i + 1;
    }
    proof {
        assert(values(v@).take(i as int) =~= values(v@));
    }
    Some(p)
}

/// An inverse of `P(x) = ∏_{e∈v}(x − e)`, the product of the inverses of its
/// factors; there is one whenever `x` is not in `v`.
fn vanishing_inverse(v: &Vec<Scalar>, x: &Scalar) -> (r: Option<Scalar>)
    ensures
        !values(v@).contains(x@) ==> r is Some,
        r matches Some(i) ==> (i@ * vanishing_eval(values(v@), x@)) % modulus() == 1,
{
    let mut acc = Scalar::one();
    let mut i: usize = 0;
    proof {
        lemma_small_mod(1, modulus() as nat);
    }
    while i < v.len()
        invariant
            i <= v@.len(),
            (acc@ * vanishing_eval(values(v@).take(i as int), x@)) % modulus() == 1,
        decreases v@.len() - i,
    {
        let d = scalar_sub(x, &v[i]);
        let d_inv = match scalar_inverse(&d) {
            Some(w) => w,
            None => {
                proof {
                    x.lemma_range();
                    v@[i as int].lemma_range();
                    lemma_difference_zero(x@, v@[i as int]@);
                    assert(values(v@)[i as int] == x@);
                }
                return None;
            },
        };
        proof {
            assert(values(v@).take(i + 1).drop_last() =~= values(v@).take(i as int));
            assert(values(v@).take(i + 1).last() == v@[i as int]@);
            lemma_inverse_product(
                modulus(),
                acc@,
                vanishing_eval(values(v@).take(i as int), x@),
                d_inv@,
                d@,
            );
        }
        acc = scalar_mul(&acc, &d_inv);
        i = i + 1;
    }
    proof {
        assert(values(v@).take(i as int) =~= values(v@));
    }
    Some(acc)
}

/// Splits `src` into the elements that are in `by` and those that are not, each in
/// the order of `src`; the product over `src` is the product of the two products.
fn partition(src: &Vec<Scalar>, by: &DynamicAccumulator) -> (r: (Vec<Scalar>, Vec<Scalar>))
    requires
        values(src@).no_duplicates(),
    ensures
        values(r.0@).no_duplicates(),
        values(r.1@).no_duplicates(),
        forall|x: int| #[trigger] values(r.0@).contains(x) <==> (values(src@).contains(x) && by@.contains(x)),
        forall|x: int| #[trigger] values(r.1@).contains(x) <==> (values(src@).contains(x) && !by@.contains(x)),
        set_exponent(values(src@)) == (set_exponent(values(r.0@)) * set_exponent(values(r.1@)))
            % modulus(),
        r.0@.len() + r.1@.len() == src@.len(),
{
    let mut ins: Vec<Scalar> = Vec::new();
    let mut outs: Vec<Scalar> = Vec::new();
    let mut k: usize = 0;
    proof {
        assert(values(ins@) =~= Seq::<int>::empty());
        assert(values(outs@) =~= Seq::<int>::empty());
        assert(values(src@).take(0) =~= Seq::<int>::empty());
    }
    while k < src.len()
        invariant
            k <= src@.len(),
            values(src@).no_duplicates(),
            ins@.len() + outs@.len() == k,
            values(ins@).no_duplicates(),
            values(outs@).no_duplicates(),
            forall|x: int| #[trigger] values(ins@).contains(x) <==> (values(src@).take(k as int).contains(x) && by@.contains(x)),
            forall|x: int| #[trigger] values(outs@).contains(x) <==> (values(src@).take(k as int).contains(x) && !by@.contains(x)),
            set_exponent(values(src@).take(k as int)) == (set_exponent(values(ins@)) * set_exponent(values(outs@))) % modulus(),
        decreases src@.len() - k,
    {
        let e = src[k];
        let ghost vs = values(src@);
        let ghost pre = vs.take(k as int);
        let ghost ins0 = values(ins@);
        let ghost outs0 = values(outs@);
        proof {
            assert(vs[k as int] == e@);
            assert(vs.take(k + 1) =~= pre.push(e@));
            assert(vs.take(k + 1).drop_last() =~= pre);
            if pre.contains(e@) {
                let j = choose|j: int| 0 <= j < pre.len() && pre[j] == e@;
                assert(vs[j] == vs[k as int]);
            }
            lemma_vanishing_range(ins0, secret());
            lemma_vanishing_range(outs0, secret());
        }
        if by.position(&e).is_some() {
            ins.push(e);
            proof {
                assert(values(ins@) =~= ins0.push(e@));
                assert(values(ins@).drop_last() =~= ins0);
                lemma_no_dup_push(ins0, e@);
                assert forall|x: int| #[trigger] values(ins@).contains(x) <==> (vs.take(k + 1).contains(x) && by@.contains(x)) by {
                    lemma_contains_push(ins0, e@, x);
                    lemma_contains_push(pre, e@, x);
                }
                assert forall|x: int| #[trigger] values(outs@).contains(x) <==> (vs.take(k + 1).contains(x) && !by@.contains(x)) by {
                    lemma_contains_push(pre, e@, x);
                }
                lemma_swap_factors(modulus(), set_exponent(ins0), set_exponent(outs0), factor(e@));
            }
        } else {
            outs.push(e);
            proof {
                assert(values(outs@) =~= outs0.push(e@));
                assert(values(outs@).drop_last() =~= outs0);
                lemma_no_dup_push(outs0, e@);
                assert forall|x: int| #[trigger] values(outs@).contains(x) <==> (vs.take(k + 1).contains(x) && !by@.contains(x)) by {
                    lemma_contains_push(outs0, e@, x);
                    lemma_contains_push(pre, e@, x);
                }
                assert forall|x: int| #[trigger] values(ins@).contains(x) <==> (vs.take(k + 1).contains(x) && by@.contains(x)) by {
                    lemma_contains_push(pre, e@, x);
                }
                lemma_assoc_mod(modulus(), set_exponent(ins0), set_exponent(outs0), factor(e@));
            }
        }
        k = k + 1;
    }
    proof {
        assert(values(src@).take(k as int) =~= values(src@));
    }
    (ins, outs)
}

/// The values of `src` whose field images are (`keep_members`) or are not in `by`,
/// in the order of `src`.
fn select_values(src: &Vec<i64>, by: &DynamicAccumulator, keep_members: bool) -> (r: Vec<i64>)
    ensures
        forall|v: i64| #[trigger] r@.contains(v) <==> (src@.contains(v) && by@.contains(element_value(v))
            == keep_members),
        r@.len() <= src@.len(),
{
    let mut r: Vec<i64> = Vec::new();
    let mut k: usize = 0;
    while k < src.len()
        invariant
            k <= src@.len(),
            r@.len() <= k,
            forall|v: i64| #[trigger] r@.contains(v) <==> (src@.take(k as int).contains(v) && by@.contains(element_value(v))
                == keep_members),
        decreases src@.len() - k,
    {
        let v = src[k];
        let ghost r0 = r@;
        proof {
            assert(src@.take(k + 1) =~= src@.take(k as int).push(v));
        }
        if by.contains(&v) == keep_members {
            r.push(v);
            proof {
                assert forall|y: i64| #[trigger] r@.contains(y) <==> (src@.take(k + 1).contains(y) && by@.contains(element_value(y))
                    == keep_members) by {
                    lemma_contains_push(r0, v, y);
                    lemma_contains_push(src@.take(k as int), v, y);
                }
            }
        } else {
            proof {
                assert forall|y: i64| #[trigger] r@.contains(y) <==> (src@.take(k + 1).contains(y) && by@.contains(element_value(y))
                    == keep_members) by {
                    lemma_contains_push(src@.take(k as int), v, y);
                }
            }
        }
        k = k + 1;
    }
    proof {
        assert(src@.take(k as int) =~= src@);
    }
    r
}

/// The two lists one after the other.
fn concat(a: &Vec<Scalar>, b: &Vec<Scalar>) -> (r: Vec<Scalar>)
    requires
        a@.len() + b@.len() <= usize::MAX,
    ensures
        r@ == a@ + b@,
{
    let mut r: Vec<Scalar> = Vec::new();
    let mut i: usize = 0;
    while i < a.len()
        invariant
            i <= a@.len(),
            r@ == a@.take(i as int),
        decreases a@.len() - i,
    {
        r.push(a[i]);
        proof {
            assert(a@.take(i + 1) =~= a@.take(i as int).push(a@[i as int]));
        }
        i = i + 1;
    }
    let mut j: usize = 0;
    proof {
        assert(a@.take(i as int) =~= a@);
        assert(b@.take(0) =~= Seq::<Scalar>::empty());
        assert(a@ + b@.take(0) =~= a@);
    }
    while j < b.len()
        invariant
            j <= b@.len(),
            r@ == a@ + b@.take(j as int),
        decreases b@.len() - j,
    {
        r.push(b[j]);
        proof {
            assert(a@ + b@.take(j + 1) =~= (a@ + b@.take(j as int)).push(b@[j as int]));
        }
        j = j + 1;
    }
    proof {
        assert(b@.take(j as int) =~= b@);
    }
    r
}

/// A dynamic accumulator: the value `g1^P(s)` and the set `S` it commits to.
#[derive(Debug, Clone)]
pub struct DynamicAccumulator {
    /// The current accumulator value, `g1^P(s)`.
    pub acc_value: G1Point,
    elements: Vec<Scalar>,
}

impl View for DynamicAccumulator {
    type V = Seq<int>;

    /// The committed elements, in the order they were added.
    closed spec fn view(&self) -> Seq<int> {
        values(self.elements@)
    }
}

impl DynamicAccumulator {
    /// The logarithm of `acc_value` to the base `g1`.
    pub closed spec fn acc_log(&self) -> int {
        self.acc_value@
    }

    /// The set has no duplicates and the value commits to it.
    pub closed spec fn wf(&self) -> bool {
        &&& self@.no_duplicates()
        &&& self.acc_value@ == set_exponent(self@)
    }

    /// Creates an empty accumulator, whose value is `g1^1` (the empty product is 1).
    pub fn new() -> (r: DynamicAccumulator)
        ensures
            r.wf(),
            r@ == Seq::<int>::empty(),
            r.acc_log() == 1,
    {
        let r = DynamicAccumulator { acc_value: G1Point::generator_pow(&Scalar::one()), elements: Vec::new() };
        proof {
            assert(r@ =~= Seq::<int>::empty());
        }
        r
    }

    /// The current accumulator value, `g1^P(s)`.
    pub fn acc_value(&self) -> (r: G1Point)
        ensures
            r@ == self.acc_log(),
    {
        self.acc_value.copy()
    }

    /// Tells whether two accumulators hold the same value and the same set.
    pub fn same_as(&self, o: &DynamicAccumulator) -> (r: bool)
        ensures
            r == (self.acc_log() == o.acc_log() && self@.len() == o@.len() && forall|x: int|
                self@.contains(x) <==> o@.contains(x)),
    {
        if !self.acc_value.equals(&o.acc_value) || self.elements.len() != o.elements.len() {
            return false;
        }
        let mut i: usize = 0;
        while i < self.elements.len()
            invariant
                i <= self@.len(),
                self@.len() == self.elements@.len(),
                forall|j: int| 0 <= j < i ==> o@.contains(#[trigger] self@[j]),
            decreases self.elements@.len() - i,
        {
            if o.position(&self.elements[i]).is_none() {
                proof {
                    assert(self@.contains(self@[i as int]));
                }
                return false;
            }
            i = i + 1;
        }
        let mut j: usize = 0;
        while j < o.elements.len()
            invariant
                j <= o@.len(),
                o@.len() == o.elements@.len(),
                forall|k: int| 0 <= k < self@.len() ==> o@.contains(#[trigger] self@[k]),
                forall|k: int| 0 <= k < j ==> self@.contains(#[trigger] o@[k]),
            decreases o.elements@.len() - j,
        {
            if self.position(&o.elements[j]).is_none() {
                proof {
                    assert(o@.contains(o@[j as int]));
                }
                return false;
            }
            j = j + 1;
        }
        proof {
            assert forall|x: int| self@.contains(x) <==> o@.contains(x) by {
                if self@.contains(x) {
                    let k = choose|k: int| 0 <= k < self@.len() && self@[k] == x;
                    assert(o@.contains(self@[k]));
                }
                if o@.contains(x) {
                    let k = choose|k: int| 0 <= k < o@.len() && o@[k] == x;
                    assert(self@.contains(o@[k]));
                }
            }
        }
        true
    }

    /// Tells whether the element's field image is in the set.
    pub fn contains(&self, element: &i64) -> (r: bool)
        ensures
            r == self@.contains(element_value(*element)),
    {
        let fx = element_to_field(element);
        self.position(&fx).is_some()
    }

    /// The number of elements in the set.
    pub fn len(&self) -> (r: usize)
        ensures
            r == self@.len(),
    {
        self.elements.len()
    }

    /// Where the field element `x` stands in the set, if it is there.
    fn position(&self, x: &Scalar) -> (r: Option<usize>)
        ensures
            match r {
                Some(i) => i < self@.len() && self@[i as int] == x@,
                None => !self@.contains(x@),
            },
    {
        let mut i: usize = 0;
        while i < self.elements.len()
            invariant
                i <= self@.len(),
                self@.len() == self.elements@.len(),
                forall|j: int| 0 <= j < i ==> self@[j] != x@,
            decreases self.elements@.len() - i,
        {
            if self.elements[i].equals(x) {
                return Some(i);
            }
            i = i + 1;
        }
        None
    }

    /// Adds an element: the value is raised to `s − x`, where `x` is the element's
    /// field image. Fails with `Duplicate`, and changes nothing, if `x` is in the set.
    pub fn add(&mut self, element: &i64) -> (r: Result<AddProof, AccumulatorError>)
        requires
            old(self).wf(),
        ensures
            final(self).wf(),
            ({
                let x = element_value(*element);
                match r {
                    Ok(p) => {
                        &&& !old(self)@.contains(x)
                        &&& final(self)@ == old(self)@.push(x)
                        &&& p.old_acc_value@ == old(self).acc_log()
                        &&& p.new_acc_value@ == final(self).acc_log()
                        &&& p.element@ == x
                    },
                    Err(e) => {
                        &&& old(self)@.contains(x)
                        &&& e == AccumulatorError::Duplicate
                        &&& final(self)@ == old(self)@
                        &&& final(self).acc_log() == old(self).acc_log()
                    },
                }
            }),
    {
        let fx = element_to_field(element);
        if self.position(&fx).is_some() {
            return Err(AccumulatorError::Duplicate);
        }
        let old_acc = self.acc_value.copy();
        let s = secret_scalar();
        let w = scalar_sub(&s, &fx);
        self.acc_value = self.acc_value.scale(&w);
        self.elements.push(fx);
        proof {
            assert(self@ =~= old(self)@.push(fx@));
            assert(self@.drop_last() =~= old(self)@);
            assert forall|a: int, b: int|
                0 <= a < self@.len() && 0 <= b < self@.len() && a != b implies self@[a] != self@[b] by {
                let n = old(self)@.len();
                if a < n {
                    assert(old(self)@[a] == self@[a]);
                    assert(old(self)@[a] == fx@ ==> old(self)@.contains(fx@));
                }
                if b < n {
                    assert(old(self)@[b] == self@[b]);
                    assert(old(self)@[b] == fx@ ==> old(self)@.contains(fx@));
                }
            }
        }
        Ok(AddProof { old_acc_value: old_acc, new_acc_value: self.acc_value.copy(), element: fx })
    }

    /// Adds the elements one by one. Fails with `Duplicate` at the first element
    /// already in the set; the ones added before it stay added.
    pub fn add_batch(&mut self, elements: &Vec<i64>) -> (r: Result<(), AccumulatorError>)
        requires
            old(self).wf(),
        ensures
            final(self).wf(),
            match r {
                Ok(()) => final(self)@ == old(self)@ + elements@.map_values(|x: i64| element_value(x)),
                Err(e) => {
                    &&& e == AccumulatorError::Duplicate
                    &&& exists|k: int|
                        0 <= k < elements@.len() && final(self)@ == old(self)@ + elements@.take(
                            k,
                        ).map_values(|x: i64| element_value(x)) && final(self)@.contains(
                            element_value(elements@[k]),
                        )
                },
            },
    {
        let mut i: usize = 0;
        while i < elements.len()
            invariant
                self.wf(),
                i <= elements@.len(),
                self@ == old(self)@ + elements@.take(i as int).map_values(|x: i64| element_value(x)),
            decreases elements@.len() - i,
        {
            let res = self.add(&elements[i]);
            match res {
                Ok(_) => {},
                Err(e) => {
                    return Err(e);
                },
            }
            proof {
                assert(elements@.take(i + 1) =~= elements@.take(i as int).push(elements@[i as int]));
                assert(self@ =~= old(self)@ + elements@.take(i + 1).map_values(|x: i64| element_value(x)));
            }
            i = i + 1;
        }
        proof {
            assert(elements@.take(i as int) =~= elements@);
        }
        Ok(())
    }

    /// Deletes an element: the value is raised to `(s − x)^(-1)`. Fails with
    /// `NotFound` if `x` is not in the set and with `Arithmetic` if `s − x` has no
    /// inverse; either way nothing changes.
    pub fn delete(&mut self, element: &i64) -> (r: Result<DeleteProof, AccumulatorError>)
        requires
            old(self).wf(),
        ensures
            final(self).wf(),
            ({
                let x = element_value(*element);
                match r {
                    Ok(p) => {
                        &&& old(self)@.contains(x)
                        &&& factor(x) != 0
                        &&& exists|i: int|
                            0 <= i < old(self)@.len() && old(self)@[i] == x && final(self)@
                                == old(self)@.remove(i)
                        &&& p.old_acc_value@ == old(self).acc_log()
                        &&& p.new_acc_value@ == final(self).acc_log()
                        &&& p.element@ == x
                    },
                    Err(e) => {
                        &&& final(self)@ == old(self)@
                        &&& final(self).acc_log() == old(self).acc_log()
                        &&& (e == AccumulatorError::NotFound <==> !old(self)@.contains(x))
                        &&& (e == AccumulatorError::Arithmetic <==> (old(self)@.contains(x) && factor(x) == 0))
                        &&& (e == AccumulatorError::NotFound || e == AccumulatorError::Arithmetic)
                    },
                }
            }),
    {
        let fx = element_to_field(element);
        let i = match self.position(&fx) {
            Some(i) => i,
            None => {
                return Err(AccumulatorError::NotFound);
            },
        };
        let s = secret_scalar();
        let w = scalar_sub(&s, &fx);
        let w_inv = match scalar_inverse(&w) {
            Some(v) => v,
            None => {
                return Err(AccumulatorError::Arithmetic);
            },
        };
        let old_acc = self.acc_value.copy();
        self.acc_value = self.acc_value.scale(&w_inv);
        self.elements.remove(i);
        proof {
            let rest = old(self)@.remove(i as int);
            lemma_vanishing_remove(old(self)@, i as int, secret());
            lemma_vanishing_range(rest, secret());
            lemma_cancel(modulus(), set_exponent(rest), factor(fx@), w_inv@);
            assert(self@ =~= rest);
            assert forall|a: int, b: int|
                0 <= a < self@.len() && 0 <= b < self@.len() && a != b implies self@[a] != self@[b] by {
                let a0 = if a < i { a } else { a + 1 };
                let b0 = if b < i { b } else { b + 1 };
                assert(old(self)@[a0] == self@[a]);
                assert(old(self)@[b0] == self@[b]);
            }
        }
        Ok(DeleteProof { old_acc_value: old_acc, new_acc_value: self.acc_value.copy(), element: fx })
    }

    /// Replaces one element by another: `delete(old_element)`, then
    /// `add(new_element)`. This is not atomic: when the deletion succeeds and the
    /// addition fails, the deletion stays done.
    pub fn update(&mut self, old_element: &i64, new_element: &i64) -> (r: Result<
        (DeleteProof, AddProof),
        AccumulatorError,
    >)
        requires
            old(self).wf(),
        ensures
            final(self).wf(),
            ({
                let xo = element_value(*old_element);
                let xn = element_value(*new_element);
                if !old(self)@.contains(xo) {
                    &&& r == Err::<(DeleteProof, AddProof), AccumulatorError>(AccumulatorError::NotFound)
                    &&& final(self)@ == old(self)@
                    &&& final(self).acc_log() == old(self).acc_log()
                } else if factor(xo) == 0 {
                    &&& r == Err::<(DeleteProof, AddProof), AccumulatorError>(AccumulatorError::Arithmetic)
                    &&& final(self)@ == old(self)@
                    &&& final(self).acc_log() == old(self).acc_log()
                } else {
                    exists|i: int|
                        0 <= i < old(self)@.len() && old(self)@[i] == xo && {
                            let mid = old(self)@.remove(i);
                            if mid.contains(xn) {
                                &&& r == Err::<(DeleteProof, AddProof), AccumulatorError>(AccumulatorError::Duplicate)
                                &&& final(self)@ == mid
                            } else {
                                &&& final(self)@ == mid.push(xn)
                                &&& r matches Ok((d, a)) && d.old_acc_value@ == old(self).acc_log()
                                    && d.new_acc_value@ == set_exponent(mid) && a.old_acc_value@ == set_exponent(mid)
                                    && a.new_acc_value@ == final(self).acc_log() && d.element@ == xo && a.element@ == xn
                                    && (d.new_acc_value@ * factor(xo)) % modulus() == d.old_acc_value@
                                    && a.new_acc_value@ == (a.old_acc_value@ * factor(xn)) % modulus()
                            }
                        }
                }
            }),
    {
        let ghost before = *self;
        let delete_proof = match self.delete(old_element) {
            Ok(p) => p,
            Err(e) => {
                return Err(e);
            },
        };
        let ghost middle = *self;
        proof {
            lemma_delete_proof_verifies(&before, &middle, &delete_proof);
        }
        let add_proof = match self.add(new_element) {
            Ok(p) => p,
            Err(e) => {
                return Err(e);
            },
        };
        proof {
            lemma_add_proof_verifies(&middle, self, &add_proof);
        }
        Ok((delete_proof, add_proof))
    }

    /// A proof that the element's field image `x` is in the set: the value raised
    /// to `(s − x)^(-1)`. Fails with `NotFound` if `x` is not in the set and with
    /// `Arithmetic` if `s − x` has no inverse.
    pub fn prove_membership(&self, element: &i64) -> (r: Result<MembershipProof, AccumulatorError>)
        requires
            self.wf(),
        ensures
            ({
                let x = element_value(*element);
                match r {
                    Ok(p) => {
                        &&& self@.contains(x)
                        &&& factor(x) != 0
                        &&& p.element@ == x
                        &&& (p.witness@ * factor(x)) % modulus() == self.acc_log()
                        &&& exists|i: int|
                            0 <= i < self@.len() && self@[i] == x && p.witness@ == set_exponent(
                                self@.remove(i),
                            )
                    },
                    Err(e) => {
                        &&& (e == AccumulatorError::NotFound <==> !self@.contains(x))
                        &&& (e == AccumulatorError::Arithmetic <==> (self@.contains(x) && factor(x) == 0))
                        &&& (e == AccumulatorError::NotFound || e == AccumulatorError::Arithmetic)
                    },
                }
            }),
    {
        let fx = element_to_field(element);
        let i = match self.position(&fx) {
            Some(i) => i,
            None => {
                return Err(AccumulatorError::NotFound);
            },
        };
        let s = secret_scalar();
        let w = scalar_sub(&s, &fx);
        let w_inv = match scalar_inverse(&w) {
            Some(v) => v,
            None => {
                return Err(AccumulatorError::Arithmetic);
            },
        };
        let witness = self.acc_value.scale(&w_inv);
        proof {
            let rest = self@.remove(i as int);
            lemma_vanishing_remove(self@, i as int, secret());
            lemma_vanishing_range(rest, secret());
            lemma_cancel(modulus(), set_exponent(rest), factor(fx@), w_inv@);
        }
        Ok(MembershipProof { witness, element: fx })
    }

    /// Checks a membership proof against the current value.
    pub fn verify_membership(&self, proof: &MembershipProof) -> (r: bool)
        ensures
            r == ((proof.witness@ * factor(proof.element@)) % modulus() == self.acc_log()),
    {
        proof.verify(&self.acc_value)
    }

    /// A proof that the element's field image `x` is not in the set. It builds
    /// `P(X) = ∏_{e∈S}(X − e)`, runs `xgcd(X − x, P)` to find `A·(X − x) + B·P = c`
    /// with a nonzero constant `c`, and returns `g1^(A(s)/c)` and `g2^(B(s)/c)`.
    /// Fails with `Present` if `x` is in the set, and otherwise succeeds whenever the
    /// set is `within_size`; `Infeasible` is left for larger sets.
    pub fn prove_non_membership(&self, element: &i64) -> (r: Result<NonMembershipProof, AccumulatorError>)
        requires
            self.wf(),
        ensures
            ({
                let x = element_value(*element);
                match r {
                    Ok(p) => {
                        &&& !self@.contains(x)
                        &&& p.element@ == x
                        &&& ((self.acc_log() * p.witness@) % modulus() + (p.g1_a@ * factor(x)) % modulus())
                            % modulus() == 1
                        &&& exists|a: Seq<Scalar>, b: Seq<Scalar>|
                            #[trigger] non_membership_witness(a, b, self@, x) && p.g1_a@ == poly_eval(a, secret())
                                && p.witness@ == poly_eval(b, secret())
                    },
                    Err(e) => {
                        &&& (e == AccumulatorError::Present <==> self@.contains(x))
                        &&& (e == AccumulatorError::Present || e == AccumulatorError::Infeasible)
                    },
                }
            }),
            !self@.contains(element_value(*element)) && within_size(self@.len() as int) ==> r is Ok,
            self@.len() == 0 ==> (r matches Ok(p) && p.g1_a@ == 0 && p.witness@ == 1),
    {
        let fx = element_to_field(element);
        if self.position(&fx).is_some() {
            return Err(AccumulatorError::Present);
        }
        proof {
            let n = self@.len() as int;
            if within_size(n) {
                assert(2 * n + 2 <= (2 * n + 4) * (2 * n + 4)) by (nonlinear_arith)
                    requires
                        n >= 0,
                ;
            }
        }
        let p = match vanishing_poly(&self.elements) {
            Some(p) => p,
            None => {
                return Err(AccumulatorError::Infeasible);
            },
        };
        let q = vec![scalar_sub(&Scalar::zero(), &fx), Scalar::one()];
        proof {
            let n = self@.len() as int;
            if within_size(n) {
                assert(p@.len() + 2 <= 2 * n + 4);
                assert(long_side(q@, p@) <= 2 * n + 4);
                assert((p@.len() + 2) * long_side(q@, p@) <= (2 * n + 4) * (2 * n + 4)) by (nonlinear_arith)
                    requires
                        p@.len() + 2 <= 2 * n + 4,
                        1 <= long_side(q@, p@) <= 2 * n + 4,
                ;
            }
        }
        let (g, u, v) = match xgcd(&q, &p) {
            Some(t) => t,
            None => {
                return Err(AccumulatorError::Infeasible);
            },
        };
        if g.len() != 1 {
            // The gcd has degree one. Its root would be a root of both X − x and P,
            // so x would be a root of P, which has an inverse at x.
            if let (Some(c1_inv), Some(p_inv)) = (scalar_inverse(&g[1]), vanishing_inverse(&self.elements, &fx)) {
                let root = scalar_mul(&scalar_sub(&Scalar::zero(), &g[0]), &c1_inv);
                proof {
                    root.lemma_range();
                    fx.lemma_range();
                    lemma_eval_pair(g@, root@);
                    lemma_linear_root(modulus(), g[0]@, g[1]@, c1_inv@, (0 - g[0]@) % modulus(), root@);
                    vstd::arithmetic::mul::lemma_mul_is_commutative(root@, g[1]@);
                    assert(poly_eval(g@, root@) == 0);
                    lemma_eval_linear(q@, fx@, root@);
                    lemma_difference_zero(root@, fx@);
                    assert(poly_eval(p@, fx@) == 0);
                    assert(false);
                }
            }
            return Err(AccumulatorError::Infeasible);
        }
        let c_inv = match scalar_inverse(&g[0]) {
            Some(ci) => ci,
            None => {
                return Err(AccumulatorError::Infeasible);
            },
        };
        // Normalize: A = u/c and B = v/c, so that A·(X − x) + B·P = 1.
        let a_poly = crate::poly::scale_poly(&u, &c_inv);
        let b_poly = crate::poly::scale_poly(&v, &c_inv);
        let s = secret_scalar();
        let a_s = poly_evaluate(&a_poly, &s);
        let b_s = poly_evaluate(&b_poly, &s);
        proof {
            if self@.len() == 0 {
                // P = 1: xgcd gives g = 1, u = 0, v = 1, so A = 0 and B = 1.
                c_inv.lemma_range();
                assert(g@ == p@);
                assert(g[0]@ == 1);
                lemma_small_mod(c_inv@ as nat, modulus() as nat);
                assert(c_inv@ == 1);
                assert(a_poly@.len() == 0);
                lemma_eval_constant(b_poly@, s@);
                lemma_small_mod(1, modulus() as nat);
            }
        }
        let g1_a = G1Point::generator_pow(&a_s);
        let witness = G2Point::generator_pow(&b_s);
        proof {
            assert forall|z: int| in_field(z) implies #[trigger] (((vanishing_eval(self@, z) * poly_eval(b_poly@, z)) % modulus()
                + (poly_eval(a_poly@, z) * ((z - fx@) % modulus())) % modulus()) % modulus()) == 1 by {
                assert(bezout_at(q@, p@, u@, v@, g@, z));
                assert(poly_eval(p@, z) == vanishing_eval(self@, z));
                lemma_eval_linear(q@, fx@, z);
                lemma_eval_constant(g@, z);
                vstd::arithmetic::mul::lemma_mul_is_commutative(c_inv@, g[0]@);
                lemma_normalized_bezout(
                    modulus(),
                    poly_eval(u@, z),
                    poly_eval(v@, z),
                    poly_eval(q@, z),
                    poly_eval(p@, z),
                    g[0]@,
                    c_inv@,
                    poly_eval(a_poly@, z),
                    poly_eval(b_poly@, z),
                );
            }
            assert(non_membership_witness(a_poly@, b_poly@, self@, fx@));
            s.lemma_range();
            assert(in_field(s@));
            assert(bezout_at(q@, p@, u@, v@, g@, s@));
            lemma_eval_linear(q@, fx@, s@);
            lemma_eval_constant(g@, s@);
            lemma_normalized_bezout(
                modulus(),
                poly_eval(u@, s@),
                poly_eval(v@, s@),
                poly_eval(q@, s@),
                poly_eval(p@, s@),
                g[0]@,
                c_inv@,
                a_s@,
                b_s@,
            );
            vstd::arithmetic::mul::lemma_mul_is_commutative(c_inv@, g[0]@);
        }
        Ok(NonMembershipProof { element: fx, witness, g1_a })
    }

    /// Checks `e(acc, witness)·e(g1_a, g2^(s − element)) = e(g1, g2)`, that is,
    /// `P(s)·B(s) + A(s)·(s − element) = 1` in the exponents.
    pub fn verify_non_membership(&self, proof: &NonMembershipProof) -> (r: bool)
        ensures
            r == (((self.acc_log() * proof.witness@) % modulus() + (proof.g1_a@ * factor(proof.element@))
                % modulus()) % modulus() == 1),
    {
        let s = secret_scalar();
        let w = scalar_sub(&s, &proof.element);
        let g2_w = G2Point::generator_pow(&w);
        let one = Scalar::one();
        let g1 = G1Point::generator_pow(&one);
        let g2 = G2Point::generator_pow(&one);
        let lhs1 = GtElem::pairing(&self.acc_value, &proof.witness);
        let lhs2 = GtElem::pairing(&proof.g1_a, &g2_w);
        let rhs = GtElem::pairing(&g1, &g2);
        let lhs = lhs1.product(&lhs2);
        lhs.equals(&rhs)
    }

    /// The intersection of two sets with its accumulator and proof, and the part
    /// `S2∖S1` of the other set with its product `Q2(s)`.
    fn intersection_parts(&self, other: &DynamicAccumulator) -> (r: Result<
        (DynamicAccumulator, IntersectionProof, Vec<Scalar>, Scalar),
        AccumulatorError,
    >)
        requires
            self.wf(),
            other.wf(),
        ensures
            match r {
                Ok((acc, pf, d2, q2)) => {
                    &&& acc.wf()
                    &&& forall|x: int| acc@.contains(x) <==> (self@.contains(x) && other@.contains(x))
                    &&& intersection_holds(self.acc_log(), other.acc_log(), acc.acc_log(), pf)
                    &&& values(d2@).no_duplicates()
                    &&& forall|x: int| #[trigger] values(d2@).contains(x) <==> (other@.contains(x) && !self@.contains(x))
                    &&& q2@ == set_exponent(values(d2@))
                    &&& q2@ == pf.q2_g2@
                    &&& d2@.len() <= other@.len()
                },
                Err(e) => e == AccumulatorError::Infeasible,
            },
            within_size(self@.len() + other@.len() as int) && at_most_one_outside(self@, other@) ==> r is Ok,
    {
        let (inter, d1) = partition(&self.elements, other);
        let (inter2, d2) = partition(&other.elements, self);
        proof {
            assert forall|x: int| values(inter@).contains(x) <==> values(inter2@).contains(x) by {
                assert(values(inter@).contains(x) <==> (self@.contains(x) && other@.contains(x)));
                assert(values(inter2@).contains(x) <==> (other@.contains(x) && self@.contains(x)));
            }
            lemma_vanishing_permutation(values(inter@), values(inter2@), secret());
            let n = self@.len() + other@.len() as int;
            if within_size(n) {
                assert(2 * n + 2 <= (2 * n + 4) * (2 * n + 4)) by (nonlinear_arith)
                    requires
                        n >= 0,
                ;
            }
        }
        let pi = match vanishing_poly(&inter) {
            Some(p) => p,
            None => {
                return Err(AccumulatorError::Infeasible);
            },
        };
        let q1 = match vanishing_poly(&d1) {
            Some(p) => p,
            None => {
                return Err(AccumulatorError::Infeasible);
            },
        };
        let q2 = match vanishing_poly(&d2) {
            Some(p) => p,
            None => {
                return Err(AccumulatorError::Infeasible);
            },
        };
        proof {
            let n = self@.len() + other@.len() as int;
            if within_size(n) {
                assert(long_side(q1@, q2@) <= n + 1);
                assert((q2@.len() + 2) * long_side(q1@, q2@) <= (2 * n + 4) * (2 * n + 4)) by (nonlinear_arith)
                    requires
                        q2@.len() + 2 <= n + 3,
                        1 <= long_side(q1@, q2@) <= n + 1,
                        n >= 0,
                ;
            }
            if at_most_one_outside(self@, other@) && d1@.len() >= 2 {
                let w = values(d1@);
                assert(w.contains(w[0]) && w.contains(w[1]));
            }
        }
        let (g, u, v) = match xgcd(&q1, &q2) {
            Some(t) => t,
            None => {
                return Err(AccumulatorError::Infeasible);
            },
        };
        if g.len() != 1 {
            // When at most one element of this set is outside the other, Q1 is at
            // most linear, so the gcd would have a root shared by Q1 and Q2: an
            // element of this set outside the other that is a root of Q2.
            proof {
                assert(q1@.len() == d1@.len() + 1);
                if d1@.len() >= 1 {
                    assert(values(d1@)[0] == d1@[0]@);
                    assert(values(d1@).contains(d1@[0]@));
                    assert(self@.contains(d1@[0]@) && !other@.contains(d1@[0]@));
                    assert(!values(d2@).contains(d1@[0]@));
                }
            }
            if d1.len() == 1 {
                if let (Some(c1_inv), Some(q2_inv)) = (scalar_inverse(&g[1]), vanishing_inverse(&d2, &d1[0])) {
                    let root = scalar_mul(&scalar_sub(&Scalar::zero(), &g[0]), &c1_inv);
                    proof {
                        let e = d1@[0]@;
                        root.lemma_range();
                        d1@[0].lemma_range();
                        lemma_eval_pair(g@, root@);
                        lemma_linear_root(modulus(), g[0]@, g[1]@, c1_inv@, (0 - g[0]@) % modulus(), root@);
                        vstd::arithmetic::mul::lemma_mul_is_commutative(root@, g[1]@);
                        assert(poly_eval(g@, root@) == 0);
                        assert(poly_eval(q1@, root@) == vanishing_eval(values(d1@), root@));
                        assert(poly_eval(q1@, root@) == 0);
                        let w = values(d1@);
                        assert(w.drop_last() =~= Seq::<int>::empty());
                        assert(w.last() == e);
                        assert(vanishing_eval(w.drop_last(), root@) == 1);
                        assert(vanishing_eval(w, root@) == (vanishing_eval(w.drop_last(), root@) * ((root@ - e)
                            % modulus())) % modulus());
                        lemma_small_mod(((root@ - e) % modulus()) as nat, modulus() as nat);
                        assert((root@ - e) % modulus() == 0);
                        lemma_difference_zero(root@, e);
                        assert(poly_eval(q2@, root@) == 0);
                        assert(poly_eval(q2@, e) == vanishing_eval(values(d2@), e));
                        assert(vanishing_eval(values(d2@), e) == 0);
                        assert(q2_inv@ * 0 == 0);
                        assert(false);
                    }
                }
            }
            return Err(AccumulatorError::Infeasible);
        }
        let c_inv = match scalar_inverse(&g[0]) {
            Some(ci) => ci,
            None => {
                return Err(AccumulatorError::Infeasible);
            },
        };
        let s = secret_scalar();
        let i_s = poly_evaluate(&pi, &s);
        let q1_s = poly_evaluate(&q1, &s);
        let q2_s = poly_evaluate(&q2, &s);
        let u_s = scalar_mul(&poly_evaluate(&u, &s), &c_inv);
        let v_s = scalar_mul(&poly_evaluate(&v, &s), &c_inv);
        let acc = DynamicAccumulator { acc_value: G1Point::generator_pow(&i_s), elements: inter };
        let pf = IntersectionProof {
            q1_g2: G2Point::generator_pow(&q1_s),
            q2_g2: G2Point::generator_pow(&q2_s),
            u_g1: G1Point::generator_pow(&u_s),
            v_g1: G1Point::generator_pow(&v_s),
        };
        proof {
            s.lemma_range();
            assert(in_field(s@));
            assert(poly_eval(pi@, s@) == vanishing_eval(values(acc.elements@), s@));
            assert(poly_eval(q1@, s@) == vanishing_eval(values(d1@), s@));
            assert(poly_eval(q2@, s@) == vanishing_eval(values(d2@), s@));
            assert(bezout_at(q1@, q2@, u@, v@, g@, s@));
            lemma_eval_constant(g@, s@);
            lemma_normalized_bezout(
                modulus(),
                poly_eval(u@, s@),
                poly_eval(v@, s@),
                poly_eval(q1@, s@),
                poly_eval(q2@, s@),
                g[0]@,
                c_inv@,
                u_s@,
                v_s@,
            );
            vstd::arithmetic::mul::lemma_mul_is_commutative(c_inv@, g[0]@);
            vstd::arithmetic::mul::lemma_mul_is_commutative(v_s@, q2_s@);
        }
        Ok((acc, pf, d2, q2_s))
    }

    /// The accumulator of the intersection of the two sets, with a proof that it is
    /// that intersection. Fails with `Infeasible` when the Bézout witnesses cannot
    /// be made; that is proved not to happen for sets within `within_size` of which
    /// at most one element of this set lies outside the other.
    pub fn prove_intersection(&self, other: &DynamicAccumulator) -> (r: Result<
        (DynamicAccumulator, IntersectionProof),
        AccumulatorError,
    >)
        requires
            self.wf(),
            other.wf(),
        ensures
            match r {
                Ok((acc, pf)) => {
                    &&& acc.wf()
                    &&& forall|x: int| acc@.contains(x) <==> (self@.contains(x) && other@.contains(x))
                    &&& intersection_holds(self.acc_log(), other.acc_log(), acc.acc_log(), pf)
                },
                Err(e) => e == AccumulatorError::Infeasible,
            },
            within_size(self@.len() + other@.len() as int) && at_most_one_outside(self@, other@) ==> r is Ok,
    {
        match self.intersection_parts(other) {
            Ok((acc, pf, _d2, _q2)) => Ok((acc, pf)),
            Err(e) => Err(e),
        }
    }

    /// Checks an intersection proof for the values `a1`, `a2` of two accumulators
    /// and the claimed intersection value `a_i`: `e(a_i, g2^Q1(s)) = e(a1, g2)`,
    /// `e(a_i, g2^Q2(s)) = e(a2, g2)` and
    /// `e(g1^u(s), g2^Q1(s))·e(g1^v(s), g2^Q2(s)) = e(g1, g2)`.
    pub fn verify_intersection(a1: &G1Point, a2: &G1Point, a_i: &G1Point, proof: &IntersectionProof) -> (r: bool)
        ensures
            r == intersection_holds(a1@, a2@, a_i@, *proof),
    {
        let one = Scalar::one();
        let g1 = G1Point::generator_pow(&one);
        let g2 = G2Point::generator_pow(&one);
        proof {
            a1.lemma_range();
            a2.lemma_range();
            lemma_small_mod(a1@ as nat, modulus() as nat);
            lemma_small_mod(a2@ as nat, modulus() as nat);
        }
        let first = GtElem::pairing(a_i, &proof.q1_g2).equals(&GtElem::pairing(a1, &g2));
        let second = GtElem::pairing(a_i, &proof.q2_g2).equals(&GtElem::pairing(a2, &g2));
        let bezout = GtElem::pairing(&proof.u_g1, &proof.q1_g2).product(
            &GtElem::pairing(&proof.v_g1, &proof.q2_g2),
        ).equals(&GtElem::pairing(&g1, &g2));
        first && second && bezout
    }

    /// The accumulator of the union of the two sets, `S1 + (S2∖S1)`, with a proof
    /// that it is that union. Fails with `Infeasible` when the intersection proof
    /// cannot be made.
    pub fn prove_union(&self, other: &DynamicAccumulator) -> (r: Result<(DynamicAccumulator, UnionProof), AccumulatorError>)
        requires
            self.wf(),
            other.wf(),
        ensures
            match r {
                Ok((acc, pf)) => {
                    &&& acc.wf()
                    &&& forall|x: int| acc@.contains(x) <==> (self@.contains(x) || other@.contains(x))
                    &&& union_holds(self.acc_log(), other.acc_log(), acc.acc_log(), pf)
                },
                Err(e) => e == AccumulatorError::Infeasible,
            },
            within_size(self@.len() + other@.len() as int) && at_most_one_outside(self@, other@) ==> r is Ok,
    {
        let (acc_i, pf, d2, q2_s) = match self.intersection_parts(other) {
            Ok(t) => t,
            Err(e) => {
                return Err(e);
            },
        };
        proof {
            let n = self@.len() + other@.len() as int;
            if within_size(n) {
                assert(n <= 0x4000) by (nonlinear_arith)
                    requires
                        (2 * n + 4) * (2 * n + 4) <= MAX_PRODUCT_LEN,
                        n >= 0,
                ;
            }
            assert(self.elements@.len() == self@.len());
        }
        if self.elements.len() > usize::MAX - d2.len() {
            return Err(AccumulatorError::Infeasible);
        }
        let elements = concat(&self.elements, &d2);
        let acc_value = self.acc_value.scale(&q2_s);
        let acc = DynamicAccumulator { acc_value, elements };
        proof {
            let a = self@;
            let b = values(d2@);
            assert(values(acc.elements@) =~= a + b);
            assert forall|x: int| #[trigger] (a + b).contains(x) <==> (a.contains(x) || b.contains(x)) by {
                if (a + b).contains(x) {
                    let j = choose|j: int| 0 <= j < (a + b).len() && (a + b)[j] == x;
                    if j < a.len() {
                        assert(a[j] == x);
                    } else {
                        assert(b[j - a.len()] == x);
                    }
                }
                if a.contains(x) {
                    let j = choose|j: int| 0 <= j < a.len() && a[j] == x;
                    assert((a + b)[j] == x);
                }
                if b.contains(x) {
                    let j = choose|j: int| 0 <= j < b.len() && b[j] == x;
                    assert((a + b)[a.len() + j] == x);
                }
            }
            assert forall|i: int, j: int|
                0 <= i < (a + b).len() && 0 <= j < (a + b).len() && i != j implies (a + b)[i] != (a + b)[j] by {
                if i < a.len() && j >= a.len() {
                    assert(a.contains((a + b)[i]));
                    assert(b[j - a.len()] == (a + b)[j]);
                    assert(b.contains((a + b)[j]));
                } else if j < a.len() && i >= a.len() {
                    assert(a.contains((a + b)[j]));
                    assert(b[i - a.len()] == (a + b)[i]);
                    assert(b.contains((a + b)[i]));
                } else if i >= a.len() && j >= a.len() {
                    assert(b[i - a.len()] == (a + b)[i]);
                    assert(b[j - a.len()] == (a + b)[j]);
                }
            }
            lemma_vanishing_concat(a, b, secret());
        }
        let up = UnionProof { intersection_acc: acc_i.acc_value, intersection: pf };
        Ok((acc, up))
    }

    /// Checks a union proof for the values `a1`, `a2` of two accumulators and the
    /// claimed union value `a_u`: the intersection proof, and
    /// `e(a1, g2^Q2(s)) = e(a_u, g2)`.
    pub fn verify_union(a1: &G1Point, a2: &G1Point, a_u: &G1Point, proof: &UnionProof) -> (r: bool)
        ensures
            r == union_holds(a1@, a2@, a_u@, *proof),
    {
        let intersection_ok = DynamicAccumulator::verify_intersection(
            a1,
            a2,
            &proof.intersection_acc,
            &proof.intersection,
        );
        let g2 = G2Point::generator_pow(&Scalar::one());
        proof {
            a_u.lemma_range();
            lemma_small_mod(a_u@ as nat, modulus() as nat);
        }
        let complement_ok = GtElem::pairing(a1, &proof.intersection.q2_g2).equals(
            &GtElem::pairing(a_u, &g2),
        );
        intersection_ok && complement_ok
    }

    /// `prove_intersection` for sets whose values are disclosed: also the values of
    /// `values1` whose field images are in the other set, which is the intersection
    /// when `values1` are this accumulator's values.
    pub fn prove_intersection_with_values(&self, other: &DynamicAccumulator, values1: &Vec<i64>) -> (r:
        Result<(Vec<i64>, DynamicAccumulator, IntersectionProof), AccumulatorError>)
        requires
            self.wf(),
            other.wf(),
        ensures
            match r {
                Ok((vals, acc, pf)) => {
                    &&& forall|v: i64| #[trigger] vals@.contains(v) <==> (values1@.contains(v) && other@.contains(element_value(v)))
                    &&& acc.wf()
                    &&& forall|x: int| acc@.contains(x) <==> (self@.contains(x) && other@.contains(x))
                    &&& intersection_holds(self.acc_log(), other.acc_log(), acc.acc_log(), pf)
                },
                Err(e) => e == AccumulatorError::Infeasible,
            },
            within_size(self@.len() + other@.len() as int) && at_most_one_outside(self@, other@) ==> r is Ok,
    {
        let (acc, pf) = match self.prove_intersection(other) {
            Ok(t) => t,
            Err(e) => {
                return Err(e);
            },
        };
        let vals = select_values(values1, other, true);
        Ok((vals, acc, pf))
    }

    /// `prove_union` for sets whose values are disclosed: also the union and the
    /// intersection as lists of values, the union being `values1` followed by the
    /// values of `values2` whose field images are not in this set.
    pub fn prove_union_with_values(&self, other: &DynamicAccumulator, values1: &Vec<i64>, values2: &Vec<i64>) -> (r:
        Result<(Vec<i64>, Vec<i64>, DynamicAccumulator, UnionProof), AccumulatorError>)
        requires
            self.wf(),
            other.wf(),
        ensures
            match r {
                Ok((union_vals, inter_vals, acc, pf)) => {
                    &&& forall|v: i64| #[trigger] union_vals@.contains(v) <==> (values1@.contains(v) || (values2@.contains(v)
                        && !self@.contains(element_value(v))))
                    &&& forall|v: i64| #[trigger] inter_vals@.contains(v) <==> (values1@.contains(v) && other@.contains(element_value(v)))
                    &&& acc.wf()
                    &&& forall|x: int| acc@.contains(x) <==> (self@.contains(x) || other@.contains(x))
                    &&& union_holds(self.acc_log(), other.acc_log(), acc.acc_log(), pf)
                },
                Err(e) => e == AccumulatorError::Infeasible,
            },
            within_size(self@.len() + other@.len() as int) && at_most_one_outside(self@, other@) && values1@.len()
                + values2@.len() <= usize::MAX ==> r is Ok,
    {
        let (acc, pf) = match self.prove_union(other) {
            Ok(t) => t,
            Err(e) => {
                return Err(e);
            },
        };
        let inter_vals = select_values(values1, other, true);
        let rest = select_values(values2, self, false);
        if values1.len() > usize::MAX - rest.len() {
            return Err(AccumulatorError::Infeasible);
        }
        let mut union_vals: Vec<i64> = Vec::new();
        let mut k: usize = 0;
        while k < values1.len()
            invariant
                k <= values1@.len(),
                union_vals@ == values1@.take(k as int),
            decreases values1@.len() - k,
        {
            union_vals.push(values1[k]);
            proof {
                assert(values1@.take(k + 1) =~= values1@.take(k as int).push(values1@[k as int]));
            }
            k = k + 1;
        }
        let mut j: usize = 0;
        proof {
            assert(values1@.take(k as int) =~= values1@);
            assert(values1@ + rest@.take(0) =~= values1@);
        }
        while j < rest.len()
            invariant
                j <= rest@.len(),
                union_vals@ == values1@ + rest@.take(j as int),
            decreases rest@.len() - j,
        {
            union_vals.push(rest[j]);
            proof {
                assert(values1@ + rest@.take(j + 1) =~= (values1@ + rest@.take(j as int)).push(rest@[j as int]));
            }
            j = j + 1;
        }
        proof {
            assert(rest@.take(j as int) =~= rest@);
            let a = values1@;
            let b = rest@;
            assert forall|v: i64| #[trigger] (a + b).contains(v) <==> (a.contains(v) || b.contains(v)) by {
                if (a + b).contains(v) {
                    let i = choose|i: int| 0 <= i < (a + b).len() && (a + b)[i] == v;
                    if i < a.len() {
                        assert(a[i] == v);
                    } else {
                        assert(b[i - a.len()] == v);
                    }
                }
                if a.contains(v) {
                    let i = choose|i: int| 0 <= i < a.len() && a[i] == v;
                    assert((a + b)[i] == v);
                }
                if b.contains(v) {
                    let i = choose|i: int| 0 <= i < b.len() && b[i] == v;
                    assert((a + b)[a.len() + i] == v);
                }
            }
        }
        Ok((union_vals, inter_vals, acc, pf))
    }

    /// Checks a union proof against disclosed union and intersection values: their
    /// accumulators are recomputed from the values, the intersection's must be the
    /// one in the proof, and the union proof must hold for the union's.
    pub fn verify_union_with_values(
        a1: &G1Point,
        a2: &G1Point,
        union_values: &Vec<i64>,
        intersection_values: &Vec<i64>,
        proof: &UnionProof,
    ) -> (r: bool)
        ensures
            r == (proof.intersection_acc@ == set_exponent(intersection_values@.map_values(|x: i64| element_value(x)))
                && union_holds(a1@, a2@, set_exponent(union_values@.map_values(|x: i64| element_value(x))), *proof)),
    {
        let a_u = accumulator_value_of(union_values);
        let a_i = accumulator_value_of(intersection_values);
        let same_intersection = a_i.equals(&proof.intersection_acc);
        let union_ok = DynamicAccumulator::verify_union(a1, a2, &a_u, proof);
        same_intersection && union_ok
    }

    /// A proof of membership or of non-membership, whichever holds. Fails only
    /// where the chosen proof cannot be made: `Arithmetic` for the one element equal
    /// to the secret, `Infeasible` for a set too large for `within_size`.
    pub fn query(&self, element: &i64) -> (r: Result<QueryResult, AccumulatorError>)
        requires
            self.wf(),
        ensures
            ({
                let x = element_value(*element);
                match r {
                    Ok(QueryResult::Membership(p)) => {
                        &&& self@.contains(x)
                        &&& p.element@ == x
                        &&& (p.witness@ * factor(x)) % modulus() == self.acc_log()
                    },
                    Ok(QueryResult::NonMembership(p)) => {
                        &&& !self@.contains(x)
                        &&& p.element@ == x
                        &&& ((self.acc_log() * p.witness@) % modulus() + (p.g1_a@ * factor(x)) % modulus())
                            % modulus() == 1
                    },
                    Err(e) => {
                        &&& (e == AccumulatorError::Arithmetic <==> self@.contains(x))
                        &&& (e == AccumulatorError::Infeasible <==> !self@.contains(x))
                    },
                }
            }),
            self@.contains(element_value(*element)) ==> (r is Ok <==> factor(element_value(*element)) != 0),
            !self@.contains(element_value(*element)) && within_size(self@.len() as int) ==> r is Ok,
    {
        let fx = element_to_field(element);
        if self.position(&fx).is_some() {
            match self.prove_membership(element) {
                Ok(p) => Ok(QueryResult::Membership(p)),
                Err(e) => Err(e),
            }
        } else {
            match self.prove_non_membership(element) {
                Ok(p) => Ok(QueryResult::NonMembership(p)),
                Err(e) => Err(e),
            }
        }
    }
}

impl PartialEq for DynamicAccumulator {
    fn eq(&self, o: &DynamicAccumulator) -> (r: bool) {
        self.same_as(o)
    }
}

impl vstd::std_specs::cmp::PartialEqSpecImpl for DynamicAccumulator {
    open spec fn obeys_eq_spec() -> bool {
        true
    }

    open spec fn eq_spec(&self, o: &DynamicAccumulator) -> bool {
        self.acc_log() == o.acc_log() && self@.len() == o@.len() && forall|x: int|
            self@.contains(x) <==> o@.contains(x)
    }
}

impl Eq for DynamicAccumulator {
}

impl Default for DynamicAccumulator {
    /// An empty accumulator, as `new` makes it.
    fn default() -> (r: DynamicAccumulator)
        ensures
            r.wf(),
            r@ == Seq::<int>::empty(),
            r.acc_log() == 1,
    {
        DynamicAccumulator::new()
    }
}

/// The accumulator value of a list of values, computed directly from the product
/// formula `g1^∏(s − e)`.
pub fn accumulator_value_of(elements: &Vec<i64>) -> (r: G1Point)
    ensures
        r@ == set_exponent(elements@.map_values(|x: i64| element_value(x))),
{
    let s = secret_scalar();
    let mut exponent = Scalar::one();
    let mut i: usize = 0;
    proof {
        assert(elements@.take(0).map_values(|x: i64| element_value(x)) =~= Seq::<int>::empty());
    }
    while i < elements.len()
        invariant
            i <= elements@.len(),
            s@ == secret(),
            exponent@ == set_exponent(elements@.take(i as int).map_values(|x: i64| element_value(x))),
        decreases elements@.len() - i,
    {
        let e = element_to_field(&elements[i]);
        let w = scalar_sub(&s, &e);
        exponent = scalar_mul(&exponent, &w);
        proof {
            let prev = elements@.take(i as int).map_values(|x: i64| element_value(x));
            let next = elements@.take(i + 1).map_values(|x: i64| element_value(x));
            assert(next.drop_last() =~= prev);
            assert(next.last() == element_value(elements@[i as int]));
        }
        i = i + 1;
    }
    proof {
        assert(elements@.take(i as int) =~= elements@);
    }
    G1Point::generator_pow(&exponent)
}

/// Commitment correctness: a well-formed accumulator (as `new` makes it and every
/// `add`, `add_batch`, `delete` and `update` keeps it) holds a set without
/// duplicates, and its value is `g1^∏_{e∈S}(s − e)`.
pub proof fn lemma_commitment(acc: &DynamicAccumulator)
    requires
        acc.wf(),
    ensures
        acc@.no_duplicates(),
        acc.acc_log() == set_exponent(acc@),
{
}

/// Adding an element and then deleting it restores the set and the value exactly.
pub proof fn lemma_add_delete_inverse(a0: &DynamicAccumulator, a1: &DynamicAccumulator, a2: &DynamicAccumulator, x: int)
    requires
        a0.wf(),
        a1.wf(),
        a2.wf(),
        a1@ == a0@.push(x),
        exists|i: int| 0 <= i < a1@.len() && a1@[i] == x && a2@ == a1@.remove(i),
    ensures
        a2@ == a0@,
        a2.acc_log() == a0.acc_log(),
{
    let i = choose|i: int| 0 <= i < a1@.len() && a1@[i] == x && a2@ == a1@.remove(i);
    let n = a0@.len() as int;
    assert(a1@[n] == x);
    assert(i == n);
    assert(a1@.remove(n) =~= a0@);
}

/// The witness that `prove_membership` returns verifies: with `S = S'·{x}`,
/// `g1^P_{S'}(s)` raised to `s − x` is the accumulator value.
pub proof fn lemma_membership_witness_verifies(acc: &DynamicAccumulator, i: int, p: &MembershipProof)
    requires
        acc.wf(),
        0 <= i < acc@.len(),
        p.element@ == acc@[i],
        p.witness@ == set_exponent(acc@.remove(i)),
    ensures
        (p.witness@ * factor(p.element@)) % modulus() == acc.acc_log(),
{
    lemma_vanishing_remove(acc@, i, secret());
}

/// Proof portability: whether a membership proof verifies depends on the
/// accumulator's value alone, so it verifies against every accumulator with the
/// value it was issued for, and against none with another value.
pub proof fn lemma_membership_portable(a1: &DynamicAccumulator, a2: &DynamicAccumulator, p: &MembershipProof)
    requires
        (p.witness@ * factor(p.element@)) % modulus() == a1.acc_log(),
    ensures
        ((p.witness@ * factor(p.element@)) % modulus() == a2.acc_log()) <==> (a2.acc_log()
            == a1.acc_log()),
{
}

/// The proof that `add` returns verifies: `new = old^(s − x)`.
pub proof fn lemma_add_proof_verifies(a0: &DynamicAccumulator, a1: &DynamicAccumulator, p: &AddProof)
    requires
        a0.wf(),
        a1.wf(),
        a1@ == a0@.push(p.element@),
        p.old_acc_value@ == a0.acc_log(),
        p.new_acc_value@ == a1.acc_log(),
    ensures
        p.new_acc_value@ == (p.old_acc_value@ * factor(p.element@)) % modulus(),
{
    assert(a1@.drop_last() =~= a0@);
}

/// The proof that `delete` returns verifies: `new^(s − x) = old`.
pub proof fn lemma_delete_proof_verifies(a0: &DynamicAccumulator, a1: &DynamicAccumulator, p: &DeleteProof)
    requires
        a0.wf(),
        a1.wf(),
        exists|i: int| 0 <= i < a0@.len() && a0@[i] == p.element@ && a1@ == a0@.remove(i),
        p.old_acc_value@ == a0.acc_log(),
        p.new_acc_value@ == a1.acc_log(),
    ensures
        (p.new_acc_value@ * factor(p.element@)) % modulus() == p.old_acc_value@,
{
    let i = choose|i: int| 0 <= i < a0@.len() && a0@[i] == p.element@ && a1@ == a0@.remove(i);
    lemma_vanishing_remove(a0@, i, secret());
}

} // verus!
