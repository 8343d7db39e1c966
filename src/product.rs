//! The product `P(z) = ∏_{e∈S}(z − e)` that an accumulator commits to, and the
//! facts about it and about arithmetic modulo the field's prime that the proofs use.
use vstd::prelude::*;
use vstd::arithmetic::div_mod::{
    lemma_fundamental_div_mod, lemma_fundamental_div_mod_converse_mod, lemma_small_mod,
};
use crate::field::{modulus, Scalar};
use crate::setup::secret;

verus! {

/// The factor `s − e` that the element `e` contributes to the committed exponent.
pub open spec fn factor(e: int) -> int {
    (secret() - e) % modulus()
}

/// `∏_{e∈s}(z − e)`: the set's polynomial `P` evaluated at `z`.
pub open spec fn vanishing_eval(s: Seq<int>, z: int) -> int
    decreases s.len(),
{
    if s.len() == 0 {
        1
    } else {
        (vanishing_eval(s.drop_last(), z) * ((z - s.last()) % modulus())) % modulus()
    }
}

/// The exponent that a set is committed to: `P(s) = ∏_{e∈S}(s − e)`.
pub open spec fn set_exponent(s: Seq<int>) -> int {
    vanishing_eval(s, secret())
}

/// The field values of a list of scalars.
pub open spec fn values(v: Seq<Scalar>) -> Seq<int> {
    v.map_values(|e: Scalar| e@)
}

/// Every value of `vanishing_eval` lies in `[0, modulus())`.
pub proof fn lemma_vanishing_range(s: Seq<int>, z: int)
    ensures
        0 <= vanishing_eval(s, z) < modulus(),
    decreases s.len(),
{
}

/// `((x·f mod p)·g) mod p = ((x·g mod p)·f) mod p`.
pub(crate) proof fn lemma_swap_factors(p: int, x: int, f: int, g: int)
    requires
        p > 0,
    ensures
        (((x * f) % p) * g) % p == (((x * g) % p) * f) % p,
{
    vstd::arithmetic::div_mod::lemma_mul_mod_noop_left(x * f, g, p);
    vstd::arithmetic::div_mod::lemma_mul_mod_noop_left(x * g, f, p);
    assert(x * f * g == x * g * f) by (nonlinear_arith);
}

/// Taking one element out of the product: `P_S(z) = P_{S∖{s_i}}(z)·(z − s_i)`.
pub proof fn lemma_vanishing_remove(s: Seq<int>, i: int, z: int)
    requires
        0 <= i < s.len(),
    ensures
        vanishing_eval(s, z) == (vanishing_eval(s.remove(i), z) * ((z - s[i]) % modulus()))
            % modulus(),
    decreases s.len(),
{
    if i == s.len() - 1 {
        assert(s.remove(i) =~= s.drop_last());
    } else {
        let t = s.drop_last();
        lemma_vanishing_remove(t, i, z);
        assert(s.remove(i).drop_last() =~= t.remove(i));
        assert(s.remove(i).last() == s.last());
        lemma_swap_factors(
            modulus(),
            vanishing_eval(t.remove(i), z),
            (z - s[i]) % modulus(),
            (z - s.last()) % modulus(),
        );
    }
}

/// `((e·f mod p)·g) mod p = e` when `g·f = 1 (mod p)` and `0 ≤ e < p`.
pub(crate) proof fn lemma_cancel(p: int, e: int, f: int, g: int)
    requires
        p > 0,
        0 <= e < p,
        (g * f) % p == 1,
    ensures
        (((e * f) % p) * g) % p == e,
{
    vstd::arithmetic::div_mod::lemma_mul_mod_noop_left(e * f, g, p);
    lemma_fundamental_div_mod(g * f, p);
    let k = (g * f) / p;
    assert(e * f * g == (e * k) * p + e) by (nonlinear_arith)
        requires
            g * f == p * k + 1,
    ;
    lemma_fundamental_div_mod_converse_mod(e * f * g, p, e * k, e);
}

/// The Bézout relation at `s`, divided by the gcd's constant `c`, gives the
/// non-membership equation: from `u·f + v·e = c` and `ci·c = 1` it follows that
/// `e·(v·ci) + (u·ci)·f = 1`.
pub(crate) proof fn lemma_normalized_bezout(p: int, u: int, v: int, f: int, e: int, c: int, ci: int, a: int, b: int)
    requires
        p > 1,
        (u * f + v * e) % p == c,
        (ci * c) % p == 1,
        a == (u * ci) % p,
        b == (v * ci) % p,
    ensures
        ((e * b) % p + (a * f) % p) % p == 1,
{
    lemma_fundamental_div_mod(u * f + v * e, p);
    lemma_fundamental_div_mod(ci * c, p);
    lemma_fundamental_div_mod(u * ci, p);
    lemma_fundamental_div_mod(v * ci, p);
    lemma_fundamental_div_mod(e * b, p);
    lemma_fundamental_div_mod(a * f, p);
    let k1 = (u * f + v * e) / p;
    let k2 = (ci * c) / p;
    let k3 = (u * ci) / p;
    let k4 = (v * ci) / p;
    let k5 = (e * b) / p;
    let k6 = (a * f) / p;
    assert(e * b == e * v * ci - p * (e * k4)) by (nonlinear_arith)
        requires
            v * ci == p * k4 + b,
    ;
    assert(a * f == u * ci * f - p * (k3 * f)) by (nonlinear_arith)
        requires
            u * ci == p * k3 + a,
    ;
    assert(e * v * ci + u * ci * f == ci * (u * f + v * e)) by (nonlinear_arith);
    assert(ci * (u * f + v * e) == p * (ci * k1) + ci * c) by (nonlinear_arith)
        requires
            u * f + v * e == p * k1 + c,
    ;
    let kk = ci * k1 + k2 - e * k4 - k3 * f - k5 - k6;
    assert(p * kk == p * (ci * k1) + p * k2 - p * (e * k4) - p * (k3 * f) - p * k5 - p * k6) by {
        broadcast use vstd::arithmetic::mul::group_mul_is_distributive;

    }
    assert((e * b) % p + (a * f) % p == kk * p + 1) by (nonlinear_arith)
        requires
            e * b == e * v * ci - p * (e * k4),
            a * f == u * ci * f - p * (k3 * f),
            e * v * ci + u * ci * f == p * (ci * k1) + ci * c,
            ci * c == p * k2 + 1,
            e * b == p * k5 + (e * b) % p,
            a * f == p * k6 + (a * f) % p,
            p * kk == p * (ci * k1) + p * k2 - p * (e * k4) - p * (k3 * f) - p * k5 - p * k6,
    ;
    lemma_fundamental_div_mod_converse_mod((e * b) % p + (a * f) % p, p, kk, 1);
}

/// The product of two inverse pairs is an inverse pair: from `a·x = 1` and
/// `b·y = 1` it follows that `(a·b)·(x·y) = 1`.
pub(crate) proof fn lemma_inverse_product(p: int, a: int, x: int, b: int, y: int)
    requires
        p > 1,
        (a * x) % p == 1,
        (b * y) % p == 1,
    ensures
        (((a * b) % p) * ((x * y) % p)) % p == 1,
{
    vstd::arithmetic::div_mod::lemma_mul_mod_noop(a * b, x * y, p);
    vstd::arithmetic::div_mod::lemma_mul_mod_noop(a * x, b * y, p);
    assert((a * b) * (x * y) == (a * x) * (b * y)) by (nonlinear_arith);
    lemma_small_mod(1, p as nat);
}

/// `(x·((y·f) mod p)) mod p = (((x·y) mod p)·f) mod p`.
pub(crate) proof fn lemma_assoc_mod(p: int, x: int, y: int, f: int)
    requires
        p > 0,
    ensures
        (x * ((y * f) % p)) % p == (((x * y) % p) * f) % p,
{
    vstd::arithmetic::div_mod::lemma_mul_mod_noop_right(x, y * f, p);
    vstd::arithmetic::div_mod::lemma_mul_mod_noop_left(x * y, f, p);
    assert(x * (y * f) == x * y * f) by (nonlinear_arith);
}

/// An element is in `s.push(x)` exactly when it is `x` or in `s`.
pub(crate) proof fn lemma_contains_push<T>(s: Seq<T>, x: T, y: T)
    ensures
        s.push(x).contains(y) <==> (s.contains(y) || y == x),
{
    if s.contains(y) {
        let i = choose|i: int| 0 <= i < s.len() && s[i] == y;
        assert(s.push(x)[i] == y);
    }
    if y == x {
        assert(s.push(x)[s.len() as int] == y);
    }
    if s.push(x).contains(y) {
        let j = choose|j: int| 0 <= j < s.push(x).len() && s.push(x)[j] == y;
        if j < s.len() {
            assert(s[j] == y);
        }
    }
}

/// Pushing an element that is not there keeps a list free of duplicates.
pub(crate) proof fn lemma_no_dup_push(s: Seq<int>, x: int)
    requires
        s.no_duplicates(),
        !s.contains(x),
    ensures
        s.push(x).no_duplicates(),
{
    let t = s.push(x);
    assert forall|a: int, b: int| 0 <= a < t.len() && 0 <= b < t.len() && a != b implies t[a] != t[b] by {
        if a < s.len() && b < s.len() {
            assert(t[a] == s[a] && t[b] == s[b]);
        } else if a < s.len() {
            assert(t[a] == s[a]);
        } else {
            assert(t[b] == s[b]);
        }
    }
}

/// In a list without duplicates, removing position `k` removes exactly `t[k]`.
pub(crate) proof fn lemma_contains_remove(t: Seq<int>, k: int, y: int)
    requires
        t.no_duplicates(),
        0 <= k < t.len(),
    ensures
        t.remove(k).contains(y) <==> (t.contains(y) && y != t[k]),
        t.remove(k).no_duplicates(),
{
    let r = t.remove(k);
    if r.contains(y) {
        let j = choose|j: int| 0 <= j < r.len() && r[j] == y;
        let j0 = if j < k { j } else { j + 1 };
        assert(t[j0] == y);
    }
    if t.contains(y) && y != t[k] {
        let j = choose|j: int| 0 <= j < t.len() && t[j] == y;
        if j < k {
            assert(r[j] == y);
        } else {
            assert(r[j - 1] == y);
        }
    }
    assert forall|a: int, b: int| 0 <= a < r.len() && 0 <= b < r.len() && a != b implies r[a] != r[b] by {
        let a0 = if a < k { a } else { a + 1 };
        let b0 = if b < k { b } else { b + 1 };
        assert(t[a0] == r[a] && t[b0] == r[b]);
    }
}

/// The product over a set does not depend on the order of its elements.
pub proof fn lemma_vanishing_permutation(s: Seq<int>, t: Seq<int>, z: int)
    requires
        s.no_duplicates(),
        t.no_duplicates(),
        forall|x: int| s.contains(x) <==> t.contains(x),
    ensures
        vanishing_eval(s, z) == vanishing_eval(t, z),
    decreases s.len(),
{
    if s.len() == 0 {
        if t.len() > 0 {
            assert(t.contains(t[0]));
        }
    } else {
        let n = s.len() - 1;
        let x = s[n];
        assert(s.contains(x));
        let k = choose|k: int| 0 <= k < t.len() && t[k] == x;
        let s1 = s.drop_last();
        let t1 = t.remove(k);
        assert(s1 =~= s.remove(n));
        assert forall|y: int| s1.contains(y) <==> t1.contains(y) by {
            lemma_contains_remove(s, n, y);
            lemma_contains_remove(t, k, y);
        }
        lemma_contains_remove(s, n, x);
        lemma_contains_remove(t, k, x);
        lemma_vanishing_permutation(s1, t1, z);
        lemma_vanishing_remove(t, k, z);
    }
}

/// The product over a concatenation is the product of the two products.
pub proof fn lemma_vanishing_concat(s: Seq<int>, t: Seq<int>, z: int)
    ensures
        vanishing_eval(s + t, z) == (vanishing_eval(s, z) * vanishing_eval(t, z)) % modulus(),
    decreases t.len(),
{
    lemma_vanishing_range(s, z);
    if t.len() == 0 {
        assert(s + t =~= s);
        lemma_small_mod(vanishing_eval(s, z) as nat, modulus() as nat);
    } else {
        let t1 = t.drop_last();
        assert((s + t).drop_last() =~= s + t1);
        assert((s + t).last() == t.last());
        lemma_vanishing_concat(s, t1, z);
        lemma_assoc_mod(modulus(), vanishing_eval(s, z), vanishing_eval(t1, z), (z - t.last()) % modulus());
    }
}

} // verus!
