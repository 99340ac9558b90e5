//! The quartic extension `KoalaBear[X]/(X^4 - 3)` as a mathematical object.

use crate::arith;
use vstd::prelude::*;

verus! {

/// An extension element: the coefficients of `1`, `X`, `X^2` and `X^3`.
pub struct Ext {
    pub c0: int,
    pub c1: int,
    pub c2: int,
    pub c3: int,
}

impl Ext {
    /// Whether all coefficients are canonical.
    pub open spec fn ok(self) -> bool {
        arith::felt(self.c0) && arith::felt(self.c1) && arith::felt(self.c2) && arith::felt(self.c3)
    }

    /// The coefficients, lowest degree first.
    pub open spec fn coeffs(self) -> Seq<int> {
        Seq::<int>::empty().push(self.c0).push(self.c1).push(self.c2).push(self.c3)
    }
}

/// The element with the given coefficients.
pub open spec fn ext(s: Seq<int>) -> Ext {
    Ext { c0: s[0], c1: s[1], c2: s[2], c3: s[3] }
}

/// Whether all elements are canonical.
pub open spec fn all_ok(s: Seq<Ext>) -> bool {
    forall|i: int| 0 <= i < s.len() ==> (#[trigger] s[i]).ok()
}

/// Coefficients reduced.
pub open spec fn ered(a: Ext) -> Ext {
    Ext {
        c0: arith::red(a.c0),
        c1: arith::red(a.c1),
        c2: arith::red(a.c2),
        c3: arith::red(a.c3),
    }
}

/// The sum of coefficients, not reduced.
pub open spec fn iadd(a: Ext, b: Ext) -> Ext {
    Ext { c0: a.c0 + b.c0, c1: a.c1 + b.c1, c2: a.c2 + b.c2, c3: a.c3 + b.c3 }
}

/// The difference of coefficients, not reduced.
pub open spec fn isub(a: Ext, b: Ext) -> Ext {
    Ext { c0: a.c0 - b.c0, c1: a.c1 - b.c1, c2: a.c2 - b.c2, c3: a.c3 - b.c3 }
}

/// The product of polynomials modulo `X^4 - 3`, coefficients not reduced.
pub open spec fn imul(a: Ext, b: Ext) -> Ext {
    Ext {
        c0: a.c0 * b.c0 + 3 * (a.c1 * b.c3 + a.c2 * b.c2 + a.c3 * b.c1),
        c1: a.c0 * b.c1 + a.c1 * b.c0 + 3 * (a.c2 * b.c3 + a.c3 * b.c2),
        c2: a.c0 * b.c2 + a.c1 * b.c1 + a.c2 * b.c0 + 3 * (a.c3 * b.c3),
        c3: a.c0 * b.c3 + a.c1 * b.c2 + a.c2 * b.c1 + a.c3 * b.c0,
    }
}

/// Addition in the extension.
#[verifier::opaque]
pub open spec fn eadd(a: Ext, b: Ext) -> Ext {
    ered(iadd(a, b))
}

/// Subtraction in the extension.
#[verifier::opaque]
pub open spec fn esub(a: Ext, b: Ext) -> Ext {
    ered(isub(a, b))
}

/// Multiplication in the extension.
#[verifier::opaque]
pub open spec fn emul(a: Ext, b: Ext) -> Ext {
    ered(imul(a, b))
}

/// Zero.
pub open spec fn ezero() -> Ext {
    Ext { c0: 0, c1: 0, c2: 0, c3: 0 }
}

/// One.
pub open spec fn eone() -> Ext {
    Ext { c0: 1, c1: 0, c2: 0, c3: 0 }
}

/// Powers in the extension.
pub open spec fn epow(a: Ext, n: nat) -> Ext
    decreases n,
{
    if n == 0 {
        eone()
    } else {
        emul(epow(a, (n - 1) as nat), a)
    }
}

/// Reduction is canonical and fixes what is canonical.
pub proof fn lemma_ered(a: Ext)
    ensures
        ered(a).ok(),
        a.ok() ==> ered(a) == a,
{
    arith::lemma_red(a.c0);
    arith::lemma_red(a.c1);
    arith::lemma_red(a.c2);
    arith::lemma_red(a.c3);
}

/// Results are canonical.
pub broadcast proof fn lemma_eadd_ok(a: Ext, b: Ext)
    ensures
        (#[trigger] eadd(a, b)).ok(),
{
    reveal(eadd);
    lemma_ered(iadd(a, b));
}

/// A difference is canonical.
pub broadcast proof fn lemma_esub_ok(a: Ext, b: Ext)
    ensures
        (#[trigger] esub(a, b)).ok(),
{
    reveal(esub);
    lemma_ered(isub(a, b));
}

/// A product is canonical.
pub broadcast proof fn lemma_emul_ok(a: Ext, b: Ext)
    ensures
        (#[trigger] emul(a, b)).ok(),
{
    reveal(emul);
    lemma_ered(imul(a, b));
}

/// A power is canonical.
pub broadcast proof fn lemma_epow_ok(a: Ext, n: nat)
    ensures
        (#[trigger] epow(a, n)).ok(),
{
    if n > 0 {
        lemma_emul_ok(epow(a, (n - 1) as nat), a);
    }
}

/// Operations stay in the field.
pub broadcast group group_ok {
    lemma_eadd_ok,
    lemma_esub_ok,
    lemma_emul_ok,
    lemma_epow_ok,
}

/// Reducing an operand first does not change a sum.
pub proof fn lemma_ered_add(a: Ext, b: Ext)
    ensures
        eadd(ered(a), b) == eadd(a, b),
        eadd(a, ered(b)) == eadd(a, b),
{
    reveal(eadd);
    arith::lemma_red_add(a.c0, b.c0);
    arith::lemma_red_add(a.c1, b.c1);
    arith::lemma_red_add(a.c2, b.c2);
    arith::lemma_red_add(a.c3, b.c3);
}

/// Reducing an operand first does not change a difference.
pub proof fn lemma_ered_sub(a: Ext, b: Ext)
    ensures
        esub(ered(a), b) == esub(a, b),
        esub(a, ered(b)) == esub(a, b),
{
    reveal(esub);
    arith::lemma_red_sub(a.c0, b.c0);
    arith::lemma_red_sub(a.c1, b.c1);
    arith::lemma_red_sub(a.c2, b.c2);
    arith::lemma_red_sub(a.c3, b.c3);
}

/// Two integers that leave the same residue differ by a multiple of the prime.
proof fn lemma_residue(a: int) -> (q: int)
    ensures
        a == arith::red(a) + arith::modulus() * q,
{
    vstd::arithmetic::div_mod::lemma_fundamental_div_mod(a, arith::modulus());
    a / arith::modulus()
}

/// Adding a multiple of the prime does not change the residue.
proof fn lemma_shift(a: int, q: int)
    ensures
        arith::red(a + arith::modulus() * q) == arith::red(a),
{
    vstd::arithmetic::div_mod::lemma_mod_multiples_vanish(q, a, arith::modulus());
}

/// Reducing the left operand first does not change a product.
proof fn lemma_ered_mul_left(a: Ext, b: Ext)
    ensures
        emul(ered(a), b) == emul(a, b),
{
    reveal(emul);
    let p = arith::modulus();
    let r = ered(a);
    let q0 = lemma_residue(a.c0);
    let q1 = lemma_residue(a.c1);
    let q2 = lemma_residue(a.c2);
    let q3 = lemma_residue(a.c3);
    let k0 = q0 * b.c0 + 3 * (q1 * b.c3 + q2 * b.c2 + q3 * b.c1);
    let k1 = q0 * b.c1 + q1 * b.c0 + 3 * (q2 * b.c3 + q3 * b.c2);
    let k2 = q0 * b.c2 + q1 * b.c1 + q2 * b.c0 + 3 * (q3 * b.c3);
    let k3 = q0 * b.c3 + q1 * b.c2 + q2 * b.c1 + q3 * b.c0;
    lemma_spread(r.c0, q0, p, b.c0);
    lemma_spread(r.c0, q0, p, b.c1);
    lemma_spread(r.c0, q0, p, b.c2);
    lemma_spread(r.c0, q0, p, b.c3);
    lemma_spread(r.c1, q1, p, b.c0);
    lemma_spread(r.c1, q1, p, b.c1);
    lemma_spread(r.c1, q1, p, b.c2);
    lemma_spread(r.c1, q1, p, b.c3);
    lemma_spread(r.c2, q2, p, b.c0);
    lemma_spread(r.c2, q2, p, b.c1);
    lemma_spread(r.c2, q2, p, b.c2);
    lemma_spread(r.c2, q2, p, b.c3);
    lemma_spread(r.c3, q3, p, b.c0);
    lemma_spread(r.c3, q3, p, b.c1);
    lemma_spread(r.c3, q3, p, b.c2);
    lemma_spread(r.c3, q3, p, b.c3);
    let m = imul(a, b);
    let n = imul(r, b);
    assert(m.c0 == n.c0 + p * k0);
    assert(m.c1 == n.c1 + p * k1);
    assert(m.c2 == n.c2 + p * k2);
    assert(m.c3 == n.c3 + p * k3);
    lemma_shift(n.c0, k0);
    lemma_shift(n.c1, k1);
    lemma_shift(n.c2, k2);
    lemma_shift(n.c3, k3);
}

proof fn lemma_spread(r: int, q: int, p: int, b: int)
    ensures
        (r + p * q) * b == r * b + p * (q * b),
{
    assert((r + p * q) * b == r * b + p * (q * b)) by (nonlinear_arith);
}

/// Multiplication is commutative.
pub proof fn emul_commutes(a: Ext, b: Ext)
    ensures
        emul(a, b) == emul(b, a),
        imul(a, b) == imul(b, a),
{
    reveal(emul);
    lemma_comm(a.c0, b.c0);
    lemma_comm(a.c0, b.c1);
    lemma_comm(a.c0, b.c2);
    lemma_comm(a.c0, b.c3);
    lemma_comm(a.c1, b.c0);
    lemma_comm(a.c1, b.c1);
    lemma_comm(a.c1, b.c2);
    lemma_comm(a.c1, b.c3);
    lemma_comm(a.c2, b.c0);
    lemma_comm(a.c2, b.c1);
    lemma_comm(a.c2, b.c2);
    lemma_comm(a.c2, b.c3);
    lemma_comm(a.c3, b.c0);
    lemma_comm(a.c3, b.c1);
    lemma_comm(a.c3, b.c2);
    lemma_comm(a.c3, b.c3);
}

proof fn lemma_comm(a: int, b: int)
    ensures
        a * b == b * a,
{
    assert(a * b == b * a) by (nonlinear_arith);
}

/// Reducing an operand first does not change a product.
pub proof fn lemma_ered_mul(a: Ext, b: Ext)
    ensures
        emul(ered(a), b) == emul(a, b),
        emul(a, ered(b)) == emul(a, b),
{
    lemma_ered_mul_left(a, b);
    lemma_ered_mul_left(b, a);
    emul_commutes(a, b);
    emul_commutes(a, ered(b));
}

proof fn lemma_assoc(a: int, b: int, c: int)
    ensures
        (a * b) * c == a * (b * c),
{
    assert((a * b) * c == a * (b * c)) by (nonlinear_arith);
}

/// The four shapes of coefficients, multiplied out.
proof fn lemma_shapes(p: int, q: int, r: int, s: int, t: int)
    ensures
        (p + 3 * (q + r + s)) * t == p * t + 3 * (q * t + r * t + s * t),
        (p + q + 3 * (r + s)) * t == p * t + q * t + 3 * (r * t + s * t),
        (p + q + r + 3 * s) * t == p * t + q * t + r * t + 3 * (s * t),
        (p + q + r + s) * t == p * t + q * t + r * t + s * t,
        t * (p + 3 * (q + r + s)) == t * p + 3 * (t * q + t * r + t * s),
        t * (p + q + 3 * (r + s)) == t * p + t * q + 3 * (t * r + t * s),
        t * (p + q + r + 3 * s) == t * p + t * q + t * r + 3 * (t * s),
        t * (p + q + r + s) == t * p + t * q + t * r + t * s,
{
    lemma_distribute(t, p, 3 * (q + r + s));
    lemma_distribute(t, q + r, s);
    lemma_distribute(t, q, r);
    lemma_distribute(t, p, q);
    lemma_distribute(t, p + q, 3 * (r + s));
    lemma_distribute(t, r, s);
    lemma_distribute(t, p + q, r);
    lemma_distribute(t, p + q + r, 3 * s);
    lemma_distribute(t, p + q + r, s);
    lemma_triple(t, q + r + s);
    lemma_triple(t, r + s);
    lemma_triple(t, s);
    lemma_comm(t, p);
    lemma_comm(t, q);
    lemma_comm(t, r);
    lemma_comm(t, s);
    lemma_comm(t, p + 3 * (q + r + s));
    lemma_comm(t, p + q + 3 * (r + s));
    lemma_comm(t, p + q + r + 3 * s);
    lemma_comm(t, p + q + r + s);
}

proof fn lemma_triple(t: int, x: int)
    ensures
        t * (3 * x) == 3 * (t * x),
{
    assert(t * (3 * x) == 3 * (t * x)) by (nonlinear_arith);
}

/// All triple products of coefficients, regrouped.
proof fn lemma_all_assoc(a: Ext, b: Ext, c: Ext)
    ensures
        (a.c0 * b.c0) * c.c0 == a.c0 * (b.c0 * c.c0),
        (a.c0 * b.c0) * c.c1 == a.c0 * (b.c0 * c.c1),
        (a.c0 * b.c0) * c.c2 == a.c0 * (b.c0 * c.c2),
        (a.c0 * b.c0) * c.c3 == a.c0 * (b.c0 * c.c3),
        (a.c0 * b.c1) * c.c0 == a.c0 * (b.c1 * c.c0),
        (a.c0 * b.c1) * c.c1 == a.c0 * (b.c1 * c.c1),
        (a.c0 * b.c1) * c.c2 == a.c0 * (b.c1 * c.c2),
        (a.c0 * b.c1) * c.c3 == a.c0 * (b.c1 * c.c3),
        (a.c0 * b.c2) * c.c0 == a.c0 * (b.c2 * c.c0),
        (a.c0 * b.c2) * c.c1 == a.c0 * (b.c2 * c.c1),
        (a.c0 * b.c2) * c.c2 == a.c0 * (b.c2 * c.c2),
        (a.c0 * b.c2) * c.c3 == a.c0 * (b.c2 * c.c3),
        (a.c0 * b.c3) * c.c0 == a.c0 * (b.c3 * c.c0),
        (a.c0 * b.c3) * c.c1 == a.c0 * (b.c3 * c.c1),
        (a.c0 * b.c3) * c.c2 == a.c0 * (b.c3 * c.c2),
        (a.c0 * b.c3) * c.c3 == a.c0 * (b.c3 * c.c3),
        (a.c1 * b.c0) * c.c0 == a.c1 * (b.c0 * c.c0),
        (a.c1 * b.c0) * c.c1 == a.c1 * (b.c0 * c.c1),
        (a.c1 * b.c0) * c.c2 == a.c1 * (b.c0 * c.c2),
        (a.c1 * b.c0) * c.c3 == a.c1 * (b.c0 * c.c3),
        (a.c1 * b.c1) * c.c0 == a.c1 * (b.c1 * c.c0),
        (a.c1 * b.c1) * c.c1 == a.c1 * (b.c1 * c.c1),
        (a.c1 * b.c1) * c.c2 == a.c1 * (b.c1 * c.c2),
        (a.c1 * b.c1) * c.c3 == a.c1 * (b.c1 * c.c3),
        (a.c1 * b.c2) * c.c0 == a.c1 * (b.c2 * c.c0),
        (a.c1 * b.c2) * c.c1 == a.c1 * (b.c2 * c.c1),
        (a.c1 * b.c2) * c.c2 == a.c1 * (b.c2 * c.c2),
        (a.c1 * b.c2) * c.c3 == a.c1 * (b.c2 * c.c3),
        (a.c1 * b.c3) * c.c0 == a.c1 * (b.c3 * c.c0),
        (a.c1 * b.c3) * c.c1 == a.c1 * (b.c3 * c.c1),
        (a.c1 * b.c3) * c.c2 == a.c1 * (b.c3 * c.c2),
        (a.c1 * b.c3) * c.c3 == a.c1 * (b.c3 * c.c3),
        (a.c2 * b.c0) * c.c0 == a.c2 * (b.c0 * c.c0),
        (a.c2 * b.c0) * c.c1 == a.c2 * (b.c0 * c.c1),
        (a.c2 * b.c0) * c.c2 == a.c2 * (b.c0 * c.c2),
        (a.c2 * b.c0) * c.c3 == a.c2 * (b.c0 * c.c3),
        (a.c2 * b.c1) * c.c0 == a.c2 * (b.c1 * c.c0),
        (a.c2 * b.c1) * c.c1 == a.c2 * (b.c1 * c.c1),
        (a.c2 * b.c1) * c.c2 == a.c2 * (b.c1 * c.c2),
        (a.c2 * b.c1) * c.c3 == a.c2 * (b.c1 * c.c3),
        (a.c2 * b.c2) * c.c0 == a.c2 * (b.c2 * c.c0),
        (a.c2 * b.c2) * c.c1 == a.c2 * (b.c2 * c.c1),
        (a.c2 * b.c2) * c.c2 == a.c2 * (b.c2 * c.c2),
        (a.c2 * b.c2) * c.c3 == a.c2 * (b.c2 * c.c3),
        (a.c2 * b.c3) * c.c0 == a.c2 * (b.c3 * c.c0),
        (a.c2 * b.c3) * c.c1 == a.c2 * (b.c3 * c.c1),
        (a.c2 * b.c3) * c.c2 == a.c2 * (b.c3 * c.c2),
        (a.c2 * b.c3) * c.c3 == a.c2 * (b.c3 * c.c3),
        (a.c3 * b.c0) * c.c0 == a.c3 * (b.c0 * c.c0),
        (a.c3 * b.c0) * c.c1 == a.c3 * (b.c0 * c.c1),
        (a.c3 * b.c0) * c.c2 == a.c3 * (b.c0 * c.c2),
        (a.c3 * b.c0) * c.c3 == a.c3 * (b.c0 * c.c3),
        (a.c3 * b.c1) * c.c0 == a.c3 * (b.c1 * c.c0),
        (a.c3 * b.c1) * c.c1 == a.c3 * (b.c1 * c.c1),
        (a.c3 * b.c1) * c.c2 == a.c3 * (b.c1 * c.c2),
        (a.c3 * b.c1) * c.c3 == a.c3 * (b.c1 * c.c3),
        (a.c3 * b.c2) * c.c0 == a.c3 * (b.c2 * c.c0),
        (a.c3 * b.c2) * c.c1 == a.c3 * (b.c2 * c.c1),
        (a.c3 * b.c2) * c.c2 == a.c3 * (b.c2 * c.c2),
        (a.c3 * b.c2) * c.c3 == a.c3 * (b.c2 * c.c3),
        (a.c3 * b.c3) * c.c0 == a.c3 * (b.c3 * c.c0),
        (a.c3 * b.c3) * c.c1 == a.c3 * (b.c3 * c.c1),
        (a.c3 * b.c3) * c.c2 == a.c3 * (b.c3 * c.c2),
        (a.c3 * b.c3) * c.c3 == a.c3 * (b.c3 * c.c3),
{
    lemma_assoc(a.c0, b.c0, c.c0);
    lemma_assoc(a.c0, b.c0, c.c1);
    lemma_assoc(a.c0, b.c0, c.c2);
    lemma_assoc(a.c0, b.c0, c.c3);
    lemma_assoc(a.c0, b.c1, c.c0);
    lemma_assoc(a.c0, b.c1, c.c1);
    lemma_assoc(a.c0, b.c1, c.c2);
    lemma_assoc(a.c0, b.c1, c.c3);
    lemma_assoc(a.c0, b.c2, c.c0);
    lemma_assoc(a.c0, b.c2, c.c1);
    lemma_assoc(a.c0, b.c2, c.c2);
    lemma_assoc(a.c0, b.c2, c.c3);
    lemma_assoc(a.c0, b.c3, c.c0);
    lemma_assoc(a.c0, b.c3, c.c1);
    lemma_assoc(a.c0, b.c3, c.c2);
    lemma_assoc(a.c0, b.c3, c.c3);
    lemma_assoc(a.c1, b.c0, c.c0);
    lemma_assoc(a.c1, b.c0, c.c1);
    lemma_assoc(a.c1, b.c0, c.c2);
    lemma_assoc(a.c1, b.c0, c.c3);
    lemma_assoc(a.c1, b.c1, c.c0);
    lemma_assoc(a.c1, b.c1, c.c1);
    lemma_assoc(a.c1, b.c1, c.c2);
    lemma_assoc(a.c1, b.c1, c.c3);
    lemma_assoc(a.c1, b.c2, c.c0);
    lemma_assoc(a.c1, b.c2, c.c1);
    lemma_assoc(a.c1, b.c2, c.c2);
    lemma_assoc(a.c1, b.c2, c.c3);
    lemma_assoc(a.c1, b.c3, c.c0);
    lemma_assoc(a.c1, b.c3, c.c1);
    lemma_assoc(a.c1, b.c3, c.c2);
    lemma_assoc(a.c1, b.c3, c.c3);
    lemma_assoc(a.c2, b.c0, c.c0);
    lemma_assoc(a.c2, b.c0, c.c1);
    lemma_assoc(a.c2, b.c0, c.c2);
    lemma_assoc(a.c2, b.c0, c.c3);
    lemma_assoc(a.c2, b.c1, c.c0);
    lemma_assoc(a.c2, b.c1, c.c1);
    lemma_assoc(a.c2, b.c1, c.c2);
    lemma_assoc(a.c2, b.c1, c.c3);
    lemma_assoc(a.c2, b.c2, c.c0);
    lemma_assoc(a.c2, b.c2, c.c1);
    lemma_assoc(a.c2, b.c2, c.c2);
    lemma_assoc(a.c2, b.c2, c.c3);
    lemma_assoc(a.c2, b.c3, c.c0);
    lemma_assoc(a.c2, b.c3, c.c1);
    lemma_assoc(a.c2, b.c3, c.c2);
    lemma_assoc(a.c2, b.c3, c.c3);
    lemma_assoc(a.c3, b.c0, c.c0);
    lemma_assoc(a.c3, b.c0, c.c1);
    lemma_assoc(a.c3, b.c0, c.c2);
    lemma_assoc(a.c3, b.c0, c.c3);
    lemma_assoc(a.c3, b.c1, c.c0);
    lemma_assoc(a.c3, b.c1, c.c1);
    lemma_assoc(a.c3, b.c1, c.c2);
    lemma_assoc(a.c3, b.c1, c.c3);
    lemma_assoc(a.c3, b.c2, c.c0);
    lemma_assoc(a.c3, b.c2, c.c1);
    lemma_assoc(a.c3, b.c2, c.c2);
    lemma_assoc(a.c3, b.c2, c.c3);
    lemma_assoc(a.c3, b.c3, c.c0);
    lemma_assoc(a.c3, b.c3, c.c1);
    lemma_assoc(a.c3, b.c3, c.c2);
    lemma_assoc(a.c3, b.c3, c.c3);
}

/// Associativity before reduction.
proof fn lemma_imul_assoc(a: Ext, b: Ext, c: Ext)
    ensures
        imul(imul(a, b), c) == imul(a, imul(b, c)),
{
    lemma_all_assoc(a, b, c);
    lemma_shapes(a.c0 * b.c0, a.c1 * b.c3, a.c2 * b.c2, a.c3 * b.c1, c.c0);
    lemma_shapes(a.c0 * b.c0, a.c1 * b.c3, a.c2 * b.c2, a.c3 * b.c1, c.c1);
    lemma_shapes(a.c0 * b.c0, a.c1 * b.c3, a.c2 * b.c2, a.c3 * b.c1, c.c2);
    lemma_shapes(a.c0 * b.c0, a.c1 * b.c3, a.c2 * b.c2, a.c3 * b.c1, c.c3);
    lemma_shapes(a.c0 * b.c1, a.c1 * b.c0, a.c2 * b.c3, a.c3 * b.c2, c.c0);
    lemma_shapes(a.c0 * b.c1, a.c1 * b.c0, a.c2 * b.c3, a.c3 * b.c2, c.c1);
    lemma_shapes(a.c0 * b.c1, a.c1 * b.c0, a.c2 * b.c3, a.c3 * b.c2, c.c2);
    lemma_shapes(a.c0 * b.c1, a.c1 * b.c0, a.c2 * b.c3, a.c3 * b.c2, c.c3);
    lemma_shapes(a.c0 * b.c2, a.c1 * b.c1, a.c2 * b.c0, a.c3 * b.c3, c.c0);
    lemma_shapes(a.c0 * b.c2, a.c1 * b.c1, a.c2 * b.c0, a.c3 * b.c3, c.c1);
    lemma_shapes(a.c0 * b.c2, a.c1 * b.c1, a.c2 * b.c0, a.c3 * b.c3, c.c2);
    lemma_shapes(a.c0 * b.c2, a.c1 * b.c1, a.c2 * b.c0, a.c3 * b.c3, c.c3);
    lemma_shapes(a.c0 * b.c3, a.c1 * b.c2, a.c2 * b.c1, a.c3 * b.c0, c.c0);
    lemma_shapes(a.c0 * b.c3, a.c1 * b.c2, a.c2 * b.c1, a.c3 * b.c0, c.c1);
    lemma_shapes(a.c0 * b.c3, a.c1 * b.c2, a.c2 * b.c1, a.c3 * b.c0, c.c2);
    lemma_shapes(a.c0 * b.c3, a.c1 * b.c2, a.c2 * b.c1, a.c3 * b.c0, c.c3);
    lemma_shapes(b.c0 * c.c0, b.c1 * c.c3, b.c2 * c.c2, b.c3 * c.c1, a.c0);
    lemma_shapes(b.c0 * c.c0, b.c1 * c.c3, b.c2 * c.c2, b.c3 * c.c1, a.c1);
    lemma_shapes(b.c0 * c.c0, b.c1 * c.c3, b.c2 * c.c2, b.c3 * c.c1, a.c2);
    lemma_shapes(b.c0 * c.c0, b.c1 * c.c3, b.c2 * c.c2, b.c3 * c.c1, a.c3);
    lemma_shapes(b.c0 * c.c1, b.c1 * c.c0, b.c2 * c.c3, b.c3 * c.c2, a.c0);
    lemma_shapes(b.c0 * c.c1, b.c1 * c.c0, b.c2 * c.c3, b.c3 * c.c2, a.c1);
    lemma_shapes(b.c0 * c.c1, b.c1 * c.c0, b.c2 * c.c3, b.c3 * c.c2, a.c2);
    lemma_shapes(b.c0 * c.c1, b.c1 * c.c0, b.c2 * c.c3, b.c3 * c.c2, a.c3);
    lemma_shapes(b.c0 * c.c2, b.c1 * c.c1, b.c2 * c.c0, b.c3 * c.c3, a.c0);
    lemma_shapes(b.c0 * c.c2, b.c1 * c.c1, b.c2 * c.c0, b.c3 * c.c3, a.c1);
    lemma_shapes(b.c0 * c.c2, b.c1 * c.c1, b.c2 * c.c0, b.c3 * c.c3, a.c2);
    lemma_shapes(b.c0 * c.c2, b.c1 * c.c1, b.c2 * c.c0, b.c3 * c.c3, a.c3);
    lemma_shapes(b.c0 * c.c3, b.c1 * c.c2, b.c2 * c.c1, b.c3 * c.c0, a.c0);
    lemma_shapes(b.c0 * c.c3, b.c1 * c.c2, b.c2 * c.c1, b.c3 * c.c0, a.c1);
    lemma_shapes(b.c0 * c.c3, b.c1 * c.c2, b.c2 * c.c1, b.c3 * c.c0, a.c2);
    lemma_shapes(b.c0 * c.c3, b.c1 * c.c2, b.c2 * c.c1, b.c3 * c.c0, a.c3);
}

/// Multiplication is associative.
pub proof fn emul_associates(a: Ext, b: Ext, c: Ext)
    ensures
        emul(emul(a, b), c) == emul(a, emul(b, c)),
{
    reveal(emul);
    lemma_ered_mul(imul(a, b), c);
    lemma_ered_mul(a, imul(b, c));
    lemma_imul_assoc(a, b, c);
}

proof fn lemma_distribute(a: int, b: int, c: int)
    ensures
        a * (b + c) == a * b + a * c,
        a * (b - c) == a * b - a * c,
{
    assert(a * (b + c) == a * b + a * c) by (nonlinear_arith);
    assert(a * (b - c) == a * b - a * c) by (nonlinear_arith);
}

/// The unreduced product distributes over addition.
pub proof fn lemma_imul_distributes(a: Ext, b: Ext, c: Ext)
    ensures
        imul(a, iadd(b, c)) == iadd(imul(a, b), imul(a, c)),
        imul(a, isub(b, c)) == isub(imul(a, b), imul(a, c)),
{
    lemma_distribute(a.c0, b.c0, c.c0);
    lemma_distribute(a.c0, b.c1, c.c1);
    lemma_distribute(a.c0, b.c2, c.c2);
    lemma_distribute(a.c0, b.c3, c.c3);
    lemma_distribute(a.c1, b.c0, c.c0);
    lemma_distribute(a.c1, b.c1, c.c1);
    lemma_distribute(a.c1, b.c2, c.c2);
    lemma_distribute(a.c1, b.c3, c.c3);
    lemma_distribute(a.c2, b.c0, c.c0);
    lemma_distribute(a.c2, b.c1, c.c1);
    lemma_distribute(a.c2, b.c2, c.c2);
    lemma_distribute(a.c2, b.c3, c.c3);
    lemma_distribute(a.c3, b.c0, c.c0);
    lemma_distribute(a.c3, b.c1, c.c1);
    lemma_distribute(a.c3, b.c2, c.c2);
    lemma_distribute(a.c3, b.c3, c.c3);
}

/// Multiplication distributes over addition and subtraction.
pub proof fn emul_distributes(a: Ext, b: Ext, c: Ext)
    ensures
        emul(a, eadd(b, c)) == eadd(emul(a, b), emul(a, c)),
        emul(a, esub(b, c)) == esub(emul(a, b), emul(a, c)),
{
    reveal(emul);
    reveal(eadd);
    reveal(esub);
    lemma_imul_distributes(a, b, c);
    lemma_ered_mul(a, iadd(b, c));
    lemma_ered_mul(a, isub(b, c));
    lemma_ered_add(imul(a, b), imul(a, c));
    lemma_ered_add(imul(a, b), emul(a, c));
    lemma_ered_sub(imul(a, b), imul(a, c));
    lemma_ered_sub(imul(a, b), emul(a, c));
}

/// Addition is commutative and associative.
pub proof fn eadd_laws(a: Ext, b: Ext, c: Ext)
    ensures
        eadd(a, b) == eadd(b, a),
        eadd(eadd(a, b), c) == eadd(a, eadd(b, c)),
{
    reveal(eadd);
    lemma_ered_add(iadd(a, b), c);
    lemma_ered_add(a, iadd(b, c));
}

/// One is the identity before reduction too.
pub proof fn lemma_imul_one(a: Ext)
    ensures
        imul(a, eone()) == a,
{
    let (a0, a1, a2, a3) = (a.c0, a.c1, a.c2, a.c3);
    assert(a0 * 1 == a0 && a1 * 1 == a1 && a2 * 1 == a2 && a3 * 1 == a3);
    assert(a0 * 0 == 0 && a1 * 0 == 0 && a2 * 0 == 0 && a3 * 0 == 0);
}

/// Zero and one are the identities, and zero annihilates.
pub proof fn ext_identities(a: Ext)
    requires
        a.ok(),
    ensures
        eadd(a, ezero()) == a,
        eadd(ezero(), a) == a,
        esub(a, ezero()) == a,
        esub(a, a) == ezero(),
        emul(a, eone()) == a,
        emul(eone(), a) == a,
        emul(a, ezero()) == ezero(),
        emul(ezero(), a) == ezero(),
        ezero().ok(),
        eone().ok(),
{
    reveal(emul);
    reveal(eadd);
    reveal(esub);
    lemma_ered(a);
    lemma_ered(ezero());
    emul_commutes(a, eone());
    emul_commutes(a, ezero());
    let (a0, a1, a2, a3) = (a.c0, a.c1, a.c2, a.c3);
    assert(a0 * 1 == a0 && a1 * 1 == a1 && a2 * 1 == a2 && a3 * 1 == a3);
    assert(a0 * 0 == 0 && a1 * 0 == 0 && a2 * 0 == 0 && a3 * 0 == 0);
    assert(imul(a, eone()) == a);
    assert(imul(a, ezero()) == ezero());
}

/// `X` times `X^3` is three: the non-residue the extension is built on.
pub proof fn x_to_the_fourth_is_three()
    ensures
        emul(
            (Ext { c0: 0, c1: 1, c2: 0, c3: 0 }),
            (Ext { c0: 0, c1: 0, c2: 0, c3: 1 }),
        ) == (Ext { c0: 3, c1: 0, c2: 0, c3: 0 }),
{
    reveal(emul);
    let x = Ext { c0: 0, c1: 1, c2: 0, c3: 0 };
    let y = Ext { c0: 0, c1: 0, c2: 0, c3: 1 };
    assert(0int * 0 == 0 && 0int * 1 == 0 && 1int * 0 == 0 && 1int * 1 == 1);
    assert(imul(x, y) == Ext { c0: 3, c1: 0, c2: 0, c3: 0 });
    arith::lemma_red(3);
    arith::lemma_red(0);
}

/// What a sum with a difference comes to.
pub proof fn esub_then_eadd(a: Ext, b: Ext)
    requires
        a.ok(),
    ensures
        eadd(esub(a, b), b) == a,
        esub(eadd(a, b), b) == a,
{
    reveal(eadd);
    reveal(esub);
    lemma_ered_add(isub(a, b), b);
    lemma_ered_sub(iadd(a, b), b);
    assert(iadd(isub(a, b), b) == a);
    assert(isub(iadd(a, b), b) == a);
    lemma_ered(a);
}

/// Sums and differences may be taken in either order.
pub proof fn esub_moves(a: Ext, b: Ext, c: Ext)
    ensures
        eadd(esub(a, b), c) == eadd(a, esub(c, b)),
{
    reveal(eadd);
    reveal(esub);
    lemma_ered_add(isub(a, b), c);
    lemma_ered_add(a, isub(c, b));
}

} // verus!
