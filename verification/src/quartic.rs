//! The quartic extension is a field.
//!
//! `X^4 - 3` does not split. A square root of `-3` would give a cube root of
//! unity, and there is none but one; since `-1` is a square, `3` has no square
//! root either, so that `X^2` generates a field. There the norm of `X^2` is `-3`,
//! no square, so that `X^2` has no square root in it, and `X` extends it again.

use crate::arith;
use crate::ext::{self, Ext};
use crate::prime;
use vstd::prelude::*;

verus! {

/// A multiple of what vanishes vanishes.
proof fn lemma_multiple(x: int, k: int)
    requires
        arith::red(x) == 0,
    ensures
        arith::red(x * k) == 0,
{
    arith::lemma_red_mul(x, k);
    assert(0 * k == 0);
    arith::lemma_red(0);
}

/// A sum of what vanishes vanishes.
proof fn lemma_sum(x: int, y: int)
    requires
        arith::red(x) == 0,
        arith::red(y) == 0,
    ensures
        arith::red(x + y) == 0,
        arith::red(x - y) == 0,
{
    arith::lemma_red_add(x, y);
    arith::lemma_red_sub(x, y);
    arith::lemma_red(0);
}

/// What has a square that vanishes vanishes.
proof fn lemma_square(x: int)
    requires
        arith::red(x * x) == 0,
    ensures
        arith::red(x) == 0,
{
    arith::lemma_red(x);
    arith::lemma_red_mul(x, x);
    if arith::red(x) != 0 {
        prime::no_zero_divisors(arith::red(x), arith::red(x));
    }
}

/// Where `e` inverts `q`, the ratio of `p` and `q` has a square that exceeds `k`
/// by a multiple of `p^2 - k q^2`.
proof fn lemma_ratio(p: int, q: int, e: int, k: int)
    requires
        arith::red(p * p - k * (q * q)) == 0,
        arith::fmul(q, e) == 1,
    ensures
        arith::red(arith::red(p * e) * arith::red(p * e) - k) == 0,
{
    let z = p * e;
    let u = q * e;
    arith::lemma_red(1);
    arith::lemma_red_sub(u, 1);
    arith::lemma_red(0);
    lemma_multiple(u - 1, k * (u + 1));
    lemma_multiple(p * p - k * (q * q), e * e);
    lemma_sum((p * p - k * (q * q)) * (e * e), (u - 1) * (k * (u + 1)));
    assert((p * p) * (e * e) == z * z) by (nonlinear_arith)
        requires
            z == p * e,
    ;
    assert((q * q) * (e * e) == u * u) by (nonlinear_arith)
        requires
            u == q * e,
    ;
    let (f, g, h) = (p * p, q * q, e * e);
    assert((f - k * g) * h == f * h - k * (g * h)) by (nonlinear_arith);
    assert((u - 1) * (k * (u + 1)) == k * (u * u) - k) by (nonlinear_arith);
    arith::lemma_red_mul(z, z);
    arith::lemma_red_sub(z * z, k);
    arith::lemma_red_sub(arith::red(z) * arith::red(z), k);
}

/// `-3` is no square.
proof fn lemma_minus_three(s: int)
    requires
        arith::felt(s),
    ensures
        arith::red(s * s + 3) != 0,
{
    if arith::red(s * s + 3) == 0 {
        let h = arith::half();
        let m = s - 1;
        let n = m * h;
        let c = arith::red(n);
        // (s - 1)^3 = 8 + (s^2 + 3) (s - 3)
        lemma_multiple(s * s + 3, s - 3);
        let cube = m * (m * m);
        assert(cube == 8 + (s * s + 3) * (s - 3)) by (nonlinear_arith)
            requires
                m == s - 1,
                cube == m * (m * m),
        ;
        arith::lemma_red_add(8, (s * s + 3) * (s - 3));
        arith::lemma_red(8);
        assert(arith::red(cube) == 8);
        arith::lemma_red_mul(n, n);
        arith::lemma_red_mul(n, n * n);
        arith::lemma_red(n * n);
        arith::lemma_red_mul(n, arith::red(n * n));
        assert(n * (n * n) == cube * (h * (h * h))) by (nonlinear_arith)
            requires
                n == m * h,
                cube == m * (m * m),
        ;
        arith::lemma_red_mul(cube, h * (h * h));
        assert(arith::red(8 * (h * (h * h))) == 1);
        assert(arith::fcube(c) == 1);
        arith::lemma_red(n);
        prime::only_one_is_a_cube_root_of_one(c);
        // So s is 3, whose square is not -3.
        arith::lemma_red_mul(n, 2);
        assert(n * 2 == m * (arith::modulus() + 1)) by (nonlinear_arith)
            requires
                n == m * h,
                2 * h == arith::modulus() + 1,
        ;
        arith::lemma_red_mul(m, arith::modulus() + 1);
        assert(arith::red(arith::modulus() + 1) == 1);
        assert(m * 1 == m);
        assert(arith::red(m) == 2);
        arith::lemma_red(m);
        assert(s == 3);
        assert(s * s == 9) by (nonlinear_arith)
            requires
                s == 3,
        ;
    }
}

/// `3` is no square.
proof fn lemma_three(z: int)
    requires
        arith::felt(z),
    ensures
        arith::red(z * z - 3) != 0,
{
    if arith::red(z * z - 3) == 0 {
        // A square root of minus one.
        let i: int = 0x7e010002;
        let s = i * z;
        assert(arith::red(i * i + 1) == 0);
        lemma_multiple(i * i + 1, z * z);
        lemma_sum((i * i + 1) * (z * z), z * z - 3);
        assert((i * i + 1) * (z * z) - (z * z - 3) == s * s + 3) by (nonlinear_arith)
            requires
                s == i * z,
        ;
        arith::lemma_red(s);
        arith::lemma_red_mul(s, s);
        arith::lemma_red_add(s * s, 3);
        arith::lemma_red_add(arith::red(s) * arith::red(s), 3);
        lemma_minus_three(arith::red(s));
    }
}

/// The norm of the intermediate field vanishes at zero only.
proof fn lemma_norm(p: int, q: int)
    requires
        arith::red(p * p - 3 * (q * q)) == 0,
    ensures
        arith::red(p) == 0,
        arith::red(q) == 0,
{
    let r = arith::red(q);
    arith::lemma_red(q);
    arith::lemma_red_mul(q, q);
    arith::lemma_red_mul(3, q * q);
    arith::lemma_red_mul(3, r * r);
    arith::lemma_red_sub(p * p, 3 * (q * q));
    arith::lemma_red_sub(p * p, 3 * (r * r));
    assert(arith::red(p * p - 3 * (r * r)) == 0);
    if r == 0 {
        assert(3 * (r * r) == 0);
        lemma_square(p);
    } else {
        prime::inverses_exist_and_are_unique(r);
        let e = choose|c: int| arith::felt(c) && #[trigger] arith::fmul(r, c) == 1;
        lemma_ratio(p, r, e, 3);
        arith::lemma_red(p * e);
        lemma_three(arith::red(p * e));
    }
}

/// The conjugate over the intermediate field.
spec fn conjugate(a: Ext) -> Ext {
    Ext { c0: a.c0, c1: -a.c1, c2: a.c2, c3: -a.c3 }
}

/// The product of an element and its conjugate lies in the intermediate field:
/// its coefficient of one.
spec fn low(a: Ext) -> int {
    a.c0 * a.c0 + 3 * (a.c2 * a.c2) - 6 * (a.c1 * a.c3)
}

/// Its coefficient of `X^2`.
spec fn high(a: Ext) -> int {
    2 * (a.c0 * a.c2) - a.c1 * a.c1 - 3 * (a.c3 * a.c3)
}

/// The product with the conjugate.
proof fn lemma_conjugate(a: Ext)
    ensures
        ext::imul(conjugate(a), a) == (Ext { c0: low(a), c1: 0, c2: high(a), c3: 0 }),
{
    let (x, y, z, w) = (a.c0, a.c1, a.c2, a.c3);
    assert(-y * w == -(y * w)) by (nonlinear_arith);
    assert(-w * y == -(y * w)) by (nonlinear_arith);
    assert(-y * x == -(x * y)) by (nonlinear_arith);
    assert(-w * z == -(z * w)) by (nonlinear_arith);
    assert(-y * y == -(y * y)) by (nonlinear_arith);
    assert(-w * w == -(w * w)) by (nonlinear_arith);
    assert(-y * z == -(z * y)) by (nonlinear_arith);
    assert(-w * x == -(x * w)) by (nonlinear_arith);
    assert(z * x == x * z) by (nonlinear_arith);
}

/// The product with the conjugate vanishes at zero only.
proof fn lemma_conjugate_vanishes(a: Ext)
    requires
        a.ok(),
        arith::red(low(a)) == 0,
        arith::red(high(a)) == 0,
    ensures
        a == ext::ezero(),
{
    let (x, y, z, w) = (a.c0, a.c1, a.c2, a.c3);
    let u = x * x - 3 * (z * z);
    let v = y * y - 3 * (w * w);
    let p = x * x + 3 * (z * z);
    let q = 2 * (x * z);
    let r = 6 * (y * w);
    let t = y * y + 3 * (w * w);
    // u^2 + 3 v^2 is a combination of the two coefficients.
    lemma_multiple(low(a), p + r);
    lemma_multiple(high(a), 3 * (q + t));
    lemma_sum(low(a) * (p + r), high(a) * (3 * (q + t)));
    lemma_norm_of_square(x, z);
    lemma_norm_of_square(y, w);
    assert((p - r) * (p + r) - (q - t) * (3 * (q + t)) == p * p - 3 * (q * q) - r * r + 3 * (t * t))
        by (nonlinear_arith);
    assert(r * r == 3 * (2 * (y * w)) * (3 * (2 * (y * w))) && r * r == 9 * ((2 * (y * w)) * (2 * (y
        * w)))) by (nonlinear_arith)
        requires
            r == 6 * (y * w),
    ;
    assert(low(a) == p - r && high(a) == q - t);
    assert(arith::red(u * u + 3 * (v * v)) == 0);
    assert(u * u - -3 * (v * v) == u * u + 3 * (v * v));
    // If v does not vanish, -3 is the square of u / v.
    let f = arith::red(v);
    arith::lemma_red(v);
    if f != 0 {
        prime::inverses_exist_and_are_unique(f);
        let e = choose|c: int| arith::felt(c) && #[trigger] arith::fmul(f, c) == 1;
        arith::lemma_red_mul(v, e);
        lemma_ratio(u, v, e, -3);
        arith::lemma_red(u * e);
        lemma_minus_three(arith::red(u * e));
    } else {
        lemma_norm(y, w);
        arith::lemma_red(y);
        arith::lemma_red(w);
        lemma_multiple(v, 3 * v);
        lemma_sum(u * u + 3 * (v * v), v * (3 * v));
        assert(v * (3 * v) == 3 * (v * v)) by (nonlinear_arith);
        lemma_square(u);
        lemma_norm(x, z);
        arith::lemma_red(x);
        arith::lemma_red(z);
    }
}

/// The norm of a square is the square of the norm.
proof fn lemma_norm_of_square(x: int, z: int)
    ensures
        ({
            let p = x * x + 3 * (z * z);
            let q = 2 * (x * z);
            let u = x * x - 3 * (z * z);
            p * p - 3 * (q * q) == u * u
        }),
{
    let a = x * x;
    let b = z * z;
    let c = x * z;
    assert(c * c == a * b) by (nonlinear_arith)
        requires
            a == x * x,
            b == z * z,
            c == x * z,
    ;
    assert((a + 3 * b) * (a + 3 * b) - 3 * ((2 * c) * (2 * c)) == (a - 3 * b) * (a - 3 * b))
        by (nonlinear_arith)
        requires
            c * c == a * b,
    ;
}

/// The element of the base field.
spec fn scalar(k: int) -> Ext {
    Ext { c0: k, c1: 0, c2: 0, c3: 0 }
}

/// Multiplication by an element of the base field.
proof fn lemma_scalar(k: int, b: Ext)
    ensures
        ext::imul(scalar(k), b) == (Ext {
            c0: k * b.c0,
            c1: k * b.c1,
            c2: k * b.c2,
            c3: k * b.c3,
        }),
{
    assert(0 * b.c0 == 0 && 0 * b.c1 == 0 && 0 * b.c2 == 0 && 0 * b.c3 == 0);
}

/// What an element is multiplied by to reach the base field.
spec fn cofactor(a: Ext) -> Ext {
    ext::emul((Ext { c0: low(a), c1: 0, c2: -high(a), c3: 0 }), conjugate(a))
}

/// The norm over the base field.
spec fn norm(a: Ext) -> int {
    low(a) * low(a) - 3 * (high(a) * high(a))
}

/// The cofactor leads to the norm.
proof fn lemma_cofactor(a: Ext)
    ensures
        ext::emul(cofactor(a), a) == ext::ered(scalar(norm(a))),
{
    let p = low(a);
    let q = high(a);
    let m = Ext { c0: p, c1: 0, c2: -q, c3: 0 };
    let n = Ext { c0: p, c1: 0, c2: q, c3: 0 };
    ext::emul_associates(m, conjugate(a), a);
    lemma_conjugate(a);
    reveal(ext::emul);
    ext::lemma_ered_mul(m, n);
    assert(p * 0 == 0 && -q * 0 == 0 && 0 * p == 0 && 0 * q == 0);
    assert(-q * q == -(q * q)) by (nonlinear_arith);
    assert(p * q + -q * p == 0) by (nonlinear_arith);
    assert(ext::imul(m, n) == scalar(norm(a)));
}

/// The norm of a nonzero element is not zero.
proof fn lemma_norm_is_not_zero(a: Ext)
    requires
        a.ok(),
        a != ext::ezero(),
    ensures
        arith::red(norm(a)) != 0,
{
    if arith::red(norm(a)) == 0 {
        lemma_norm(low(a), high(a));
        lemma_conjugate_vanishes(a);
    }
}

/// Every nonzero extension element has an inverse.
pub proof fn extension_inverses_exist(a: Ext)
    requires
        a.ok(),
        a != ext::ezero(),
    ensures
        exists|b: Ext| b.ok() && #[trigger] ext::emul(a, b) == ext::eone(),
{
    broadcast use ext::group_ok;

    let k = norm(a);
    let r = arith::red(k);
    lemma_norm_is_not_zero(a);
    arith::lemma_red(k);
    prime::inverses_exist_and_are_unique(r);
    let e = choose|c: int| arith::felt(c) && #[trigger] arith::fmul(r, c) == 1;
    let b = ext::emul(scalar(e), cofactor(a));
    ext::emul_commutes(a, b);
    ext::emul_associates(scalar(e), cofactor(a), a);
    lemma_cofactor(a);
    reveal(ext::emul);
    ext::lemma_ered_mul(scalar(e), scalar(k));
    lemma_scalar(e, scalar(k));
    arith::lemma_red_mul(k, e);
    assert(e * k == k * e) by (nonlinear_arith);
    assert(e * 0 == 0);
    arith::lemma_red(0);
    assert(ext::emul(a, b) == ext::eone());
}

/// A product of nonzero extension elements is not zero.
pub proof fn extension_has_no_zero_divisors(a: Ext, b: Ext)
    requires
        a.ok(),
        b.ok(),
        a != ext::ezero(),
        b != ext::ezero(),
    ensures
        ext::emul(a, b) != ext::ezero(),
{
    if ext::emul(a, b) == ext::ezero() {
        extension_inverses_exist(a);
        let e = choose|e: Ext| e.ok() && #[trigger] ext::emul(a, e) == ext::eone();
        ext::emul_commutes(a, e);
        ext::emul_associates(e, a, b);
        ext::ext_identities(e);
        ext::ext_identities(b);
    }
}

/// What multiplies to the same product with a nonzero extension element is the
/// same.
pub proof fn extension_cancellation(u: Ext, a: Ext, b: Ext)
    requires
        u.ok(),
        u != ext::ezero(),
        a.ok(),
        b.ok(),
        ext::emul(u, a) == ext::emul(u, b),
    ensures
        a == b,
{
    extension_inverses_exist(u);
    let e = choose|e: Ext| e.ok() && #[trigger] ext::emul(u, e) == ext::eone();
    ext::emul_commutes(u, e);
    ext::emul_associates(e, u, a);
    ext::emul_associates(e, u, b);
    ext::ext_identities(a);
    ext::ext_identities(b);
}

/// The powers of a nonzero extension element are not zero.
pub proof fn powers_are_not_zero(g: Ext, n: nat)
    requires
        g.ok(),
        g != ext::ezero(),
    ensures
        ext::epow(g, n) != ext::ezero(),
    decreases n,
{
    if n > 0 {
        let k = (n - 1) as nat;
        powers_are_not_zero(g, k);
        ext::lemma_epow_ok(g, k);
        extension_has_no_zero_divisors(ext::epow(g, k), g);
    }
}

} // verus!
