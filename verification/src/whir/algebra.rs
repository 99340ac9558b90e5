//! The polynomials a WHIR verifier evaluates, as mathematical functions over the
//! quartic extension.

use crate::ext::{self, Ext};
use crate::quartic;
use vstd::arithmetic::power2::*;
use vstd::prelude::*;

verus! {

// ---------------------------------------------------------------------------
// Sumcheck
// ---------------------------------------------------------------------------

/// The quadratic through `h(0)`, `h(1)` and the leading coefficient `h(inf)`,
/// evaluated at `r`.
pub open spec fn extrapolate(e0: Ext, e1: Ext, e_inf: Ext, r: Ext) -> Ext {
    ext::eadd(
        ext::eadd(ext::emul(e0, ext::esub(ext::eone(), r)), ext::emul(e1, r)),
        ext::emul(e_inf, ext::emul(r, ext::esub(r, ext::eone()))),
    )
}

/// One sumcheck round: `h(1)` comes from the constraint `h(0) + h(1) = claim`,
/// and the new claim is `h(r)`.
pub open spec fn next_claim(claim: Ext, c0: Ext, c_inf: Ext, r: Ext) -> Ext {
    extrapolate(c0, ext::esub(claim, c0), c_inf, r)
}

/// The quadratic takes its sent values: `h(0)` at zero and `h(1)` at one.
pub proof fn extrapolation_interpolates(e0: Ext, e1: Ext, e_inf: Ext)
    requires
        e0.ok(),
        e1.ok(),
        e_inf.ok(),
    ensures
        extrapolate(e0, e1, e_inf, ext::ezero()) == e0,
        extrapolate(e0, e1, e_inf, ext::eone()) == e1,
{
    let zero = ext::ezero();
    let one = ext::eone();
    broadcast use ext::group_ok;

    ext::ext_identities(zero);
    ext::ext_identities(one);
    ext::ext_identities(e0);
    ext::ext_identities(e1);
    ext::ext_identities(e_inf);
    ext::ext_identities(ext::esub(zero, one));
}

/// At `r = 0` the new claim is `h(0)`, and at `r = 1` it is `claim - h(0)`.
pub proof fn round_respects_the_sumcheck_constraint(claim: Ext, c0: Ext, c_inf: Ext)
    requires
        claim.ok(),
        c0.ok(),
        c_inf.ok(),
    ensures
        next_claim(claim, c0, c_inf, ext::ezero()) == c0,
        next_claim(claim, c0, c_inf, ext::eone()) == ext::esub(claim, c0),
{
    broadcast use ext::group_ok;

    extrapolation_interpolates(c0, ext::esub(claim, c0), c_inf);
}

// ---------------------------------------------------------------------------
// Multilinear evaluation
// ---------------------------------------------------------------------------

/// One value between two: `a` at `x = 0` and `b` at `x = 1`.
pub open spec fn between(a: Ext, b: Ext, x: Ext) -> Ext {
    ext::eadd(a, ext::emul(x, ext::esub(b, a)))
}

/// Fold the last variable: adjacent entries are paired.
pub open spec fn fold(s: Seq<Ext>, x: Ext) -> Seq<Ext> {
    Seq::new(s.len() / 2, |j: int| between(s[2 * j], s[2 * j + 1], x))
}

/// The multilinear polynomial with the given evaluations on the boolean cube,
/// indexed big-endian by the variables, at a point.
pub open spec fn multilinear(s: Seq<Ext>, p: Seq<Ext>) -> Ext
    decreases p.len(),
{
    if p.len() == 0 {
        s[0]
    } else {
        multilinear(fold(s, p.last()), p.drop_last())
    }
}

/// Folding stays in the field.
pub proof fn lemma_fold_ok(s: Seq<Ext>, x: Ext)
    ensures
        ext::all_ok(fold(s, x)),
{
    broadcast use ext::group_ok;

}

/// Evaluation stays in the field.
pub proof fn lemma_multilinear_ok(s: Seq<Ext>, p: Seq<Ext>)
    requires
        ext::all_ok(s),
        s.len() == pow2(p.len()),
    ensures
        multilinear(s, p).ok(),
    decreases p.len(),
{
    lemma2_to64();
    if p.len() > 0 {
        lemma_pow2_unfold(p.len());
        lemma_fold_ok(s, p.last());
        lemma_multilinear_ok(fold(s, p.last()), p.drop_last());
    }
}

/// A corner of the boolean cube: bit `n - 1 - i` of `b` is coordinate `i`.
pub open spec fn corner(b: int, n: nat) -> Seq<Ext>
    decreases n,
{
    if n == 0 {
        Seq::empty()
    } else {
        corner(b / 2, (n - 1) as nat).push(
            if b % 2 == 1 {
                ext::eone()
            } else {
                ext::ezero()
            },
        )
    }
}

/// A multilinear polynomial agrees with its own evaluations on the cube.
pub proof fn multilinear_agrees_on_the_boolean_cube(s: Seq<Ext>, b: int, n: nat)
    requires
        ext::all_ok(s),
        s.len() == pow2(n),
        0 <= b < s.len(),
    ensures
        multilinear(s, corner(b, n)) == s[b],
    decreases n,
{
    lemma2_to64();
    if n > 0 {
        lemma_pow2_unfold(n);
        let m = (n - 1) as nat;
        let x = if b % 2 == 1 {
            ext::eone()
        } else {
            ext::ezero()
        };
        let p = corner(b, n);
        assert(p.drop_last() =~= corner(b / 2, m));
        assert(p.last() == x);
        let t = fold(s, x);
        lemma_fold_ok(s, x);
        multilinear_agrees_on_the_boolean_cube(t, b / 2, m);
        let j = b / 2;
        let lo = s[2 * j];
        let hi = s[2 * j + 1];
        assert(t[j] == between(lo, hi, x));
        lemma_between_ends(lo, hi);
    }
}

/// The ends of the line between two values.
pub proof fn lemma_between_ends(a: Ext, b: Ext)
    requires
        a.ok(),
        b.ok(),
    ensures
        between(a, b, ext::ezero()) == a,
        between(a, b, ext::eone()) == b,
{
    broadcast use ext::group_ok;

    let d = ext::esub(b, a);
    ext::ext_identities(d);
    ext::ext_identities(a);
    ext::eadd_laws(a, d, a);
    ext::esub_then_eadd(b, a);
}

// ---------------------------------------------------------------------------
// The equality polynomial
// ---------------------------------------------------------------------------

/// One coordinate's factor, `1 + 2 z r - z - r`.
pub open spec fn eq_factor(z: Ext, r: Ext) -> Ext {
    let p = ext::emul(z, r);
    ext::eadd(ext::esub(ext::esub(ext::eadd(p, p), z), r), ext::eone())
}

/// `eq(z, r)`: the product of the coordinates' factors.
pub open spec fn eq_poly(z: Seq<Ext>, r: Seq<Ext>) -> Ext
    decreases z.len(),
{
    if z.len() == 0 {
        ext::eone()
    } else {
        ext::emul(eq_poly(z.skip(1), r.skip(1)), eq_factor(z[0], r[0]))
    }
}

/// The equality polynomial is canonical.
pub broadcast proof fn lemma_eq_poly_ok(z: Seq<Ext>, r: Seq<Ext>)
    ensures
        (#[trigger] eq_poly(z, r)).ok(),
{
    broadcast use ext::group_ok;

    ext::lemma_ered(ext::eone());
}

/// The two forms of a factor agree: `1 + 2 z r - z - r` is
/// `z r + (1 - z)(1 - r)`.
pub proof fn eq_factor_is_symmetric(z: Ext, r: Ext)
    ensures
        eq_factor(z, r) == ext::eadd(
            ext::emul(z, r),
            ext::emul(ext::esub(ext::eone(), z), ext::esub(ext::eone(), r)),
        ),
        eq_factor(z, r) == eq_factor(r, z),
{
    reveal(ext::eadd);
    reveal(ext::esub);
    reveal(ext::emul);
    let one = ext::eone();
    let p = ext::imul(z, r);
    // The left side, reduced once.
    ext::lemma_ered_add(p, p);
    ext::lemma_ered_add(p, ext::ered(p));
    ext::lemma_ered_sub(ext::iadd(p, p), z);
    ext::lemma_ered_sub(ext::isub(ext::iadd(p, p), z), r);
    ext::lemma_ered_add(ext::isub(ext::isub(ext::iadd(p, p), z), r), one);
    let left = ext::iadd(ext::isub(ext::isub(ext::iadd(p, p), z), r), one);
    assert(eq_factor(z, r) == ext::ered(left));
    // The right side, reduced once.
    let q = ext::imul(ext::isub(one, z), ext::isub(one, r));
    ext::lemma_ered_mul(ext::isub(one, z), ext::isub(one, r));
    ext::lemma_ered_mul(ext::isub(one, z), ext::esub(one, r));
    ext::lemma_ered_add(p, q);
    ext::lemma_ered_add(p, ext::ered(q));
    assert(ext::eadd(
        ext::emul(z, r),
        ext::emul(ext::esub(one, z), ext::esub(one, r)),
    ) == ext::ered(ext::iadd(p, q)));
    lemma_one_minus(z, r);
    ext::emul_commutes(z, r);
    let p2 = ext::imul(r, z);
    assert(p2 == p);
    let other = ext::iadd(ext::isub(ext::isub(ext::iadd(p, p), r), z), one);
    assert(other == left);
    ext::lemma_ered_sub(ext::iadd(p, p), r);
    ext::lemma_ered_sub(ext::isub(ext::iadd(p, p), r), z);
    ext::lemma_ered_add(ext::isub(ext::isub(ext::iadd(p, p), r), z), one);
}

/// `(1 - z)(1 - r)` multiplied out, before reduction.
proof fn lemma_one_minus(z: Ext, r: Ext)
    ensures
        ext::imul(ext::isub(ext::eone(), z), ext::isub(ext::eone(), r)) == ext::iadd(
            ext::isub(ext::isub(ext::imul(z, r), z), r),
            ext::eone(),
        ),
{
    let one = ext::eone();
    let a = ext::isub(one, z);
    ext::lemma_imul_distributes(a, one, r);
    ext::emul_commutes(a, one);
    ext::emul_commutes(a, r);
    ext::lemma_imul_distributes(r, one, z);
    ext::emul_commutes(r, z);
    ext::emul_commutes(r, one);
    ext::lemma_imul_one(a);
    ext::lemma_imul_one(r);
}

/// `eq` factorises across a split, which is why a constraint can be evaluated at
/// a suffix of the accumulated randomness with no work in between.
pub proof fn eq_factorises_across_a_split(z1: Seq<Ext>, r1: Seq<Ext>, z2: Seq<Ext>, r2: Seq<Ext>)
    requires
        z1.len() == r1.len(),
        z2.len() == r2.len(),
    ensures
        eq_poly(z1 + z2, r1 + r2) == ext::emul(eq_poly(z1, r1), eq_poly(z2, r2)),
    decreases z1.len(),
{
    broadcast use {ext::group_ok, lemma_eq_poly_ok};

    if z1.len() == 0 {
        assert(z1 + z2 =~= z2);
        assert(r1 + r2 =~= r2);
        ext::ext_identities(eq_poly(z2, r2));
    } else {
        let a = eq_poly(z1.skip(1), r1.skip(1));
        let b = eq_poly(z2, r2);
        let f = eq_factor(z1[0], r1[0]);
        eq_factorises_across_a_split(z1.skip(1), r1.skip(1), z2, r2);
        assert((z1 + z2).skip(1) =~= z1.skip(1) + z2);
        assert((r1 + r2).skip(1) =~= r1.skip(1) + r2);
        ext::emul_associates(a, b, f);
        ext::emul_commutes(b, f);
        ext::emul_associates(a, f, b);
    }
}

/// The factor at the ends of its first coordinate.
proof fn lemma_eq_factor_ends(x: Ext)
    requires
        x.ok(),
    ensures
        eq_factor(ext::ezero(), x) == ext::esub(ext::eone(), x),
        eq_factor(ext::eone(), x) == x,
{
    broadcast use ext::group_ok;

    let zero = ext::ezero();
    let one = ext::eone();
    ext::ext_identities(x);
    ext::ext_identities(one);
    ext::ext_identities(zero);
    eq_factor_is_symmetric(zero, x);
    eq_factor_is_symmetric(one, x);
    let d = ext::esub(one, x);
    ext::ext_identities(d);
}

/// One more coordinate on `eq`.
proof fn lemma_eq_poly_push(z: Seq<Ext>, r: Seq<Ext>, a: Ext, x: Ext)
    requires
        z.len() == r.len(),
    ensures
        eq_poly(z.push(a), r.push(x)) == ext::emul(eq_poly(z, r), eq_factor(a, x)),
{
    broadcast use ext::group_ok;

    let za = Seq::<Ext>::empty().push(a);
    let rx = Seq::<Ext>::empty().push(x);
    eq_factorises_across_a_split(z, r, za, rx);
    assert(z + za =~= z.push(a));
    assert(r + rx =~= r.push(x));
    assert(za.skip(1).len() == 0);
    assert(eq_poly(za.skip(1), rx.skip(1)) == ext::eone());
    ext::ext_identities(eq_factor(a, x));
}

/// The first `k` evaluations weighted by `eq` at their corners.
pub open spec fn weighted_by_eq(s: Seq<Ext>, p: Seq<Ext>, k: nat) -> Ext
    decreases k,
{
    if k == 0 {
        ext::ezero()
    } else {
        ext::eadd(
            weighted_by_eq(s, p, (k - 1) as nat),
            ext::emul(s[k - 1], eq_poly(corner(k - 1, p.len()), p)),
        )
    }
}

proof fn lemma_corner_len(b: int, n: nat)
    ensures
        corner(b, n).len() == n,
    decreases n,
{
    if n > 0 {
        lemma_corner_len(b / 2, (n - 1) as nat);
    }
}

/// Two adjacent terms are one term of the folded sum.
proof fn lemma_pair(a: Ext, b: Ext, e: Ext, x: Ext)
    requires
        a.ok(),
        b.ok(),
        e.ok(),
        x.ok(),
    ensures
        ext::eadd(
            ext::emul(a, ext::emul(e, ext::esub(ext::eone(), x))),
            ext::emul(b, ext::emul(e, x)),
        ) == ext::emul(between(a, b, x), e),
{
    broadcast use ext::group_ok;

    let one = ext::eone();
    let ex = ext::emul(e, x);
    // The left side: a e - a (e x) + b (e x).
    ext::emul_distributes(e, one, x);
    ext::ext_identities(e);
    assert(ext::emul(e, ext::esub(one, x)) == ext::esub(e, ex));
    ext::emul_distributes(a, e, ex);
    let ae = ext::emul(a, e);
    let aex = ext::emul(a, ex);
    let bex = ext::emul(b, ex);
    // The right side: e a + (e x)(b - a).
    let d = ext::esub(b, a);
    let xd = ext::emul(x, d);
    ext::emul_commutes(between(a, b, x), e);
    ext::emul_distributes(e, a, xd);
    ext::emul_associates(e, x, d);
    ext::emul_distributes(ex, b, a);
    ext::emul_commutes(e, a);
    ext::emul_commutes(ex, a);
    ext::emul_commutes(ex, b);
    assert(ext::emul(between(a, b, x), e) == ext::eadd(ae, ext::esub(bex, aex)));
    ext::esub_moves(ae, aex, bex);
}

/// Pairs of terms make up the folded sum.
proof fn lemma_weighted_fold(s: Seq<Ext>, p: Seq<Ext>, j: nat)
    requires
        ext::all_ok(s),
        ext::all_ok(p),
        p.len() > 0,
        2 * j <= s.len(),
    ensures
        weighted_by_eq(s, p, 2 * j) == weighted_by_eq(fold(s, p.last()), p.drop_last(), j),
    decreases j,
{
    broadcast use {ext::group_ok, lemma_eq_poly_ok};

    if j > 0 {
        let i = j - 1;
        let x = p.last();
        let q = p.drop_last();
        let n = p.len();
        let m = (n - 1) as nat;
        lemma_weighted_fold(s, p, i as nat);
        let e = eq_poly(corner(i, m), q);
        assert(p =~= q.push(x));
        lemma_corner_len(i, m);
        assert(corner(2 * i, n) == corner(i, m).push(ext::ezero())) by {
            assert((2 * i) / 2 == i && (2 * i) % 2 == 0);
        }
        assert(corner(2 * i + 1, n) == corner(i, m).push(ext::eone())) by {
            assert((2 * i + 1) / 2 == i && (2 * i + 1) % 2 == 1);
        }
        lemma_eq_poly_push(corner(i, m), q, ext::ezero(), x);
        lemma_eq_poly_push(corner(i, m), q, ext::eone(), x);
        lemma_eq_factor_ends(x);
        let a = s[2 * i];
        let b = s[2 * i + 1];
        lemma_pair(a, b, e, x);
        let w = weighted_by_eq(s, p, (2 * i) as nat);
        let t0 = ext::emul(a, eq_poly(corner(2 * i, n), p));
        let t1 = ext::emul(b, eq_poly(corner(2 * i + 1, n), p));
        assert(weighted_by_eq(s, p, (2 * i + 1) as nat) == ext::eadd(w, t0));
        assert(weighted_by_eq(s, p, 2 * j) == ext::eadd(ext::eadd(w, t0), t1));
        ext::eadd_laws(w, t0, t1);
    }
}

/// Summing evaluations against `eq` *is* evaluation:
/// `sum_b f(b) eq(b, z) = f(z)`.
pub proof fn summing_against_eq_is_evaluation(s: Seq<Ext>, p: Seq<Ext>)
    requires
        ext::all_ok(s),
        ext::all_ok(p),
        s.len() == pow2(p.len()),
    ensures
        weighted_by_eq(s, p, s.len()) == multilinear(s, p),
    decreases p.len(),
{
    broadcast use {ext::group_ok, lemma_eq_poly_ok};

    lemma2_to64();
    if p.len() == 0 {
        reveal_with_fuel(weighted_by_eq, 2);
        ext::ext_identities(s[0]);
    } else {
        lemma_pow2_unfold(p.len());
        let h = (s.len() / 2) as nat;
        lemma_weighted_fold(s, p, h);
        lemma_fold_ok(s, p.last());
        summing_against_eq_is_evaluation(fold(s, p.last()), p.drop_last());
    }
}

// ---------------------------------------------------------------------------
// Points from scalars
// ---------------------------------------------------------------------------

/// `u` squared `k` times.
pub open spec fn square_power(u: Ext, k: nat) -> Ext
    decreases k,
{
    if k == 0 {
        u
    } else {
        let x = square_power(u, (k - 1) as nat);
        ext::emul(x, x)
    }
}

/// The square-power vector `[u^(2^(m-1)), ..., u^4, u^2, u]`.
pub open spec fn expand(u: Ext, m: nat) -> Seq<Ext> {
    Seq::new(m, |i: int| square_power(u, (m - 1 - i) as nat))
}

/// A repeated square is canonical.
pub proof fn lemma_square_power_ok(u: Ext, k: nat)
    requires
        u.ok(),
    ensures
        square_power(u, k).ok(),
{
    broadcast use ext::group_ok;

}

/// An expanded point is canonical.
pub proof fn lemma_expand_ok(u: Ext, m: nat)
    requires
        u.ok(),
    ensures
        ext::all_ok(expand(u, m)),
{
    assert forall|i: int| 0 <= i < m implies (#[trigger] expand(u, m)[i]).ok() by {
        lemma_square_power_ok(u, (m - 1 - i) as nat);
    }
}

/// Powers multiply by adding exponents.
pub proof fn lemma_epow_add(a: Ext, m: nat, n: nat)
    ensures
        ext::epow(a, m + n) == ext::emul(ext::epow(a, m), ext::epow(a, n)),
    decreases n,
{
    broadcast use ext::group_ok;

    if n == 0 {
        ext::ext_identities(ext::epow(a, m));
    } else {
        let k = (n - 1) as nat;
        lemma_epow_add(a, m, k);
        ext::emul_associates(ext::epow(a, m), ext::epow(a, k), a);
        assert((m + n - 1) as nat == m + k);
    }
}

/// Squaring `k` times raises to the power `2^k`.
pub proof fn square_power_is_a_power(u: Ext, k: nat)
    requires
        u.ok(),
    ensures
        square_power(u, k) == ext::epow(u, pow2(k)),
    decreases k,
{
    lemma2_to64();
    if k == 0 {
        reveal_with_fuel(ext::epow, 2);
        ext::ext_identities(u);
    } else {
        let j = (k - 1) as nat;
        square_power_is_a_power(u, j);
        lemma_pow2_unfold(k);
        lemma_epow_add(u, pow2(j), pow2(j));
    }
}

/// The product of those coordinates of a point that the bits of `b` select.
pub open spec fn monomial(z: Seq<Ext>, b: nat) -> Ext
    decreases z.len(),
{
    if z.len() == 0 {
        ext::eone()
    } else {
        ext::emul(
            monomial(z.drop_last(), b / 2),
            if b % 2 == 1 {
                z.last()
            } else {
                ext::eone()
            },
        )
    }
}

proof fn lemma_square_power_shift(u: Ext, k: nat)
    ensures
        square_power(u, k + 1) == square_power(ext::emul(u, u), k),
    decreases k,
{
    if k == 0 {
        reveal_with_fuel(square_power, 2);
    } else {
        lemma_square_power_shift(u, (k - 1) as nat);
    }
}

proof fn lemma_epow_square(u: Ext, n: nat)
    ensures
        ext::epow(ext::emul(u, u), n) == ext::epow(u, 2 * n),
    decreases n,
{
    broadcast use ext::group_ok;

    if n > 0 {
        let m = (n - 1) as nat;
        lemma_epow_square(u, m);
        ext::emul_associates(ext::epow(u, 2 * m), u, u);
        assert(ext::epow(u, 2 * m + 1) == ext::emul(ext::epow(u, 2 * m), u));
        assert(ext::epow(u, 2 * n) == ext::emul(ext::epow(u, 2 * m + 1), u));
    }
}

/// At the square-power vector a multilinear monomial is a power of `u`: the
/// expansion turns a multilinear polynomial into a univariate one.
pub proof fn expansion_turns_monomials_into_powers(u: Ext, m: nat, b: nat)
    requires
        u.ok(),
        b < pow2(m),
    ensures
        monomial(expand(u, m), b) == ext::epow(u, b),
    decreases m,
{
    broadcast use ext::group_ok;

    lemma2_to64();
    if m > 0 {
        lemma_pow2_unfold(m);
        let k = (m - 1) as nat;
        let v = ext::emul(u, u);
        let z = expand(u, m);
        assert(z.drop_last() =~= expand(v, k)) by {
            assert forall|i: int| 0 <= i < k implies z.drop_last()[i] == #[trigger] expand(
                v,
                k,
            )[i] by {
                lemma_square_power_shift(u, (k - 1 - i) as nat);
                assert((m - 1 - i) as nat == (k - 1 - i) as nat + 1);
            }
        }
        assert(z.last() == u);
        expansion_turns_monomials_into_powers(v, k, b / 2);
        lemma_epow_square(u, b / 2);
        let h = ext::epow(u, 2 * (b / 2));
        ext::ext_identities(h);
    }
}

// ---------------------------------------------------------------------------
// Batching
// ---------------------------------------------------------------------------

/// `sum_i g^i y_i`.
pub open spec fn power_sum(g: Ext, y: Seq<Ext>) -> Ext
    decreases y.len(),
{
    if y.len() == 0 {
        ext::ezero()
    } else {
        ext::eadd(
            power_sum(g, y.drop_last()),
            ext::emul(ext::epow(g, (y.len() - 1) as nat), y.last()),
        )
    }
}

/// `sum_i g^(i+1) y_i`.
pub open spec fn shifted_power_sum(g: Ext, y: Seq<Ext>) -> Ext
    decreases y.len(),
{
    if y.len() == 0 {
        ext::ezero()
    } else {
        ext::eadd(
            shifted_power_sum(g, y.drop_last()),
            ext::emul(ext::epow(g, y.len()), y.last()),
        )
    }
}

/// Horner's rule from the last value down.
pub open spec fn horner(g: Ext, y: Seq<Ext>) -> Ext
    decreases y.len(),
{
    if y.len() == 0 {
        ext::ezero()
    } else {
        ext::eadd(ext::emul(horner(g, y.skip(1)), g), y[0])
    }
}

/// Horner's rule stays canonical.
pub broadcast proof fn lemma_horner_ok(g: Ext, y: Seq<Ext>)
    ensures
        (#[trigger] horner(g, y)).ok(),
{
    broadcast use ext::group_ok;

    ext::lemma_ered(ext::ezero());
}

/// The shifted sum is the plain one times `g`.
proof fn lemma_shifted(g: Ext, y: Seq<Ext>)
    requires
        g.ok(),
    ensures
        shifted_power_sum(g, y) == ext::emul(g, power_sum(g, y)),
    decreases y.len(),
{
    broadcast use ext::group_ok;

    if y.len() == 0 {
        ext::ext_identities(g);
    } else {
        let n = (y.len() - 1) as nat;
        lemma_shifted(g, y.drop_last());
        let t = ext::emul(ext::epow(g, n), y.last());
        ext::emul_distributes(g, power_sum(g, y.drop_last()), t);
        ext::emul_associates(g, ext::epow(g, n), y.last());
        ext::emul_commutes(g, ext::epow(g, n));
    }
}

/// The first term split off a sum.
proof fn lemma_power_sum_front(g: Ext, y: Seq<Ext>)
    requires
        ext::all_ok(y),
        y.len() > 0,
    ensures
        power_sum(g, y) == ext::eadd(shifted_power_sum(g, y.skip(1)), y[0]),
    decreases y.len(),
{
    broadcast use ext::group_ok;

    let r = y.drop_last();
    if r.len() == 0 {
        assert(y.skip(1).len() == 0);
        assert(power_sum(g, r) == ext::ezero());
        ext::ext_identities(y[0]);
    } else {
        lemma_power_sum_front(g, r);
        let n = (y.len() - 1) as nat;
        let a = shifted_power_sum(g, r.skip(1));
        let t = ext::emul(ext::epow(g, n), y.last());
        assert(r.skip(1) =~= y.skip(1).drop_last());
        assert(y.skip(1).last() == y.last());
        assert(shifted_power_sum(g, y.skip(1)) == ext::eadd(a, t));
        ext::eadd_laws(a, y[0], t);
        ext::eadd_laws(y[0], t, a);
        ext::eadd_laws(a, t, y[0]);
    }
}

/// Horner's rule computes the sum of powers.
pub proof fn horner_is_the_power_sum(g: Ext, y: Seq<Ext>)
    requires
        g.ok(),
        ext::all_ok(y),
    ensures
        horner(g, y) == power_sum(g, y),
    decreases y.len(),
{
    broadcast use ext::group_ok;

    if y.len() > 0 {
        horner_is_the_power_sum(g, y.skip(1));
        lemma_power_sum_front(g, y);
        lemma_shifted(g, y.skip(1));
        ext::emul_commutes(g, horner(g, y.skip(1)));
    }
}

/// Answers batched into the next target: `base + sum_i gamma^(i+1) y_i`.
pub open spec fn next_target(base: Ext, gamma: Ext, y: Seq<Ext>) -> Ext {
    ext::eadd(base, shifted_power_sum(gamma, y))
}

/// The next target, by Horner's rule.
pub proof fn horner_reaches_the_next_target(base: Ext, gamma: Ext, y: Seq<Ext>)
    requires
        gamma.ok(),
        ext::all_ok(y),
    ensures
        next_target(base, gamma, y) == ext::eadd(base, ext::emul(gamma, horner(gamma, y))),
{
    horner_is_the_power_sum(gamma, y);
    lemma_shifted(gamma, y);
}

proof fn lemma_replace_answer(g: Ext, y: Seq<Ext>, i: int, z: Ext)
    requires
        0 <= i < y.len(),
    ensures
        shifted_power_sum(g, y.update(i, z)) == ext::eadd(
            shifted_power_sum(g, y),
            ext::emul(ext::epow(g, (i + 1) as nat), ext::esub(z, y[i])),
        ),
    decreases y.len(),
{
    broadcast use ext::group_ok;

    let n = y.len() as int;
    let t = y.update(i, z);
    let d = ext::emul(ext::epow(g, (i + 1) as nat), ext::esub(z, y[i]));
    let front = shifted_power_sum(g, y.drop_last());
    let back = ext::emul(ext::epow(g, y.len()), y.last());
    if i < n - 1 {
        lemma_replace_answer(g, y.drop_last(), i, z);
        assert(t.drop_last() =~= y.drop_last().update(i, z));
        ext::eadd_laws(front, d, back);
        ext::eadd_laws(front, back, d);
        ext::eadd_laws(d, back, front);
    } else {
        let p = ext::epow(g, y.len());
        assert(t.drop_last() =~= y.drop_last());
        ext::emul_distributes(p, z, y[i]);
        ext::esub_then_eadd(ext::emul(p, z), back);
        ext::eadd_laws(front, back, d);
        ext::eadd_laws(back, d, front);
    }
}

/// Every answer reaches the target: changing answer `i` moves the target by
/// `gamma^(i+1)` times the change.
pub proof fn an_answer_moves_the_target_by_its_power(
    base: Ext,
    gamma: Ext,
    y: Seq<Ext>,
    i: int,
    z: Ext,
)
    requires
        0 <= i < y.len(),
    ensures
        next_target(base, gamma, y.update(i, z)) == ext::eadd(
            next_target(base, gamma, y),
            ext::emul(ext::epow(gamma, (i + 1) as nat), ext::esub(z, y[i])),
        ),
{
    lemma_replace_answer(gamma, y, i, z);
    ext::eadd_laws(
        base,
        shifted_power_sum(gamma, y),
        ext::emul(ext::epow(gamma, (i + 1) as nat), ext::esub(z, y[i])),
    );
}

/// Only zero leaves a sum where it was.
proof fn lemma_stays(t: Ext, d: Ext)
    requires
        t.ok(),
        d.ok(),
        ext::eadd(t, d) == t,
    ensures
        d == ext::ezero(),
{
    ext::eadd_laws(t, d, d);
    ext::esub_then_eadd(d, t);
    ext::ext_identities(t);
}

/// A product that changes by a nonzero factor times a change is another product.
proof fn lemma_moves(t: Ext, p: Ext, z: Ext, y: Ext)
    requires
        t.ok(),
        p.ok(),
        z.ok(),
        y.ok(),
        p != ext::ezero(),
        z != y,
    ensures
        ext::eadd(t, ext::emul(p, ext::esub(z, y))) != t,
{
    broadcast use ext::group_ok;

    let e = ext::esub(z, y);
    let d = ext::emul(p, e);
    ext::esub_then_eadd(z, y);
    ext::ext_identities(y);
    assert(e != ext::ezero());
    quartic::extension_has_no_zero_divisors(p, e);
    if ext::eadd(t, d) == t {
        lemma_stays(t, d);
    }
}

/// Every answer reaches the target: with a challenge other than zero, changing an
/// answer changes the target.
pub proof fn every_answer_reaches_the_target(
    base: Ext,
    gamma: Ext,
    y: Seq<Ext>,
    i: int,
    z: Ext,
)
    requires
        gamma.ok(),
        gamma != ext::ezero(),
        ext::all_ok(y),
        0 <= i < y.len(),
        z.ok(),
        z != y[i],
    ensures
        next_target(base, gamma, y.update(i, z)) != next_target(base, gamma, y),
{
    broadcast use ext::group_ok;

    let p = ext::epow(gamma, (i + 1) as nat);
    an_answer_moves_the_target_by_its_power(base, gamma, y, i, z);
    quartic::powers_are_not_zero(gamma, (i + 1) as nat);
    lemma_moves(next_target(base, gamma, y), p, z, y[i]);
}

// ---------------------------------------------------------------------------
// Accumulated constraints
// ---------------------------------------------------------------------------

/// A weighted constraint point.
pub struct Constraint {
    pub weight: Ext,
    pub point: Seq<Ext>,
}

impl Constraint {
    /// Whether weight and coordinates are canonical.
    pub open spec fn ok(self) -> bool {
        self.weight.ok() && ext::all_ok(self.point)
    }
}

/// Whether all constraints are canonical and of arity at most `n`.
pub open spec fn constraints_ok(cs: Seq<Constraint>, n: nat) -> bool {
    forall|i: int|
        0 <= i < cs.len() ==> (#[trigger] cs[i]).ok() && cs[i].point.len() <= n
}

/// The last `n` coordinates of the folding randomness.
pub open spec fn suffix(r: Seq<Ext>, n: nat) -> Seq<Ext> {
    r.skip(r.len() - n)
}

/// `sum_j w_j eq(z_j, r)`, each constraint reading its own suffix of `r`.
pub open spec fn constraint_sum(cs: Seq<Constraint>, r: Seq<Ext>) -> Ext
    decreases cs.len(),
{
    if cs.len() == 0 {
        ext::ezero()
    } else {
        let c = cs.last();
        ext::eadd(
            constraint_sum(cs.drop_last(), r),
            ext::emul(eq_poly(c.point, suffix(r, c.point.len())), c.weight),
        )
    }
}

/// A sum over constraints is canonical.
pub broadcast proof fn lemma_constraint_sum_ok(cs: Seq<Constraint>, r: Seq<Ext>)
    ensures
        (#[trigger] constraint_sum(cs, r)).ok(),
{
    broadcast use ext::group_ok;

    ext::lemma_ered(ext::ezero());
}

/// The constraints with another weight for the `j`-th.
pub open spec fn reweighted(cs: Seq<Constraint>, j: int, w: Ext) -> Seq<Constraint> {
    cs.update(j, Constraint { weight: w, point: cs[j].point })
}

/// Changing the weight of constraint `j` moves the sum by `eq(z_j, r)` times the
/// change.
pub proof fn a_weight_moves_the_sum_by_its_factor(
    cs: Seq<Constraint>,
    r: Seq<Ext>,
    j: int,
    w: Ext,
)
    requires
        0 <= j < cs.len(),
    ensures
        constraint_sum(reweighted(cs, j, w), r) == ext::eadd(
            constraint_sum(cs, r),
            ext::emul(
                eq_poly(cs[j].point, suffix(r, cs[j].point.len())),
                ext::esub(w, cs[j].weight),
            ),
        ),
    decreases cs.len(),
{
    broadcast use ext::group_ok;

    let n = cs.len() as int;
    let t = reweighted(cs, j, w);
    let p = eq_poly(cs[j].point, suffix(r, cs[j].point.len()));
    let d = ext::emul(p, ext::esub(w, cs[j].weight));
    let c = cs.last();
    let front = constraint_sum(cs.drop_last(), r);
    let back = ext::emul(eq_poly(c.point, suffix(r, c.point.len())), c.weight);
    if j < n - 1 {
        a_weight_moves_the_sum_by_its_factor(cs.drop_last(), r, j, w);
        assert(t.drop_last() =~= reweighted(cs.drop_last(), j, w));
        ext::eadd_laws(front, d, back);
        ext::eadd_laws(front, back, d);
        ext::eadd_laws(d, back, front);
    } else {
        assert(t.drop_last() =~= cs.drop_last());
        ext::emul_distributes(p, w, cs[j].weight);
        ext::esub_then_eadd(ext::emul(p, w), back);
        ext::eadd_laws(front, back, d);
        ext::eadd_laws(back, d, front);
    }
}

/// Every constraint whose point is not orthogonal to the randomness reaches the
/// sum: changing its weight changes the sum.
pub proof fn every_weight_reaches_the_sum(cs: Seq<Constraint>, r: Seq<Ext>, j: int, w: Ext)
    requires
        0 <= j < cs.len(),
        cs[j].ok(),
        w.ok(),
        w != cs[j].weight,
        eq_poly(cs[j].point, suffix(r, cs[j].point.len())) != ext::ezero(),
    ensures
        constraint_sum(reweighted(cs, j, w), r) != constraint_sum(cs, r),
{
    lemma_constraint_sum_ok(cs, r);
    lemma_eq_poly_ok(cs[j].point, suffix(r, cs[j].point.len()));
    a_weight_moves_the_sum_by_its_factor(cs, r, j, w);
    lemma_moves(
        constraint_sum(cs, r),
        eq_poly(cs[j].point, suffix(r, cs[j].point.len())),
        w,
        cs[j].weight,
    );
}

/// Constraints of arity at most `n` read the last `n` coordinates and no others.
pub proof fn a_short_constraint_reads_the_end_of_the_randomness(
    cs: Seq<Constraint>,
    r: Seq<Ext>,
    t: Seq<Ext>,
    n: nat,
)
    requires
        constraints_ok(cs, n),
        n <= r.len(),
        n <= t.len(),
        suffix(r, n) == suffix(t, n),
    ensures
        constraint_sum(cs, r) == constraint_sum(cs, t),
    decreases cs.len(),
{
    if cs.len() > 0 {
        let m = cs.last().point.len();
        assert(cs.last() == cs[cs.len() - 1]);
        assert(constraints_ok(cs.drop_last(), n)) by {
            assert forall|i: int| 0 <= i < cs.drop_last().len() implies (
            #[trigger] cs.drop_last()[i]).ok() && cs.drop_last()[i].point.len() <= n by {
                assert(cs.drop_last()[i] == cs[i]);
            }
        }
        a_short_constraint_reads_the_end_of_the_randomness(cs.drop_last(), r, t, n);
        assert(suffix(r, m) =~= suffix(r, n).skip(n - m));
        assert(suffix(t, m) =~= suffix(t, n).skip(n - m));
    }
}

/// A group of constraints batched by powers of one challenge.
pub struct Group {
    pub chi: Ext,
    pub scalars: Seq<Ext>,
    pub arity: nat,
}

impl Group {
    /// Whether challenge and scalars are canonical.
    pub open spec fn ok(self) -> bool {
        self.chi.ok() && ext::all_ok(self.scalars)
    }

    /// `eq` at each scalar's point.
    pub open spec fn values(self, r: Seq<Ext>) -> Seq<Ext> {
        Seq::new(
            self.scalars.len(),
            |j: int| eq_poly(expand(self.scalars[j], self.arity), suffix(r, self.arity)),
        )
    }

    /// `sum_j chi^j eq(expand(u_j), r)`.
    pub open spec fn sum(self, r: Seq<Ext>) -> Ext {
        power_sum(self.chi, self.values(r))
    }
}

/// The sums of all groups.
pub open spec fn group_sum(gs: Seq<Group>, r: Seq<Ext>) -> Ext
    decreases gs.len(),
{
    if gs.len() == 0 {
        ext::ezero()
    } else {
        ext::eadd(group_sum(gs.drop_last(), r), gs.last().sum(r))
    }
}

/// A sum over groups is canonical.
pub proof fn lemma_group_sum_ok(gs: Seq<Group>, r: Seq<Ext>)
    ensures
        group_sum(gs, r).ok(),
{
    broadcast use ext::group_ok;

    ext::lemma_ered(ext::ezero());
}

/// The weighted sum of evaluations at points: `sum_j w_j f(z_j)`.
pub open spec fn closing_sum(s: Seq<Ext>, cs: Seq<Constraint>) -> Ext
    decreases cs.len(),
{
    if cs.len() == 0 {
        ext::ezero()
    } else {
        ext::eadd(
            closing_sum(s, cs.drop_last()),
            ext::emul(multilinear(s, cs.last().point), cs.last().weight),
        )
    }
}

/// The closing sum is canonical.
pub broadcast proof fn lemma_closing_sum_ok(s: Seq<Ext>, cs: Seq<Constraint>)
    ensures
        (#[trigger] closing_sum(s, cs)).ok(),
{
    broadcast use ext::group_ok;

    ext::lemma_ered(ext::ezero());
}

/// Changing the weight of a point moves the closing sum by the value there times
/// the change.
pub proof fn a_weight_moves_the_closing_sum_by_its_value(
    s: Seq<Ext>,
    cs: Seq<Constraint>,
    j: int,
    w: Ext,
)
    requires
        0 <= j < cs.len(),
    ensures
        closing_sum(s, reweighted(cs, j, w)) == ext::eadd(
            closing_sum(s, cs),
            ext::emul(multilinear(s, cs[j].point), ext::esub(w, cs[j].weight)),
        ),
    decreases cs.len(),
{
    broadcast use ext::group_ok;

    let n = cs.len() as int;
    let t = reweighted(cs, j, w);
    let p = multilinear(s, cs[j].point);
    let d = ext::emul(p, ext::esub(w, cs[j].weight));
    let c = cs.last();
    let front = closing_sum(s, cs.drop_last());
    let back = ext::emul(multilinear(s, c.point), c.weight);
    if j < n - 1 {
        a_weight_moves_the_closing_sum_by_its_value(s, cs.drop_last(), j, w);
        assert(t.drop_last() =~= reweighted(cs.drop_last(), j, w));
        ext::eadd_laws(front, d, back);
        ext::eadd_laws(front, back, d);
        ext::eadd_laws(d, back, front);
    } else {
        assert(t.drop_last() =~= cs.drop_last());
        ext::emul_distributes(p, w, cs[j].weight);
        ext::esub_then_eadd(ext::emul(p, w), back);
        ext::eadd_laws(front, back, d);
        ext::eadd_laws(back, d, front);
    }
}

/// Every point where the polynomial is not zero reaches the closing sum: changing
/// its weight changes the sum, so that the closing identity fails.
pub proof fn every_weight_reaches_the_closing_sum(
    s: Seq<Ext>,
    cs: Seq<Constraint>,
    j: int,
    w: Ext,
)
    requires
        0 <= j < cs.len(),
        cs[j].ok(),
        w.ok(),
        w != cs[j].weight,
        ext::all_ok(s),
        s.len() == pow2(cs[j].point.len()),
        multilinear(s, cs[j].point) != ext::ezero(),
    ensures
        closing_sum(s, reweighted(cs, j, w)) != closing_sum(s, cs),
{
    lemma_closing_sum_ok(s, cs);
    lemma_multilinear_ok(s, cs[j].point);
    a_weight_moves_the_closing_sum_by_its_value(s, cs, j, w);
    lemma_moves(closing_sum(s, cs), multilinear(s, cs[j].point), w, cs[j].weight);
}

} // verus!
