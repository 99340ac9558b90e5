//! What the polynomials of the protocol are for: laws that tie the verifier's
//! arithmetic to quadratics, multilinear polynomials and weighted sums.

use crate::arith;
use crate::ext::{self, Ext};
use crate::ext4;
use crate::field;
use crate::laws;
use crate::merkle;
use crate::poseidon2;
use crate::vm::{self, Ctx, Item};
use crate::whir::algebra::{self, Constraint, Group};
use crate::whir::challenger;
use crate::whir::constraint;
use crate::whir::protocol::{self, Config, Position, Proof, Round, RoundProof};
use crate::whir::reference;
use crate::whir::spine;
use crate::whir::sumcheck::{self, Evaluations};
use vstd::arithmetic::power2::*;
use vstd::prelude::*;

verus! {

// ---------------------------------------------------------------------------
// Sums and differences
// ---------------------------------------------------------------------------

/// Reduction can be put off to the end of a sum or a difference.
proof fn lemma_late(a: Ext, b: Ext)
    ensures
        ext::eadd(a, b) == ext::ered(ext::iadd(a, b)),
        ext::eadd(ext::ered(a), b) == ext::ered(ext::iadd(a, b)),
        ext::eadd(a, ext::ered(b)) == ext::ered(ext::iadd(a, b)),
        ext::eadd(ext::ered(a), ext::ered(b)) == ext::ered(ext::iadd(a, b)),
        ext::esub(a, b) == ext::ered(ext::isub(a, b)),
        ext::esub(ext::ered(a), b) == ext::ered(ext::isub(a, b)),
        ext::esub(a, ext::ered(b)) == ext::ered(ext::isub(a, b)),
        ext::esub(ext::ered(a), ext::ered(b)) == ext::ered(ext::isub(a, b)),
{
    ext::lemma_ered_add(a, b);
    ext::lemma_ered_add(a, ext::ered(b));
    ext::lemma_ered_sub(a, b);
    ext::lemma_ered_sub(a, ext::ered(b));
    reveal(ext::eadd);
    reveal(ext::esub);
}

/// `c - cr + (ar + br + cr) + (q - ar)` is `q + br + c`.
proof fn lemma_collect(c: Ext, cr: Ext, ar: Ext, br: Ext, q: Ext)
    ensures
        ext::eadd(
            ext::eadd(ext::esub(c, cr), ext::eadd(ext::eadd(ar, br), cr)),
            ext::esub(q, ar),
        ) == ext::eadd(ext::eadd(q, br), c),
{
    let x = ext::isub(c, cr);
    let y = ext::iadd(ar, br);
    let z = ext::iadd(y, cr);
    let t = ext::isub(q, ar);
    let u = ext::iadd(q, br);
    lemma_late(c, cr);
    lemma_late(ar, br);
    lemma_late(y, cr);
    lemma_late(x, z);
    lemma_late(q, ar);
    lemma_late(ext::iadd(x, z), t);
    lemma_late(q, br);
    lemma_late(u, c);
    assert(ext::iadd(ext::iadd(x, z), t) == ext::iadd(u, c));
}

// ---------------------------------------------------------------------------
// Sumcheck rounds
// ---------------------------------------------------------------------------

/// The quadratic `a x^2 + b x + c` at `x`.
pub open spec fn quadratic(a: Ext, b: Ext, c: Ext, x: Ext) -> Ext {
    ext::eadd(ext::eadd(ext::emul(a, ext::emul(x, x)), ext::emul(b, x)), c)
}

/// Extrapolation recovers every quadratic from its values at zero and one and its
/// leading coefficient.
pub proof fn extrapolation_is_the_quadratic(a: Ext, b: Ext, c: Ext, r: Ext)
    requires
        c.ok(),
    ensures
        algebra::extrapolate(c, ext::eadd(ext::eadd(a, b), c), a, r) == quadratic(a, b, c, r),
{
    broadcast use ext::group_ok;

    let one = ext::eone();
    let ab = ext::eadd(a, b);
    let cr = ext::emul(c, r);
    let ar = ext::emul(a, r);
    let br = ext::emul(b, r);
    let rr = ext::emul(r, r);
    ext::ext_identities(c);
    ext::emul_distributes(c, one, r);
    ext::emul_commutes(ext::eadd(ab, c), r);
    ext::emul_distributes(r, ab, c);
    ext::emul_distributes(r, a, b);
    ext::emul_commutes(r, a);
    ext::emul_commutes(r, b);
    ext::emul_commutes(r, c);
    ext::emul_distributes(r, r, one);
    ext::emul_distributes(a, rr, ext::emul(r, one));
    ext::emul_associates(a, r, one);
    ext::ext_identities(ar);
    lemma_collect(c, cr, ar, br, ext::emul(a, rr));
}

/// `claim` minus its first value, when it is the sum of two.
proof fn lemma_difference(c: Ext, d: Ext)
    requires
        d.ok(),
    ensures
        ext::esub(ext::eadd(c, d), c) == d,
{
    ext::eadd_laws(c, d, d);
    ext::esub_then_eadd(d, c);
}

/// A round is honest to every quadratic: where the claim is `h(0) + h(1)` and the
/// prover sends `h(0)` and the leading coefficient of `h = a x^2 + b x + c`, the
/// new claim is `h(r)`.
pub proof fn an_honest_round_evaluates_its_quadratic(a: Ext, b: Ext, c: Ext, r: Ext)
    requires
        c.ok(),
    ensures
        algebra::next_claim(ext::eadd(c, ext::eadd(ext::eadd(a, b), c)), c, a, r) == quadratic(
            a,
            b,
            c,
            r,
        ),
{
    broadcast use ext::group_ok;

    lemma_difference(c, ext::eadd(ext::eadd(a, b), c));
    extrapolation_is_the_quadratic(a, b, c, r);
}

/// The prover's `h(inf)` enters with `r (r - 1)`: sending `b` in place of `a` moves
/// the new claim by `(b - a) r (r - 1)`.
pub proof fn the_leading_coefficient_moves_the_claim(claim: Ext, c0: Ext, a: Ext, b: Ext, r: Ext)
    ensures
        algebra::next_claim(claim, c0, b, r) == ext::eadd(
            algebra::next_claim(claim, c0, a, r),
            ext::emul(ext::esub(b, a), ext::emul(r, ext::esub(r, ext::eone()))),
        ),
{
    broadcast use ext::group_ok;

    let l = ext::emul(r, ext::esub(r, ext::eone()));
    let x = ext::eadd(
        ext::emul(c0, ext::esub(ext::eone(), r)),
        ext::emul(ext::esub(claim, c0), r),
    );
    let al = ext::emul(a, l);
    let bl = ext::emul(b, l);
    ext::emul_commutes(ext::esub(b, a), l);
    ext::emul_distributes(l, b, a);
    ext::emul_commutes(l, a);
    ext::emul_commutes(l, b);
    ext::esub_then_eadd(bl, al);
    ext::eadd_laws(x, al, ext::esub(bl, al));
    ext::eadd_laws(al, ext::esub(bl, al), x);
}

/// Without a quadratic term a round interpolates a line: the new claim is
/// `h(0) + r (claim - 2 h(0))`.
pub proof fn a_round_without_a_leading_coefficient_is_a_line(claim: Ext, c0: Ext, r: Ext)
    requires
        c0.ok(),
    ensures
        algebra::next_claim(claim, c0, ext::ezero(), r) == ext::eadd(
            c0,
            ext::emul(r, ext::esub(ext::esub(claim, c0), c0)),
        ),
{
    broadcast use ext::group_ok;

    let one = ext::eone();
    let l = ext::emul(r, ext::esub(r, one));
    let d = ext::esub(claim, c0);
    ext::ext_identities(c0);
    ext::ext_identities(l);
    ext::emul_distributes(c0, one, r);
    ext::emul_commutes(c0, r);
    ext::emul_commutes(d, r);
    ext::emul_distributes(r, d, c0);
    let rc = ext::emul(r, c0);
    let rd = ext::emul(r, d);
    let x = ext::eadd(ext::esub(c0, rc), rd);
    ext::ext_identities(x);
    ext::esub_moves(c0, rc, rd);
}

// ---------------------------------------------------------------------------
// Multilinear evaluation
// ---------------------------------------------------------------------------

proof fn lemma_regroup(c: Ext, a: Ext, v: Ext, u: Ext)
    ensures
        ext::esub(ext::eadd(c, v), ext::eadd(a, u)) == ext::esub(
            ext::eadd(ext::esub(c, a), v),
            u,
        ),
{
    let x = ext::iadd(c, v);
    let y = ext::iadd(a, u);
    let z = ext::isub(c, a);
    lemma_late(c, v);
    lemma_late(a, u);
    lemma_late(x, y);
    lemma_late(c, a);
    lemma_late(z, v);
    lemma_late(ext::iadd(z, v), u);
    assert(ext::isub(x, y) == ext::isub(ext::iadd(z, v), u));
}

/// A line between lines, written out.
proof fn lemma_between_lines(a: Ext, b: Ext, c: Ext, d: Ext, x: Ext, y: Ext)
    ensures
        algebra::between(algebra::between(a, b, x), algebra::between(c, d, x), y) == ext::eadd(
            ext::eadd(a, ext::emul(x, ext::esub(b, a))),
            ext::esub(
                ext::eadd(
                    ext::emul(y, ext::esub(c, a)),
                    ext::emul(y, ext::emul(x, ext::esub(d, c))),
                ),
                ext::emul(y, ext::emul(x, ext::esub(b, a))),
            ),
        ),
{
    let u = ext::emul(x, ext::esub(b, a));
    let v = ext::emul(x, ext::esub(d, c));
    let e = ext::eadd(ext::esub(c, a), v);
    lemma_regroup(c, a, v, u);
    ext::emul_distributes(y, e, u);
    ext::emul_distributes(y, ext::esub(c, a), v);
}

/// `(p + v) - (q + u)` for products with a common factor.
proof fn lemma_mixed(a: Ext, b: Ext, c: Ext, d: Ext, x: Ext, y: Ext)
    ensures
        ext::esub(
            ext::eadd(
                ext::emul(y, ext::esub(c, a)),
                ext::emul(y, ext::emul(x, ext::esub(d, c))),
            ),
            ext::emul(y, ext::emul(x, ext::esub(b, a))),
        ) == ext::eadd(
            ext::emul(y, ext::esub(c, a)),
            ext::emul(
                ext::emul(x, y),
                ext::esub(ext::esub(d, c), ext::esub(b, a)),
            ),
        ),
{
    let p = ext::emul(x, y);
    let u = ext::esub(b, a);
    let v = ext::esub(d, c);
    ext::emul_commutes(x, y);
    ext::emul_associates(y, x, v);
    ext::emul_associates(y, x, u);
    ext::emul_distributes(p, v, u);
    lemma_sum_then_difference(
        ext::emul(y, ext::esub(c, a)),
        ext::emul(p, v),
        ext::emul(p, u),
    );
}

proof fn lemma_sum_then_difference(a: Ext, b: Ext, c: Ext)
    ensures
        ext::esub(ext::eadd(a, b), c) == ext::eadd(a, ext::esub(b, c)),
{
    lemma_late(a, b);
    lemma_late(ext::iadd(a, b), c);
    lemma_late(b, c);
    lemma_late(a, ext::isub(b, c));
    assert(ext::isub(ext::iadd(a, b), c) == ext::iadd(a, ext::isub(b, c)));
}

proof fn lemma_cross_differences(a: Ext, b: Ext, c: Ext, d: Ext)
    ensures
        ext::esub(ext::esub(d, c), ext::esub(b, a)) == ext::esub(ext::esub(d, b), ext::esub(c, a)),
{
    lemma_late(d, c);
    lemma_late(b, a);
    lemma_late(d, b);
    lemma_late(c, a);
    lemma_late(ext::isub(d, c), ext::isub(b, a));
    lemma_late(ext::isub(d, b), ext::isub(c, a));
    assert(ext::isub(ext::isub(d, c), ext::isub(b, a)) == ext::isub(
        ext::isub(d, b),
        ext::isub(c, a),
    ));
}

/// Lines between lines do not care which coordinate comes first.
proof fn lemma_between_swaps(a: Ext, b: Ext, c: Ext, d: Ext, x: Ext, y: Ext)
    ensures
        algebra::between(algebra::between(a, b, x), algebra::between(c, d, x), y)
            == algebra::between(algebra::between(a, c, y), algebra::between(b, d, y), x),
{
    lemma_between_lines(a, b, c, d, x, y);
    lemma_between_lines(a, c, b, d, y, x);
    lemma_mixed(a, b, c, d, x, y);
    lemma_mixed(a, c, b, d, y, x);
    lemma_cross_differences(a, b, c, d);
    ext::emul_commutes(x, y);
    let p = ext::emul(x, ext::esub(b, a));
    let q = ext::emul(y, ext::esub(c, a));
    let m = ext::emul(ext::emul(x, y), ext::esub(ext::esub(d, c), ext::esub(b, a)));
    ext::eadd_laws(ext::eadd(a, p), q, m);
    ext::eadd_laws(ext::eadd(a, q), p, m);
    ext::eadd_laws(a, p, q);
    ext::eadd_laws(a, q, p);
    ext::eadd_laws(p, q, a);
}

/// Two sequences blended entry by entry.
spec fn blended(s: Seq<Ext>, t: Seq<Ext>, x: Ext) -> Seq<Ext> {
    Seq::new(s.len(), |j: int| algebra::between(s[j], t[j], x))
}

/// Evaluation respects lines between sequences of evaluations.
proof fn lemma_multilinear_blends(s: Seq<Ext>, t: Seq<Ext>, x: Ext, p: Seq<Ext>)
    requires
        s.len() == pow2(p.len()),
        t.len() == s.len(),
    ensures
        algebra::multilinear(blended(s, t, x), p) == algebra::between(
            algebra::multilinear(s, p),
            algebra::multilinear(t, p),
            x,
        ),
    decreases p.len(),
{
    lemma2_to64();
    if p.len() > 0 {
        lemma_pow2_unfold(p.len());
        let y = p.last();
        let f = algebra::fold(s, y);
        let g = algebra::fold(t, y);
        assert forall|j: int| 0 <= j < f.len() implies #[trigger] algebra::fold(
            blended(s, t, x),
            y,
        )[j] == blended(f, g, x)[j] by {
            lemma_between_swaps(s[2 * j], t[2 * j], s[2 * j + 1], t[2 * j + 1], x, y);
        }
        assert(algebra::fold(blended(s, t, x), y) =~= blended(f, g, x));
        lemma_multilinear_blends(f, g, x, p.drop_last());
    }
}

/// Evaluation is a line in every coordinate: `f(.., x, ..)` is
/// `f(.., 0, ..) + x (f(.., 1, ..) - f(.., 0, ..))`. With its values on the cube
/// this leaves no other function.
pub proof fn multilinear_is_a_line_in_every_coordinate(s: Seq<Ext>, p: Seq<Ext>, i: int)
    requires
        ext::all_ok(s),
        s.len() == pow2(p.len()),
        0 <= i < p.len(),
    ensures
        algebra::multilinear(s, p) == ext::eadd(
            algebra::multilinear(s, p.update(i, ext::ezero())),
            ext::emul(
                p[i],
                ext::esub(
                    algebra::multilinear(s, p.update(i, ext::eone())),
                    algebra::multilinear(s, p.update(i, ext::ezero())),
                ),
            ),
        ),
    decreases p.len(),
{
    lemma_pow2_unfold(p.len());
    let x = p.last();
    let q = p.drop_last();
    let p0 = p.update(i, ext::ezero());
    let p1 = p.update(i, ext::eone());
    if i == p.len() - 1 {
        let f = algebra::fold(s, ext::ezero());
        let g = algebra::fold(s, ext::eone());
        assert(p0.drop_last() =~= q && p0.last() == ext::ezero());
        assert(p1.drop_last() =~= q && p1.last() == ext::eone());
        assert forall|j: int| 0 <= j < f.len() implies #[trigger] algebra::fold(s, x)[j]
            == blended(f, g, x)[j] by {
            algebra::lemma_between_ends(s[2 * j], s[2 * j + 1]);
        }
        assert(algebra::fold(s, x) =~= blended(f, g, x));
        lemma_multilinear_blends(f, g, x, q);
    } else {
        let f = algebra::fold(s, x);
        algebra::lemma_fold_ok(s, x);
        multilinear_is_a_line_in_every_coordinate(f, q, i);
        assert(p0.drop_last() =~= q.update(i, ext::ezero()) && p0.last() == x);
        assert(p1.drop_last() =~= q.update(i, ext::eone()) && p1.last() == x);
    }
}

// ---------------------------------------------------------------------------
// The equality polynomial
// ---------------------------------------------------------------------------

/// `eq` is a product over the coordinates: with none it is one, and each further
/// pair multiplies it by `a x + (1 - a)(1 - x)`.
pub proof fn eq_multiplies_over_coordinates(z: Seq<Ext>, r: Seq<Ext>, a: Ext, x: Ext)
    requires
        z.len() == r.len(),
    ensures
        algebra::eq_poly(Seq::empty(), Seq::empty()) == ext::eone(),
        algebra::eq_poly(z.push(a), r.push(x)) == ext::emul(
            algebra::eq_poly(z, r),
            ext::eadd(
                ext::emul(a, x),
                ext::emul(ext::esub(ext::eone(), a), ext::esub(ext::eone(), x)),
            ),
        ),
{
    broadcast use {ext::group_ok, algebra::lemma_eq_poly_ok};

    let za = Seq::<Ext>::empty().push(a);
    let rx = Seq::<Ext>::empty().push(x);
    algebra::eq_factorises_across_a_split(z, r, za, rx);
    assert(z + za =~= z.push(a));
    assert(r + rx =~= r.push(x));
    assert(za.skip(1).len() == 0);
    assert(algebra::eq_poly(za.skip(1), rx.skip(1)) == ext::eone());
    ext::ext_identities(algebra::eq_factor(a, x));
    algebra::eq_factor_is_symmetric(a, x);
}

/// `eq` does not care which point is which.
pub proof fn eq_is_symmetric(z: Seq<Ext>, r: Seq<Ext>)
    requires
        z.len() == r.len(),
    ensures
        algebra::eq_poly(z, r) == algebra::eq_poly(r, z),
    decreases z.len(),
{
    if z.len() > 0 {
        eq_is_symmetric(z.skip(1), r.skip(1));
        algebra::eq_factor_is_symmetric(z[0], r[0]);
    }
}

/// On the corners of the cube `eq` is equality: one where they agree and zero
/// where they do not.
pub proof fn eq_tells_corners_apart(a: int, b: int, n: nat)
    requires
        0 <= a < pow2(n),
        0 <= b < pow2(n),
    ensures
        algebra::eq_poly(algebra::corner(a, n), algebra::corner(b, n)) == (if a == b {
            ext::eone()
        } else {
            ext::ezero()
        }),
    decreases n,
{
    broadcast use {ext::group_ok, algebra::lemma_eq_poly_ok};

    lemma2_to64();
    if n > 0 {
        lemma_pow2_unfold(n);
        let m = (n - 1) as nat;
        let one = ext::eone();
        let zero = ext::ezero();
        let x = if a % 2 == 1 {
            one
        } else {
            zero
        };
        let y = if b % 2 == 1 {
            one
        } else {
            zero
        };
        eq_tells_corners_apart(a / 2, b / 2, m);
        lemma_corner_len(a / 2, m);
        lemma_corner_len(b / 2, m);
        eq_multiplies_over_coordinates(
            algebra::corner(a / 2, m),
            algebra::corner(b / 2, m),
            x,
            y,
        );
        ext::lemma_ered(one);
        ext::ext_identities(one);
        ext::ext_identities(zero);
    }
}

proof fn lemma_corner_len(b: int, n: nat)
    ensures
        algebra::corner(b, n).len() == n,
    decreases n,
{
    if n > 0 {
        lemma_corner_len(b / 2, (n - 1) as nat);
    }
}

/// The expanded point lists the repeated squares, the highest power first.
pub proof fn expansion_lists_repeated_squares(u: Ext, m: nat, i: int)
    requires
        u.ok(),
        0 <= i < m,
    ensures
        algebra::expand(u, m).len() == m,
        algebra::expand(u, m)[i] == ext::epow(u, pow2((m - 1 - i) as nat)),
        i + 1 < m ==> algebra::expand(u, m)[i] == ext::emul(
            algebra::expand(u, m)[i + 1],
            algebra::expand(u, m)[i + 1],
        ),
        algebra::expand(u, m)[m - 1] == u,
{
    algebra::square_power_is_a_power(u, (m - 1 - i) as nat);
    if i + 1 < m {
        assert((m - 1 - (i + 1)) as nat == ((m - 1 - i) as nat - 1) as nat);
    }
}

// ---------------------------------------------------------------------------
// Weighted sums
// ---------------------------------------------------------------------------

/// Where every weight is zero, so are the accumulated constraint polynomial and the
/// closing sum.
pub proof fn no_weight_no_sum(s: Seq<Ext>, cs: Seq<Constraint>, r: Seq<Ext>)
    requires
        ext::all_ok(s),
        forall|i: int| 0 <= i < cs.len() ==> (#[trigger] cs[i]).weight == ext::ezero(),
        forall|i: int| 0 <= i < cs.len() ==> s.len() == pow2((#[trigger] cs[i]).point.len()),
    ensures
        algebra::constraint_sum(cs, r) == ext::ezero(),
        algebra::closing_sum(s, cs) == ext::ezero(),
    decreases cs.len(),
{
    broadcast use {ext::group_ok, algebra::lemma_eq_poly_ok};

    if cs.len() > 0 {
        let c = cs.last();
        let front = cs.drop_last();
        assert(c == cs[cs.len() - 1]);
        assert forall|i: int| 0 <= i < front.len() implies (#[trigger] front[i]).weight
            == ext::ezero() && s.len() == pow2(front[i].point.len()) by {
            assert(front[i] == cs[i]);
        }
        no_weight_no_sum(s, front, r);
        algebra::lemma_multilinear_ok(s, c.point);
        ext::ext_identities(algebra::eq_poly(c.point, algebra::suffix(r, c.point.len())));
        ext::ext_identities(algebra::multilinear(s, c.point));
        ext::ext_identities(ext::ezero());
    }
}

/// A single constraint contributes its weight times `eq` of its point and the last
/// coordinates of the randomness.
pub proof fn one_constraint_is_its_weighted_eq(c: Constraint, early: Seq<Ext>, late: Seq<Ext>)
    requires
        late.len() == c.point.len(),
    ensures
        algebra::constraint_sum(seq![c], early + late) == ext::emul(
            c.weight,
            algebra::eq_poly(c.point, late),
        ),
{
    broadcast use ext::group_ok;

    let cs = seq![c];
    assert(cs.drop_last().len() == 0);
    assert(algebra::suffix(early + late, c.point.len()) =~= late);
    let x = ext::emul(algebra::eq_poly(c.point, late), c.weight);
    assert(algebra::constraint_sum(cs.drop_last(), early + late) == ext::ezero());
    ext::ext_identities(x);
    ext::emul_commutes(c.weight, algebra::eq_poly(c.point, late));
}

/// A single point contributes its weight times the polynomial's value there.
pub proof fn one_point_is_its_weighted_value(s: Seq<Ext>, c: Constraint)
    ensures
        algebra::closing_sum(s, seq![c]) == ext::emul(
            c.weight,
            algebra::multilinear(s, c.point),
        ),
{
    broadcast use ext::group_ok;

    let cs = seq![c];
    assert(cs.drop_last().len() == 0);
    assert(algebra::closing_sum(s, cs.drop_last()) == ext::ezero());
    ext::ext_identities(ext::emul(algebra::multilinear(s, c.point), c.weight));
    ext::emul_commutes(c.weight, algebra::multilinear(s, c.point));
}

/// Constraints add up: the sums over a list are those over its two parts.
pub proof fn sums_split_over_lists(
    s: Seq<Ext>,
    cs: Seq<Constraint>,
    ds: Seq<Constraint>,
    r: Seq<Ext>,
)
    ensures
        algebra::constraint_sum(cs + ds, r) == ext::eadd(
            algebra::constraint_sum(cs, r),
            algebra::constraint_sum(ds, r),
        ),
        algebra::closing_sum(s, cs + ds) == ext::eadd(
            algebra::closing_sum(s, cs),
            algebra::closing_sum(s, ds),
        ),
    decreases ds.len(),
{
    broadcast use {
        ext::group_ok,
        algebra::lemma_constraint_sum_ok,
        algebra::lemma_closing_sum_ok,
    };

    if ds.len() == 0 {
        assert(cs + ds =~= cs);
        ext::ext_identities(algebra::constraint_sum(cs, r));
        ext::ext_identities(algebra::closing_sum(s, cs));
    } else {
        let c = ds.last();
        sums_split_over_lists(s, cs, ds.drop_last(), r);
        assert((cs + ds).drop_last() =~= cs + ds.drop_last());
        assert((cs + ds).last() == c);
        ext::eadd_laws(
            algebra::constraint_sum(cs, r),
            algebra::constraint_sum(ds.drop_last(), r),
            ext::emul(algebra::eq_poly(c.point, algebra::suffix(r, c.point.len())), c.weight),
        );
        ext::eadd_laws(
            algebra::closing_sum(s, cs),
            algebra::closing_sum(s, ds.drop_last()),
            ext::emul(algebra::multilinear(s, c.point), c.weight),
        );
    }
}

/// `sum_b f(b) W(b)` over the first `k` corners of the cube, `W` the accumulated
/// constraint polynomial.
pub open spec fn cube_sum(s: Seq<Ext>, cs: Seq<Constraint>, n: nat, k: nat) -> Ext
    decreases k,
{
    if k == 0 {
        ext::ezero()
    } else {
        ext::eadd(
            cube_sum(s, cs, n, (k - 1) as nat),
            ext::emul(s[k - 1], algebra::constraint_sum(cs, algebra::corner(k - 1, n))),
        )
    }
}

proof fn lemma_cube_sum_empty(s: Seq<Ext>, n: nat, k: nat)
    requires
        ext::all_ok(s),
        k <= s.len(),
    ensures
        cube_sum(s, Seq::empty(), n, k) == ext::ezero(),
    decreases k,
{
    if k > 0 {
        lemma_cube_sum_empty(s, n, (k - 1) as nat);
        assert(s[k - 1].ok());
        ext::ext_identities(s[k - 1]);
        ext::ext_identities(ext::ezero());
    }
}

/// One more constraint in the sum over the cube.
proof fn lemma_cube_sum_push(s: Seq<Ext>, cs: Seq<Constraint>, c: Constraint, n: nat, k: nat)
    requires
        ext::all_ok(s),
        k <= s.len(),
        c.weight.ok(),
        c.point.len() == n,
    ensures
        cube_sum(s, cs.push(c), n, k) == ext::eadd(
            cube_sum(s, cs, n, k),
            ext::emul(algebra::weighted_by_eq(s, c.point, k), c.weight),
        ),
    decreases k,
{
    broadcast use {ext::group_ok, algebra::lemma_eq_poly_ok, algebra::lemma_constraint_sum_ok};

    if k == 0 {
        ext::ext_identities(c.weight);
        ext::ext_identities(ext::ezero());
    } else {
        let j = (k - 1) as nat;
        lemma_cube_sum_push(s, cs, c, n, j);
        let b = algebra::corner(j as int, n);
        lemma_corner_len(j as int, n);
        assert(cs.push(c).drop_last() =~= cs);
        assert(algebra::suffix(b, n) =~= b);
        eq_is_symmetric(b, c.point);
        let x = s[j as int];
        let e = algebra::eq_poly(b, c.point);
        let w = c.weight;
        let old = algebra::constraint_sum(cs, b);
        assert(algebra::constraint_sum(cs.push(c), b) == ext::eadd(old, ext::emul(e, w)));
        ext::emul_distributes(x, old, ext::emul(e, w));
        ext::emul_associates(x, e, w);
        let a = cube_sum(s, cs, n, j);
        let t = algebra::weighted_by_eq(s, c.point, j);
        let tw = ext::emul(t, w);
        let xo = ext::emul(x, old);
        let xe = ext::emul(x, e);
        let xew = ext::emul(xe, w);
        ext::emul_commutes(ext::eadd(t, xe), w);
        ext::emul_distributes(w, t, xe);
        ext::emul_commutes(w, t);
        ext::emul_commutes(w, xe);
        // (a + tw) + (xo + xew) == (a + xo) + (tw + xew)
        ext::eadd_laws(a, tw, ext::eadd(xo, xew));
        ext::eadd_laws(tw, xo, xew);
        ext::eadd_laws(xo, tw, xew);
        ext::eadd_laws(a, xo, ext::eadd(tw, xew));
    }
}

/// The closing identity is the sumcheck's: the weighted values at the points are
/// what the evaluations sum to against the accumulated constraint polynomial,
/// `sum_b f(b) W(b) = sum_j w_j f(z_j)`.
pub proof fn the_closing_sum_is_the_sum_over_the_cube(s: Seq<Ext>, cs: Seq<Constraint>, n: nat)
    requires
        ext::all_ok(s),
        s.len() == pow2(n),
        forall|i: int| 0 <= i < cs.len() ==> (#[trigger] cs[i]).ok() && cs[i].point.len() == n,
    ensures
        cube_sum(s, cs, n, s.len()) == algebra::closing_sum(s, cs),
    decreases cs.len(),
{
    if cs.len() == 0 {
        lemma_cube_sum_empty(s, n, s.len());
        assert(cs =~= Seq::empty());
    } else {
        let c = cs.last();
        let front = cs.drop_last();
        assert(c == cs[cs.len() - 1]);
        assert forall|i: int| 0 <= i < front.len() implies (#[trigger] front[i]).ok()
            && front[i].point.len() == n by {
            assert(front[i] == cs[i]);
        }
        the_closing_sum_is_the_sum_over_the_cube(s, front, n);
        lemma_cube_sum_push(s, front, c, n, s.len());
        algebra::summing_against_eq_is_evaluation(s, c.point);
        assert(front.push(c) =~= cs);
    }
}

// ---------------------------------------------------------------------------
// Batching
// ---------------------------------------------------------------------------

/// The next target starts from its base, and each further answer adds the next
/// power of the challenge times it, the first one `gamma`.
pub proof fn answers_join_the_target_one_power_at_a_time(
    base: Ext,
    gamma: Ext,
    y: Seq<Ext>,
    z: Ext,
)
    requires
        base.ok(),
    ensures
        algebra::next_target(base, gamma, Seq::empty()) == base,
        algebra::next_target(base, gamma, y.push(z)) == ext::eadd(
            algebra::next_target(base, gamma, y),
            ext::emul(ext::epow(gamma, y.len() + 1), z),
        ),
{
    broadcast use ext::group_ok;

    ext::ext_identities(base);
    assert(y.push(z).drop_last() =~= y);
    ext::eadd_laws(
        base,
        algebra::shifted_power_sum(gamma, y),
        ext::emul(ext::epow(gamma, y.len() + 1), z),
    );
}

/// With every answer zero the next target is the base.
pub proof fn zero_answers_leave_the_base(base: Ext, gamma: Ext, y: Seq<Ext>)
    requires
        base.ok(),
        forall|i: int| 0 <= i < y.len() ==> #[trigger] y[i] == ext::ezero(),
    ensures
        algebra::next_target(base, gamma, y) == base,
    decreases y.len(),
{
    broadcast use ext::group_ok;

    answers_join_the_target_one_power_at_a_time(base, gamma, Seq::empty(), ext::ezero());
    if y.len() == 0 {
        assert(y =~= Seq::empty());
    } else {
        let front = y.drop_last();
        zero_answers_leave_the_base(base, gamma, front);
        assert(front.push(ext::ezero()) =~= y) by {
            assert(y[y.len() - 1] == ext::ezero());
        }
        answers_join_the_target_one_power_at_a_time(base, gamma, front, ext::ezero());
        ext::ext_identities(ext::epow(gamma, front.len() + 1));
        ext::ext_identities(base);
    }
}

/// Powers start at one and multiply by adding exponents.
pub proof fn powers_multiply(g: Ext, m: nat, n: nat)
    requires
        g.ok(),
    ensures
        ext::epow(g, 0) == ext::eone(),
        ext::epow(g, 1) == g,
        ext::epow(g, m + n) == ext::emul(ext::epow(g, m), ext::epow(g, n)),
{
    reveal_with_fuel(ext::epow, 2);
    ext::ext_identities(g);
    algebra::lemma_epow_add(g, m, n);
}

/// A group's scalars as constraints: the points they expand to, weighted by the
/// powers of the group's challenge from the zeroth on.
pub open spec fn as_constraints(g: Group) -> Seq<Constraint> {
    Seq::new(
        g.scalars.len(),
        |j: int|
            Constraint {
                weight: ext::epow(g.chi, j as nat),
                point: algebra::expand(g.scalars[j], g.arity),
            },
    )
}

/// Batching is weighting: a group sums to what its scalars sum to as constraints
/// of their own.
pub proof fn a_group_is_its_weighted_constraints(g: Group, r: Seq<Ext>)
    ensures
        g.sum(r) == algebra::constraint_sum(as_constraints(g), r),
    decreases g.scalars.len(),
{
    let n = g.scalars.len();
    if n == 0 {
        assert(g.values(r).len() == 0);
        assert(as_constraints(g).len() == 0);
    } else {
        let k = (n - 1) as nat;
        let f = Group { scalars: g.scalars.drop_last(), ..g };
        a_group_is_its_weighted_constraints(f, r);
        assert(g.values(r).drop_last() =~= f.values(r));
        assert(as_constraints(g).drop_last() =~= as_constraints(f));
        let c = as_constraints(g).last();
        assert(c.point.len() == g.arity);
        ext::emul_commutes(
            ext::epow(g.chi, k),
            algebra::eq_poly(c.point, algebra::suffix(r, g.arity)),
        );
    }
}

/// Groups add up: no groups sum to zero, one group to its own sum, and a list to
/// the sums of its two parts.
pub proof fn group_sums_split(gs: Seq<Group>, hs: Seq<Group>, g: Group, r: Seq<Ext>)
    ensures
        algebra::group_sum(Seq::empty(), r) == ext::ezero(),
        algebra::group_sum(seq![g], r) == g.sum(r),
        algebra::group_sum(gs + hs, r) == ext::eadd(
            algebra::group_sum(gs, r),
            algebra::group_sum(hs, r),
        ),
    decreases hs.len(),
{
    a_group_is_its_weighted_constraints(g, r);
    algebra::lemma_constraint_sum_ok(as_constraints(g), r);
    ext::ext_identities(g.sum(r));
    assert(seq![g].drop_last() =~= Seq::empty());
    assert(algebra::group_sum(seq![g].drop_last(), r) == ext::ezero());
    if hs.len() == 0 {
        assert(gs + hs =~= gs);
        algebra::lemma_group_sum_ok(gs, r);
        ext::ext_identities(algebra::group_sum(gs, r));
    } else {
        group_sums_split(gs, hs.drop_last(), g, r);
        assert((gs + hs).drop_last() =~= gs + hs.drop_last());
        ext::eadd_laws(
            algebra::group_sum(gs, r),
            algebra::group_sum(hs.drop_last(), r),
            hs.last().sum(r),
        );
    }
}

// ---------------------------------------------------------------------------
// Chains of rounds
// ---------------------------------------------------------------------------

/// No rounds leave the sponge and the claim alone and draw no challenge.
pub proof fn no_rounds_change_nothing(claim: Ext, s: Seq<int>, e: Seq<Evaluations>, r: Seq<Ext>)
    ensures
        sumcheck::chain_state(s, e, 0) == s,
        sumcheck::chain_claim(claim, s, e, 0) == claim,
        sumcheck::chain_challenges(s, e, 0) == Seq::<Ext>::empty(),
        sumcheck::supplied_claim(claim, e, r, 0) == claim,
{
}

/// A round absorbs the coefficients of both evaluations, lowest degree first and
/// `h(0)` first, and its challenge is the first four slots of the sponge after
/// that.
pub proof fn one_round_absorbs_and_draws(claim: Ext, s: Seq<int>, x: Evaluations)
    ensures
        ({
            let t = poseidon2::duplex(
                s,
                seq![
                    x.c0.c0,
                    x.c0.c1,
                    x.c0.c2,
                    x.c0.c3,
                    x.c_inf.c0,
                    x.c_inf.c1,
                    x.c_inf.c2,
                    x.c_inf.c3,
                ],
            );
            let r = Ext { c0: t[0], c1: t[1], c2: t[2], c3: t[3] };
            &&& sumcheck::round_state(s, x.c0, x.c_inf) == t
            &&& sumcheck::round_challenge(s, x.c0, x.c_inf) == r
            &&& sumcheck::round_claim(claim, s, x.c0, x.c_inf) == algebra::next_claim(
                claim,
                x.c0,
                x.c_inf,
                r,
            )
            &&& sumcheck::chain_state(s, seq![x], 1) == t
            &&& sumcheck::chain_challenges(s, seq![x], 1) == seq![r]
            &&& sumcheck::chain_claim(claim, s, seq![x], 1) == algebra::next_claim(
                claim,
                x.c0,
                x.c_inf,
                r,
            )
        }),
{
    assert(sumcheck::sent(x.c0, x.c_inf) =~= seq![
        x.c0.c0,
        x.c0.c1,
        x.c0.c2,
        x.c0.c3,
        x.c_inf.c0,
        x.c_inf.c1,
        x.c_inf.c2,
        x.c_inf.c3,
    ]);
    reveal_with_fuel(sumcheck::chain_state, 2);
    reveal_with_fuel(sumcheck::chain_claim, 2);
    reveal_with_fuel(sumcheck::chain_challenges, 2);
    assert(sumcheck::chain_challenges(s, seq![x], 1) =~= seq![
        sumcheck::round_challenge(s, x.c0, x.c_inf),
    ]);
}

/// A round with its challenge supplied reads that challenge.
pub proof fn one_supplied_round_reads_its_challenge(claim: Ext, x: Evaluations, r: Ext)
    ensures
        sumcheck::supplied_claim(claim, seq![x], seq![r], 1) == algebra::next_claim(
            claim,
            x.c0,
            x.c_inf,
            r,
        ),
{
    reveal_with_fuel(sumcheck::supplied_claim, 2);
}

/// A chain depends on the rounds it runs and on no later ones.
proof fn lemma_chain_prefix(claim: Ext, s: Seq<int>, e: Seq<Evaluations>, f: Seq<Evaluations>, k: nat)
    requires
        k <= e.len(),
    ensures
        sumcheck::chain_state(s, e + f, k) == sumcheck::chain_state(s, e, k),
        sumcheck::chain_claim(claim, s, e + f, k) == sumcheck::chain_claim(claim, s, e, k),
        sumcheck::chain_challenges(s, e + f, k) == sumcheck::chain_challenges(s, e, k),
    decreases k,
{
    if k > 0 {
        lemma_chain_prefix(claim, s, e, f, (k - 1) as nat);
        assert((e + f)[k - 1] == e[k - 1]);
    }
}

proof fn lemma_chain_split(claim: Ext, s: Seq<int>, e: Seq<Evaluations>, f: Seq<Evaluations>, k: nat)
    requires
        k <= f.len(),
    ensures
        ({
            let n = e.len();
            let t = sumcheck::chain_state(s, e, n);
            &&& sumcheck::chain_state(s, e + f, n + k) == sumcheck::chain_state(t, f, k)
            &&& sumcheck::chain_claim(claim, s, e + f, n + k) == sumcheck::chain_claim(
                sumcheck::chain_claim(claim, s, e, n),
                t,
                f,
                k,
            )
            &&& sumcheck::chain_challenges(s, e + f, n + k) == sumcheck::chain_challenges(s, e, n)
                + sumcheck::chain_challenges(t, f, k)
        }),
    decreases k,
{
    let n = e.len();
    let t = sumcheck::chain_state(s, e, n);
    if k == 0 {
        lemma_chain_prefix(claim, s, e, f, n);
        assert(sumcheck::chain_challenges(s, e, n) + Seq::<Ext>::empty()
            =~= sumcheck::chain_challenges(s, e, n));
    } else {
        let j = (k - 1) as nat;
        lemma_chain_split(claim, s, e, f, j);
        assert((e + f)[n + k - 1] == f[k - 1]);
        assert((n + k - 1) as nat == n + j);
        assert(sumcheck::chain_challenges(s, e + f, n + k) =~= sumcheck::chain_challenges(s, e, n)
            + sumcheck::chain_challenges(t, f, k));
    }
}

/// Chains compose: rounds run after others continue from the sponge and the claim
/// those left, and their challenges come after.
pub proof fn chains_compose(claim: Ext, s: Seq<int>, e: Seq<Evaluations>, f: Seq<Evaluations>)
    ensures
        ({
            let t = sumcheck::chain_state(s, e, e.len());
            &&& sumcheck::chain_state(s, e + f, (e + f).len()) == sumcheck::chain_state(
                t,
                f,
                f.len(),
            )
            &&& sumcheck::chain_claim(claim, s, e + f, (e + f).len()) == sumcheck::chain_claim(
                sumcheck::chain_claim(claim, s, e, e.len()),
                t,
                f,
                f.len(),
            )
            &&& sumcheck::chain_challenges(s, e + f, (e + f).len()) == sumcheck::chain_challenges(
                s,
                e,
                e.len(),
            ) + sumcheck::chain_challenges(t, f, f.len())
        }),
{
    lemma_chain_split(claim, s, e, f, f.len());
}

proof fn lemma_supplied_prefix(
    claim: Ext,
    e: Seq<Evaluations>,
    f: Seq<Evaluations>,
    r: Seq<Ext>,
    t: Seq<Ext>,
    k: nat,
)
    requires
        k <= e.len(),
        e.len() == r.len(),
    ensures
        sumcheck::supplied_claim(claim, e + f, r + t, k) == sumcheck::supplied_claim(
            claim,
            e,
            r,
            k,
        ),
    decreases k,
{
    if k > 0 {
        lemma_supplied_prefix(claim, e, f, r, t, (k - 1) as nat);
        assert((e + f)[k - 1] == e[k - 1]);
        assert((r + t)[k - 1] == r[k - 1]);
    }
}

proof fn lemma_supplied_split(
    claim: Ext,
    e: Seq<Evaluations>,
    f: Seq<Evaluations>,
    r: Seq<Ext>,
    t: Seq<Ext>,
    k: nat,
)
    requires
        e.len() == r.len(),
        k <= f.len(),
        k <= t.len(),
    ensures
        sumcheck::supplied_claim(claim, e + f, r + t, e.len() + k) == sumcheck::supplied_claim(
            sumcheck::supplied_claim(claim, e, r, e.len()),
            f,
            t,
            k,
        ),
    decreases k,
{
    if k == 0 {
        lemma_supplied_prefix(claim, e, f, r, t, e.len());
    } else {
        let n = e.len();
        lemma_supplied_split(claim, e, f, r, t, (k - 1) as nat);
        assert((e + f)[n + k - 1] == f[k - 1]);
        assert((r + t)[n + k - 1] == t[k - 1]);
        assert((n + k - 1) as nat == n + (k - 1) as nat);
    }
}

/// Rounds with supplied challenges compose too.
pub proof fn supplied_chains_compose(
    claim: Ext,
    e: Seq<Evaluations>,
    f: Seq<Evaluations>,
    r: Seq<Ext>,
    t: Seq<Ext>,
)
    requires
        e.len() == r.len(),
        f.len() == t.len(),
    ensures
        sumcheck::supplied_claim(claim, e + f, r + t, (e + f).len()) == sumcheck::supplied_claim(
            sumcheck::supplied_claim(claim, e, r, e.len()),
            f,
            t,
            f.len(),
        ),
{
    lemma_supplied_split(claim, e, f, r, t, f.len());
}

proof fn lemma_bound_rounds(claim: Ext, s: Seq<int>, e: Seq<Evaluations>, r: Seq<Ext>, k: nat)
    requires
        k <= e.len(),
        k <= r.len(),
        r.take(k as int) == sumcheck::chain_challenges(s, e, k),
    ensures
        sumcheck::chain_claim(claim, s, e, k) == sumcheck::supplied_claim(claim, e, r, k),
    decreases k,
{
    if k > 0 {
        let j = (k - 1) as nat;
        let t = sumcheck::chain_challenges(s, e, j);
        assert(sumcheck::chain_challenges(s, e, k).drop_last() =~= t);
        assert(r.take(k as int).drop_last() =~= r.take(j as int));
        assert(r.take(k as int).last() == r[k - 1]);
        lemma_bound_rounds(claim, s, e, r, j);
    }
}

/// Binding the challenges to the transcript changes where they come from and
/// nothing else: with the drawn challenges supplied, the claim is the same.
pub proof fn bound_rounds_are_supplied_rounds(claim: Ext, s: Seq<int>, e: Seq<Evaluations>)
    ensures
        sumcheck::chain_claim(claim, s, e, e.len()) == sumcheck::supplied_claim(
            claim,
            e,
            sumcheck::chain_challenges(s, e, e.len()),
            e.len(),
        ),
{
    let r = sumcheck::chain_challenges(s, e, e.len());
    lemma_challenges_len(s, e, e.len());
    assert(r.take(e.len() as int) =~= r);
    lemma_bound_rounds(claim, s, e, r, e.len());
}

proof fn lemma_challenges_len(s: Seq<int>, e: Seq<Evaluations>, k: nat)
    ensures
        sumcheck::chain_challenges(s, e, k).len() == k,
    decreases k,
{
    if k > 0 {
        lemma_challenges_len(s, e, (k - 1) as nat);
    }
}

/// The `j`-th extension challenge of a state reads four consecutive slots, lowest
/// degree first.
pub proof fn challenges_read_consecutive_slots(s: Seq<int>, j: int, i: int)
    requires
        0 <= i < 4,
        0 <= j,
        4 * j + 4 <= s.len(),
    ensures
        challenger::challenge(s, j).coeffs().len() == 4,
        challenger::challenge(s, j).coeffs()[i] == s[4 * j + i],
{
}

// ---------------------------------------------------------------------------
// The transcript
// ---------------------------------------------------------------------------

/// Absorbing moves the sponge and nothing else; elements are absorbed block by
/// block.
pub proof fn absorbing_composes(p: Position, x: Seq<int>, y: Seq<int>)
    requires
        x.len() % 8 == 0,
    ensures
        p.absorb(x).randomness == p.randomness,
        p.absorb(x).claim == p.claim,
        p.absorb(x + y) == p.absorb(x).absorb(y),
        0 < y.len() <= 8 ==> p.absorb(y).state == poseidon2::duplex(p.state, y),
        p.absorb(Seq::empty()) == p,
{
    crate::laws::absorbing_continues(p.state, x, y);
}

/// Sumcheck rounds compose along the transcript: each round draws one more
/// coordinate, and none draw nothing.
pub proof fn folding_composes(p: Position, e: Seq<Evaluations>, f: Seq<Evaluations>, x: Evaluations)
    ensures
        p.fold(Seq::empty()) == p,
        p.fold(e + f) == p.fold(e).fold(f),
        ({
            let r = sumcheck::round_challenge(p.state, x.c0, x.c_inf);
            let q = p.fold(seq![x]);
            &&& q.randomness == p.randomness.push(r)
            &&& q.claim == algebra::next_claim(p.claim, x.c0, x.c_inf, r)
            &&& q.state == sumcheck::round_state(p.state, x.c0, x.c_inf)
        }),
{
    chains_compose(p.claim, p.state, e, f);
    one_round_absorbs_and_draws(p.claim, p.state, x);
    let none = p.fold(Seq::empty());
    assert(none.randomness =~= p.randomness);
    assert(p.fold(e + f).randomness =~= p.fold(e).fold(f).randomness);
    assert(p.fold(seq![x]).randomness =~= p.randomness.push(
        sumcheck::round_challenge(p.state, x.c0, x.c_inf),
    ));
}

proof fn lemma_answers_prefix(p: Position, a: Seq<Ext>, x: Ext, k: nat)
    requires
        k <= a.len(),
    ensures
        p.answers(a.push(x), k) == p.answers(a, k),
    decreases k,
{
    if k > 0 {
        lemma_answers_prefix(p, a, x, (k - 1) as nat);
    }
}

/// A folding round absorbs its commitment, then each answer by itself, then runs
/// its sumcheck: stated by what one more answer and one more sumcheck round do.
pub proof fn a_folding_round_step_by_step(
    p: Position,
    commitment: Seq<int>,
    a: Seq<Ext>,
    x: Ext,
    e: Seq<Evaluations>,
    f: Seq<Evaluations>,
)
    ensures
        ({
            let none = RoundProof { commitment, answers: Seq::empty(), evaluations: Seq::empty() };
            let few = RoundProof { commitment, answers: a, evaluations: Seq::empty() };
            let more = RoundProof { commitment, answers: a.push(x), evaluations: Seq::empty() };
            let short = RoundProof { commitment, answers: a, evaluations: e };
            let long = RoundProof { commitment, answers: a, evaluations: e + f };
            &&& p.round(none) == p.absorb(commitment)
            &&& p.round(more) == p.round(few).absorb(x.coeffs())
            &&& p.round(long) == p.round(short).fold(f)
        }),
{
    let q = p.absorb(commitment);
    let none = Seq::<Ext>::empty();
    let y = Evaluations { c0: x, c_inf: x };
    folding_composes(q.answers(none, 0), e, f, y);
    folding_composes(q.answers(a, a.len()), e, f, y);
    folding_composes(q.answers(a.push(x), a.len() + 1), e, f, y);
    lemma_answers_prefix(q, a, x, a.len());
    assert((a.len() + 1 - 1) as nat == a.len());
}

proof fn lemma_rounds_prefix(p: Position, rs: Seq<RoundProof>, r: RoundProof, k: nat)
    requires
        k <= rs.len(),
    ensures
        p.rounds(rs.push(r), k) == p.rounds(rs, k),
    decreases k,
{
    if k > 0 {
        lemma_rounds_prefix(p, rs, r, (k - 1) as nat);
    }
}

/// The spine runs the initial sumcheck, the folding rounds in order, absorbs the
/// final polynomial and runs the last sumcheck: stated by what the empty proof, one
/// more folding round, the final polynomial and further sumcheck rounds do.
pub proof fn the_spine_step_by_step(
    p: Position,
    initial: Seq<Evaluations>,
    rs: Seq<RoundProof>,
    r: RoundProof,
    poly: Seq<int>,
    e: Seq<Evaluations>,
    f: Seq<Evaluations>,
)
    ensures
        ({
            let none = Seq::<Evaluations>::empty();
            let nothing = Seq::<int>::empty();
            let first = Proof { initial, rounds: Seq::empty(), final_poly: nothing, last: none };
            let some = Proof { initial, rounds: rs, final_poly: nothing, last: none };
            let more = Proof { initial, rounds: rs.push(r), final_poly: nothing, last: none };
            let sent = Proof { initial, rounds: rs, final_poly: poly, last: none };
            let short = Proof { initial, rounds: rs, final_poly: poly, last: e };
            let long = Proof { initial, rounds: rs, final_poly: poly, last: e + f };
            &&& p.end(first) == p.fold(initial)
            &&& p.end(more) == p.end(some).round(r)
            &&& p.end(sent) == p.end(some).absorb(poly)
            &&& p.end(long) == p.end(short).fold(f)
        }),
{
    let q = p.fold(initial);
    let nothing = Seq::<int>::empty();
    let y = Evaluations { c0: ext::ezero(), c_inf: ext::ezero() };
    let q0 = q.rounds(Seq::empty(), 0);
    let q1 = q.rounds(rs, rs.len());
    let q2 = q.rounds(rs.push(r), rs.len() + 1);
    absorbing_composes(q0, nothing, nothing);
    absorbing_composes(q1, nothing, nothing);
    absorbing_composes(q2, nothing, nothing);
    folding_composes(q0, e, f, y);
    folding_composes(q1, e, f, y);
    folding_composes(q2, e, f, y);
    folding_composes(q1.absorb(poly), e, f, y);
    lemma_rounds_prefix(q, rs, r, rs.len());
    assert((rs.len() + 1 - 1) as nat == rs.len());
}

/// The directions of a path spell the index: level `i` goes right where bit `i` of
/// the index is set, and together the levels say the index modulo their number.
pub proof fn directions_spell_the_index(index: int, depth: nat)
    requires
        0 <= index,
    ensures
        protocol::directions(index, depth).len() == depth,
        spelled(protocol::directions(index, depth)) == index % pow2(depth) as int,
    decreases depth,
{
    lemma2_to64();
    let d = protocol::directions(index, depth);
    if depth == 0 {
        assert(index % 1 == 0);
    } else {
        let m = (depth - 1) as nat;
        directions_spell_the_index(index, m);
        assert(d.drop_last() =~= protocol::directions(index, m));
        field::lemma_bit(index, m);
        let b = field::bit(index, m);
        assert(1 * pow2(m) == pow2(m) && 0 * pow2(m) == 0);
    }
}

/// The number that bits spell, least significant first.
pub open spec fn spelled(b: Seq<bool>) -> int
    decreases b.len(),
{
    if b.len() == 0 {
        0
    } else {
        spelled(b.drop_last()) + (if b.last() {
            pow2((b.len() - 1) as nat) as int
        } else {
            0
        })
    }
}

// ---------------------------------------------------------------------------
// The price of a schedule
// ---------------------------------------------------------------------------

/// Two rounds alike but for the number of queries.
pub open spec fn differ_in_queries(a: Round, b: Round) -> bool {
    a.folding_factor == b.folding_factor && a.log_domain_size == b.log_domain_size && a.ood_samples
        == b.ood_samples
}

/// One more query costs the permutations its path holds, one a level, and one more
/// where it starts a new batch of eight indices. A round without queries opens
/// nothing and costs nothing.
pub proof fn a_query_costs_its_path(a: Round, b: Round)
    requires
        a.log_domain_size == b.log_domain_size,
        b.num_queries == a.num_queries + 1,
    ensures
        spine::holds_permutations(
            merkle::merkle_verify_from_altstack_code(a.log_domain_size as nat),
            a.log_domain_size as nat,
        ),
        protocol::query_permutations(b) == protocol::query_permutations(a) + a.log_domain_size + (
        if a.num_queries > 0 && a.num_queries % 8 == 0 {
            1int
        } else {
            0
        }),
        a.num_queries == 0 ==> protocol::query_permutations(a) == 0,
{
    spine::a_path_holds_one_permutation_a_level(a.log_domain_size as nat);
    let (q, d) = (a.num_queries as nat, a.log_domain_size as nat);
    assert((q + 1) * d == q * d + d) by (nonlinear_arith);
    assert(q == 0 ==> q * d == 0) by (nonlinear_arith);
}

/// A folding round with nothing in it absorbs its commitment, one permutation. A
/// sumcheck round adds one, an out-of-domain answer adds one where it starts a new
/// block of eight, and a query what its path costs.
pub proof fn a_folding_round_costs_its_parts(a: Round, b: Round)
    ensures
        a.num_queries == 0 && a.folding_factor == 0 && a.ood_samples == 0
            ==> protocol::round_permutations(a) == 1,
        a.num_queries == b.num_queries && a.log_domain_size == b.log_domain_size && a.ood_samples
            == b.ood_samples && b.folding_factor == a.folding_factor + 1
            ==> protocol::round_permutations(b) == protocol::round_permutations(a) + 1,
        a.num_queries == b.num_queries && a.log_domain_size == b.log_domain_size
            && a.folding_factor == b.folding_factor && b.ood_samples == a.ood_samples + 1
            ==> protocol::round_permutations(b) == protocol::round_permutations(a) + (if a.ood_samples
            % 8 == 0 {
            1int
        } else {
            0
        }),
        differ_in_queries(a, b) && b.num_queries == a.num_queries + 1
            ==> protocol::round_permutations(b) == protocol::round_permutations(a)
            + a.log_domain_size + (if a.num_queries > 0 && a.num_queries % 8 == 0 {
            1int
        } else {
            0
        }),
{
    if b.num_queries == a.num_queries + 1 && a.log_domain_size == b.log_domain_size {
        a_query_costs_its_path(a, b);
    }
    if a.num_queries == 0 {
        let d = a.log_domain_size as nat;
        assert(0 * d == 0);
    }
    let (m, n) = (a.ood_samples as nat, b.ood_samples as nat);
    if n == m + 1 {
        assert(poseidon2::chunk_count(8 + n) == poseidon2::chunk_count(8 + m) + (if m % 8 == 0 {
            1int
        } else {
            0
        }));
    }
}

/// A schedule without sumcheck rounds, folding rounds and queries absorbs its final
/// polynomial, as few blocks of eight as hold an element to a coefficient.
pub proof fn an_empty_schedule_absorbs_its_final_polynomial(cfg: Config)
    requires
        cfg.initial_folding_factor == 0,
        cfg.rounds@.len() == 0,
        cfg.final_round.num_queries == 0,
        cfg.final_sumcheck_rounds == 0,
    ensures
        8 * (protocol::permutations(cfg) - 1) < pow2(cfg.final_poly_vars as nat) <= 8
            * protocol::permutations(cfg),
{
    let d = cfg.final_round.log_domain_size as nat;
    assert(0 * d == 0);
    lemma_pow2_pos(cfg.final_poly_vars as nat);
}

/// Every sumcheck round of a schedule costs one permutation.
pub proof fn a_sumcheck_round_costs_one(a: Config, b: Config)
    requires
        a.rounds@ == b.rounds@,
        a.final_round == b.final_round,
        a.final_poly_vars == b.final_poly_vars,
        b.initial_folding_factor + b.final_sumcheck_rounds == a.initial_folding_factor
            + a.final_sumcheck_rounds + 1,
    ensures
        protocol::permutations(b) == protocol::permutations(a) + 1,
{
}

/// A schedule costs as much more as the folding round it has more, wherever among
/// the rounds that is.
pub proof fn a_schedule_costs_its_folding_rounds(a: Config, b: Config, k: int, r: Round)
    requires
        0 <= k <= a.rounds@.len(),
        b.rounds@ == a.rounds@.insert(k, r),
        a.initial_folding_factor == b.initial_folding_factor,
        a.final_round == b.final_round,
        a.final_sumcheck_rounds == b.final_sumcheck_rounds,
        a.final_poly_vars == b.final_poly_vars,
    ensures
        protocol::permutations(b) == protocol::permutations(a) + protocol::round_permutations(r),
{
    lemma_insert_round(a.rounds@, k, r);
}

proof fn lemma_insert_round(rs: Seq<Round>, k: int, r: Round)
    requires
        0 <= k <= rs.len(),
    ensures
        protocol::rounds_permutations(rs.insert(k, r)) == protocol::rounds_permutations(rs)
            + protocol::round_permutations(r),
    decreases rs.len(),
{
    let t = rs.insert(k, r);
    if k == rs.len() {
        assert(t.drop_last() =~= rs);
        assert(t.last() == r);
    } else {
        lemma_insert_round(rs.drop_last(), k, r);
        assert(t.drop_last() =~= rs.drop_last().insert(k, r));
        assert(t.last() == rs.last());
    }
}

/// One more query in the final round costs what its path costs.
pub proof fn a_schedule_costs_its_final_queries(a: Config, b: Config)
    requires
        a.rounds@ == b.rounds@,
        a.initial_folding_factor == b.initial_folding_factor,
        a.final_sumcheck_rounds == b.final_sumcheck_rounds,
        a.final_poly_vars == b.final_poly_vars,
        a.final_round.log_domain_size == b.final_round.log_domain_size,
        b.final_round.num_queries == a.final_round.num_queries + 1,
    ensures
        protocol::permutations(b) == protocol::permutations(a) + a.final_round.log_domain_size + (
        if a.final_round.num_queries > 0 && a.final_round.num_queries % 8 == 0 {
            1int
        } else {
            0
        }),
{
    a_query_costs_its_path(a.final_round, b.final_round);
}

// ---------------------------------------------------------------------------
// What lies on the altstack
// ---------------------------------------------------------------------------

proof fn lemma_rounds_alt_shift(
    w: Seq<Item>,
    e: Seq<Evaluations>,
    r: Seq<Ext>,
    x: Evaluations,
    y: Ext,
    k: nat,
)
    requires
        e.len() == r.len(),
    ensures
        sumcheck::rounds_alt(w, seq![x] + e, k + 1) == sumcheck::rounds_alt(w, e, k),
        sumcheck::supplied_alt(w, seq![x] + e, seq![y] + r, k + 1) == sumcheck::supplied_alt(
            w,
            e,
            r,
            k,
        ),
    decreases e.len() - k,
{
    if k < e.len() {
        lemma_rounds_alt_shift(w, e, r, x, y, k + 1);
        assert((seq![x] + e)[k as int + 1] == e[k as int]);
        assert((seq![y] + r)[k as int + 1] == r[k as int]);
    }
}

/// The first sumcheck round lies on top of the later ones: its `c0` over its `c_inf`
/// over its challenge where that is supplied, constant coefficients up.
pub proof fn rounds_lie_first_on_top(
    w: Seq<Item>,
    e: Seq<Evaluations>,
    r: Seq<Ext>,
    x: Evaluations,
    y: Ext,
)
    requires
        e.len() == r.len(),
    ensures
        sumcheck::rounds_alt(w, Seq::empty(), 0) == w,
        sumcheck::rounds_alt(w, seq![x] + e, 0) == sumcheck::rounds_alt(w, e, 0) + vm::nums(
            x.c_inf.coeffs(),
        ).reverse() + vm::nums(x.c0.coeffs()).reverse(),
        sumcheck::supplied_alt(w, Seq::empty(), Seq::empty(), 0) == w,
        sumcheck::supplied_alt(w, seq![x] + e, seq![y] + r, 0) == sumcheck::supplied_alt(w, e, r, 0)
            + vm::nums(y.coeffs()).reverse() + vm::nums(x.c_inf.coeffs()).reverse() + vm::nums(
            x.c0.coeffs(),
        ).reverse(),
{
    lemma_rounds_alt_shift(w, e, r, x, y, 0);
    let a = sumcheck::rounds_alt(w, e, 0);
    let b = sumcheck::supplied_alt(w, e, r, 0);
    laws::elements_lie_coefficient_by_coefficient(a, Seq::empty(), x.c_inf);
    laws::elements_lie_coefficient_by_coefficient(ext4::park(a, x.c_inf), Seq::empty(), x.c0);
    laws::elements_lie_coefficient_by_coefficient(b, Seq::empty(), y);
    laws::elements_lie_coefficient_by_coefficient(ext4::park(b, y), Seq::empty(), x.c_inf);
    laws::elements_lie_coefficient_by_coefficient(
        ext4::park(ext4::park(b, y), x.c_inf),
        Seq::empty(),
        x.c0,
    );
}

proof fn lemma_answers_alt_shift(w: Seq<Item>, a: Seq<Ext>, x: Ext, k: nat)
    ensures
        protocol::answers_alt(w, seq![x] + a, k + 1) == protocol::answers_alt(w, a, k),
    decreases a.len() - k,
{
    if k < a.len() {
        lemma_answers_alt_shift(w, a, x, k + 1);
        assert((seq![x] + a)[k as int + 1] == a[k as int]);
    }
}

proof fn lemma_folding_alt_shift(w: Seq<Item>, rs: Seq<RoundProof>, x: RoundProof, k: nat)
    ensures
        protocol::folding_alt(w, seq![x] + rs, k + 1) == protocol::folding_alt(w, rs, k),
    decreases rs.len() - k,
{
    if k < rs.len() {
        lemma_folding_alt_shift(w, rs, x, k + 1);
        assert((seq![x] + rs)[k as int + 1] == rs[k as int]);
    }
}

/// A transcript lies in the order it is consumed: the first element of a message on
/// top, the first answer over the later ones, a round's commitment over its answers
/// over its sumcheck messages, and the first folding round over the later ones.
pub proof fn transcripts_lie_first_on_top(
    w: Seq<Item>,
    x: int,
    xs: Seq<int>,
    a: Ext,
    answers: Seq<Ext>,
    r: RoundProof,
    rs: Seq<RoundProof>,
)
    ensures
        protocol::elements_alt(w, Seq::empty()) == w,
        protocol::elements_alt(w, seq![x] + xs) == protocol::elements_alt(w, xs).push(vm::num(x)),
        protocol::answers_alt(w, Seq::empty(), 0) == w,
        protocol::answers_alt(w, seq![a] + answers, 0) == protocol::elements_alt(
            protocol::answers_alt(w, answers, 0),
            a.coeffs(),
        ),
        protocol::folding_alt(w, Seq::empty(), 0) == w,
        protocol::folding_alt(w, seq![r] + rs, 0) == protocol::elements_alt(
            protocol::answers_alt(
                sumcheck::rounds_alt(protocol::folding_alt(w, rs, 0), r.evaluations, 0),
                r.answers,
                0,
            ),
            r.commitment,
        ),
{
    lemma_answers_alt_shift(w, answers, a, 0);
    lemma_folding_alt_shift(w, rs, r, 0);
    assert(protocol::elements_alt(w, Seq::empty()) =~= w);
    assert(protocol::elements_alt(w, seq![x] + xs) =~= protocol::elements_alt(w, xs).push(
        vm::num(x),
    ));
}

/// A whole proof: the initial sumcheck on top, then the folding rounds, the final
/// polynomial and the final sumcheck. Without folding rounds the initial sumcheck lies
/// on the final polynomial, and one more folding round in front goes between them.
pub proof fn a_proof_lies_first_on_top(w: Seq<Item>, p: Proof, r: RoundProof)
    ensures
        p.rounds.len() == 0 ==> protocol::proof_alt(w, p) == sumcheck::rounds_alt(
            sumcheck::rounds_alt(w, p.last, 0) + vm::nums(p.final_poly).reverse(),
            p.initial,
            0,
        ),
        p.initial.len() == 0 ==> protocol::proof_alt(
            w,
            Proof { rounds: seq![r] + p.rounds, ..p },
        ) == protocol::round_alt(protocol::proof_alt(w, p), r),
{
    let base = protocol::elements_alt(sumcheck::rounds_alt(w, p.last, 0), p.final_poly);
    lemma_folding_alt_shift(base, p.rounds, r, 0);
}

proof fn lemma_constraints_alt_shift(w: Seq<Item>, cs: Seq<Constraint>, x: Constraint, k: int)
    requires
        0 <= k,
    ensures
        constraint::constraints_alt(w, seq![x] + cs, k + 1) == constraint::constraints_alt(
            w,
            cs,
            k,
        ),
    decreases cs.len() - k,
{
    if k < cs.len() {
        lemma_constraints_alt_shift(w, cs, x, k + 1);
        assert((seq![x] + cs)[k + 1] == cs[k]);
    }
}

proof fn lemma_groups_alt_shift(w: Seq<Item>, gs: Seq<Group>, x: Group, k: int)
    requires
        0 <= k,
    ensures
        constraint::groups_alt(w, seq![x] + gs, k + 1) == constraint::groups_alt(w, gs, k),
    decreases gs.len() - k,
{
    if k < gs.len() {
        lemma_groups_alt_shift(w, gs, x, k + 1);
        assert((seq![x] + gs)[k + 1] == gs[k]);
    }
}

/// The first constraint lies on top of the later ones, its coordinates over its
/// weight and the last coordinate up; the first group likewise, its challenge over its
/// scalars and the last scalar up.
pub proof fn constraints_lie_first_on_top(
    w: Seq<Item>,
    cs: Seq<Constraint>,
    gs: Seq<Group>,
    x: Constraint,
    y: Group,
)
    ensures
        constraint::constraints_alt(w, Seq::empty(), 0) == w,
        constraint::constraints_alt(w, seq![x] + cs, 0) == ext4::parks(
            constraint::constraints_alt(w, cs, 0) + vm::nums(x.weight.coeffs()).reverse(),
            x.point,
        ),
        constraint::groups_alt(w, Seq::empty(), 0) == w,
        constraint::groups_alt(w, seq![y] + gs, 0) == ext4::parks(
            constraint::groups_alt(w, gs, 0),
            y.scalars,
        ) + vm::nums(y.chi.coeffs()).reverse(),
{
    lemma_constraints_alt_shift(w, cs, x, 0);
    lemma_groups_alt_shift(w, gs, y, 0);
    laws::elements_lie_coefficient_by_coefficient(
        constraint::constraints_alt(w, cs, 0),
        Seq::empty(),
        x.weight,
    );
    laws::elements_lie_coefficient_by_coefficient(
        ext4::parks(constraint::groups_alt(w, gs, 0), y.scalars),
        Seq::empty(),
        y.chi,
    );
}

/// A position lies with its randomness deepest, the first coordinate first, its claim
/// above, and its sponge on top.
pub proof fn a_position_lies_sponge_on_top(v: Seq<Item>, p: Position, i: int)
    requires
        0 <= i < p.randomness.len(),
    ensures
        p.on(v).len() == v.len() + 4 * p.randomness.len() + 4 + p.state.len(),
        p.on(v).subrange(v.len() + 4 * i, v.len() + 4 * i + 4) == vm::nums(
            p.randomness[i].coeffs(),
        ),
        p.on(v).subrange(
            v.len() + 4 * p.randomness.len() as int,
            v.len() + 4 * p.randomness.len() as int + 4,
        ) == vm::nums(p.claim.coeffs()),
        p.on(v).skip(v.len() + 4 * p.randomness.len() as int + 4) == vm::nums(p.state),
        p.on(v).take(v.len() as int) == v,
{
    lemma_puts_at(v, p.randomness, i);
    let a = ext4::puts(v, p.randomness);
    laws::elements_lie_coefficient_by_coefficient(a, Seq::empty(), p.claim);
    assert(p.on(v) =~= a + vm::nums(p.claim.coeffs()) + vm::nums(p.state));
    assert(p.on(v).subrange(v.len() + 4 * i, v.len() + 4 * i + 4) =~= a.subrange(
        v.len() + 4 * i,
        v.len() + 4 * i + 4,
    ));
    assert(p.on(v).subrange(a.len() as int, a.len() as int + 4) =~= vm::nums(p.claim.coeffs()));
    assert(p.on(v).skip(a.len() as int + 4) =~= vm::nums(p.state));
    assert(p.on(v).take(v.len() as int) =~= a.take(v.len() as int));
}

proof fn lemma_puts_at(v: Seq<Item>, s: Seq<Ext>, i: int)
    requires
        0 <= i < s.len(),
    ensures
        ext4::puts(v, s).len() == v.len() + 4 * s.len(),
        ext4::puts(v, s).take(v.len() as int) == v,
        ext4::puts(v, s).subrange(v.len() + 4 * i, v.len() + 4 * i + 4) == vm::nums(
            s[i].coeffs(),
        ),
    decreases s.len(),
{
    let t = s.drop_last();
    let a = ext4::puts(v, t);
    assert(t.push(s.last()) =~= s);
    laws::elements_lie_coefficient_by_coefficient(v, t, s.last());
    let b = a + vm::nums(s.last().coeffs());
    if t.len() == 0 {
        assert(t =~= Seq::empty());
        assert(a == v);
        assert(b.take(v.len() as int) =~= v);
        assert(b.subrange(v.len() + 4 * i, v.len() + 4 * i + 4) =~= vm::nums(s[i].coeffs()));
    } else {
        let j = if i < t.len() {
            i
        } else {
            0
        };
        lemma_puts_at(v, t, j);
        assert(b.take(v.len() as int) =~= a.take(v.len() as int));
        if i < t.len() {
            assert(b.subrange(v.len() + 4 * i, v.len() + 4 * i + 4) =~= a.subrange(
                v.len() + 4 * i,
                v.len() + 4 * i + 4,
            ));
        } else {
            assert(b.subrange(v.len() + 4 * i, v.len() + 4 * i + 4) =~= vm::nums(s[i].coeffs()));
        }
    }
}

// ---------------------------------------------------------------------------
// Shapes
// ---------------------------------------------------------------------------

/// The arities of groups are those of their constraints, group after group.
pub proof fn group_arities_join(a: Seq<(usize, usize)>, b: Seq<(usize, usize)>, n: usize, m: usize)
    ensures
        constraint::group_arities(Seq::empty()) == Seq::<nat>::empty(),
        constraint::group_arities(seq![(n, m)]) == Seq::new(n as nat, |i: int| m as nat),
        constraint::group_arities(a + b) == constraint::group_arities(a)
            + constraint::group_arities(b),
    decreases b.len(),
{
    reveal_with_fuel(constraint::group_arities, 2);
    let one = seq![(n, m)];
    assert(one.drop_last() =~= Seq::empty());
    assert(one.last() == (n, m));
    assert(constraint::group_arities(one) =~= Seq::new(n as nat, |i: int| m as nat));
    if b.len() == 0 {
        assert(a + b =~= a);
        assert(constraint::group_arities(a) + constraint::group_arities(b)
            =~= constraint::group_arities(a));
    } else {
        group_arities_join(a, b.drop_last(), n, m);
        assert((a + b).drop_last() =~= a + b.drop_last());
        assert((a + b).last() == b.last());
        let u = constraint::uniform(b.last().0 as nat, b.last().1 as nat);
        let (x, y) = (constraint::group_arities(a), constraint::group_arities(b.drop_last()));
        assert((x + y) + u =~= x + (y + u));
    }
}

/// Words stand for what they hold, in order: an element for its four words, a
/// constraint for its weight and its point, a group for its challenge, its scalars
/// and its arity.
pub proof fn words_stand_for_what_they_hold(
    e: Seq<[u32; 4]>,
    s: Seq<([u32; 4], Vec<[u32; 4]>)>,
    g: Seq<([u32; 4], Vec<[u32; 4]>, usize)>,
    i: int,
)
    ensures
        reference::elements(e).len() == e.len(),
        0 <= i < e.len() ==> reference::elements(e)[i].coeffs() == seq![
            e[i]@[0] as int,
            e[i]@[1] as int,
            e[i]@[2] as int,
            e[i]@[3] as int,
        ],
        reference::constraints(s).len() == s.len(),
        0 <= i < s.len() ==> reference::constraints(s)[i].weight .coeffs() == arith::ints(s[i].0@)
            && reference::constraints(s)[i].point == reference::elements(s[i].1@),
        reference::batched(g).len() == g.len(),
        0 <= i < g.len() ==> reference::batched(g)[i].chi .coeffs() == arith::ints(g[i].0@)
            && reference::batched(g)[i].scalars == reference::elements(g[i].1@)
            && reference::batched(g)[i].arity == g[i].2,
{
    if 0 <= i < e.len() {
        assert(reference::elements(e)[i].coeffs() =~= seq![
            e[i]@[0] as int,
            e[i]@[1] as int,
            e[i]@[2] as int,
            e[i]@[3] as int,
        ]);
    }
    if 0 <= i < s.len() {
        assert(reference::constraints(s)[i].weight.coeffs() =~= arith::ints(s[i].0@));
    }
    if 0 <= i < g.len() {
        assert(reference::batched(g)[i].chi.coeffs() =~= arith::ints(g[i].0@));
    }
}

/// The constraints of groups are those of each, group after group.
pub proof fn grouped_constraints_join(
    a: Seq<Vec<([u32; 4], Vec<[u32; 4]>)>>,
    b: Seq<Vec<([u32; 4], Vec<[u32; 4]>)>>,
    g: Vec<([u32; 4], Vec<[u32; 4]>)>,
)
    ensures
        reference::group_constraints(Seq::empty()) == Seq::<Constraint>::empty(),
        reference::group_constraints(seq![g]) == reference::constraints(g@),
        reference::group_constraints(a + b) == reference::group_constraints(a)
            + reference::group_constraints(b),
    decreases b.len(),
{
    reveal_with_fuel(reference::group_constraints, 2);
    let one = seq![g];
    assert(one.drop_last() =~= Seq::empty());
    assert(one.last() == g);
    assert(reference::group_constraints(one) =~= reference::constraints(g@));
    if b.len() == 0 {
        assert(a + b =~= a);
        assert(reference::group_constraints(a) + reference::group_constraints(b)
            =~= reference::group_constraints(a));
    } else {
        grouped_constraints_join(a, b.drop_last(), g);
        assert((a + b).drop_last() =~= a + b.drop_last());
        assert((a + b).last() == b.last());
        let u = reference::constraints(b.last()@);
        let (x, y) = (reference::group_constraints(a), reference::group_constraints(b.drop_last()));
        assert((x + y) + u =~= x + (y + u));
    }
}

/// A proof fits a schedule exactly when its sumchecks are as long as the schedule's,
/// its final polynomial has four elements to a coefficient, each folding round has
/// one answer a sample and one message a variable, and everything is canonical.
pub proof fn what_fits_a_schedule(p: Proof, cfg: Config)
    ensures
        p.fits(cfg) <==> {
            &&& p.initial.len() == cfg.initial_folding_factor
            &&& p.last.len() == cfg.final_sumcheck_rounds
            &&& p.final_poly.len() == 4 * pow2(cfg.final_poly_vars as nat)
            &&& p.rounds.len() == cfg.rounds@.len()
            &&& forall|i: int|
                0 <= i < p.rounds.len() ==> {
                    &&& (#[trigger] p.rounds[i]).answers.len() == cfg.rounds@[i].ood_samples
                    &&& p.rounds[i].evaluations.len() == cfg.rounds@[i].folding_factor
                    &&& poseidon2::is_digest(p.rounds[i].commitment)
                    &&& ext::all_ok(p.rounds[i].answers)
                    &&& forall|j: int|
                        0 <= j < p.rounds[i].evaluations.len() ==> (
                        #[trigger] p.rounds[i].evaluations[j]).c0.ok()
                            && p.rounds[i].evaluations[j].c_inf.ok()
                }
            &&& forall|j: int|
                0 <= j < p.initial.len() ==> (#[trigger] p.initial[j]).c0.ok()
                    && p.initial[j].c_inf.ok()
            &&& forall|j: int|
                0 <= j < p.last.len() ==> (#[trigger] p.last[j]).c0.ok() && p.last[j].c_inf.ok()
            &&& arith::felts(p.final_poly)
        },
{
}

/// Constraints and groups are canonical when their weights, challenges and
/// coordinates are.
pub proof fn canonical_constraints(cs: Seq<Constraint>, g: Group, n: nat, x: Evaluations)
    ensures
        algebra::constraints_ok(cs, n) <==> forall|i: int|
            0 <= i < cs.len() ==> (#[trigger] cs[i]).weight.ok() && ext::all_ok(cs[i].point)
                && cs[i].point.len() <= n,
        g.ok() <==> g.chi.ok() && ext::all_ok(g.scalars),
        x.ok() <==> x.c0.ok() && x.c_inf.ok(),
{
}

/// The spine starts with no randomness drawn, at the claim and the sponge it is given.
pub proof fn the_spine_starts_where_it_is_put(claim: Ext, s: Seq<int>)
    ensures
        protocol::start(claim, s).randomness.len() == 0,
        protocol::start(claim, s).claim == claim,
        protocol::start(claim, s).state == s,
{
}

/// Whether the closing check passes on a claimed value, a weight and an evaluation,
/// above a stack.
pub open spec fn closes(c: Ctx, v: Seq<Item>, w: Seq<Item>, claimed: Ext, a: Ext, b: Ext) -> bool {
    vm::run(
        protocol::final_check_code(),
        vm::at(c, ext4::put(ext4::put(v + vm::nums(claimed.coeffs()), a), b), w),
    ) is Some
}

proof fn lemma_closes(c: Ctx, v: Seq<Item>, w: Seq<Item>, claimed: Ext, a: Ext, b: Ext)
    requires
        c.live(),
        claimed.ok(),
        a.ok(),
        b.ok(),
    ensures
        closes(c, v, w, claimed, a, b) <==> claimed == ext::emul(a, b),
{
    reveal(protocol::final_check_code);
    let p = ext::emul(a, b);
    let x = vm::nums(claimed.coeffs());
    ext4::lemma_mul(c, v + x, w, a, b);
    ext4::lemma_put_nums(v + x, p);
    vm::lemma_require_equal(c, v, w, x, vm::nums(p.coeffs()));
    vm::lemma_run_concat(
        ext4::mul_code(),
        vm::require_equal_code(4),
        vm::at(c, ext4::put(ext4::put(v + x, a), b), w),
    );
    vm::lemma_nums_eq(claimed.coeffs(), p.coeffs());
    if claimed.coeffs() == p.coeffs() {
        assert(ext::ext(claimed.coeffs()) == ext::ext(p.coeffs()));
    }
}

/// An evaluation of one closes on the weight and on nothing else, factors may trade
/// places, and what closes still does with claim and evaluation scaled alike.
pub proof fn closing_claims_scale(
    c: Ctx,
    v: Seq<Item>,
    w: Seq<Item>,
    claimed: Ext,
    a: Ext,
    b: Ext,
    g: Ext,
)
    requires
        c.live(),
        claimed.ok(),
        a.ok(),
        b.ok(),
        g.ok(),
    ensures
        closes(c, v, w, claimed, a, ext::eone()) <==> claimed == a,
        closes(c, v, w, claimed, a, b) <==> closes(c, v, w, claimed, b, a),
        closes(c, v, w, claimed, a, b) ==> closes(
            c,
            v,
            w,
            ext::emul(claimed, g),
            a,
            ext::emul(b, g),
        ),
{
    broadcast use ext::group_ok;

    lemma_closes(c, v, w, claimed, a, ext::eone());
    lemma_closes(c, v, w, claimed, a, b);
    lemma_closes(c, v, w, claimed, b, a);
    lemma_closes(c, v, w, ext::emul(claimed, g), a, ext::emul(b, g));
    ext::ext_identities(a);
    ext::emul_commutes(a, b);
    ext::emul_associates(a, b, g);
}

/// The arities of constraints are the numbers of their coordinates, and uniform ones
/// are all alike.
pub proof fn arities_count_coordinates(cs: Seq<Constraint>, n: nat, arity: nat)
    ensures
        constraint::arities(cs).len() == cs.len(),
        forall|i: int|
            0 <= i < cs.len() ==> #[trigger] constraint::arities(cs)[i] == cs[i].point.len(),
        constraint::arities(cs) == constraint::uniform(n, arity) <==> cs.len() == n && forall|
            i: int,
        |
            0 <= i < cs.len() ==> (#[trigger] cs[i]).point.len() == arity,
{
    let (x, y) = (constraint::arities(cs), constraint::uniform(n, arity));
    if x == y {
        assert(x.len() == y.len());
        assert forall|i: int| 0 <= i < cs.len() implies (#[trigger] cs[i]).point.len() == arity by {
            assert(x[i] == y[i]);
        }
    }
    if cs.len() == n && (forall|i: int| 0 <= i < cs.len() ==> (#[trigger] cs[i]).point.len()
        == arity) {
        assert(x =~= y);
    }
}

/// Groups have a shape exactly when each is canonical and as large and as wide as the
/// shape says.
pub proof fn shapes_count_scalars(gs: Seq<Group>, shape: Seq<(usize, usize)>)
    ensures
        constraint::has_shape(gs, shape) <==> gs.len() == shape.len() && forall|i: int|
            0 <= i < gs.len() ==> (#[trigger] gs[i]).chi.ok() && ext::all_ok(gs[i].scalars)
                && gs[i].scalars.len() == shape[i].0 && gs[i].arity == shape[i].1,
{
    assert(forall|i: int|
        0 <= i < gs.len() ==> (#[trigger] gs[i]).ok() == (gs[i].chi.ok() && ext::all_ok(
            gs[i].scalars,
        )));
}

} // verus!
