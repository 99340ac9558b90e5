//! Batching a round's answers into the next target, in Bitcoin Script.
//!
//! A WHIR round ends by folding its out-of-domain answer and its `t` shift
//! answers into the *next* round's constraint:
//!
//! ```text
//! w'(Z, X) := w(Z, alpha, X) + Z * sum_{i=0}^{t} gamma^(i+1) * eq(z_i, X)
//! sigma'   := h_k(alpha_k)   +     sum_{i=0}^{t} gamma^(i+1) * y_i
//! ```
//!
//! The two halves are not equally hard. `sigma'` is plain extension-field
//! arithmetic on values the verifier already holds, and that is what
//! [`combine_answers`] computes. `w'` is carried *symbolically*: it is never
//! evaluated during a round, and the question is what happens to it at the end.
//!
//! # Two readings of the closing identity
//!
//! One reading folds the weight against the polynomial's evaluations:
//!
//! ```text
//! sum_b f_M(b) * gamma^e * eq(z, b)  =  gamma^e * f_M(z)
//! ```
//!
//! so each accumulated term collapses into an evaluation of `f_M` and no `eq`
//! is ever computed. That is what [`closing_check`] does; see
//! [`algebra::summing_against_eq_is_evaluation`].
//!
//! The other keeps `w` and `f_M` apart and evaluates each at its own point:
//!
//! ```text
//! claimed_eval == evaluation_of_weights * final_value
//! ```
//!
//! which needs an `eq` primitive, [`eq_eval`].
//!
//! # Threading, and why it needs no per-round work
//!
//! The constraints are simply *accumulated*, and at the end each is evaluated
//! against the concatenation of every round's folding randomness:
//!
//! ```text
//! R = alpha^(0) || alpha^(1) || ... || alpha^(final)
//! ```
//!
//! A constraint created at round `i` is over `n_c` variables, and the randomness
//! that binds those variables is everything from round `i` onwards: the **last
//! `n_c` coordinates of `R`**.
//!
//! On a stack this rule costs nothing to implement. Push `R` with `R[0]` deepest
//! and the last `n_c` coordinates are the *topmost* `n_c` elements, so every
//! constraint reads from the top and a longer one simply reaches further down;
//! see [`constraint_eval`].

use crate::ext::{self, Ext};
use crate::ext4;
use crate::script::{Instr, Script};
use crate::vm::{self, Ctx, Item};
use crate::whir::algebra::{self, Constraint, Group};
use crate::whir::multilinear;
use vstd::arithmetic::power2::*;
use vstd::prelude::*;

verus! {

// ---------------------------------------------------------------------------
// Batching answers
// ---------------------------------------------------------------------------

/// One Horner step.
pub open spec fn horner_codes() -> spec_fn(int) -> Seq<Instr> {
    |i: int|
        ext4::copy_code(1) + ext4::mul_code() + ext4::from_altstack_code() + ext4::add_code()
}

/// The code of [`combine_answers`].
#[verifier::opaque]
pub open spec fn combine_answers_code(t: nat) -> Seq<Instr> {
    ext4::from_altstack_code() + vm::flat(t, horner_codes()) + ext4::copy_code(1)
        + ext4::mul_code() + ext4::to_altstack_code() + ext4::drop_n_code(1)
        + ext4::from_altstack_code() + ext4::add_code()
}

proof fn lemma_horner_step(c: Ctx, v: Seq<Item>, w: Seq<Item>, g: Ext, s: Ext, y: Ext)
    requires
        c.live(),
        g.ok(),
        s.ok(),
        y.ok(),
    ensures
        vm::run(
            horner_codes()(0),
            vm::at(c, ext4::puts(v, Seq::<Ext>::empty().push(g).push(s)), ext4::park(w, y)),
        ) == Some(
            vm::at(
                c,
                ext4::puts(v, Seq::<Ext>::empty().push(g).push(ext::eadd(ext::emul(s, g), y))),
                w,
            ),
        ),
{
    broadcast use {ext4::group_run_ext, ext::group_ok};

}

/// What [`combine_answers`] does.
pub proof fn lemma_combine_answers(
    c: Ctx,
    v: Seq<Item>,
    w: Seq<Item>,
    base: Ext,
    gamma: Ext,
    y: Seq<Ext>,
)
    requires
        c.live(),
        base.ok(),
        gamma.ok(),
        ext::all_ok(y),
        y.len() > 0,
    ensures
        vm::run(
            combine_answers_code((y.len() - 1) as nat),
            vm::at(c, ext4::put(ext4::put(v, base), gamma), ext4::parks(w, y)),
        ) == Some(vm::at(c, ext4::put(v, algebra::next_target(base, gamma, y)), w)),
{
    reveal(combine_answers_code);
    let t = (y.len() - 1) as nat;
    let v1 = ext4::put(v, base);
    let e = Seq::<Ext>::empty();
    let value = |i: int| algebra::horner(gamma, y.skip(t - i));
    let f = horner_codes();
    let st = |i: int|
        vm::at(c, ext4::puts(v1, e.push(gamma).push(value(i))), ext4::parks(w, y.take(t - i)));
    assert forall|i: int| 0 <= i < t implies #[trigger] vm::run(f(i), st(i)) == Some(st(i + 1)) by {
        let j = t - 1 - i;
        assert(y.take(t - i) =~= y.take(j).push(y[j]));
        ext4::lemma_parks_push(w, y.take(j), y[j]);
        algebra::lemma_horner_ok(gamma, y.skip(t - i));
        assert(y[j].ok());
        lemma_horner_step(c, v1, ext4::parks(w, y.take(j)), gamma, value(i), y[j]);
        assert(y.skip(j).skip(1) =~= y.skip(j + 1));
        assert(f(i) == f(0));
    }
    vm::lemma_run_flat(t, f, st);
    // S starts as y_t.
    let last = y[t as int];
    assert(last.ok());
    assert(y =~= y.take(t as int).push(last));
    ext4::lemma_parks_push(w, y.take(t as int), last);
    assert(ext4::puts(v1, e.push(gamma)) == ext4::put(v1, gamma)) by {
        ext4::lemma_puts_push(v1, e, gamma);
    }
    ext4::run_from_altstack(c, v1, ext4::parks(w, y.take(t as int)), e.push(gamma), last);
    assert(value(0) == last) by {
        let one = y.skip(t as int);
        assert(one.len() == 1 && one[0] == last);
        assert(algebra::horner(gamma, one.skip(1)) == ext::ezero());
        ext::ext_identities(gamma);
        ext::ext_identities(last);
    }
    // sigma' := base + gamma * S
    let s = algebra::horner(gamma, y);
    assert(y.skip(0) =~= y);
    assert(y.take(0) =~= e);
    algebra::lemma_horner_ok(gamma, y);
    algebra::horner_reaches_the_next_target(base, gamma, y);
    ext::emul_commutes(s, gamma);
    let two = e.push(gamma).push(s);
    ext4::run_copy(c, v1, w, two, 1);
    ext4::run_mul(c, v1, w, two.push(gamma));
    let p = ext::emul(s, gamma);
    vm::lemma_push_drop_last(two, gamma);
    vm::lemma_push_drop_last(e.push(gamma), s);
    ext4::run_to_altstack(c, v1, w, e.push(gamma).push(p));
    vm::lemma_push_drop_last(e.push(gamma), p);
    ext4::lemma_drop_n(c, v1, ext4::park(w, p), e.push(gamma));
    ext4::lemma_from_altstack(c, v1, w, p);
    ext::lemma_emul_ok(s, gamma);
    ext4::lemma_add(c, v, w, base, p);
    broadcast use vm::lemma_run_concat;

}

/// `sigma' = base + sum_{i=0}^{t} gamma^(i+1) * y_i`, over the extension.
///
/// # Horner, not powers
///
/// Forming `gamma, gamma^2, ..., gamma^(t+1)` and then taking the inner product
/// costs `2t` multiplications. Horner from the top costs `t + 1`:
///
/// ```text
/// S := y_t;  S := S*gamma + y_i  for i = t-1 .. 0;  sigma' := base + gamma*S
/// ```
///
/// which expands to `sum_i gamma^(i+1) y_i` because the outer `gamma` shifts
/// every exponent up by one.
///
/// # Stack
///
/// In: `base(4) gamma(4)`, with the answers on the altstack, `y_t` on top
/// (Horner consumes them highest index first).
/// Out: `sigma'(4)`.
///
/// # Cost
///
/// `t + 1` extension multiplications and `t + 1` additions, and no permutation
/// at all.
pub fn combine_answers(t: usize) -> (r: Script)
    ensures
        r.code() == combine_answers_code(t as nat),
        forall|base: Ext, gamma: Ext, y: Seq<Ext>, c: Ctx, v: Seq<Item>, w: Seq<Item>|
            base.ok() && gamma.ok() && ext::all_ok(y) && y.len() == t + 1 && c.live()
                ==> #[trigger] vm::run(
                r.code(),
                vm::at(c, ext4::put(ext4::put(v, base), gamma), ext4::parks(w, y)),
            ) == Some(vm::at(c, ext4::put(v, algebra::next_target(base, gamma, y)), w)),
{
    proof {
        assert forall|base: Ext, gamma: Ext, y: Seq<Ext>, c: Ctx, v: Seq<Item>, w: Seq<Item>|
            base.ok() && gamma.ok() && ext::all_ok(y) && y.len() == t + 1
                && c.live() implies #[trigger] vm::run(
            combine_answers_code(t as nat),
            vm::at(c, ext4::put(ext4::put(v, base), gamma), ext4::parks(w, y)),
        ) == Some(vm::at(c, ext4::put(v, algebra::next_target(base, gamma, y)), w)) by {
            lemma_combine_answers(c, v, w, base, gamma, y);
        }
        reveal(combine_answers_code);
    }
    let mul = crate::ext4::mul();
    let add = crate::ext4::add();
    let mut body = Script::new();
    let mut i: usize = 0;
    while i < t
        invariant
            i <= t,
            mul.code() == ext4::mul_code(),
            add.code() == ext4::add_code(),
            body.code() == vm::flat(i as nat, horner_codes()),
        decreases t - i,
    {
        // S := S * gamma + y_i; gamma sits directly under S.
        body = body.then_script(
            ext4::copy(1).with(&mul).then_script(ext4::from_altstack()).with(&add),
        );
        i = i + 1;
    }
    // sigma' := base + gamma * S; drop gamma from under the product, then add
    // the base.
    ext4::from_altstack().then_script(body).then_script(ext4::copy(1)).with(&mul).then_script(
        ext4::to_altstack(),
    ).then_script(ext4::drop_n(1)).then_script(ext4::from_altstack()).with(&add)
}

// ---------------------------------------------------------------------------
// The equality polynomial
// ---------------------------------------------------------------------------

/// The code of `1 + 2 z r - z - r`, built above its two operands.
#[verifier::opaque]
pub open spec fn factor_value_code() -> Seq<Instr> {
    ext4::copy_code(1) + ext4::copy_code(1) + ext4::mul_code() + ext4::copy_code(0)
        + ext4::add_code() + ext4::copy_code(2) + ext4::sub_code() + ext4::copy_code(1)
        + ext4::sub_code() + ext4::push_one_code() + ext4::add_code()
}

/// The code that multiplies one factor into the accumulator, with the
/// challenge's coordinate at depth `d`.
#[verifier::opaque]
pub open spec fn factor_code(d: int) -> Seq<Instr> {
    ext4::from_altstack_code() + ext4::copy_code(d) + factor_value_code()
        + ext4::to_altstack_code() + ext4::drop_n_code(2) + ext4::from_altstack_code()
        + ext4::mul_code()
}

/// The code of each factor.
pub open spec fn factor_codes(under: int) -> spec_fn(int) -> Seq<Instr> {
    |j: int| factor_code(under + j + 2)
}

/// The code of [`eq_eval_at`].
#[verifier::opaque]
pub open spec fn eq_eval_at_code(n: nat, under: int) -> Seq<Instr> {
    ext4::push_one_code() + vm::flat(n, factor_codes(under))
}

proof fn lemma_factor_value(c: Ctx, v: Seq<Item>, w: Seq<Item>, s: Seq<Ext>, z: Ext, x: Ext)
    requires
        c.live(),
        z.ok(),
        x.ok(),
    ensures
        vm::run(factor_value_code(), vm::at(c, ext4::puts(v, s.push(z).push(x)), w)) == Some(
            vm::at(c, ext4::puts(v, s.push(z).push(x).push(algebra::eq_factor(z, x))), w),
        ),
{
    reveal(factor_value_code);
    ext::ext_identities(z);
    broadcast use {ext4::group_run_ext, ext::group_ok};

}

proof fn lemma_factor(c: Ctx, v: Seq<Item>, w: Seq<Item>, s: Seq<Ext>, acc: Ext, z: Ext, d: int)
    requires
        c.live(),
        acc.ok(),
        z.ok(),
        2 <= d <= s.len() + 1,
        s[s.len() + 1 - d].ok(),
        4 * d + 3 < 0x80000000,
    ensures
        vm::run(factor_code(d), vm::at(c, ext4::puts(v, s.push(acc)), ext4::park(w, z))) == Some(
            vm::at(
                c,
                ext4::puts(
                    v,
                    s.push(ext::emul(acc, algebra::eq_factor(z, s[s.len() + 1 - d]))),
                ),
                w,
            ),
        ),
{
    reveal(factor_code);
    let x = s[s.len() + 1 - d];
    let t = s.push(acc);
    let fz = algebra::eq_factor(z, x);
    broadcast use ext::group_ok;

    ext4::run_from_altstack(c, v, w, t, z);
    ext4::run_copy(c, v, w, t.push(z), d);
    assert(t.push(z)[t.push(z).len() - 1 - d] == x);
    lemma_factor_value(c, v, w, t, z, x);
    let full = t.push(z).push(x);
    ext4::run_to_altstack(c, v, w, full.push(fz));
    vm::lemma_push_drop_last(full, fz);
    ext4::lemma_drop_top(c, v, ext4::park(w, fz), full, 2);
    assert(full.take(full.len() - 2) =~= t);
    ext4::run_from_altstack(c, v, w, t, fz);
    ext4::run_mul(c, v, w, t.push(fz));
    vm::lemma_push_drop_last(t, fz);
    vm::lemma_push_drop_last(s, acc);
    broadcast use vm::lemma_run_concat;

}

/// What [`eq_eval_at`] does, with `x` above the challenge `r`.
pub proof fn lemma_eq_eval_at(
    c: Ctx,
    v: Seq<Item>,
    w: Seq<Item>,
    r: Seq<Ext>,
    x: Seq<Ext>,
    z: Seq<Ext>,
)
    requires
        c.live(),
        ext::all_ok(r),
        ext::all_ok(z),
        z.len() == r.len(),
        4 * (r.len() + x.len() + 2) < 0x80000000,
    ensures
        vm::run(
            eq_eval_at_code(z.len(), x.len() as int),
            vm::at(c, ext4::puts(v, r + x), ext4::parks(w, z)),
        ) == Some(vm::at(c, ext4::puts(v, (r + x).push(algebra::eq_poly(z, r))), w)),
{
    reveal(eq_eval_at_code);
    let n = z.len() as int;
    let under = x.len() as int;
    let s = r + x;
    let f = factor_codes(under);
    let value = |j: int| algebra::eq_poly(z.skip(n - j), r.skip(n - j));
    let st = |j: int|
        vm::at(c, ext4::puts(v, s.push(value(j))), ext4::parks(w, z.take(n - j)));
    assert forall|j: int| 0 <= j < n implies #[trigger] vm::run(f(j), st(j)) == Some(st(j + 1)) by {
        let i = n - 1 - j;
        let d = under + j + 2;
        assert(z.take(n - j) =~= z.take(i).push(z[i]));
        ext4::lemma_parks_push(w, z.take(i), z[i]);
        assert(s[s.len() + 1 - d] == r[i]);
        assert(z[i].ok() && r[i].ok());
        algebra::lemma_eq_poly_ok(z.skip(n - j), r.skip(n - j));
        lemma_factor(c, v, ext4::parks(w, z.take(i)), s, value(j), z[i], d);
        assert(z.skip(i).skip(1) =~= z.skip(n - j));
        assert(r.skip(i).skip(1) =~= r.skip(n - j));
    }
    vm::lemma_run_flat(z.len(), f, st);
    assert(z.skip(0) =~= z && r.skip(0) =~= r);
    assert(z.take(0) =~= Seq::<Ext>::empty());
    assert(z.take(n) =~= z);
    ext4::run_push_one(c, v, ext4::parks(w, z), s);
    vm::lemma_run_concat(
        ext4::push_one_code(),
        vm::flat(z.len(), f),
        vm::at(c, ext4::puts(v, s), ext4::parks(w, z)),
    );
}

/// `eq(z, r)` over the extension, with `under` extension elements sitting above
/// `r`.
///
/// # The identity
///
/// The equality polynomial is a product of one factor per coordinate:
///
/// ```text
/// eq(z, r) = prod_i ( z_i * r_i + (1 - z_i) * (1 - r_i) )
///          = prod_i ( 1 + 2*z_i*r_i - z_i - r_i )
/// ```
///
/// The first form is two multiplications per coordinate, the second is one.
///
/// # Stack
///
/// The challenge `r` is the top `n` extension elements *underneath* `under`
/// unrelated ones, `r[0]` deepest of the block. It is **copied, not consumed**,
/// because several constraint groups read overlapping suffixes of the same
/// randomness.
///
/// Altstack: the point `z`, popped `z[n-1]` first.
///
/// Out: the scalar, pushed on top.
///
/// A pick depth is a script number of at most four bytes, which bounds `n` and
/// `under`.
pub fn eq_eval_at(n: usize, under: usize) -> (s: Script)
    requires
        4 * (n + under + 2) < 0x80000000,
    ensures
        s.code() == eq_eval_at_code(n as nat, under as int),
        forall|r: Seq<Ext>, x: Seq<Ext>, z: Seq<Ext>, c: Ctx, v: Seq<Item>, w: Seq<Item>|
            ext::all_ok(r) && ext::all_ok(z) && r.len() == n && z.len() == n && x.len() == under
                && c.live() ==> #[trigger] vm::run(
                s.code(),
                vm::at(c, ext4::puts(v, r + x), ext4::parks(w, z)),
            ) == Some(vm::at(c, ext4::puts(v, (r + x).push(algebra::eq_poly(z, r))), w)),
{
    proof {
        assert forall|r: Seq<Ext>, x: Seq<Ext>, z: Seq<Ext>, c: Ctx, v: Seq<Item>, w: Seq<Item>|
            ext::all_ok(r) && ext::all_ok(z) && r.len() == n && z.len() == n && x.len() == under
                && c.live() implies #[trigger] vm::run(
            eq_eval_at_code(n as nat, under as int),
            vm::at(c, ext4::puts(v, r + x), ext4::parks(w, z)),
        ) == Some(vm::at(c, ext4::puts(v, (r + x).push(algebra::eq_poly(z, r))), w)) by {
            lemma_eq_eval_at(c, v, w, r, x, z);
        }
        reveal(eq_eval_at_code);
        reveal(factor_code);
        reveal(factor_value_code);
    }
    let mul = crate::ext4::mul();
    let add = crate::ext4::add();
    let sub = crate::ext4::sub();
    // 1 + 2*z_i*r_i - z_i - r_i, built above the two operands.
    let value = ext4::copy(1).then_script(ext4::copy(1)).with(&mul).then_script(
        ext4::copy(0),
    ).with(&add).then_script(ext4::copy(2)).with(&sub).then_script(ext4::copy(1)).with(
        &sub,
    ).then_script(ext4::push_one()).with(&add);
    let mut factors = Script::new();
    let mut j: usize = 0;
    while j < n
        invariant
            j <= n,
            4 * (n + under + 2) < 0x80000000,
            mul.code() == ext4::mul_code(),
            value.code() == factor_value_code(),
            factors.code() == vm::flat(j as nat, factor_codes(under as int)),
        decreases n - j,
    {
        proof {
            reveal(factor_code);
        }
        // z_i, then r_i, with the accumulator, z_i and `under` others above it;
        // drop the two operands from under the factor, then fold it in.
        factors = factors.then_script(
            ext4::from_altstack().then_script(ext4::copy(under + j + 2)).with(&value).then_script(
                ext4::to_altstack(),
            ).then_script(ext4::drop_n(2)).then_script(ext4::from_altstack()).with(&mul),
        );
        j = j + 1;
    }
    ext4::push_one().then_script(factors)
}

/// [`eq_eval_at`] with the challenge on top of the stack.
pub fn eq_eval(n: usize) -> (s: Script)
    requires
        4 * (n + 2) < 0x80000000,
    ensures
        s.code() == eq_eval_at_code(n as nat, 0),
        forall|r: Seq<Ext>, z: Seq<Ext>, c: Ctx, v: Seq<Item>, w: Seq<Item>|
            ext::all_ok(r) && ext::all_ok(z) && r.len() == n && z.len() == n && c.live()
                ==> #[trigger] vm::run(
                s.code(),
                vm::at(c, ext4::puts(v, r), ext4::parks(w, z)),
            ) == Some(vm::at(c, ext4::puts(v, r.push(algebra::eq_poly(z, r))), w)),
{
    proof {
        assert forall|r: Seq<Ext>, z: Seq<Ext>, c: Ctx, v: Seq<Item>, w: Seq<Item>|
            ext::all_ok(r) && ext::all_ok(z) && r.len() == n && z.len() == n
                && c.live() implies #[trigger] vm::run(
            eq_eval_at_code(n as nat, 0),
            vm::at(c, ext4::puts(v, r), ext4::parks(w, z)),
        ) == Some(vm::at(c, ext4::puts(v, r.push(algebra::eq_poly(z, r))), w)) by {
            let x = Seq::<Ext>::empty();
            assert(r + x =~= r);
            lemma_eq_eval_at(c, v, w, r, x, z);
        }
    }
    eq_eval_at(n, 0)
}

// ---------------------------------------------------------------------------
// Points from scalars
// ---------------------------------------------------------------------------

/// One squaring.
pub open spec fn squaring_codes() -> spec_fn(int) -> Seq<Instr> {
    |i: int| ext4::copy_code(0) + ext4::copy_code(1) + ext4::mul_code()
}

/// The code of [`expand_univariate`].
#[verifier::opaque]
pub open spec fn expand_univariate_code(m: nat) -> Seq<Instr> {
    vm::flat((m - 1) as nat, squaring_codes()) + vm::flat(m, ext4::park_codes())
}

/// What [`expand_univariate`] does.
pub proof fn lemma_expand_univariate(c: Ctx, v: Seq<Item>, w: Seq<Item>, u: Ext, m: nat)
    requires
        c.live(),
        u.ok(),
        m >= 1,
    ensures
        vm::run(expand_univariate_code(m), vm::at(c, ext4::put(v, u), w)) == Some(
            vm::at(c, v, ext4::parks(w, algebra::expand(u, m))),
        ),
{
    reveal(expand_univariate_code);
    let powers = |k: int| Seq::new(k as nat, |i: int| algebra::square_power(u, i as nat));
    let f = squaring_codes();
    let st = |k: int| vm::at(c, ext4::puts(v, powers(k + 1)), w);
    broadcast use ext::group_ok;

    assert forall|k: int| 0 <= k < m - 1 implies #[trigger] vm::run(f(k), st(k)) == Some(
        st(k + 1),
    ) by {
        let s = powers(k + 1);
        let top = algebra::square_power(u, k as nat);
        assert(s.last() == top);
        ext4::run_copy(c, v, w, s, 0);
        ext4::run_copy(c, v, w, s.push(top), 1);
        algebra::lemma_square_power_ok(u, k as nat);
        ext4::run_mul(c, v, w, s.push(top).push(top));
        vm::lemma_push_drop_last(s.push(top), top);
        vm::lemma_push_drop_last(s, top);
        assert(s.push(ext::emul(top, top)) =~= powers(k + 2));
        broadcast use vm::lemma_run_concat;

    }
    vm::lemma_run_flat((m - 1) as nat, f, st);
    let first = Seq::<Ext>::empty().push(u);
    assert(powers(1) =~= first);
    ext4::lemma_puts_push(v, Seq::<Ext>::empty(), u);
    ext4::lemma_park_block(c, v, w, powers(m as int));
    assert(powers(m as int).reverse() =~= algebra::expand(u, m));
    vm::lemma_run_concat(
        vm::flat((m - 1) as nat, f),
        vm::flat(m, ext4::park_codes()),
        vm::at(c, ext4::put(v, u), w),
    );
}

/// A constraint point from a single field element.
///
/// Out-of-domain samples and shift queries are scalars, but a constraint's point
/// is a vector. The expansion is the square-power vector
///
/// ```text
/// expand(u, m) = [ u^(2^(m-1)), ..., u^4, u^2, u ]
/// ```
///
/// which is the multilinear point whose `eq` picks out the univariate evaluation
/// at `u`.
///
/// # Stack
///
/// In: `u(4)`. Out: nothing on the stack; the `m` coordinates are left on the
/// altstack laid out exactly as [`eq_eval`] consumes them.
///
/// # Why no reordering is needed
///
/// Repeated squaring produces `u` first and `u^(2^(m-1))` last, so the powers
/// land on the stack with `u` deepest. Moving the block to the altstack top
/// first reverses it, which puts `u`, the point's *last* coordinate, on top, and
/// that is the coordinate `eq_eval` pops first.
///
/// # Cost
///
/// `m - 1` extension multiplications and no permutation.
pub fn expand_univariate(m: usize) -> (r: Script)
    requires
        m >= 1,
    ensures
        r.code() == expand_univariate_code(m as nat),
        forall|u: Ext, c: Ctx, v: Seq<Item>, w: Seq<Item>|
            u.ok() && c.live() ==> #[trigger] vm::run(
                r.code(),
                vm::at(c, ext4::put(v, u), w),
            ) == Some(vm::at(c, v, ext4::parks(w, algebra::expand(u, m as nat)))),
{
    proof {
        assert forall|u: Ext, c: Ctx, v: Seq<Item>, w: Seq<Item>|
            u.ok() && c.live() implies #[trigger] vm::run(
            expand_univariate_code(m as nat),
            vm::at(c, ext4::put(v, u), w),
        ) == Some(vm::at(c, v, ext4::parks(w, algebra::expand(u, m as nat)))) by {
            lemma_expand_univariate(c, v, w, u, m as nat);
        }
        reveal(expand_univariate_code);
    }
    // u, u^2, u^4, ... with u deepest.
    let mul = crate::ext4::mul();
    let mut r = Script::new();
    let mut i: usize = 1;
    while i < m
        invariant
            1 <= i <= m,
            mul.code() == ext4::mul_code(),
            r.code() == vm::flat((i - 1) as nat, squaring_codes()),
        decreases m - i,
    {
        r = r.then_script(ext4::copy(0).then_script(ext4::copy(1)).with(&mul));
        i = i + 1;
    }
    r.then_script(ext4::park_block(m))
}

// ---------------------------------------------------------------------------
// Accumulated constraints
// ---------------------------------------------------------------------------

/// The arities of constraints.
pub open spec fn arities(cs: Seq<Constraint>) -> Seq<nat> {
    Seq::new(cs.len(), |i: int| cs[i].point.len())
}

/// `n` times the same arity.
pub open spec fn uniform(n: nat, arity: nat) -> Seq<nat> {
    Seq::new(n, |i: int| arity)
}

/// The arities of groups given as `(constraints, arity)`.
pub open spec fn group_arities(groups: Seq<(usize, usize)>) -> Seq<nat>
    decreases groups.len(),
{
    if groups.len() == 0 {
        Seq::empty()
    } else {
        group_arities(groups.drop_last()) + uniform(
            groups.last().0 as nat,
            groups.last().1 as nat,
        )
    }
}

/// An altstack with the constraints from the `k`-th on laid out above `w`, the
/// `k`-th on top: its weight, then its coordinates.
pub open spec fn constraints_alt(w: Seq<Item>, cs: Seq<Constraint>, k: int) -> Seq<Item>
    decreases cs.len() - k,
{
    if k >= cs.len() {
        w
    } else {
        ext4::parks(ext4::park(constraints_alt(w, cs, k + 1), cs[k].weight), cs[k].point)
    }
}

/// The code that adds one weighted constraint of arity `n` to the accumulator.
#[verifier::opaque]
pub open spec fn point_code(n: nat, under: int) -> Seq<Instr> {
    eq_eval_at_code(n, under) + ext4::from_altstack_code() + ext4::mul_code() + ext4::add_code()
}

/// The code that adds weighted constraints of the given arities.
pub open spec fn points_code(ar: Seq<nat>, under: int) -> Seq<Instr>
    decreases ar.len(),
{
    if ar.len() == 0 {
        vm::nil()
    } else {
        points_code(ar.drop_last(), under) + point_code(ar.last(), under)
    }
}

proof fn lemma_point(
    c: Ctx,
    v: Seq<Item>,
    w: Seq<Item>,
    r: Seq<Ext>,
    x: Seq<Ext>,
    acc: Ext,
    t: Constraint,
)
    requires
        c.live(),
        ext::all_ok(r),
        acc.ok(),
        t.ok(),
        t.point.len() <= r.len(),
        4 * (r.len() + x.len() + 3) < 0x80000000,
    ensures
        vm::run(
            point_code(t.point.len(), x.len() as int + 1),
            vm::at(
                c,
                ext4::puts(v, (r + x).push(acc)),
                ext4::parks(ext4::park(w, t.weight), t.point),
            ),
        ) == Some(
            vm::at(
                c,
                ext4::puts(
                    v,
                    (r + x).push(
                        ext::eadd(
                            acc,
                            ext::emul(
                                algebra::eq_poly(t.point, algebra::suffix(r, t.point.len())),
                                t.weight,
                            ),
                        ),
                    ),
                ),
                w,
            ),
        ),
{
    reveal(point_code);
    let n = t.point.len();
    let low = r.take(r.len() - n);
    let high = algebra::suffix(r, n);
    let above = x.push(acc);
    let base = ext4::puts(v, low);
    let e = algebra::eq_poly(t.point, high);
    let s = (r + x).push(acc);
    assert(s =~= low + (high + above));
    assert(s.push(e) =~= low + (high + above).push(e));
    ext4::lemma_puts_concat(v, low, high + above);
    ext4::lemma_puts_concat(v, low, (high + above).push(e));
    assert(ext::all_ok(high)) by {
        assert forall|i: int| 0 <= i < high.len() implies (#[trigger] high[i]).ok() by {
            assert(high[i] == r[r.len() - n + i]);
        }
    }
    lemma_eq_eval_at(c, base, ext4::park(w, t.weight), high, above, t.point);
    algebra::lemma_eq_poly_ok(t.point, high);
    broadcast use ext::group_ok;

    ext4::run_from_altstack(c, v, w, s.push(e), t.weight);
    ext4::run_mul(c, v, w, s.push(e).push(t.weight));
    vm::lemma_push_drop_last(s.push(e), t.weight);
    vm::lemma_push_drop_last(s, e);
    let m = ext::emul(e, t.weight);
    ext4::run_add(c, v, w, s.push(m));
    vm::lemma_push_drop_last(s, m);
    vm::lemma_push_drop_last(r + x, acc);
    broadcast use vm::lemma_run_concat;

}

/// Adding the first `k` constraints.
proof fn lemma_points(
    c: Ctx,
    v: Seq<Item>,
    w: Seq<Item>,
    r: Seq<Ext>,
    x: Seq<Ext>,
    cs: Seq<Constraint>,
    k: nat,
)
    requires
        c.live(),
        ext::all_ok(r),
        algebra::constraints_ok(cs, r.len()),
        k <= cs.len(),
        4 * (r.len() + x.len() + 3) < 0x80000000,
    ensures
        vm::run(
            points_code(arities(cs.take(k as int)), x.len() as int + 1),
            vm::at(c, ext4::puts(v, (r + x).push(ext::ezero())), constraints_alt(w, cs, 0)),
        ) == Some(
            vm::at(
                c,
                ext4::puts(v, (r + x).push(algebra::constraint_sum(cs.take(k as int), r))),
                constraints_alt(w, cs, k as int),
            ),
        ),
    decreases k,
{
    let start = vm::at(c, ext4::puts(v, (r + x).push(ext::ezero())), constraints_alt(w, cs, 0));
    let now = cs.take(k as int);
    if k == 0 {
        vm::lemma_run_empty(start);
    } else {
        let j = (k - 1) as nat;
        let before = cs.take(j as int);
        lemma_points(c, v, w, r, x, cs, j);
        assert(now.drop_last() =~= before);
        assert(now.last() == cs[j as int]);
        assert(arities(now).drop_last() =~= arities(before));
        assert(arities(now).last() == cs[j as int].point.len());
        assert(cs[j as int].ok());
        algebra::lemma_constraint_sum_ok(before, r);
        lemma_point(
            c,
            v,
            constraints_alt(w, cs, k as int),
            r,
            x,
            algebra::constraint_sum(before, r),
            cs[j as int],
        );
        vm::lemma_run_concat(
            points_code(arities(before), x.len() as int + 1),
            point_code(cs[j as int].point.len(), x.len() as int + 1),
            start,
        );
    }
}

/// One more constraint.
fn add_point(r: Script, n: usize, under: usize, Ghost(ar): Ghost<Seq<nat>>) -> (s: Script)
    requires
        r.code() == points_code(ar, under as int),
        4 * (n + under + 2) < 0x80000000,
    ensures
        s.code() == points_code(ar.push(n as nat), under as int),
{
    proof {
        reveal(point_code);
        vm::lemma_push_drop_last(ar, n as nat);
    }
    r.then_script(
        eq_eval_at(n, under).then_script(ext4::from_altstack()).then_script(
            crate::ext4::mul(),
        ).then_script(crate::ext4::add()),
    )
}

/// The code of [`weights_at`].
#[verifier::opaque]
pub open spec fn weights_at_code(n_points: nat, n_vars: nat) -> Seq<Instr> {
    ext4::push_zero_code() + points_code(uniform(n_points, n_vars), 1)
}

/// What [`weights_at`] does.
pub proof fn lemma_weights_at(
    c: Ctx,
    v: Seq<Item>,
    w: Seq<Item>,
    r: Seq<Ext>,
    cs: Seq<Constraint>,
)
    requires
        c.live(),
        ext::all_ok(r),
        algebra::constraints_ok(cs, r.len()),
        arities(cs) == uniform(cs.len(), r.len()),
        4 * (r.len() + 3) < 0x80000000,
    ensures
        vm::run(
            weights_at_code(cs.len(), r.len()),
            vm::at(c, ext4::puts(v, r), constraints_alt(w, cs, 0)),
        ) == Some(vm::at(c, ext4::puts(v, r.push(algebra::constraint_sum(cs, r))), w)),
{
    reveal(weights_at_code);
    let x = Seq::<Ext>::empty();
    assert(r + x =~= r);
    assert(cs.take(cs.len() as int) =~= cs);
    lemma_points(c, v, w, r, x, cs, cs.len());
    ext4::run_push_zero(c, v, constraints_alt(w, cs, 0), r);
    vm::lemma_run_concat(
        ext4::push_zero_code(),
        points_code(uniform(cs.len(), r.len()), 1),
        vm::at(c, ext4::puts(v, r), constraints_alt(w, cs, 0)),
    );
}

/// `sum_j w_j * eq(z_j, r)` for one group of constraints sharing an arity.
///
/// The weights arrive as values rather than as powers of a batching challenge,
/// so the same routine serves any group whose weights the caller has already
/// formed.
///
/// # Stack
///
/// In: the challenge, its top `n_vars` extension elements being this group's
/// local point. Preserved.
/// Altstack, per constraint in order: the weight `w_j`, then the `n_vars`
/// coordinates of `z_j`; the coordinates pop first and the weight is underneath
/// them.
/// Out: the accumulated scalar, pushed above the challenge.
///
/// # Cost
///
/// `2 * n_vars + 1` extension multiplications per constraint and no permutation.
///
/// A pick depth is a script number of at most four bytes, which bounds `n_vars`.
pub fn weights_at(n_points: usize, n_vars: usize) -> (s: Script)
    requires
        4 * (n_vars + 3) < 0x80000000,
    ensures
        s.code() == weights_at_code(n_points as nat, n_vars as nat),
        forall|r: Seq<Ext>, cs: Seq<Constraint>, c: Ctx, v: Seq<Item>, w: Seq<Item>|
            ext::all_ok(r) && r.len() == n_vars && algebra::constraints_ok(cs, n_vars as nat)
                && arities(cs) == uniform(n_points as nat, n_vars as nat) && c.live()
                ==> #[trigger] vm::run(
                s.code(),
                vm::at(c, ext4::puts(v, r), constraints_alt(w, cs, 0)),
            ) == Some(vm::at(c, ext4::puts(v, r.push(algebra::constraint_sum(cs, r))), w)),
{
    proof {
        assert forall|r: Seq<Ext>, cs: Seq<Constraint>, c: Ctx, v: Seq<Item>, w: Seq<Item>|
            ext::all_ok(r) && r.len() == n_vars && algebra::constraints_ok(cs, n_vars as nat)
                && arities(cs) == uniform(n_points as nat, n_vars as nat)
                && c.live() implies #[trigger] vm::run(
            weights_at_code(n_points as nat, n_vars as nat),
            vm::at(c, ext4::puts(v, r), constraints_alt(w, cs, 0)),
        ) == Some(vm::at(c, ext4::puts(v, r.push(algebra::constraint_sum(cs, r))), w)) by {
            assert(arities(cs).len() == n_points);
            lemma_weights_at(c, v, w, r, cs);
        }
        reveal(weights_at_code);
    }
    let mut points = Script::new();
    let mut i: usize = 0;
    while i < n_points
        invariant
            i <= n_points,
            4 * (n_vars + 3) < 0x80000000,
            points.code() == points_code(uniform(i as nat, n_vars as nat), 1),
        decreases n_points - i,
    {
        proof {
            assert(uniform(i as nat, n_vars as nat).push(n_vars as nat) =~= uniform(
                (i + 1) as nat,
                n_vars as nat,
            ));
        }
        // Only the accumulator is above r.
        points = add_point(points, n_vars, 1, Ghost(uniform(i as nat, n_vars as nat)));
        i = i + 1;
    }
    ext4::push_zero().then_script(points)
}

/// The code of [`constraint_eval_at`].
#[verifier::opaque]
pub open spec fn constraint_eval_at_code(total: nat, ar: Seq<nat>, under: int) -> Seq<Instr> {
    ext4::push_zero_code() + points_code(ar, under + 1) + vm::excise_code(
        4 * total,
        4 * total + 4 * (under + 1) - 1,
    )
}

/// Dropping `r` from under `x`.
proof fn lemma_excise_elements(c: Ctx, v: Seq<Item>, w: Seq<Item>, r: Seq<Ext>, x: Seq<Ext>)
    requires
        c.live(),
        4 * (r.len() + x.len()) < 0x80000000,
    ensures
        vm::run(
            vm::excise_code(4 * r.len(), 4 * r.len() + 4 * x.len() - 1),
            vm::at(c, ext4::puts(v, r + x), w),
        ) == Some(vm::at(c, ext4::puts(v, x), w)),
{
    let a = ext4::puts(Seq::empty(), r);
    let b = ext4::puts(Seq::empty(), x);
    ext4::lemma_puts_len(Seq::empty(), r);
    ext4::lemma_puts_len(Seq::empty(), x);
    ext4::lemma_puts_concat(v, r, x);
    ext4::lemma_puts_block(v, r);
    ext4::lemma_puts_block(ext4::puts(v, r), x);
    ext4::lemma_puts_block(v, x);
    vm::lemma_excise(c, v, w, a, b);
}

/// What [`constraint_eval_at`] does, with `x` above the randomness `r`.
pub proof fn lemma_constraint_eval_at(
    c: Ctx,
    v: Seq<Item>,
    w: Seq<Item>,
    r: Seq<Ext>,
    x: Seq<Ext>,
    cs: Seq<Constraint>,
)
    requires
        c.live(),
        ext::all_ok(r),
        algebra::constraints_ok(cs, r.len()),
        4 * (r.len() + x.len() + 3) < 0x80000000,
    ensures
        vm::run(
            constraint_eval_at_code(r.len(), arities(cs), x.len() as int),
            vm::at(c, ext4::puts(v, r + x), constraints_alt(w, cs, 0)),
        ) == Some(vm::at(c, ext4::puts(v, x.push(algebra::constraint_sum(cs, r))), w)),
{
    reveal(constraint_eval_at_code);
    let sum = algebra::constraint_sum(cs, r);
    assert(cs.take(cs.len() as int) =~= cs);
    lemma_points(c, v, w, r, x, cs, cs.len());
    ext4::run_push_zero(c, v, constraints_alt(w, cs, 0), r + x);
    assert((r + x).push(sum) =~= r + x.push(sum));
    lemma_excise_elements(c, v, w, r, x.push(sum));
    broadcast use vm::lemma_run_concat;

}

/// The accumulated constraint polynomial at the folding point.
///
/// # What this closes
///
/// [`combine_answers`] carries each round's answers into the next target and
/// this carries each round's *points* to the end, so the closing identity is
/// checked against the constraints the transcript actually accumulated rather
/// than against a list supplied by the spender.
///
/// # Stack
///
/// In: the total folding randomness `R`, `total_vars` extension elements with
/// `R[0]` deepest: the concatenation of every round's sumcheck randomness in
/// round order.
/// Altstack: the groups in the order given, each laid out as [`weights_at`]
/// expects.
/// Out: the single scalar. `R` is consumed.
///
/// `groups` is `(constraints, arity)` per round, arity being the number of
/// variables that round's commitment had. Nothing requires the arities to be
/// sorted: each group reads its own suffix of `R` by reading that many elements
/// from the top.
///
/// The result is the weight that [`crate::whir::protocol::final_check`]
/// multiplies against `f_M` at the final sumcheck randomness.
///
/// A pick depth is a script number of at most four bytes, which bounds
/// `total_vars`.
pub fn constraint_eval(total_vars: usize, groups: &[(usize, usize)]) -> (s: Script)
    requires
        4 * (total_vars + 3) < 0x80000000,
        forall|i: int| 0 <= i < groups@.len() ==> (#[trigger] groups@[i]).1 <= total_vars,
    ensures
        s.code() == constraint_eval_at_code(total_vars as nat, group_arities(groups@), 0),
        forall|r: Seq<Ext>, cs: Seq<Constraint>, c: Ctx, v: Seq<Item>, w: Seq<Item>|
            ext::all_ok(r) && r.len() == total_vars && algebra::constraints_ok(
                cs,
                total_vars as nat,
            ) && arities(cs) == group_arities(groups@) && c.live() ==> #[trigger] vm::run(
                s.code(),
                vm::at(c, ext4::puts(v, r), constraints_alt(w, cs, 0)),
            ) == Some(vm::at(c, ext4::put(v, algebra::constraint_sum(cs, r)), w)),
{
    proof {
        assert forall|r: Seq<Ext>, cs: Seq<Constraint>, c: Ctx, v: Seq<Item>, w: Seq<Item>|
            ext::all_ok(r) && r.len() == total_vars && algebra::constraints_ok(
                cs,
                total_vars as nat,
            ) && arities(cs) == group_arities(groups@) && c.live() implies #[trigger] vm::run(
            constraint_eval_at_code(total_vars as nat, group_arities(groups@), 0),
            vm::at(c, ext4::puts(v, r), constraints_alt(w, cs, 0)),
        ) == Some(vm::at(c, ext4::put(v, algebra::constraint_sum(cs, r)), w)) by {
            let x = Seq::<Ext>::empty();
            assert(r + x =~= r);
            lemma_constraint_eval_at(c, v, w, r, x, cs);
            ext4::lemma_puts_push(v, x, algebra::constraint_sum(cs, r));
        }
    }
    constraint_eval_at(total_vars, groups, 0)
}

/// [`constraint_eval`] with `under` unrelated extension elements above `R`.
///
/// The composed verifier reaches the closing identity holding the chained claim
/// and the final polynomial's value, both of which sit above the randomness and
/// both of which are still needed afterwards. Parking them on the altstack is
/// not an option: the constraint list is down there, and anything pushed above
/// it would be popped in its place. So the offset is threaded through instead.
///
/// # Stack
///
/// In: `R(4*total_vars) X(4*under)`.
/// Out: `X(4*under) w`, with `R` consumed.
pub fn constraint_eval_at(total_vars: usize, groups: &[(usize, usize)], under: usize) -> (s: Script)
    requires
        4 * (total_vars + under + 3) < 0x80000000,
        forall|i: int| 0 <= i < groups@.len() ==> (#[trigger] groups@[i]).1 <= total_vars,
    ensures
        s.code() == constraint_eval_at_code(
            total_vars as nat,
            group_arities(groups@),
            under as int,
        ),
        forall|
            r: Seq<Ext>,
            x: Seq<Ext>,
            cs: Seq<Constraint>,
            c: Ctx,
            v: Seq<Item>,
            w: Seq<Item>,
        |
            ext::all_ok(r) && r.len() == total_vars && x.len() == under && algebra::constraints_ok(
                cs,
                total_vars as nat,
            ) && arities(cs) == group_arities(groups@) && c.live() ==> #[trigger] vm::run(
                s.code(),
                vm::at(c, ext4::puts(v, r + x), constraints_alt(w, cs, 0)),
            ) == Some(vm::at(c, ext4::puts(v, x.push(algebra::constraint_sum(cs, r))), w)),
{
    proof {
        assert forall|
            r: Seq<Ext>,
            x: Seq<Ext>,
            cs: Seq<Constraint>,
            c: Ctx,
            v: Seq<Item>,
            w: Seq<Item>,
        |
            ext::all_ok(r) && r.len() == total_vars && x.len() == under && algebra::constraints_ok(
                cs,
                total_vars as nat,
            ) && arities(cs) == group_arities(groups@) && c.live() implies #[trigger] vm::run(
            constraint_eval_at_code(total_vars as nat, group_arities(groups@), under as int),
            vm::at(c, ext4::puts(v, r + x), constraints_alt(w, cs, 0)),
        ) == Some(vm::at(c, ext4::puts(v, x.push(algebra::constraint_sum(cs, r))), w)) by {
            lemma_constraint_eval_at(c, v, w, r, x, cs);
        }
        reveal(constraint_eval_at_code);
        assert(groups@.take(0).len() == 0);
    }
    let mut points = Script::new();
    let mut g: usize = 0;
    while g < groups.len()
        invariant
            g <= groups@.len(),
            4 * (total_vars + under + 3) < 0x80000000,
            forall|i: int| 0 <= i < groups@.len() ==> (#[trigger] groups@[i]).1 <= total_vars,
            points.code() == points_code(group_arities(groups@.take(g as int)), under + 1),
        decreases groups@.len() - g,
    {
        let (n_points, n_vars): (usize, usize) = groups[g];
        let ghost before = group_arities(groups@.take(g as int));
        assert(groups@[g as int].1 <= total_vars);
        proof {
            assert(before + uniform(0, n_vars as nat) =~= before);
        }
        let mut i: usize = 0;
        while i < n_points
            invariant
                i <= n_points,
                n_vars <= total_vars,
                4 * (total_vars + under + 3) < 0x80000000,
                points.code() == points_code(
                    before + uniform(i as nat, n_vars as nat),
                    under + 1,
                ),
            decreases n_points - i,
        {
            proof {
                assert((before + uniform(i as nat, n_vars as nat)).push(n_vars as nat) =~= before
                    + uniform((i + 1) as nat, n_vars as nat));
            }
            // The accumulator, plus whatever the caller left above `R`.
            points = add_point(
                points,
                n_vars,
                under + 1,
                Ghost(before + uniform(i as nat, n_vars as nat)),
            );
            i = i + 1;
        }
        proof {
            let now = groups@.take(g + 1);
            assert(now.drop_last() =~= groups@.take(g as int));
            assert(now.last() == groups@[g as int]);
        }
        g = g + 1;
    }
    assert(groups@.take(groups@.len() as int) =~= groups@);
    // The randomness has done its work. It is at the bottom with live values
    // above it, so each slot is rolled up and dropped rather than parked:
    // parking would reverse the order of what sits above.
    let above = 4 * (under + 1);
    let slots = 4 * total_vars;
    ext4::push_zero().then_script(points).then_script(vm::excise(slots, slots + above - 1))
}

// ---------------------------------------------------------------------------
// Constraints derived from scalars
// ---------------------------------------------------------------------------

/// The shapes of groups.
pub open spec fn has_shape(gs: Seq<Group>, shape: Seq<(usize, usize)>) -> bool {
    gs.len() == shape.len() && forall|i: int|
        0 <= i < gs.len() ==> (#[trigger] gs[i]).ok() && gs[i].scalars.len() == shape[i].0
            && gs[i].arity == shape[i].1
}

/// An altstack with the groups from the `k`-th on laid out above `w`, the `k`-th
/// on top: its scalars, then its challenge.
pub open spec fn groups_alt(w: Seq<Item>, gs: Seq<Group>, k: int) -> Seq<Item>
    decreases gs.len() - k,
{
    if k >= gs.len() {
        w
    } else {
        ext4::park(ext4::parks(groups_alt(w, gs, k + 1), gs[k].scalars), gs[k].chi)
    }
}

/// The code of one Horner step over a group of the given arity.
#[verifier::opaque]
pub open spec fn scalar_code(arity: nat) -> Seq<Instr> {
    ext4::copy_code(1) + ext4::mul_code() + ext4::from_altstack_code() + expand_univariate_code(
        arity,
    ) + eq_eval_at_code(arity, 3) + ext4::add_code()
}

/// The code that takes each scalar of a group.
pub open spec fn scalar_codes(arity: nat) -> spec_fn(int) -> Seq<Instr> {
    |i: int| scalar_code(arity)
}

/// The code that adds one group to the accumulator.
#[verifier::opaque]
pub open spec fn group_code(n: nat, arity: nat) -> Seq<Instr> {
    ext4::from_altstack_code() + ext4::push_zero_code() + vm::flat(n, scalar_codes(arity))
        + ext4::to_altstack_code() + ext4::drop_n_code(1) + ext4::from_altstack_code()
        + ext4::add_code()
}

/// The code that adds groups of the given shape.
pub open spec fn groups_code(shape: Seq<(usize, usize)>) -> Seq<Instr>
    decreases shape.len(),
{
    if shape.len() == 0 {
        vm::nil()
    } else {
        groups_code(shape.drop_last()) + group_code(shape.last().0 as nat, shape.last().1 as nat)
    }
}

/// The code of [`constraint_eval_batched`].
#[verifier::opaque]
pub open spec fn constraint_eval_batched_code(total: nat, shape: Seq<(usize, usize)>) -> Seq<
    Instr,
> {
    ext4::push_zero_code() + groups_code(shape) + vm::excise_code(4 * total, 4 * total as int + 3)
}

/// One Horner step: the accumulator, the challenge and the running sum are above
/// the randomness.
proof fn lemma_scalar(
    c: Ctx,
    v: Seq<Item>,
    w: Seq<Item>,
    r: Seq<Ext>,
    acc: Ext,
    chi: Ext,
    sum: Ext,
    u: Ext,
    arity: nat,
)
    requires
        c.live(),
        ext::all_ok(r),
        chi.ok(),
        sum.ok(),
        u.ok(),
        1 <= arity <= r.len(),
        4 * (r.len() + 5) < 0x80000000,
    ensures
        vm::run(
            scalar_code(arity),
            vm::at(c, ext4::puts(v, r.push(acc).push(chi).push(sum)), ext4::park(w, u)),
        ) == Some(
            vm::at(
                c,
                ext4::puts(
                    v,
                    r.push(acc).push(chi).push(
                        ext::eadd(
                            ext::emul(sum, chi),
                            algebra::eq_poly(
                                algebra::expand(u, arity),
                                algebra::suffix(r, arity),
                            ),
                        ),
                    ),
                ),
                w,
            ),
        ),
{
    reveal(scalar_code);
    let under = r.push(acc).push(chi);
    let s = under.push(sum);
    let low = r.take(r.len() - arity);
    let high = algebra::suffix(r, arity);
    let z = algebra::expand(u, arity);
    let e = algebra::eq_poly(z, high);
    let m = ext::emul(sum, chi);
    let wu = ext4::park(w, u);
    broadcast use ext::group_ok;

    ext4::run_copy(c, v, wu, s, 1);
    assert(s[s.len() - 2] == chi);
    ext4::run_mul(c, v, wu, s.push(chi));
    vm::lemma_push_drop_last(s, chi);
    vm::lemma_push_drop_last(under, sum);
    let t = under.push(m);
    ext4::run_from_altstack(c, v, w, t, u);
    ext4::lemma_puts_push(v, t, u);
    lemma_expand_univariate(c, ext4::puts(v, t), w, u, arity);
    algebra::lemma_expand_ok(u, arity);
    let x = Seq::<Ext>::empty().push(acc).push(chi).push(m);
    assert(t =~= low + (high + x));
    assert(t.push(e) =~= low + (high + x).push(e));
    ext4::lemma_puts_concat(v, low, high + x);
    ext4::lemma_puts_concat(v, low, (high + x).push(e));
    assert(ext::all_ok(high)) by {
        assert forall|i: int| 0 <= i < high.len() implies (#[trigger] high[i]).ok() by {
            assert(high[i] == r[r.len() - arity + i]);
        }
    }
    lemma_eq_eval_at(c, ext4::puts(v, low), w, high, x, z);
    algebra::lemma_eq_poly_ok(z, high);
    ext4::run_add(c, v, w, t.push(e));
    vm::lemma_push_drop_last(t, e);
    vm::lemma_push_drop_last(under, m);
    broadcast use vm::lemma_run_concat;

}

/// Adding one group.
proof fn lemma_group(
    c: Ctx,
    v: Seq<Item>,
    w: Seq<Item>,
    r: Seq<Ext>,
    acc: Ext,
    g: Group,
)
    requires
        c.live(),
        ext::all_ok(r),
        acc.ok(),
        g.ok(),
        1 <= g.arity <= r.len(),
        4 * (r.len() + 5) < 0x80000000,
    ensures
        vm::run(
            group_code(g.scalars.len(), g.arity),
            vm::at(
                c,
                ext4::puts(v, r.push(acc)),
                ext4::park(ext4::parks(w, g.scalars), g.chi),
            ),
        ) == Some(vm::at(c, ext4::puts(v, r.push(ext::eadd(acc, g.sum(r)))), w)),
{
    reveal(group_code);
    let n = g.scalars.len();
    let us = g.scalars;
    let y = g.values(r);
    let chi = g.chi;
    let base = r.push(acc);
    let f = scalar_codes(g.arity);
    let value = |i: int| algebra::horner(chi, y.skip(n - i));
    let st = |i: int|
        vm::at(c, ext4::puts(v, base.push(chi).push(value(i))), ext4::parks(w, us.take(n - i)));
    assert forall|i: int| 0 <= i < n implies #[trigger] vm::run(f(i), st(i)) == Some(st(i + 1)) by {
        let j = n - 1 - i;
        assert(us.take(n - i) =~= us.take(j).push(us[j]));
        ext4::lemma_parks_push(w, us.take(j), us[j]);
        assert(us[j].ok());
        algebra::lemma_horner_ok(chi, y.skip(n - i));
        lemma_scalar(c, v, ext4::parks(w, us.take(j)), r, acc, chi, value(i), us[j], g.arity);
        assert(y.skip(j).skip(1) =~= y.skip(n - i));
    }
    vm::lemma_run_flat(n, f, st);
    assert(us.take(n as int) =~= us);
    assert(us.take(0) =~= Seq::<Ext>::empty());
    assert(y.skip(0) =~= y);
    assert(value(0) == ext::ezero());
    assert(ext::all_ok(y)) by {
        assert forall|j: int| 0 <= j < y.len() implies (#[trigger] y[j]).ok() by {
            algebra::lemma_eq_poly_ok(
                algebra::expand(us[j], g.arity),
                algebra::suffix(r, g.arity),
            );
        }
    }
    algebra::horner_is_the_power_sum(chi, y);
    algebra::lemma_horner_ok(chi, y);
    let total = g.sum(r);
    let wu = ext4::parks(w, us);
    ext4::run_from_altstack(c, v, wu, base, chi);
    ext4::run_push_zero(c, v, wu, base.push(chi));
    ext4::run_to_altstack(c, v, w, base.push(chi).push(total));
    vm::lemma_push_drop_last(base.push(chi), total);
    ext4::lemma_drop_top(c, v, ext4::park(w, total), base.push(chi), 1);
    assert(base.push(chi).take(base.push(chi).len() - 1) =~= base);
    ext4::run_from_altstack(c, v, w, base, total);
    ext4::run_add(c, v, w, base.push(total));
    vm::lemma_push_drop_last(base, total);
    vm::lemma_push_drop_last(r, acc);
    broadcast use vm::lemma_run_concat;

}

/// Adding the first `k` groups.
proof fn lemma_groups(
    c: Ctx,
    v: Seq<Item>,
    w: Seq<Item>,
    r: Seq<Ext>,
    gs: Seq<Group>,
    shape: Seq<(usize, usize)>,
    k: nat,
)
    requires
        c.live(),
        ext::all_ok(r),
        has_shape(gs, shape),
        forall|i: int| 0 <= i < shape.len() ==> 1 <= (#[trigger] shape[i]).1 <= r.len(),
        k <= gs.len(),
        4 * (r.len() + 5) < 0x80000000,
    ensures
        vm::run(
            groups_code(shape.take(k as int)),
            vm::at(c, ext4::puts(v, r.push(ext::ezero())), groups_alt(w, gs, 0)),
        ) == Some(
            vm::at(
                c,
                ext4::puts(v, r.push(algebra::group_sum(gs.take(k as int), r))),
                groups_alt(w, gs, k as int),
            ),
        ),
    decreases k,
{
    let start = vm::at(c, ext4::puts(v, r.push(ext::ezero())), groups_alt(w, gs, 0));
    if k == 0 {
        vm::lemma_run_empty(start);
    } else {
        let j = k - 1;
        lemma_groups(c, v, w, r, gs, shape, j as nat);
        assert(gs.take(k as int).drop_last() =~= gs.take(j));
        assert(shape.take(k as int).drop_last() =~= shape.take(j));
        assert(shape.take(k as int).last() == shape[j]);
        assert(gs[j].ok());
        algebra::lemma_group_sum_ok(gs.take(j), r);
        lemma_group(
            c,
            v,
            groups_alt(w, gs, k as int),
            r,
            algebra::group_sum(gs.take(j), r),
            gs[j],
        );
        vm::lemma_run_concat(
            groups_code(shape.take(j)),
            group_code(shape[j].0 as nat, shape[j].1 as nat),
            start,
        );
    }
}

/// What [`constraint_eval_batched`] does.
pub proof fn lemma_constraint_eval_batched(
    c: Ctx,
    v: Seq<Item>,
    w: Seq<Item>,
    r: Seq<Ext>,
    gs: Seq<Group>,
    shape: Seq<(usize, usize)>,
)
    requires
        c.live(),
        ext::all_ok(r),
        has_shape(gs, shape),
        forall|i: int| 0 <= i < shape.len() ==> 1 <= (#[trigger] shape[i]).1 <= r.len(),
        4 * (r.len() + 5) < 0x80000000,
    ensures
        vm::run(
            constraint_eval_batched_code(r.len(), shape),
            vm::at(c, ext4::puts(v, r), groups_alt(w, gs, 0)),
        ) == Some(vm::at(c, ext4::put(v, algebra::group_sum(gs, r)), w)),
{
    reveal(constraint_eval_batched_code);
    let sum = algebra::group_sum(gs, r);
    let e = Seq::<Ext>::empty();
    assert(gs.take(gs.len() as int) =~= gs);
    assert(shape.take(gs.len() as int) =~= shape);
    lemma_groups(c, v, w, r, gs, shape, gs.len());
    ext4::run_push_zero(c, v, groups_alt(w, gs, 0), r);
    assert(r.push(sum) =~= r + e.push(sum));
    lemma_excise_elements(c, v, w, r, e.push(sum));
    ext4::lemma_puts_push(v, e, sum);
    broadcast use vm::lemma_run_concat;

}

/// The accumulated constraint polynomial at the folding point, with each group's
/// constraints derived from its scalars and its batching challenge.
///
/// [`constraint_eval`] takes every weight and every coordinate from the altstack.
/// Here a group is one challenge `chi` and one scalar per constraint: the point
/// of constraint `j` is the expansion of its scalar, see [`expand_univariate`],
/// and its weight is `chi^j`. The powers start at one, unlike those of
/// [`combine_answers`].
///
/// # Stack
///
/// In: the total folding randomness `R`, `total_vars` extension elements with
/// `R[0]` deepest.
/// Altstack, per group with the first group on top: the scalars in order, then
/// the challenge, so that the challenge pops first and the last scalar next.
/// Out: the single scalar. `R` is consumed.
///
/// `groups` is `(constraints, arity)` per round.
pub fn constraint_eval_batched(total_vars: usize, groups: &[(usize, usize)]) -> (s: Script)
    requires
        4 * (total_vars + 5) < 0x80000000,
        forall|i: int| 0 <= i < groups@.len() ==> 1 <= (#[trigger] groups@[i]).1 <= total_vars,
    ensures
        s.code() == constraint_eval_batched_code(total_vars as nat, groups@),
        forall|r: Seq<Ext>, gs: Seq<Group>, c: Ctx, v: Seq<Item>, w: Seq<Item>|
            ext::all_ok(r) && r.len() == total_vars && has_shape(gs, groups@) && c.live()
                ==> #[trigger] vm::run(
                s.code(),
                vm::at(c, ext4::puts(v, r), groups_alt(w, gs, 0)),
            ) == Some(vm::at(c, ext4::put(v, algebra::group_sum(gs, r)), w)),
{
    proof {
        assert forall|r: Seq<Ext>, gs: Seq<Group>, c: Ctx, v: Seq<Item>, w: Seq<Item>|
            ext::all_ok(r) && r.len() == total_vars && has_shape(gs, groups@)
                && c.live() implies #[trigger] vm::run(
            constraint_eval_batched_code(total_vars as nat, groups@),
            vm::at(c, ext4::puts(v, r), groups_alt(w, gs, 0)),
        ) == Some(vm::at(c, ext4::put(v, algebra::group_sum(gs, r)), w)) by {
            lemma_constraint_eval_batched(c, v, w, r, gs, groups@);
        }
        reveal(constraint_eval_batched_code);
        assert(groups@.take(0).len() == 0);
    }
    let mut body = Script::new();
    let mut g: usize = 0;
    while g < groups.len()
        invariant
            g <= groups@.len(),
            4 * (total_vars + 5) < 0x80000000,
            forall|i: int|
                0 <= i < groups@.len() ==> 1 <= (#[trigger] groups@[i]).1 <= total_vars,
            body.code() == groups_code(groups@.take(g as int)),
        decreases groups@.len() - g,
    {
        let (n, arity): (usize, usize) = groups[g];
        assert(1 <= groups@[g as int].1 <= total_vars);
        body = body.then_script(batched_group(n, arity));
        proof {
            let now = groups@.take(g + 1);
            assert(now.drop_last() =~= groups@.take(g as int));
            assert(now.last() == groups@[g as int]);
        }
        g = g + 1;
    }
    assert(groups@.take(groups@.len() as int) =~= groups@);
    let slots = 4 * total_vars;
    ext4::push_zero().then_script(body).then_script(vm::excise(slots, slots + 3))
}

/// Add one group of `n` constraints to the accumulator.
fn batched_group(n: usize, arity: usize) -> (s: Script)
    requires
        1 <= arity,
        4 * (arity + 5) < 0x80000000,
    ensures
        s.code() == group_code(n as nat, arity as nat),
{
    proof {
        reveal(group_code);
        reveal(scalar_code);
    }
    // S := S * chi + eq(expand(u), R), with R under the accumulator, chi and S.
    let add = crate::ext4::add();
    let step = ext4::copy(1).then_script(crate::ext4::mul()).then_script(
        ext4::from_altstack(),
    ).then_script(expand_univariate(arity)).then_script(eq_eval_at(arity, 3)).with(&add);
    let mut steps = Script::new();
    let mut i: usize = 0;
    while i < n
        invariant
            i <= n,
            step.code() == scalar_code(arity as nat),
            steps.code() == vm::flat(i as nat, scalar_codes(arity as nat)),
        decreases n - i,
    {
        steps = steps.with(&step);
        i = i + 1;
    }
    // Drop chi from under the sum, then fold the sum in.
    ext4::from_altstack().then_script(ext4::push_zero()).then_script(steps).then_script(
        ext4::to_altstack(),
    ).then_script(ext4::drop_n(1)).then_script(ext4::from_altstack()).with(&add)
}

// ---------------------------------------------------------------------------
// The closing check
// ---------------------------------------------------------------------------

/// Copying one element of a block.
pub open spec fn recall_codes(n: int) -> spec_fn(int) -> Seq<Instr> {
    |i: int| ext4::copy_code(n)
}

/// The code that adds one weighted evaluation to the accumulator.
#[verifier::opaque]
pub open spec fn evaluation_code(n_vars: nat) -> Seq<Instr> {
    vm::flat(pow2(n_vars), recall_codes(pow2(n_vars) as int))
        + multilinear::eval_multilinear_code(n_vars) + ext4::from_altstack_code()
        + ext4::mul_code() + ext4::add_code()
}

/// The code of each evaluation of the closing sum.
pub open spec fn evaluation_codes(n_vars: nat) -> spec_fn(int) -> Seq<Instr> {
    |i: int| evaluation_code(n_vars)
}

/// The code of [`closing_check`].
#[verifier::opaque]
pub open spec fn closing_check_code(n_points: nat, n_vars: nat) -> Seq<Instr> {
    ext4::push_zero_code() + vm::flat(n_points, evaluation_codes(n_vars))
        + ext4::to_altstack_code() + ext4::drop_n_code(pow2(n_vars))
        + ext4::from_altstack_code() + vm::require_equal_code(4)
}

/// Copying a block of elements above one that lies on it.
proof fn lemma_recall(c: Ctx, v: Seq<Item>, w: Seq<Item>, e: Seq<Ext>, acc: Ext)
    requires
        c.live(),
        4 * e.len() + 3 < 0x80000000,
    ensures
        vm::run(
            vm::flat(e.len(), recall_codes(e.len() as int)),
            vm::at(c, ext4::puts(v, e.push(acc)), w),
        ) == Some(vm::at(c, ext4::puts(v, e.push(acc) + e), w)),
{
    let n = e.len() as int;
    let f = recall_codes(n);
    let st = |i: int| vm::at(c, ext4::puts(v, e.push(acc) + e.take(i)), w);
    assert forall|i: int| 0 <= i < n implies #[trigger] vm::run(f(i), st(i)) == Some(st(i + 1)) by {
        let s = e.push(acc) + e.take(i);
        ext4::run_copy(c, v, w, s, n);
        assert(s[s.len() - 1 - n] == e[i]);
        assert(s.push(e[i]) =~= e.push(acc) + e.take(i + 1));
    }
    vm::lemma_run_flat(e.len(), f, st);
    assert(e.push(acc) + e.take(0) =~= e.push(acc));
    assert(e.take(n) =~= e);
}

/// Adding one weighted evaluation.
proof fn lemma_evaluation(
    c: Ctx,
    v: Seq<Item>,
    w: Seq<Item>,
    e: Seq<Ext>,
    acc: Ext,
    t: Constraint,
)
    requires
        c.live(),
        ext::all_ok(e),
        acc.ok(),
        t.ok(),
        t.point.len() <= 28,
        e.len() == pow2(t.point.len()),
    ensures
        vm::run(
            evaluation_code(t.point.len()),
            vm::at(
                c,
                ext4::puts(v, e.push(acc)),
                ext4::parks(ext4::park(w, t.weight), t.point),
            ),
        ) == Some(
            vm::at(
                c,
                ext4::puts(
                    v,
                    e.push(
                        ext::eadd(acc, ext::emul(algebra::multilinear(e, t.point), t.weight)),
                    ),
                ),
                w,
            ),
        ),
{
    reveal(evaluation_code);
    let n = t.point.len();
    let wt = ext4::park(w, t.weight);
    lemma_cube_bound(n);
    lemma_recall(c, v, ext4::parks(wt, t.point), e, acc);
    ext4::lemma_puts_concat(v, e.push(acc), e);
    let base = ext4::puts(v, e.push(acc));
    multilinear::lemma_eval_multilinear(c, base, wt, e, t.point);
    let f = algebra::multilinear(e, t.point);
    algebra::lemma_multilinear_ok(e, t.point);
    let s = e.push(acc);
    ext4::lemma_puts_push(v, s, f);
    broadcast use ext::group_ok;

    ext4::run_from_altstack(c, v, w, s.push(f), t.weight);
    ext4::run_mul(c, v, w, s.push(f).push(t.weight));
    vm::lemma_push_drop_last(s.push(f), t.weight);
    vm::lemma_push_drop_last(s, f);
    let m = ext::emul(f, t.weight);
    ext4::run_add(c, v, w, s.push(m));
    vm::lemma_push_drop_last(s, m);
    vm::lemma_push_drop_last(e, acc);
    broadcast use vm::lemma_run_concat;

}

proof fn lemma_cube_bound(n: nat)
    requires
        n <= 28,
    ensures
        0 < pow2(n) <= 0x10000000,
{
    lemma2_to64();
    lemma_pow2_pos(n);
    if n < 28 {
        lemma_pow2_strictly_increases(n, 28);
    }
}

/// What [`closing_check`] does, with the four items `sigma` under the
/// evaluations.
pub proof fn lemma_closing_check(
    c: Ctx,
    v: Seq<Item>,
    w: Seq<Item>,
    sigma: Seq<Item>,
    e: Seq<Ext>,
    cs: Seq<Constraint>,
    n_vars: nat,
)
    requires
        c.live(),
        sigma.len() == 4,
        ext::all_ok(e),
        n_vars <= 28,
        e.len() == pow2(n_vars),
        algebra::constraints_ok(cs, n_vars),
        arities(cs) == uniform(cs.len(), n_vars),
    ensures
        vm::run(
            closing_check_code(cs.len(), n_vars),
            vm::at(c, ext4::puts(v + sigma, e), constraints_alt(w, cs, 0)),
        ) == (if sigma == vm::nums(algebra::closing_sum(e, cs).coeffs()) {
            Some(vm::at(c, v, w))
        } else {
            None
        }),
{
    reveal(closing_check_code);
    let base = v + sigma;
    let n = cs.len();
    let f = evaluation_codes(n_vars);
    let st = |i: int|
        vm::at(
            c,
            ext4::puts(base, e.push(algebra::closing_sum(e, cs.take(i)))),
            constraints_alt(w, cs, i),
        );
    assert forall|i: int| 0 <= i < n implies #[trigger] vm::run(f(i), st(i)) == Some(st(i + 1)) by {
        assert(cs[i].ok());
        assert(arities(cs)[i] == n_vars);
        algebra::lemma_closing_sum_ok(e, cs.take(i));
        assert(cs.take(i + 1).drop_last() =~= cs.take(i));
        lemma_evaluation(
            c,
            base,
            constraints_alt(w, cs, i + 1),
            e,
            algebra::closing_sum(e, cs.take(i)),
            cs[i],
        );
    }
    vm::lemma_run_flat(n, f, st);
    assert(cs.take(n as int) =~= cs);
    assert(algebra::closing_sum(e, cs.take(0)) == ext::ezero());
    let sum = algebra::closing_sum(e, cs);
    ext4::run_push_zero(c, base, constraints_alt(w, cs, 0), e);
    ext4::run_to_altstack(c, base, w, e.push(sum));
    vm::lemma_push_drop_last(e, sum);
    ext4::lemma_drop_n(c, base, ext4::park(w, sum), e);
    ext4::lemma_from_altstack(c, base, w, sum);
    ext4::lemma_put_nums(base, sum);
    vm::lemma_require_equal(c, v, w, sigma, vm::nums(sum.coeffs()));
    broadcast use vm::lemma_run_concat;

}

/// The closing check: `sum_j w_j * f_M(z_j) == sigma`, over the extension.
///
/// # Why this is the whole of `w'`
///
/// A round never evaluates its weight polynomial; it carries it. After `M`
/// rounds `w'` is a sum of terms `Z * gamma^e * eq(z, X)`, and the closing check
/// asks for
///
/// ```text
/// sum_b w'(f_M(b), b) = sigma
/// ```
///
/// Each term collapses, because summing an evaluation against `eq` *is*
/// evaluation:
///
/// ```text
/// sum_b f_M(b) * gamma^e * eq(z, b) = gamma^e * f_M(z)
/// ```
///
/// So the accumulated symbolic polynomial is exactly a list of
/// `(weight, point)` pairs, and checking it is evaluating the final polynomial
/// at each point and taking the weighted sum.
///
/// # Stack
///
/// In: `sigma(4) evals(4 * 2^n_vars)`, the final polynomial's evaluations with
/// `e[0]` deepest. Altstack, per point in consumption order: the weight `w_j`,
/// then the point's coordinates ordered so the *last* variable pops first.
/// Out: nothing. The spend is invalid unless the identity holds in all four
/// coefficients.
///
/// # Cost
///
/// `n_points` multilinear evaluations of `n_vars` variables. The evaluations are
/// copied rather than re-pushed, so the witness carries the final polynomial
/// once. No permutation.
///
/// A pick depth is a script number of at most four bytes, which bounds `n_vars`.
pub fn closing_check(n_points: usize, n_vars: usize) -> (r: Script)
    requires
        n_vars <= 28,
    ensures
        r.code() == closing_check_code(n_points as nat, n_vars as nat),
        forall|
            sigma: Seq<Item>,
            e: Seq<Ext>,
            cs: Seq<Constraint>,
            c: Ctx,
            v: Seq<Item>,
            w: Seq<Item>,
        |
            sigma.len() == 4 && ext::all_ok(e) && e.len() == pow2(n_vars as nat)
                && algebra::constraints_ok(cs, n_vars as nat) && arities(cs) == uniform(
                n_points as nat,
                n_vars as nat,
            ) && c.live() ==> #[trigger] vm::run(
                r.code(),
                vm::at(c, ext4::puts(v + sigma, e), constraints_alt(w, cs, 0)),
            ) == (if sigma == vm::nums(algebra::closing_sum(e, cs).coeffs()) {
                Some(vm::at(c, v, w))
            } else {
                None
            }),
{
    proof {
        assert forall|
            sigma: Seq<Item>,
            e: Seq<Ext>,
            cs: Seq<Constraint>,
            c: Ctx,
            v: Seq<Item>,
            w: Seq<Item>,
        |
            sigma.len() == 4 && ext::all_ok(e) && e.len() == pow2(n_vars as nat)
                && algebra::constraints_ok(cs, n_vars as nat) && arities(cs) == uniform(
                n_points as nat,
                n_vars as nat,
            ) && c.live() implies #[trigger] vm::run(
            closing_check_code(n_points as nat, n_vars as nat),
            vm::at(c, ext4::puts(v + sigma, e), constraints_alt(w, cs, 0)),
        ) == (if sigma == vm::nums(algebra::closing_sum(e, cs).coeffs()) {
            Some(vm::at(c, v, w))
        } else {
            None
        }) by {
            assert(arities(cs).len() == n_points);
            lemma_closing_check(c, v, w, sigma, e, cs, n_vars as nat);
        }
        reveal(closing_check_code);
        reveal(evaluation_code);
    }
    // Evaluations in the final polynomial.
    let n = multilinear::cube_size(n_vars);
    // Copy the evaluation block above the accumulator. The block's deepest
    // element sits at a constant depth of `n` while the copy is being built:
    // each push shifts the remainder by one, which cancels the step to the next
    // element.
    let recall = ext4::copy(n);
    let mut block = Script::new();
    let mut i: usize = 0;
    while i < n
        invariant
            i <= n,
            recall.code() == ext4::copy_code(n as int),
            block.code() == vm::flat(i as nat, recall_codes(n as int)),
        decreases n - i,
    {
        block = block.with(&recall);
        i = i + 1;
    }
    let evaluation = block.then_script(multilinear::eval_multilinear(n_vars)).then_script(
        ext4::from_altstack(),
    ).then_script(crate::ext4::mul()).then_script(crate::ext4::add());
    let mut evaluations = Script::new();
    let mut j: usize = 0;
    while j < n_points
        invariant
            j <= n_points,
            evaluation.code() == evaluation_code(n_vars as nat),
            evaluations.code() == vm::flat(j as nat, evaluation_codes(n_vars as nat)),
        decreases n_points - j,
    {
        evaluations = evaluations.with(&evaluation);
        j = j + 1;
    }
    // Compare the accumulator with sigma, which is beneath the evaluations.
    ext4::push_zero().then_script(evaluations).then_script(ext4::to_altstack()).then_script(
        ext4::drop_n(n),
    ).then_script(ext4::from_altstack()).then_script(vm::require_equal(4))
}

} // verus!
