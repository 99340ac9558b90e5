//! The quartic extension of KoalaBear, in Bitcoin Script.
//!
//! `KoalaBear[X]/(X^4 - 3)`.
//!
//! # Why the verifier needs this
//!
//! KoalaBear is a 31-bit field, so a Fiat-Shamir challenge drawn from it gives
//! at most about 31 bits of soundness however many queries are made. At degree
//! four the challenge space is about 124 bits, which is what makes a 100-bit
//! target reachable.
//!
//! Hashing stays in the base field, so this affects the challenge, sumcheck and
//! folding arithmetic only.
//!
//! # Representation
//!
//! Four base elements, `a0` deepest and `a3` on top, so an extension element
//! occupies four stack slots and pairs of them multiply in place.

use crate::arith;
use crate::ext::{self, Ext};
use crate::field;
use crate::script::{Instr, Opcode, Script};
use crate::vm::{self, Ctx, Item};
use vstd::prelude::*;

verus! {

/// The non-residue: `X^4 = 3`.
pub const W: u32 = 3;

/// Degree.
pub const D: usize = 4;

/// A stack with one more extension element on it.
pub open spec fn put(v: Seq<Item>, e: Ext) -> Seq<Item> {
    v.push(vm::num(e.c0)).push(vm::num(e.c1)).push(vm::num(e.c2)).push(vm::num(e.c3))
}

/// A stack with extension elements on it, the first deepest.
pub open spec fn puts(v: Seq<Item>, s: Seq<Ext>) -> Seq<Item>
    decreases s.len(),
{
    if s.len() == 0 {
        v
    } else {
        put(puts(v, s.drop_last()), s.last())
    }
}

/// An altstack with one more extension element parked on it.
pub open spec fn park(w: Seq<Item>, e: Ext) -> Seq<Item> {
    w.push(vm::num(e.c3)).push(vm::num(e.c2)).push(vm::num(e.c1)).push(vm::num(e.c0))
}

/// An altstack with extension elements parked on it in order, the last on top.
pub open spec fn parks(w: Seq<Item>, s: Seq<Ext>) -> Seq<Item>
    decreases s.len(),
{
    if s.len() == 0 {
        w
    } else {
        park(parks(w, s.drop_last()), s.last())
    }
}

/// One more element put on the stack.
pub broadcast proof fn lemma_puts_push(v: Seq<Item>, s: Seq<Ext>, e: Ext)
    ensures
        #[trigger] puts(v, s.push(e)) == put(puts(v, s), e),
{
    assert(s.push(e).drop_last() =~= s);
}

/// One more element parked on the altstack.
pub broadcast proof fn lemma_parks_push(w: Seq<Item>, s: Seq<Ext>, e: Ext)
    ensures
        #[trigger] parks(w, s.push(e)) == park(parks(w, s), e),
{
    assert(s.push(e).drop_last() =~= s);
}

/// Stacking two blocks one after the other.
pub proof fn lemma_puts_concat(v: Seq<Item>, s: Seq<Ext>, t: Seq<Ext>)
    ensures
        puts(v, s + t) == puts(puts(v, s), t),
    decreases t.len(),
{
    if t.len() == 0 {
        assert(s + t =~= s);
    } else {
        lemma_puts_concat(v, s, t.drop_last());
        assert((s + t).drop_last() =~= s + t.drop_last());
        assert((s + t).last() == t.last());
    }
}

/// An element as four base elements.
pub proof fn lemma_put_nums(v: Seq<Item>, e: Ext)
    ensures
        put(v, e) == v + vm::nums(e.coeffs()),
        put(v, e).len() == v.len() + 4,
{
    assert(put(v, e) =~= v + vm::nums(e.coeffs()));
}

/// Parking reverses.
pub proof fn lemma_park_nums(w: Seq<Item>, e: Ext)
    ensures
        park(w, e) == w + vm::nums(e.coeffs()).reverse(),
{
    assert(park(w, e) =~= w + vm::nums(e.coeffs()).reverse());
}

/// Where the coefficients lie.
pub proof fn lemma_puts_index(v: Seq<Item>, s: Seq<Ext>, i: int)
    requires
        0 <= i < s.len(),
    ensures
        puts(v, s).len() == v.len() + 4 * s.len(),
        puts(v, s)[v.len() + 4 * i] == vm::num(s[i].c0),
        puts(v, s)[v.len() + 4 * i + 1] == vm::num(s[i].c1),
        puts(v, s)[v.len() + 4 * i + 2] == vm::num(s[i].c2),
        puts(v, s)[v.len() + 4 * i + 3] == vm::num(s[i].c3),
    decreases s.len(),
{
    lemma_puts_len(v, s);
    lemma_puts_len(v, s.drop_last());
    if i < s.len() - 1 {
        lemma_puts_index(v, s.drop_last(), i);
    }
}

/// Elements as a block of items above what was there.
pub proof fn lemma_puts_block(v: Seq<Item>, s: Seq<Ext>)
    ensures
        puts(v, s) == v + puts(Seq::empty(), s),
    decreases s.len(),
{
    if s.len() == 0 {
        assert(v + puts(Seq::empty(), s) =~= v);
    } else {
        let t = s.drop_last();
        lemma_puts_block(v, t);
        lemma_put_nums(puts(v, t), s.last());
        lemma_put_nums(puts(Seq::empty(), t), s.last());
        assert(v + (puts(Seq::empty(), t) + vm::nums(s.last().coeffs())) =~= (v + puts(
            Seq::empty(),
            t,
        )) + vm::nums(s.last().coeffs()));
    }
}

/// How much room elements take.
pub proof fn lemma_puts_len(v: Seq<Item>, s: Seq<Ext>)
    ensures
        puts(v, s).len() == v.len() + 4 * s.len(),
    decreases s.len(),
{
    if s.len() > 0 {
        lemma_puts_len(v, s.drop_last());
    }
}

/// Elements sit on what was there before.
pub proof fn lemma_puts_under(v: Seq<Item>, s: Seq<Ext>, i: int)
    requires
        0 <= i < v.len(),
    ensures
        puts(v, s)[i] == v[i],
    decreases s.len(),
{
    if s.len() > 0 {
        lemma_puts_under(v, s.drop_last(), i);
        lemma_puts_len(v, s.drop_last());
    }
}

/// Code that replaces two extension elements on top of the stack by `f` of them.
pub open spec fn combines(p: Seq<Instr>, f: spec_fn(Ext, Ext) -> Ext) -> bool {
    forall|a: Ext, b: Ext, c: Ctx, v: Seq<Item>, w: Seq<Item>|
        a.ok() && b.ok() && c.live() ==> #[trigger] vm::run(p, vm::at(c, put(put(v, a), b), w))
            == Some(vm::at(c, put(v, f(a, b)), w))
}

/// Code that pushes an extension element.
pub open spec fn pushes(p: Seq<Instr>, e: Ext) -> bool {
    forall|c: Ctx, v: Seq<Item>, w: Seq<Item>|
        c.live() ==> #[trigger] vm::run(p, vm::at(c, v, w)) == Some(vm::at(c, put(v, e), w))
}

/// The code of [`mul_w`].
#[verifier::opaque]
pub open spec fn mul_w_code() -> Seq<Instr> {
    vm::nil().push(vm::o(Opcode::Dup)) + field::double_code() + field::add_code()
}

proof fn lemma_mul_w(c: Ctx, v: Seq<Item>, w: Seq<Item>, x: int)
    requires
        c.live(),
        arith::felt(x),
    ensures
        vm::run(mul_w_code(), vm::at(c, v.push(vm::num(x)), w)) == Some(
            vm::at(c, v.push(vm::num(arith::red(3 * x))), w),
        ),
{
    reveal(mul_w_code);
    broadcast use vm::group_run;

    arith::lemma_red(x + x);
    arith::lemma_red_add(x, x + x);
    field::lemma_double(c, v.push(vm::num(x)), w, x);
    field::lemma_add(c, v, w, x, arith::fadd(x, x));
}

/// Multiply the top base element by `W`, as `x + 2x`.
fn mul_w() -> (r: Script)
    ensures
        r.code() == mul_w_code(),
{
    proof {
        reveal(mul_w_code);
    }
    Script::new().op(Opcode::Dup).then_script(field::double()).then_script(crate::field::add())
}

// ---------------------------------------------------------------------------
// Addition and subtraction
// ---------------------------------------------------------------------------

/// One coefficient of an operation applied pairwise, its result parked.
pub open spec fn pairwise_codes(op: Seq<Instr>) -> spec_fn(int) -> Seq<Instr> {
    |i: int| (vm::roll_code(4 - i) + op).push(vm::o(Opcode::ToAltStack))
}

/// An operation applied pairwise to four coefficients.
pub open spec fn pairwise_code(op: Seq<Instr>) -> Seq<Instr> {
    vm::flat(4, pairwise_codes(op)) + vm::ops(4, Opcode::FromAltStack)
}

/// What an operation does to a coefficient of `b` with that of `a` on top.
spec fn acts(c: Ctx, op: Seq<Instr>, g: spec_fn(int, int) -> int) -> bool {
    forall|x: int, y: int, v: Seq<Item>, w: Seq<Item>|
        arith::felt(x) && arith::felt(y) ==> #[trigger] vm::run(
            op,
            vm::at(c, v.push(vm::num(y)).push(vm::num(x)), w),
        ) == Some(vm::at(c, v.push(vm::num(g(x, y))), w))
}

#[verifier::rlimit(40)]
proof fn lemma_pairwise(
    c: Ctx,
    v: Seq<Item>,
    w: Seq<Item>,
    a: Seq<int>,
    b: Seq<int>,
    op: Seq<Instr>,
    g: spec_fn(int, int) -> int,
)
    requires
        c.live(),
        a.len() == 4,
        b.len() == 4,
        arith::felts(a),
        arith::felts(b),
        acts(c, op, g),
    ensures
        vm::run(pairwise_code(op), vm::at(c, v + vm::nums(a) + vm::nums(b), w)) == Some(
            vm::at(c, v + vm::nums(Seq::new(4, |i: int| g(a[i], b[i]))), w),
        ),
{
    let out = Seq::new(4, |i: int| g(a[i], b[i]));
    let f = pairwise_codes(op);
    let st = |j: int|
        vm::at(
            c,
            v + vm::nums(a.take(4 - j)) + vm::nums(b.take(4 - j)),
            w + vm::nums(out.skip(4 - j)).reverse(),
        );
    assert forall|j: int| 0 <= j < 4 implies #[trigger] vm::run(f(j), st(j)) == Some(st(j + 1)) by {
        let i = 3 - j;
        let now = v + vm::nums(a.take(i + 1)) + vm::nums(b.take(i + 1));
        let w1 = w + vm::nums(out.skip(i + 1)).reverse();
        vm::lemma_roll(c, now, w1, i + 1);
        assert(now[now.len() - 2 - i] == vm::num(a[i]));
        let under = v + vm::nums(a.take(i)) + vm::nums(b.take(i));
        assert(now.remove(now.len() - 2 - i).push(vm::num(a[i])) =~= under.push(
            vm::num(b[i]),
        ).push(vm::num(a[i])));
        assert(vm::run(op, vm::at(c, under.push(vm::num(b[i])).push(vm::num(a[i])), w1)) == Some(
            vm::at(c, under.push(vm::num(out[i])), w1),
        ));
        assert(w1.push(vm::num(out[i])) =~= w + vm::nums(out.skip(i)).reverse());
        broadcast use vm::group_run;

    }
    vm::lemma_run_flat(4, f, st);
    assert(a.take(4) =~= a && b.take(4) =~= b && out.skip(0) =~= out);
    assert(w + vm::nums(out.skip(4)).reverse() =~= w);
    assert(v + vm::nums(a.take(0)) + vm::nums(b.take(0)) =~= v);
    vm::lemma_from_alt(c, v, vm::nums(out), w);
    broadcast use vm::group_run;

}

/// An operation applied pairwise to four coefficients.
fn pairwise(op: &Script) -> (r: Script)
    ensures
        r.code() == pairwise_code(op.code()),
{
    let mut r = Script::new();
    let mut i: usize = 0;
    while i < D
        invariant
            i <= D,
            r.code() == vm::flat(i as nat, pairwise_codes(op.code())),
        decreases D - i,
    {
        // b_i is on top of the remaining a's; bring the matching a_i up.
        r = r.then_script(
            Script::new().num((D - i) as i64).op(Opcode::Roll).with(op).op(Opcode::ToAltStack),
        );
        i = i + 1;
    }
    r.then_script(vm::repeat(D, Opcode::FromAltStack))
}

/// The code of [`add`].
#[verifier::opaque]
pub open spec fn add_code() -> Seq<Instr> {
    pairwise_code(field::add_code())
}

/// What [`add`] does to two extension elements.
pub proof fn lemma_add(c: Ctx, v: Seq<Item>, w: Seq<Item>, a: Ext, b: Ext)
    requires
        c.live(),
        a.ok(),
        b.ok(),
    ensures
        vm::run(add_code(), vm::at(c, put(put(v, a), b), w)) == Some(
            vm::at(c, put(v, ext::eadd(a, b)), w),
        ),
{
    reveal(ext::eadd);
    reveal(add_code);
    let g = |x: int, y: int| arith::fadd(y, x);
    assert forall|x: int, y: int, v1: Seq<Item>, w1: Seq<Item>|
        arith::felt(x) && arith::felt(y) implies #[trigger] vm::run(
        field::add_code(),
        vm::at(c, v1.push(vm::num(y)).push(vm::num(x)), w1),
    ) == Some(vm::at(c, v1.push(vm::num(g(x, y))), w1)) by {
        field::lemma_add(c, v1, w1, y, x);
    }
    lemma_put_nums(v, a);
    lemma_put_nums(put(v, a), b);
    lemma_pairwise(c, v, w, a.coeffs(), b.coeffs(), field::add_code(), g);
    let e = ext::eadd(a, b);
    lemma_put_nums(v, e);
    assert(Seq::new(4, |i: int| g(a.coeffs()[i], b.coeffs()[i])) =~= e.coeffs());
}

/// Add two extension elements. Input `a b`, eight slots; output four.
pub fn add() -> (r: Script)
    ensures
        r.code() == add_code(),
        combines(r.code(), |a: Ext, b: Ext| ext::eadd(a, b)),
{
    proof {
        assert forall|a: Ext, b: Ext, c: Ctx, v: Seq<Item>, w: Seq<Item>|
            a.ok() && b.ok() && c.live() implies #[trigger] vm::run(
            add_code(),
            vm::at(c, put(put(v, a), b), w),
        ) == Some(vm::at(c, put(v, ext::eadd(a, b)), w)) by {
            lemma_add(c, v, w, a, b);
        }
        reveal(add_code);
    }
    pairwise(&crate::field::add())
}

/// The code of [`sub`].
#[verifier::opaque]
pub open spec fn sub_code() -> Seq<Instr> {
    pairwise_code(vm::nil().push(vm::o(Opcode::Swap)) + field::sub_code())
}

/// What [`sub`] does to two extension elements.
pub proof fn lemma_sub(c: Ctx, v: Seq<Item>, w: Seq<Item>, a: Ext, b: Ext)
    requires
        c.live(),
        a.ok(),
        b.ok(),
    ensures
        vm::run(sub_code(), vm::at(c, put(put(v, a), b), w)) == Some(
            vm::at(c, put(v, ext::esub(a, b)), w),
        ),
{
    reveal(ext::esub);
    reveal(sub_code);
    let op = vm::nil().push(vm::o(Opcode::Swap)) + field::sub_code();
    let g = |x: int, y: int| arith::fsub(x, y);
    assert forall|x: int, y: int, v1: Seq<Item>, w1: Seq<Item>|
        arith::felt(x) && arith::felt(y) implies #[trigger] vm::run(
        op,
        vm::at(c, v1.push(vm::num(y)).push(vm::num(x)), w1),
    ) == Some(vm::at(c, v1.push(vm::num(g(x, y))), w1)) by {
        broadcast use vm::group_run;

        field::lemma_sub(c, v1, w1, x, y);
    }
    lemma_put_nums(v, a);
    lemma_put_nums(put(v, a), b);
    lemma_pairwise(c, v, w, a.coeffs(), b.coeffs(), op, g);
    let e = ext::esub(a, b);
    lemma_put_nums(v, e);
    assert(Seq::new(4, |i: int| g(a.coeffs()[i], b.coeffs()[i])) =~= e.coeffs());
}

/// Subtract two extension elements. Input `a b`; output `a - b`.
pub fn sub() -> (r: Script)
    ensures
        r.code() == sub_code(),
        combines(r.code(), |a: Ext, b: Ext| ext::esub(a, b)),
{
    proof {
        assert forall|a: Ext, b: Ext, c: Ctx, v: Seq<Item>, w: Seq<Item>|
            a.ok() && b.ok() && c.live() implies #[trigger] vm::run(
            sub_code(),
            vm::at(c, put(put(v, a), b), w),
        ) == Some(vm::at(c, put(v, ext::esub(a, b)), w)) by {
            lemma_sub(c, v, w, a, b);
        }
        reveal(sub_code);
    }
    pairwise(&Script::new().op(Opcode::Swap).then_script(crate::field::sub()))
}

// ---------------------------------------------------------------------------
// Multiplication
// ---------------------------------------------------------------------------

/// The coefficient of `b` that meets coefficient `i` of `a` in output `k`.
pub open spec fn partner(k: int, i: int) -> int {
    if i <= k {
        k - i
    } else {
        k + 4 - i
    }
}

/// Items above the inputs while term `i` of output `k` is formed.
pub open spec fn above(k: int, i: int) -> int {
    if i > 0 {
        k + 1
    } else {
        k
    }
}

/// The code of term `i` of output `k`.
#[verifier::opaque]
pub open spec fn term_code(k: int, i: int) -> Seq<Instr> {
    vm::pick_code((7 - i) + above(k, i)) + vm::pick_code((3 - partner(k, i)) + above(k, i) + 1)
        + field::mul_code() + (if i > k {
        mul_w_code()
    } else {
        vm::nil()
    }) + (if i > 0 {
        field::add_code()
    } else {
        vm::nil()
    })
}

/// The code of each term of the `k`-th coefficient of a product.
pub open spec fn term_codes(k: int) -> spec_fn(int) -> Seq<Instr> {
    |i: int| term_code(k, i)
}

/// The code of each output.
pub open spec fn product_codes() -> spec_fn(int) -> Seq<Instr> {
    |k: int| vm::flat(4, term_codes(k))
}

/// The code of [`mul`].
#[verifier::opaque]
pub open spec fn mul_code() -> Seq<Instr> {
    vm::flat(4, product_codes()) + vm::ops(4, Opcode::ToAltStack) + vm::ops(4, Opcode::Drop2)
        + vm::ops(4, Opcode::FromAltStack)
}

/// The first `n` terms of output `k`, not reduced.
spec fn convolution(a: Seq<int>, b: Seq<int>, k: int, n: nat) -> int
    decreases n,
{
    if n == 0 {
        0
    } else {
        let i = n - 1;
        convolution(a, b, k, i as nat) + (if i > k {
            3 * (a[i] * b[partner(k, i)])
        } else {
            a[i] * b[partner(k, i)]
        })
    }
}

/// The stack while output `k` is formed, `n` terms in.
spec fn product_stack(
    v: Seq<Item>,
    a: Seq<int>,
    b: Seq<int>,
    outs: Seq<Item>,
    k: int,
    n: int,
) -> Seq<Item> {
    let base = v + vm::nums(a) + vm::nums(b) + outs;
    if n == 0 {
        base
    } else {
        base.push(vm::num(arith::red(convolution(a, b, k, n as nat))))
    }
}

proof fn lemma_term(
    c: Ctx,
    v: Seq<Item>,
    w: Seq<Item>,
    a: Seq<int>,
    b: Seq<int>,
    outs: Seq<Item>,
    k: int,
    i: int,
)
    requires
        c.live(),
        a.len() == 4,
        b.len() == 4,
        arith::felts(a),
        arith::felts(b),
        0 <= k < 4,
        0 <= i < 4,
        outs.len() == k,
    ensures
        vm::run(term_code(k, i), vm::at(c, product_stack(v, a, b, outs, k, i), w)) == Some(
            vm::at(c, product_stack(v, a, b, outs, k, i + 1), w),
        ),
{
    reveal(term_code);
    let j = partner(k, i);
    let now = product_stack(v, a, b, outs, k, i);
    let base = v + vm::nums(a) + vm::nums(b) + outs;
    let u = above(k, i);
    let x = a[i];
    let y = b[j];
    assert(0 <= j < 4);
    assert(now[now.len() - 1 - ((7 - i) + u)] == vm::num(x));
    vm::lemma_pick(c, now, w, (7 - i) + u);
    let now1 = now.push(vm::num(x));
    assert(now1[now1.len() - 1 - ((3 - j) + u + 1)] == vm::num(y));
    vm::lemma_pick(c, now1, w, (3 - j) + u + 1);
    field::lemma_mul(c, now, w, x, y);
    arith::lemma_red(x * y);
    let p = arith::fmul(x, y);
    lemma_mul_w(c, now, w, p);
    arith::lemma_red(3 * p);
    arith::lemma_red_mul(3, x * y);
    let t: int = if i > k {
        3 * (x * y)
    } else {
        x * y
    };
    let d = convolution(a, b, k, i as nat);
    arith::lemma_red(d);
    arith::lemma_red_add(d, t);
    if i > 0 {
        field::lemma_add(c, base, w, arith::red(d), arith::red(t));
    }
    let p1 = vm::pick_code((7 - i) + u) + vm::pick_code((3 - j) + u + 1);
    let m = vm::at(c, now, w);
    assert(vm::run(p1, m) == Some(vm::at(c, now1.push(vm::num(y)), w))) by {
        vm::lemma_run_concat(vm::pick_code((7 - i) + u), vm::pick_code((3 - j) + u + 1), m);
    }
    let p2 = p1 + field::mul_code();
    vm::lemma_run_concat(p1, field::mul_code(), m);
    assert(vm::run(p2, m) == Some(vm::at(c, now.push(vm::num(p)), w)));
    let tail1 = if i > k {
        mul_w_code()
    } else {
        vm::nil()
    };
    vm::lemma_run_concat(p2, tail1, m);
    vm::lemma_run_empty(vm::at(c, now.push(vm::num(p)), w));
    assert(vm::run(p2 + tail1, m) == Some(vm::at(c, now.push(vm::num(arith::red(t))), w)));
    let tail2 = if i > 0 {
        field::add_code()
    } else {
        vm::nil()
    };
    vm::lemma_run_concat(p2 + tail1, tail2, m);
    vm::lemma_run_empty(vm::at(c, now.push(vm::num(arith::red(t))), w));
}

/// The terms of an output come to the coefficient of the product.
proof fn lemma_convolution(a: Ext, b: Ext)
    ensures
        ext::emul(a, b).coeffs() == Seq::new(
            4,
            |k: int| arith::red(convolution(a.coeffs(), b.coeffs(), k, 4)),
        ),
{
    reveal(ext::emul);
    let x = a.coeffs();
    let y = b.coeffs();
    reveal_with_fuel(convolution, 5);
    let m = ext::imul(a, b);
    assert(convolution(x, y, 0, 4) == m.c0);
    assert(convolution(x, y, 1, 4) == m.c1);
    assert(convolution(x, y, 2, 4) == m.c2);
    assert(convolution(x, y, 3, 4) == m.c3);
    assert(ext::emul(a, b).coeffs() =~= Seq::new(
        4,
        |k: int| arith::red(convolution(x, y, k, 4)),
    ));
}

/// What [`mul`] does to two extension elements.
pub proof fn lemma_mul(c: Ctx, v: Seq<Item>, w: Seq<Item>, a: Ext, b: Ext)
    requires
        c.live(),
        a.ok(),
        b.ok(),
    ensures
        vm::run(mul_code(), vm::at(c, put(put(v, a), b), w)) == Some(
            vm::at(c, put(v, ext::emul(a, b)), w),
        ),
{
    reveal(mul_code);
    let x = a.coeffs();
    let y = b.coeffs();
    let out = ext::emul(a, b).coeffs();
    lemma_convolution(a, b);
    lemma_put_nums(v, a);
    lemma_put_nums(put(v, a), b);
    let base = v + vm::nums(x) + vm::nums(y);
    let f = product_codes();
    let st = |k: int| vm::at(c, base + vm::nums(out.take(k)), w);
    assert forall|k: int| 0 <= k < 4 implies #[trigger] vm::run(f(k), st(k)) == Some(st(k + 1)) by {
        let outs = vm::nums(out.take(k));
        let g = term_codes(k);
        let st2 = |i: int| vm::at(c, product_stack(v, x, y, outs, k, i), w);
        assert forall|i: int| 0 <= i < 4 implies #[trigger] vm::run(g(i), st2(i)) == Some(
            st2(i + 1),
        ) by {
            lemma_term(c, v, w, x, y, outs, k, i);
        }
        vm::lemma_run_flat(4, g, st2);
        assert((base + outs).push(vm::num(out[k])) =~= base + vm::nums(out.take(k + 1)));
    }
    vm::lemma_run_flat(4, f, st);
    assert(base + vm::nums(out.take(0)) =~= base);
    assert(out.take(4) =~= out);
    vm::lemma_to_alt(c, base, vm::nums(out), w);
    assert(base =~= v + (vm::nums(x) + vm::nums(y)));
    vm::lemma_drop2(c, v, vm::nums(x) + vm::nums(y), w + vm::nums(out).reverse(), 4);
    vm::lemma_from_alt(c, v, vm::nums(out), w);
    lemma_put_nums(v, ext::emul(a, b));
    broadcast use vm::group_run;

}

/// Multiply two extension elements.
///
/// Schoolbook: `res[i+j] += a_i b_j`, and `res[i+j-D] += W a_i b_j` when the
/// degree wraps. Sixteen base multiplications.
pub fn mul() -> (r: Script)
    ensures
        r.code() == mul_code(),
        combines(r.code(), |a: Ext, b: Ext| ext::emul(a, b)),
{
    proof {
        assert forall|a: Ext, b: Ext, c: Ctx, v: Seq<Item>, w: Seq<Item>|
            a.ok() && b.ok() && c.live() implies #[trigger] vm::run(
            mul_code(),
            vm::at(c, put(put(v, a), b), w),
        ) == Some(vm::at(c, put(v, ext::emul(a, b)), w)) by {
            lemma_mul(c, v, w, a, b);
        }
        reveal(mul_code);
    }
    // Inputs: a0..a3 then b0..b3, b3 on top.
    // Depths with `t` items above: a_i at (7-i)+t, b_j at (3-j)+t.
    let base_mul = crate::field::mul();
    let mut rows = Script::new();
    let mut k: usize = 0;
    while k < D
        invariant
            k <= D,
            base_mul.code() == field::mul_code(),
            rows.code() == vm::flat(k as nat, product_codes()),
        decreases D - k,
    {
        let mut row = Script::new();
        let mut i: usize = 0;
        while i < D
            invariant
                k < D,
                i <= D,
                base_mul.code() == field::mul_code(),
                row.code() == vm::flat(i as nat, term_codes(k as int)),
            decreases D - i,
        {
            proof {
                reveal(term_code);
            }
            let j: usize = if i <= k {
                k - i
            } else {
                k + D - i
            };
            let t: usize = if i > 0 {
                k + 1
            } else {
                k
            };
            let wrap = if i > k {
                mul_w()
            } else {
                Script::new()
            };
            let fold = if i > 0 {
                crate::field::add()
            } else {
                Script::new()
            };
            let term = Script::new().num(((7 - i) + t) as i64).op(Opcode::Pick).then_script(
                Script::new().num(((3 - j) + t + 1) as i64).op(Opcode::Pick),
            ).with(&base_mul).then_script(wrap).then_script(fold);
            row = row.then_script(term);
            i = i + 1;
        }
        rows = rows.then_script(row);
        k = k + 1;
    }
    rows.then_script(vm::repeat(D, Opcode::ToAltStack)).then_script(
        vm::repeat(D, Opcode::Drop2),
    ).then_script(vm::repeat(D, Opcode::FromAltStack))
}

// ---------------------------------------------------------------------------
// Moving elements
// ---------------------------------------------------------------------------

/// The code of each pick in [`copy`].
pub open spec fn copy_pick_codes(d: int) -> spec_fn(int) -> Seq<Instr> {
    |i: int| vm::pick_code(4 * d + 3)
}

/// The code of [`copy`].
#[verifier::opaque]
pub open spec fn copy_code(d: int) -> Seq<Instr> {
    vm::flat(4, copy_pick_codes(d))
}

/// Four picks at a constant depth copy four consecutive items.
pub proof fn lemma_copy_items(c: Ctx, v: Seq<Item>, w: Seq<Item>, d: int, e: Ext)
    requires
        c.live(),
        0 <= d,
        4 * d + 3 < 0x80000000,
        4 * d + 4 <= v.len(),
        v[v.len() - 4 * d - 4] == vm::num(e.c0),
        v[v.len() - 4 * d - 3] == vm::num(e.c1),
        v[v.len() - 4 * d - 2] == vm::num(e.c2),
        v[v.len() - 4 * d - 1] == vm::num(e.c3),
    ensures
        vm::run(copy_code(d), vm::at(c, v, w)) == Some(vm::at(c, put(v, e), w)),
{
    reveal(copy_code);
    let n = e.coeffs();
    let f = copy_pick_codes(d);
    let st = |i: int| vm::at(c, v + vm::nums(n.take(i)), w);
    assert forall|i: int| 0 <= i < 4 implies #[trigger] vm::run(f(i), st(i)) == Some(st(i + 1)) by {
        let now = v + vm::nums(n.take(i));
        vm::lemma_pick(c, now, w, 4 * d + 3);
        assert(now[now.len() - 1 - (4 * d + 3)] == v[v.len() - 4 * d - 4 + i]);
        assert(v[v.len() - 4 * d - 4 + i] == vm::num(n[i]));
        assert(now.push(vm::num(n[i])) =~= v + vm::nums(n.take(i + 1)));
    }
    vm::lemma_run_flat(4, f, st);
    assert(v + vm::nums(n.take(0)) =~= v);
    assert(n.take(4) =~= n);
    lemma_put_nums(v, e);
}

/// What [`copy`] does to stacked elements.
pub proof fn lemma_copy(c: Ctx, v: Seq<Item>, w: Seq<Item>, s: Seq<Ext>, d: int)
    requires
        c.live(),
        0 <= d < s.len(),
        4 * d + 3 < 0x80000000,
    ensures
        vm::run(copy_code(d), vm::at(c, puts(v, s), w)) == Some(
            vm::at(c, put(puts(v, s), s[s.len() - 1 - d]), w),
        ),
{
    lemma_puts_index(v, s, s.len() - 1 - d);
    lemma_copy_items(c, puts(v, s), w, d, s[s.len() - 1 - d]);
}

/// Copy the extension element `d` elements down, preserving coefficient order.
///
/// An element occupies four slots with `a0` deepest, so the copy is four picks
/// at a *constant* depth: each push shifts the remainder by one, which exactly
/// cancels the step from `a_i` to `a_{i+1}`.
///
/// A pick depth is a script number of at most four bytes, which bounds `d`.
pub fn copy(d: usize) -> (r: Script)
    requires
        4 * d + 3 < 0x80000000,
    ensures
        r.code() == copy_code(d as int),
        forall|s: Seq<Ext>, c: Ctx, v: Seq<Item>, w: Seq<Item>|
            d < s.len() && c.live() ==> #[trigger] vm::run(r.code(), vm::at(c, puts(v, s), w))
                == Some(vm::at(c, put(puts(v, s), s[s.len() - 1 - d]), w)),
{
    proof {
        assert forall|s: Seq<Ext>, c: Ctx, v: Seq<Item>, w: Seq<Item>|
            d < s.len() && c.live() implies #[trigger] vm::run(
            copy_code(d as int),
            vm::at(c, puts(v, s), w),
        ) == Some(vm::at(c, put(puts(v, s), s[s.len() - 1 - d]), w)) by {
            lemma_copy(c, v, w, s, d as int);
        }
        reveal(copy_code);
    }
    let mut r = Script::new();
    let mut i: usize = 0;
    while i < D
        invariant
            i <= D,
            4 * d + 3 < 0x80000000,
            r.code() == vm::flat(i as nat, copy_pick_codes(d as int)),
        decreases D - i,
    {
        r = r.then_script(Script::new().num((4 * d + 3) as i64).op(Opcode::Pick));
        i = i + 1;
    }
    r
}

/// The code of [`push_one`].
#[verifier::opaque]
pub open spec fn push_one_code() -> Seq<Instr> {
    vm::nil().push(vm::k(1)).push(vm::k(0)).push(vm::k(0)).push(vm::k(0))
}

/// What [`push_one`] does.
pub proof fn lemma_push_one(c: Ctx, v: Seq<Item>, w: Seq<Item>)
    requires
        c.live(),
    ensures
        vm::run(push_one_code(), vm::at(c, v, w)) == Some(vm::at(c, put(v, ext::eone()), w)),
{
    reveal(push_one_code);
    broadcast use vm::group_run;

}

/// Push the multiplicative identity, `1 + 0X + 0X^2 + 0X^3`.
pub fn push_one() -> (r: Script)
    ensures
        r.code() == push_one_code(),
        pushes(r.code(), ext::eone()),
{
    proof {
        assert forall|c: Ctx, v: Seq<Item>, w: Seq<Item>| c.live() implies #[trigger] vm::run(
            push_one_code(),
            vm::at(c, v, w),
        ) == Some(vm::at(c, put(v, ext::eone()), w)) by {
            lemma_push_one(c, v, w);
        }
        reveal(push_one_code);
    }
    Script::new().num(1).num(0).num(0).num(0)
}

/// The code of [`push_zero`].
#[verifier::opaque]
pub open spec fn push_zero_code() -> Seq<Instr> {
    vm::nil().push(vm::k(0)).push(vm::k(0)).push(vm::k(0)).push(vm::k(0))
}

/// What [`push_zero`] does.
pub proof fn lemma_push_zero(c: Ctx, v: Seq<Item>, w: Seq<Item>)
    requires
        c.live(),
    ensures
        vm::run(push_zero_code(), vm::at(c, v, w)) == Some(vm::at(c, put(v, ext::ezero()), w)),
{
    reveal(push_zero_code);
    broadcast use vm::group_run;

}

/// Push the additive identity.
///
/// Written out rather than as four literal zeros at the call site, so that an
/// accumulator's starting value reads as a field element and not as padding.
pub fn push_zero() -> (r: Script)
    ensures
        r.code() == push_zero_code(),
        pushes(r.code(), ext::ezero()),
{
    proof {
        assert forall|c: Ctx, v: Seq<Item>, w: Seq<Item>| c.live() implies #[trigger] vm::run(
            push_zero_code(),
            vm::at(c, v, w),
        ) == Some(vm::at(c, put(v, ext::ezero()), w)) by {
            lemma_push_zero(c, v, w);
        }
        reveal(push_zero_code);
    }
    Script::new().num(0).num(0).num(0).num(0)
}

/// The code of [`drop_n`].
pub open spec fn drop_n_code(n: nat) -> Seq<Instr> {
    vm::ops(2 * n, Opcode::Drop2)
}

/// What [`drop_n`] does.
pub proof fn lemma_drop_n(c: Ctx, v: Seq<Item>, w: Seq<Item>, s: Seq<Ext>)
    requires
        c.live(),
    ensures
        vm::run(drop_n_code(s.len()), vm::at(c, puts(v, s), w)) == Some(vm::at(c, v, w)),
{
    let x = puts(v, s);
    lemma_puts_len(v, s);
    assert(x =~= v + x.skip(v.len() as int)) by {
        assert forall|i: int| 0 <= i < v.len() implies x[i] == v[i] by {
            lemma_puts_under(v, s, i);
        }
    }
    vm::lemma_drop2(c, v, x.skip(v.len() as int), w, 2 * s.len());
}

/// Drop `n` extension elements.
pub fn drop_n(n: usize) -> (r: Script)
    requires
        2 * n <= usize::MAX,
    ensures
        r.code() == drop_n_code(n as nat),
        forall|s: Seq<Ext>, c: Ctx, v: Seq<Item>, w: Seq<Item>|
            s.len() == n && c.live() ==> #[trigger] vm::run(r.code(), vm::at(c, puts(v, s), w))
                == Some(vm::at(c, v, w)),
{
    proof {
        assert forall|s: Seq<Ext>, c: Ctx, v: Seq<Item>, w: Seq<Item>|
            s.len() == n && c.live() implies #[trigger] vm::run(
            drop_n_code(n as nat),
            vm::at(c, puts(v, s), w),
        ) == Some(vm::at(c, v, w)) by {
            lemma_drop_n(c, v, w, s);
        }
    }
    vm::repeat(2 * n, Opcode::Drop2)
}

/// The code of [`to_altstack`].
pub open spec fn to_altstack_code() -> Seq<Instr> {
    vm::ops(4, Opcode::ToAltStack)
}

/// What [`to_altstack`] does.
pub proof fn lemma_to_altstack(c: Ctx, v: Seq<Item>, w: Seq<Item>, e: Ext)
    requires
        c.live(),
    ensures
        vm::run(to_altstack_code(), vm::at(c, put(v, e), w)) == Some(vm::at(c, v, park(w, e))),
{
    lemma_put_nums(v, e);
    lemma_park_nums(w, e);
    vm::lemma_to_alt(c, v, vm::nums(e.coeffs()), w);
}

/// Move the top element to the altstack, `a3` first so a matching
/// [`from_altstack`] restores the order.
pub fn to_altstack() -> (r: Script)
    ensures
        r.code() == to_altstack_code(),
        forall|e: Ext, c: Ctx, v: Seq<Item>, w: Seq<Item>|
            c.live() ==> #[trigger] vm::run(r.code(), vm::at(c, put(v, e), w)) == Some(
                vm::at(c, v, park(w, e)),
            ),
{
    proof {
        assert forall|e: Ext, c: Ctx, v: Seq<Item>, w: Seq<Item>|
            c.live() implies #[trigger] vm::run(to_altstack_code(), vm::at(c, put(v, e), w))
            == Some(vm::at(c, v, park(w, e))) by {
            lemma_to_altstack(c, v, w, e);
        }
    }
    vm::repeat(D, Opcode::ToAltStack)
}

/// The code of [`from_altstack`].
pub open spec fn from_altstack_code() -> Seq<Instr> {
    vm::ops(4, Opcode::FromAltStack)
}

/// What [`from_altstack`] does.
pub proof fn lemma_from_altstack(c: Ctx, v: Seq<Item>, w: Seq<Item>, e: Ext)
    requires
        c.live(),
    ensures
        vm::run(from_altstack_code(), vm::at(c, v, park(w, e))) == Some(vm::at(c, put(v, e), w)),
{
    lemma_put_nums(v, e);
    lemma_park_nums(w, e);
    vm::lemma_from_alt(c, v, vm::nums(e.coeffs()), w);
}

/// Restore an element parked by [`to_altstack`].
pub fn from_altstack() -> (r: Script)
    ensures
        r.code() == from_altstack_code(),
        forall|e: Ext, c: Ctx, v: Seq<Item>, w: Seq<Item>|
            c.live() ==> #[trigger] vm::run(r.code(), vm::at(c, v, park(w, e))) == Some(
                vm::at(c, put(v, e), w),
            ),
{
    proof {
        assert forall|e: Ext, c: Ctx, v: Seq<Item>, w: Seq<Item>|
            c.live() implies #[trigger] vm::run(from_altstack_code(), vm::at(c, v, park(w, e)))
            == Some(vm::at(c, put(v, e), w)) by {
            lemma_from_altstack(c, v, w, e);
        }
    }
    vm::repeat(D, Opcode::FromAltStack)
}

// ---------------------------------------------------------------------------
// Straight-line code over stacked elements
// ---------------------------------------------------------------------------

/// [`copy`] on a stack of extension elements.
pub broadcast proof fn run_copy(c: Ctx, v: Seq<Item>, w: Seq<Item>, s: Seq<Ext>, d: int)
    requires
        c.live(),
        0 <= d < s.len(),
        4 * d + 3 < 0x80000000,
    ensures
        #[trigger] vm::run(copy_code(d), vm::at(c, puts(v, s), w)) == Some(
            vm::at(c, puts(v, s.push(s[s.len() - 1 - d])), w),
        ),
{
    lemma_copy(c, v, w, s, d);
    lemma_puts_push(v, s, s[s.len() - 1 - d]);
}

/// [`push_one`] on a stack of extension elements.
pub broadcast proof fn run_push_one(c: Ctx, v: Seq<Item>, w: Seq<Item>, s: Seq<Ext>)
    requires
        c.live(),
    ensures
        #[trigger] vm::run(push_one_code(), vm::at(c, puts(v, s), w)) == Some(
            vm::at(c, puts(v, s.push(ext::eone())), w),
        ),
{
    lemma_push_one(c, puts(v, s), w);
    lemma_puts_push(v, s, ext::eone());
}

/// [`push_zero`] on a stack of extension elements.
pub broadcast proof fn run_push_zero(c: Ctx, v: Seq<Item>, w: Seq<Item>, s: Seq<Ext>)
    requires
        c.live(),
    ensures
        #[trigger] vm::run(push_zero_code(), vm::at(c, puts(v, s), w)) == Some(
            vm::at(c, puts(v, s.push(ext::ezero())), w),
        ),
{
    lemma_push_zero(c, puts(v, s), w);
    lemma_puts_push(v, s, ext::ezero());
}

proof fn lemma_top_two(v: Seq<Item>, s: Seq<Ext>)
    requires
        s.len() >= 2,
    ensures
        puts(v, s) == put(put(puts(v, s.drop_last().drop_last()), s[s.len() - 2]), s[s.len() - 1]),
{
    reveal_with_fuel(puts, 3);
}

/// [`add`] on a stack of extension elements.
pub broadcast proof fn run_add(c: Ctx, v: Seq<Item>, w: Seq<Item>, s: Seq<Ext>)
    requires
        c.live(),
        s.len() >= 2,
        s[s.len() - 2].ok(),
        s[s.len() - 1].ok(),
    ensures
        #[trigger] vm::run(add_code(), vm::at(c, puts(v, s), w)) == Some(
            vm::at(
                c,
                puts(
                    v,
                    s.drop_last().drop_last().push(ext::eadd(s[s.len() - 2], s[s.len() - 1])),
                ),
                w,
            ),
        ),
{
    let t = s.drop_last().drop_last();
    lemma_top_two(v, s);
    lemma_add(c, puts(v, t), w, s[s.len() - 2], s[s.len() - 1]);
    lemma_puts_push(v, t, ext::eadd(s[s.len() - 2], s[s.len() - 1]));
}

/// [`sub`] on a stack of extension elements.
pub broadcast proof fn run_sub(c: Ctx, v: Seq<Item>, w: Seq<Item>, s: Seq<Ext>)
    requires
        c.live(),
        s.len() >= 2,
        s[s.len() - 2].ok(),
        s[s.len() - 1].ok(),
    ensures
        #[trigger] vm::run(sub_code(), vm::at(c, puts(v, s), w)) == Some(
            vm::at(
                c,
                puts(
                    v,
                    s.drop_last().drop_last().push(ext::esub(s[s.len() - 2], s[s.len() - 1])),
                ),
                w,
            ),
        ),
{
    let t = s.drop_last().drop_last();
    lemma_top_two(v, s);
    lemma_sub(c, puts(v, t), w, s[s.len() - 2], s[s.len() - 1]);
    lemma_puts_push(v, t, ext::esub(s[s.len() - 2], s[s.len() - 1]));
}

/// [`mul`] on a stack of extension elements.
pub broadcast proof fn run_mul(c: Ctx, v: Seq<Item>, w: Seq<Item>, s: Seq<Ext>)
    requires
        c.live(),
        s.len() >= 2,
        s[s.len() - 2].ok(),
        s[s.len() - 1].ok(),
    ensures
        #[trigger] vm::run(mul_code(), vm::at(c, puts(v, s), w)) == Some(
            vm::at(
                c,
                puts(
                    v,
                    s.drop_last().drop_last().push(ext::emul(s[s.len() - 2], s[s.len() - 1])),
                ),
                w,
            ),
        ),
{
    let t = s.drop_last().drop_last();
    lemma_top_two(v, s);
    lemma_mul(c, puts(v, t), w, s[s.len() - 2], s[s.len() - 1]);
    lemma_puts_push(v, t, ext::emul(s[s.len() - 2], s[s.len() - 1]));
}

/// [`to_altstack`] on a stack of extension elements.
pub broadcast proof fn run_to_altstack(c: Ctx, v: Seq<Item>, w: Seq<Item>, s: Seq<Ext>)
    requires
        c.live(),
        s.len() >= 1,
    ensures
        #[trigger] vm::run(to_altstack_code(), vm::at(c, puts(v, s), w)) == Some(
            vm::at(c, puts(v, s.drop_last()), park(w, s.last())),
        ),
{
    lemma_to_altstack(c, puts(v, s.drop_last()), w, s.last());
}

/// [`from_altstack`] on a stack of extension elements.
pub broadcast proof fn run_from_altstack(c: Ctx, v: Seq<Item>, w: Seq<Item>, s: Seq<Ext>, e: Ext)
    requires
        c.live(),
    ensures
        #[trigger] vm::run(from_altstack_code(), vm::at(c, puts(v, s), park(w, e))) == Some(
            vm::at(c, puts(v, s.push(e)), w),
        ),
{
    lemma_from_altstack(c, puts(v, s), w, e);
    lemma_puts_push(v, s, e);
}

/// Straight-line extension arithmetic, one routine at a time.
pub broadcast group group_run_ext {
    vm::lemma_run_empty,
    vm::lemma_run_concat,
    vm::lemma_push_drop_last,
    run_copy,
    run_push_one,
    run_push_zero,
    run_add,
    run_sub,
    run_mul,
    run_to_altstack,
    run_from_altstack,
}

/// Dropping the topmost of stacked elements.
pub proof fn lemma_drop_top(c: Ctx, v: Seq<Item>, w: Seq<Item>, s: Seq<Ext>, n: nat)
    requires
        c.live(),
        n <= s.len(),
    ensures
        vm::run(drop_n_code(n), vm::at(c, puts(v, s), w)) == Some(
            vm::at(c, puts(v, s.take(s.len() - n)), w),
        ),
{
    let t = s.take(s.len() - n);
    let u = s.skip(s.len() - n);
    assert(s =~= t + u);
    lemma_puts_concat(v, t, u);
    lemma_drop_n(c, puts(v, t), w, u);
}

/// Parking a block of elements, the topmost first.
pub open spec fn park_codes() -> spec_fn(int) -> Seq<Instr> {
    |i: int| to_altstack_code()
}

/// Fetching a block of elements.
pub open spec fn fetch_codes() -> spec_fn(int) -> Seq<Instr> {
    |i: int| from_altstack_code()
}

/// Parking a block of elements reverses it.
pub proof fn lemma_park_block(c: Ctx, v: Seq<Item>, w: Seq<Item>, s: Seq<Ext>)
    requires
        c.live(),
    ensures
        vm::run(vm::flat(s.len(), park_codes()), vm::at(c, puts(v, s), w)) == Some(
            vm::at(c, v, parks(w, s.reverse())),
        ),
{
    let n = s.len();
    let f = park_codes();
    let st = |i: int| vm::at(c, puts(v, s.take(n - i)), parks(w, s.reverse().take(i)));
    assert forall|i: int| 0 <= i < n implies #[trigger] vm::run(f(i), st(i)) == Some(st(i + 1)) by {
        let t = s.take(n - i);
        let p = s.reverse().take(i);
        run_to_altstack(c, v, parks(w, p), t);
        assert(t.drop_last() =~= s.take(n - i - 1));
        assert(p.push(t.last()) =~= s.reverse().take(i + 1));
        lemma_parks_push(w, p, t.last());
    }
    vm::lemma_run_flat(n, f, st);
    assert(s.take(n as int) =~= s);
    assert(s.take(0) =~= Seq::<Ext>::empty());
    assert(s.reverse().take(0) =~= Seq::<Ext>::empty());
    assert(s.reverse().take(n as int) =~= s.reverse());
}

/// Fetching a parked block restores it.
pub proof fn lemma_fetch_block(c: Ctx, v: Seq<Item>, w: Seq<Item>, s: Seq<Ext>)
    requires
        c.live(),
    ensures
        vm::run(vm::flat(s.len(), fetch_codes()), vm::at(c, v, parks(w, s.reverse()))) == Some(
            vm::at(c, puts(v, s), w),
        ),
{
    let n = s.len();
    let f = fetch_codes();
    let st = |i: int| vm::at(c, puts(v, s.take(i)), parks(w, s.reverse().take(n - i)));
    assert forall|i: int| 0 <= i < n implies #[trigger] vm::run(f(i), st(i)) == Some(st(i + 1)) by {
        let p = s.reverse().take(n - i - 1);
        assert(s.reverse().take(n - i) =~= p.push(s[i]));
        lemma_parks_push(w, p, s[i]);
        run_from_altstack(c, v, parks(w, p), s.take(i), s[i]);
        assert(s.take(i).push(s[i]) =~= s.take(i + 1));
    }
    vm::lemma_run_flat(n, f, st);
    assert(s.take(0) =~= Seq::<Ext>::empty());
    assert(s.take(n as int) =~= s);
    assert(s.reverse().take(0) =~= Seq::<Ext>::empty());
    assert(s.reverse().take(n as int) =~= s.reverse());
}

/// Park the topmost `n` elements.
pub(crate) fn park_block(n: usize) -> (r: Script)
    ensures
        r.code() == vm::flat(n as nat, park_codes()),
{
    let mut r = Script::new();
    let mut i: usize = 0;
    while i < n
        invariant
            i <= n,
            r.code() == vm::flat(i as nat, park_codes()),
        decreases n - i,
    {
        r = r.then_script(to_altstack());
        i = i + 1;
    }
    r
}

/// Fetch `n` parked elements.
pub(crate) fn fetch_block(n: usize) -> (r: Script)
    ensures
        r.code() == vm::flat(n as nat, fetch_codes()),
{
    let mut r = Script::new();
    let mut i: usize = 0;
    while i < n
        invariant
            i <= n,
            r.code() == vm::flat(i as nat, fetch_codes()),
        decreases n - i,
    {
        r = r.then_script(from_altstack());
        i = i + 1;
    }
    r
}

} // verus!
