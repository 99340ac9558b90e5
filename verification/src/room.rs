//! How much room a script needs.
//!
//! Bitcoin caps the stack and the altstack at a thousand items between them, and
//! a script that quietly exceeded that would be unusable on chain no matter what
//! it costs in weight. [`vm::run`] knows no such limit; [`within`] says that a
//! run keeps to one.

use crate::arith;
use crate::constants::{
    EXTERNAL_FINAL, EXTERNAL_INITIAL, INITIAL_ROUNDS, INTERNAL, INTERNAL_ROUNDS,
};
use crate::disprove;
use crate::field;
use crate::layers;
use crate::permutation;
use crate::poseidon2;
use crate::script::{Instr, Opcode};
use crate::vm::{self, Vm};
use crate::winternitz;
use vstd::prelude::*;

verus! {

/// The items on both stacks.
pub open spec fn load(m: Vm) -> int {
    (m.stack.len() + m.alt.len()) as int
}

/// Whether no more than `b` items lie on the two stacks at any point of a run,
/// its start and its end included.
pub open spec fn within(p: Seq<Instr>, m: Vm, b: int) -> bool
    decreases p.len(),
{
    if p.len() == 0 {
        load(m) <= b
    } else {
        within(p.drop_last(), m, b) && match vm::run(p, m) {
            None => true,
            Some(m1) => load(m1) <= b,
        }
    }
}

/// How many items an instruction adds.
pub open spec fn growth(i: Instr) -> int {
    match i {
        Instr::Op(op) => match op {
            Opcode::Dup | Opcode::Over | Opcode::Tuck => 1,
            Opcode::Drop2 | Opcode::EqualVerify => -2,
            Opcode::ToAltStack
            | Opcode::FromAltStack
            | Opcode::Pick
            | Opcode::Rot
            | Opcode::Swap
            | Opcode::Sub1
            | Opcode::Not
            | Opcode::NotEqual0
            | Opcode::Hash160 => 0,
            _ => -1,
        },
        _ => 1,
    }
}

/// Code that adds `n` items in all and never has more than `h` items beyond
/// those it started with. In a branch not taken it does nothing.
#[verifier::opaque]
pub open spec fn needs(p: Seq<Instr>, n: int, h: int) -> bool {
    forall|m: Vm|
        #![trigger vm::run(p, m)]
        if m.ctx.live() {
            within(p, m, load(m) + h) && match vm::run(p, m) {
                None => true,
                Some(m1) => load(m1) == load(m) + n && m1.ctx == m.ctx,
            }
        } else {
            within(p, m, load(m)) && vm::run(p, m) == Some(m)
        }
}

// ---------------------------------------------------------------------------
// Putting code together
// ---------------------------------------------------------------------------

proof fn lemma_within_grows(p: Seq<Instr>, m: Vm, b: int, c: int)
    requires
        within(p, m, b),
        b <= c,
    ensures
        within(p, m, c),
    decreases p.len(),
{
    if p.len() > 0 {
        lemma_within_grows(p.drop_last(), m, b, c);
    }
}

proof fn lemma_within_end(p: Seq<Instr>, m: Vm, b: int)
    requires
        within(p, m, b),
    ensures
        vm::run(p, m) matches Some(m1) ==> load(m1) <= b,
{
}

proof fn lemma_within_concat(p: Seq<Instr>, q: Seq<Instr>, m: Vm, b: int)
    requires
        within(p, m, b),
        vm::run(p, m) matches Some(m1) ==> within(q, m1, b),
    ensures
        within(p + q, m, b),
    decreases q.len(),
{
    if q.len() == 0 {
        assert(p + q =~= p);
    } else {
        let r = q.drop_last();
        assert((p + q).drop_last() =~= p + r);
        lemma_within_concat(p, r, m, b);
        vm::lemma_run_concat(p, q, m);
    }
}

proof fn lemma_within_push(p: Seq<Instr>, i: Instr, m: Vm, b: int)
    requires
        within(p, m, b),
        vm::run(p.push(i), m) matches Some(m1) ==> load(m1) <= b,
    ensures
        within(p.push(i), m, b),
{
    vm::lemma_push_drop_last(p, i);
}

/// What one instruction adds.
proof fn lemma_growth(i: Instr, m: Vm)
    requires
        vm::plain(i),
    ensures
        m.ctx.live() ==> (vm::step(i, m) matches Some(m1) ==> load(m1) == load(m) + growth(i)
            && m1.ctx == m.ctx),
        !m.ctx.live() ==> vm::step(i, m) == Some(m),
{
}

/// No instructions need no room.
pub proof fn lemma_nil()
    ensures
        needs(Seq::<Instr>::empty(), 0, 0),
{
    reveal(needs);
}

/// The larger of two numbers.
pub open spec fn larger(a: int, b: int) -> int {
    if a < b {
        b
    } else {
        a
    }
}

/// A bound stays a bound when it is raised.
pub proof fn lemma_more(p: Seq<Instr>, n: int, h: int, k: int)
    requires
        needs(p, n, h),
        h <= k,
    ensures
        needs(p, n, k),
{
    reveal(needs);
    assert forall|m: Vm| m.ctx.live() implies within(p, m, load(m) + k) by {
        assert(vm::run(p, m) == vm::run(p, m));
        lemma_within_grows(p, m, load(m) + h, load(m) + k);
    }
}

/// One more instruction.
pub proof fn lemma_push(p: Seq<Instr>, n: int, h: int, i: Instr)
    requires
        needs(p, n, h),
        vm::plain(i),
    ensures
        needs(p.push(i), n + growth(i), larger(h, n + growth(i))),
{
    reveal(needs);
    let q = p.push(i);
    let k = larger(h, n + growth(i));
    assert forall|m: Vm| m.ctx.live() implies within(q, m, load(m) + k) && (match #[trigger] vm::run(
        q,
        m,
    ) {
        None => true,
        Some(m1) => load(m1) == load(m) + n + growth(i) && m1.ctx == m.ctx,
    }) by {
        vm::lemma_run_push(p, i, m);
        lemma_within_grows(p, m, load(m) + h, load(m) + k);
        if let Some(m1) = vm::run(p, m) {
            lemma_growth(i, m1);
        }
        lemma_within_push(p, i, m, load(m) + k);
    }
    assert forall|m: Vm| !m.ctx.live() implies within(q, m, load(m)) && #[trigger] vm::run(q, m)
        == Some(m) by {
        vm::lemma_run_push(p, i, m);
        assert(vm::run(p, m) == Some(m));
        lemma_growth(i, m);
        lemma_within_push(p, i, m, load(m));
    }
}

/// One script after another.
pub proof fn lemma_concat(p: Seq<Instr>, n: int, h: int, q: Seq<Instr>, a: int, b: int)
    requires
        needs(p, n, h),
        needs(q, a, b),
    ensures
        needs(p + q, n + a, larger(h, n + b)),
{
    reveal(needs);
    let k = larger(h, n + b);
    assert forall|m: Vm| m.ctx.live() implies within(p + q, m, load(m) + k) && (
    match #[trigger] vm::run(p + q, m) {
        None => true,
        Some(m1) => load(m1) == load(m) + n + a && m1.ctx == m.ctx,
    }) by {
        vm::lemma_run_concat(p, q, m);
        lemma_within_grows(p, m, load(m) + h, load(m) + k);
        if let Some(m1) = vm::run(p, m) {
            assert(vm::run(q, m1) == vm::run(q, m1));
            lemma_within_grows(q, m1, load(m1) + b, load(m) + k);
        }
        lemma_within_concat(p, q, m, load(m) + k);
    }
    assert forall|m: Vm| !m.ctx.live() implies within(p + q, m, load(m)) && #[trigger] vm::run(
        p + q,
        m,
    ) == Some(m) by {
        vm::lemma_run_concat(p, q, m);
        assert(vm::run(p, m) == Some(m));
        assert(vm::run(q, m) == Some(m));
        lemma_within_concat(p, q, m, load(m));
    }
}

/// A delimiter moves no item but the condition it takes.
proof fn lemma_delimiter(op: Opcode, m: Vm, b: int)
    requires
        vm::is_control(op),
        load(m) <= b,
    ensures
        within(vm::nil().push(vm::o(op)), m, b),
        vm::run(vm::nil().push(vm::o(op)), m) == vm::control(op, m),
{
    vm::lemma_run_empty(m);
    vm::lemma_run_push(vm::nil(), vm::o(op), m);
    assert(within(vm::nil(), m, b));
    lemma_within_push(vm::nil(), vm::o(op), m, b);
}

/// A conditional without an alternative, whose body keeps the height.
pub proof fn lemma_if(body: Seq<Instr>, h: int)
    requires
        needs(body, 0, h),
    ensures
        needs(vm::if_code(body), -1, larger(0, h - 1)),
{
    reveal(needs);
    let head = vm::nil().push(vm::o(Opcode::If));
    let p = vm::if_code(body);
    assert forall|m: Vm| m.ctx.live() implies within(p, m, load(m) + larger(0, h - 1)) && (
    match #[trigger] vm::run(p, m) {
        None => true,
        Some(m1) => load(m1) == load(m) - 1 && m1.ctx == m.ctx,
    }) by {
        let b = load(m) + larger(0, h - 1);
        lemma_delimiter(Opcode::If, m, b);
        vm::lemma_run_concat(head, body, m);
        vm::lemma_run_push(head + body, vm::o(Opcode::EndIf), m);
        vm::lemma_enter_live(m.ctx);
        if let Some(m1) = vm::run(head, m) {
            assert(load(m1) == load(m) - 1);
            assert(vm::run(body, m1) == vm::run(body, m1));
            if m1.ctx.live() {
                lemma_within_grows(body, m1, load(m1) + h, b);
            } else {
                lemma_within_grows(body, m1, load(m1), b);
            }
        }
        lemma_within_concat(head, body, m, b);
        lemma_within_push(head + body, vm::o(Opcode::EndIf), m, b);
    }
    assert forall|m: Vm| !m.ctx.live() implies within(p, m, load(m)) && #[trigger] vm::run(p, m)
        == Some(m) by {
        lemma_delimiter(Opcode::If, m, load(m));
        vm::lemma_run_concat(head, body, m);
        vm::lemma_run_push(head + body, vm::o(Opcode::EndIf), m);
        vm::lemma_enter_live(m.ctx);
        let m1 = Vm { ctx: m.ctx.enter(false), ..m };
        assert(vm::run(body, m1) == Some(m1));
        assert(Vm { ctx: m1.ctx.leave(), ..m1 } =~= m);
        lemma_within_concat(head, body, m, load(m));
        lemma_within_push(head + body, vm::o(Opcode::EndIf), m, load(m));
    }
}

/// A conditional whose branches change the height alike.
pub proof fn lemma_if_else(yes: Seq<Instr>, no: Seq<Instr>, n: int, h: int)
    requires
        needs(yes, n, h),
        needs(no, n, h),
    ensures
        needs(vm::if_else_code(yes, no), n - 1, larger(0, h - 1)),
{
    reveal(needs);
    let head = vm::nil().push(vm::o(Opcode::If));
    let front = head + yes;
    let turn = front.push(vm::o(Opcode::Else));
    let body = turn + no;
    let p = vm::if_else_code(yes, no);
    assert forall|m: Vm| m.ctx.live() implies within(p, m, load(m) + larger(0, h - 1)) && (
    match #[trigger] vm::run(p, m) {
        None => true,
        Some(m1) => load(m1) == load(m) + n - 1 && m1.ctx == m.ctx,
    }) by {
        let b = load(m) + larger(0, h - 1);
        lemma_delimiter(Opcode::If, m, b);
        vm::lemma_run_concat(head, yes, m);
        vm::lemma_run_push(front, vm::o(Opcode::Else), m);
        vm::lemma_run_concat(turn, no, m);
        vm::lemma_run_push(body, vm::o(Opcode::EndIf), m);
        vm::lemma_enter_live(m.ctx);
        if let Some(m1) = vm::run(head, m) {
            assert(load(m1) == load(m) - 1);
            assert(vm::run(yes, m1) == vm::run(yes, m1));
            if m1.ctx.live() {
                lemma_within_grows(yes, m1, load(m1) + h, b);
            } else {
                lemma_within_grows(yes, m1, load(m1), b);
            }
        }
        lemma_within_concat(head, yes, m, b);
        lemma_within_end(front, m, b);
        lemma_within_push(front, vm::o(Opcode::Else), m, b);
        if let Some(m2) = vm::run(turn, m) {
            assert(vm::run(no, m2) == vm::run(no, m2));
            if m2.ctx.live() {
                lemma_within_grows(no, m2, load(m2) + h, b);
            } else {
                lemma_within_end(turn, m, b);
                lemma_within_grows(no, m2, load(m2), b);
            }
        }
        lemma_within_concat(turn, no, m, b);
        lemma_within_end(body, m, b);
        lemma_within_push(body, vm::o(Opcode::EndIf), m, b);
    }
    assert forall|m: Vm| !m.ctx.live() implies within(p, m, load(m)) && #[trigger] vm::run(p, m)
        == Some(m) by {
        let b = load(m);
        lemma_delimiter(Opcode::If, m, b);
        vm::lemma_run_concat(head, yes, m);
        vm::lemma_run_push(front, vm::o(Opcode::Else), m);
        vm::lemma_run_concat(turn, no, m);
        vm::lemma_run_push(body, vm::o(Opcode::EndIf), m);
        vm::lemma_enter_live(m.ctx);
        let m1 = Vm { ctx: m.ctx.enter(false), ..m };
        assert(vm::run(yes, m1) == Some(m1));
        let m2 = Vm { ctx: m.ctx.enter(true), ..m };
        assert(vm::run(turn, m) == Some(m2));
        assert(vm::run(no, m2) == Some(m2));
        assert(Vm { ctx: m2.ctx.leave(), ..m2 } =~= m);
        lemma_within_concat(head, yes, m, b);
        lemma_within_push(front, vm::o(Opcode::Else), m, b);
        lemma_within_concat(turn, no, m, b);
        lemma_within_push(body, vm::o(Opcode::EndIf), m, b);
    }
}

/// A loop whose bodies each add `d` items, `d` being at most one.
pub proof fn lemma_flat(k: nat, f: spec_fn(int) -> Seq<Instr>, d: int, h: int, top: int)
    requires
        d <= 1,
        forall|i: int| 0 <= i < k ==> needs(#[trigger] f(i), d, h),
        0 <= top,
        d == 1 ==> k + h <= top + 1,
        d < 1 ==> h <= top,
    ensures
        needs(vm::flat(k, f), k * d, top),
    decreases k,
{
    if k == 0 {
        lemma_nil();
        lemma_more(Seq::<Instr>::empty(), 0, 0, top);
        assert(k * d == 0) by (nonlinear_arith)
            requires
                k == 0,
        ;
    } else {
        let j = (k - 1) as nat;
        lemma_flat(j, f, d, h, top);
        assert(needs(f(k - 1), d, h));
        lemma_concat(vm::flat(j, f), j * d, top, f(k - 1), d, h);
        assert(k * d == j * d + d && (d <= 0 ==> j * d <= 0) && (d == 1 ==> j * d == j))
            by (nonlinear_arith)
            requires
                k == j + 1,
        ;
        lemma_more(vm::flat(k, f), k * d, larger(top, j * d + h), top);
    }
}

/// Copies of an opcode that adds nothing.
pub proof fn lemma_ops(k: nat, op: Opcode)
    requires
        !vm::is_control(op),
        growth(vm::o(op)) <= 0,
    ensures
        needs(vm::ops(k, op), k * growth(vm::o(op)), 0),
    decreases k,
{
    let g = growth(vm::o(op));
    if k == 0 {
        assert(vm::ops(k, op) =~= Seq::empty());
        lemma_nil();
    } else {
        let j = (k - 1) as nat;
        lemma_ops(j, op);
        lemma_push(vm::ops(j, op), j * g, 0, vm::o(op));
        assert(vm::ops(k, op) =~= vm::ops(j, op).push(vm::o(op)));
        assert(j * g <= 0 && k * g == j * g + g) by (nonlinear_arith)
            requires
                g <= 0,
                k == j + 1,
        ;
    }
}

/// One instruction.
proof fn lemma_one(a: Instr)
    requires
        vm::plain(a),
    ensures
        needs(vm::nil().push(a), growth(a), larger(0, growth(a))),
{
    lemma_nil();
    lemma_push(vm::nil(), 0, 0, a);
}

/// Two instructions.
proof fn lemma_two(a: Instr, b: Instr)
    requires
        vm::plain(a),
        vm::plain(b),
    ensures
        needs(
            vm::nil().push(a).push(b),
            growth(a) + growth(b),
            larger(larger(0, growth(a)), growth(a) + growth(b)),
        ),
{
    lemma_one(a);
    lemma_push(vm::nil().push(a), growth(a), larger(0, growth(a)), b);
}

/// Three instructions.
proof fn lemma_three(a: Instr, b: Instr, c: Instr)
    requires
        vm::plain(a),
        vm::plain(b),
        vm::plain(c),
    ensures
        needs(
            vm::nil().push(a).push(b).push(c),
            growth(a) + growth(b) + growth(c),
            larger(
                larger(larger(0, growth(a)), growth(a) + growth(b)),
                growth(a) + growth(b) + growth(c),
            ),
        ),
{
    lemma_two(a, b);
    lemma_push(
        vm::nil().push(a).push(b),
        growth(a) + growth(b),
        larger(larger(0, growth(a)), growth(a) + growth(b)),
        c,
    );
}

// ---------------------------------------------------------------------------
// The field
// ---------------------------------------------------------------------------

proof fn lemma_adjust_canonical()
    ensures
        needs(field::adjust_canonical_code(), 0, 2),
{
    reveal(field::adjust_canonical_code);
    let head = vm::nil().push(vm::o(Opcode::Dup)).push(vm::k(0)).push(vm::o(Opcode::LessThan));
    let body = vm::nil().push(vm::k(arith::modulus())).push(vm::o(Opcode::Add));
    lemma_three(vm::o(Opcode::Dup), vm::k(0), vm::o(Opcode::LessThan));
    lemma_two(vm::k(arith::modulus()), vm::o(Opcode::Add));
    lemma_if(body, 1);
    lemma_concat(head, 1, 2, vm::if_code(body), -1, 0);
}

/// The room [`field::add`] needs.
pub proof fn lemma_add()
    ensures
        needs(field::add_code(), -1, 1),
{
    reveal(field::add_code);
    reveal(field::to_twisted_code);
    let t = field::to_twisted_code();
    lemma_nil();
    lemma_two(vm::k(arith::modulus()), vm::o(Opcode::Sub));
    lemma_concat(vm::nil(), 0, 0, t, 0, 1);
    lemma_push(vm::nil() + t, 0, 1, vm::o(Opcode::Add));
    lemma_adjust_canonical();
    lemma_concat(
        (vm::nil() + t).push(vm::o(Opcode::Add)),
        -1,
        1,
        field::adjust_canonical_code(),
        0,
        2,
    );
}

/// The room [`field::sub`] needs.
pub proof fn lemma_sub()
    ensures
        needs(field::sub_code(), -1, 1),
{
    reveal(field::sub_code);
    lemma_one(vm::o(Opcode::Sub));
    lemma_adjust_canonical();
    lemma_concat(
        vm::nil().push(vm::o(Opcode::Sub)),
        -1,
        0,
        field::adjust_canonical_code(),
        0,
        2,
    );
}

/// The room [`field::double`] needs.
pub proof fn lemma_double()
    ensures
        needs(field::double_code(), 0, 2),
{
    reveal(field::double_code);
    lemma_one(vm::o(Opcode::Dup));
    lemma_add();
    lemma_concat(vm::nil().push(vm::o(Opcode::Dup)), 1, 1, field::add_code(), -1, 1);
}

proof fn lemma_kept_adjust()
    ensures
        needs(field::kept_adjust_code(), 0, 2),
{
    reveal(field::kept_adjust_code);
    let head = vm::nil().push(vm::o(Opcode::Dup)).push(vm::k(0)).push(vm::o(Opcode::LessThan));
    let body = vm::pick_code(2).push(vm::o(Opcode::Add));
    lemma_three(vm::o(Opcode::Dup), vm::k(0), vm::o(Opcode::LessThan));
    lemma_three(vm::k(2), vm::o(Opcode::Pick), vm::o(Opcode::Add));
    lemma_if(body, 1);
    lemma_concat(head, 1, 2, vm::if_code(body), -1, 0);
}

/// The room arithmetic with the modulus on the stack needs.
proof fn lemma_kept()
    ensures
        needs(field::kept_add_code(), -1, 1),
        needs(field::kept_sub_code(), -1, 1),
        needs(field::kept_double_code(), 0, 2),
{
    reveal(field::kept_add_code);
    reveal(field::kept_sub_code);
    reveal(field::kept_double_code);
    let adjust = field::kept_adjust_code();
    let pick = vm::pick_code(3).push(vm::o(Opcode::Sub));
    lemma_kept_adjust();
    lemma_three(vm::k(3), vm::o(Opcode::Pick), vm::o(Opcode::Sub));
    lemma_push(pick, 0, 1, vm::o(Opcode::Add));
    lemma_concat(pick.push(vm::o(Opcode::Add)), -1, 1, adjust, 0, 2);
    lemma_one(vm::o(Opcode::Sub));
    lemma_concat(vm::nil().push(vm::o(Opcode::Sub)), -1, 0, adjust, 0, 2);
    lemma_one(vm::o(Opcode::Dup));
    lemma_concat(vm::nil().push(vm::o(Opcode::Dup)), 1, 1, field::kept_add_code(), -1, 1);
}

proof fn lemma_digit(d: int)
    ensures
        needs(field::digit_code(d), 0, 2),
{
    reveal(field::digit_code);
    let over = vm::nil().push(vm::o(Opcode::Over));
    let twice = field::kept_double_code();
    lemma_kept();
    lemma_nil();
    lemma_one(vm::o(Opcode::Over));
    lemma_concat(over, 1, 1, field::kept_add_code(), -1, 1);
    lemma_concat(over, 1, 1, field::kept_sub_code(), -1, 1);
    lemma_concat(twice, 0, 2, over + field::kept_add_code(), 0, 2);
    lemma_concat(twice, 0, 2, over + field::kept_sub_code(), 0, 2);
    lemma_concat(twice, 0, 2, vm::nil(), 0, 0);
}

/// The room [`field::mul_by_constant`] needs.
pub proof fn lemma_mul_by_constant(c: int)
    ensures
        needs(field::mul_by_constant_code(c), 0, 4),
{
    reveal(field::mul_by_constant_code);
    let r = arith::red(c);
    if r == 0 {
        lemma_two(vm::o(Opcode::Drop), vm::k(0));
        lemma_more(field::mul_by_constant_code(c), 0, 0, 4);
    } else if r == 1 {
        lemma_nil();
        lemma_more(field::mul_by_constant_code(c), 0, 0, 4);
    } else {
        let d = field::naf_digits(r as nat);
        let n = (d.len() - 1) as nat;
        let f = field::digit_codes(d);
        let head = vm::nil().push(vm::k(arith::modulus())).push(vm::o(Opcode::Swap)).push(
            vm::o(Opcode::Dup),
        );
        assert forall|i: int| 0 <= i < n implies needs(#[trigger] f(i), 0, 2) by {
            lemma_digit(d[d.len() - 2 - i] as int);
        }
        lemma_flat(n, f, 0, 2, 2);
        lemma_three(vm::k(arith::modulus()), vm::o(Opcode::Swap), vm::o(Opcode::Dup));
        lemma_concat(head, 2, 2, vm::flat(n, f), 0, 2);
        let body = head + vm::flat(n, f);
        let parked = body.push(vm::o(Opcode::ToAltStack));
        lemma_push(body, 2, 4, vm::o(Opcode::ToAltStack));
        lemma_push(parked, 2, 4, vm::o(Opcode::Drop2));
        lemma_push(parked.push(vm::o(Opcode::Drop2)), 0, 4, vm::o(Opcode::FromAltStack));
    }
}

proof fn lemma_bit(i: nat)
    ensures
        needs(field::bit_code(i), 1, 2),
{
    reveal(field::bit_code);
    let q = vm::k(vstd::arithmetic::power2::pow2(i) as int);
    let head = vm::nil().push(vm::o(Opcode::Dup)).push(q).push(vm::o(Opcode::GreaterThanOrEqual));
    let yes = vm::nil().push(q).push(vm::o(Opcode::Sub)).push(vm::k(1));
    let no = vm::nil().push(vm::k(0));
    lemma_three(vm::o(Opcode::Dup), q, vm::o(Opcode::GreaterThanOrEqual));
    lemma_three(q, vm::o(Opcode::Sub), vm::k(1));
    lemma_one(vm::k(0));
    lemma_if_else(yes, no, 1, 1);
    lemma_concat(head, 1, 2, vm::if_else_code(yes, no), 0, 0);
    lemma_push(head + vm::if_else_code(yes, no), 1, 2, vm::o(Opcode::ToAltStack));
}

proof fn lemma_bits_to_altstack()
    ensures
        needs(field::bits_to_altstack_code(), 30, 31),
{
    reveal(field::bits_to_altstack_code);
    let f = field::bit_codes(31);
    assert forall|j: int| 0 <= j < 30 implies needs(#[trigger] f(j), 1, 2) by {
        lemma_bit((30 - j) as nat);
    }
    lemma_flat(30, f, 1, 2, 31);
}

proof fn lemma_first_bit()
    ensures
        needs(field::first_bit_code(), 1, 2),
{
    reveal(field::first_bit_code);
    let over = vm::nil().push(vm::o(Opcode::Over));
    let body = over + field::add_code();
    let zero = vm::nil().push(vm::k(0)).push(vm::o(Opcode::Swap));
    lemma_one(vm::o(Opcode::Over));
    lemma_add();
    lemma_concat(over, 1, 1, field::add_code(), -1, 1);
    lemma_if(body, 2);
    lemma_two(vm::k(0), vm::o(Opcode::Swap));
    lemma_concat(zero, 1, 1, vm::if_code(body), -1, 1);
    let a = zero + vm::if_code(body);
    lemma_push(a, 0, 2, vm::o(Opcode::Swap));
    let b = a.push(vm::o(Opcode::Swap));
    lemma_double();
    lemma_concat(b, 0, 2, field::double_code(), 0, 2);
    let c = b + field::double_code();
    lemma_push(c, 0, 2, vm::k(arith::modulus()));
    let d = c.push(vm::k(arith::modulus()));
    lemma_push(d, 1, 2, vm::o(Opcode::Swap));
    lemma_push(d.push(vm::o(Opcode::Swap)), 1, 2, vm::o(Opcode::Rot));
}

proof fn lemma_mul_bit(i: int)
    ensures
        needs(field::mul_bit_code(i), -1, 1),
{
    reveal(field::mul_bit_code);
    let fetch = vm::nil().push(vm::o(Opcode::FromAltStack));
    let over = vm::nil().push(vm::o(Opcode::Over));
    let swap = vm::nil().push(vm::o(Opcode::Swap));
    let twice = field::kept_double_code();
    let body = over + field::kept_add_code();
    lemma_one(vm::o(Opcode::FromAltStack));
    lemma_one(vm::o(Opcode::Over));
    lemma_one(vm::o(Opcode::Swap));
    lemma_kept();
    lemma_concat(over, 1, 1, field::kept_add_code(), -1, 1);
    lemma_if(body, 2);
    lemma_concat(fetch, 0, 0, vm::if_code(body), -1, 1);
    let front = fetch + vm::if_code(body);
    lemma_concat(swap, 0, 0, twice, 0, 2);
    lemma_push(swap + twice, 0, 2, vm::o(Opcode::Swap));
    lemma_concat(front, -1, 1, (swap + twice).push(vm::o(Opcode::Swap)), 0, 2);
    lemma_nil();
    lemma_concat(front, -1, 1, vm::nil(), 0, 0);
}

/// The room [`field::mul`] needs: the bits of one operand. The modulus is laid
/// down when the first of them is gone, and adds nothing to that.
pub proof fn lemma_mul()
    ensures
        needs(field::mul_code(), -1, 32),
{
    reveal(field::mul_code);
    let bits = field::bits_to_altstack_code();
    let first = field::first_bit_code();
    let f = field::mul_bit_codes();
    lemma_bits_to_altstack();
    lemma_first_bit();
    lemma_concat(bits, 30, 31, first, 1, 2);
    assert forall|i: int| 0 <= i < 30 implies needs(#[trigger] f(i), -1, 1) by {
        lemma_mul_bit(i);
    }
    lemma_flat(30, f, -1, 1, 1);
    lemma_concat(bits + first, 31, 32, vm::flat(30, f), -30, 1);
    let body = bits + first + vm::flat(30, f);
    let parked = body.push(vm::o(Opcode::ToAltStack));
    lemma_push(body, 1, 32, vm::o(Opcode::ToAltStack));
    lemma_push(parked, 1, 32, vm::o(Opcode::Drop2));
    lemma_push(parked.push(vm::o(Opcode::Drop2)), -1, 32, vm::o(Opcode::FromAltStack));
}

/// The room [`field::cube`] needs.
pub proof fn lemma_cube()
    ensures
        needs(field::cube_code(), 0, 34),
{
    reveal(field::cube_code);
    let head = vm::nil().push(vm::o(Opcode::Dup)).push(vm::o(Opcode::Dup));
    lemma_two(vm::o(Opcode::Dup), vm::o(Opcode::Dup));
    lemma_mul();
    lemma_concat(head, 2, 2, field::mul_code(), -1, 32);
    lemma_concat(head + field::mul_code(), 1, 34, field::mul_code(), -1, 32);
}

// ---------------------------------------------------------------------------
// The permutation
// ---------------------------------------------------------------------------

proof fn lemma_scale(c: int)
    ensures
        needs(permutation::scale_code(c), 0, 4),
{
    reveal(permutation::scale_code);
    let dup = vm::nil().push(vm::o(Opcode::Dup));
    let twice = field::double_code();
    lemma_nil();
    lemma_more(vm::nil(), 0, 0, 4);
    lemma_two(vm::o(Opcode::Drop), vm::k(0));
    lemma_more(vm::nil().push(vm::o(Opcode::Drop)).push(vm::k(0)), 0, 0, 4);
    lemma_one(vm::o(Opcode::Dup));
    lemma_double();
    lemma_more(twice, 0, 2, 4);
    lemma_add();
    lemma_concat(dup, 1, 1, twice, 0, 2);
    lemma_concat(dup + twice, 1, 3, field::add_code(), -1, 1);
    lemma_more(dup + twice + field::add_code(), 0, 3, 4);
    lemma_concat(twice, 0, 2, twice, 0, 2);
    lemma_more(twice + twice, 0, 2, 4);
    lemma_mul_by_constant(c);
}

proof fn lemma_terms(row: Seq<int>, i: int, n: nat)
    ensures
        needs(
            permutation::terms_code(row, i, n),
            if permutation::started(row, n) {
                1
            } else {
                0
            },
            6,
        ),
    decreases n,
{
    if n == 0 {
        lemma_nil();
        lemma_more(vm::nil(), 0, 0, 6);
    } else {
        let j = n - 1;
        let before = permutation::terms_code(row, i, j as nat);
        lemma_terms(row, i, j as nat);
        lemma_scale(row[j]);
        lemma_add();
        let scale = permutation::scale_code(row[j]);
        if row[j] != 0 && permutation::started(row, j as nat) {
            let copy = permutation::copy_input_code(j, i + 1);
            lemma_two(vm::k((15 - j) + (i + 1)), vm::o(Opcode::Pick));
            lemma_concat(before, 1, 6, copy, 1, 1);
            lemma_concat(before + copy, 2, 6, scale, 0, 4);
            lemma_concat(before + copy + scale, 2, 6, field::add_code(), -1, 1);
        } else if row[j] != 0 {
            let copy = permutation::copy_input_code(j, i);
            lemma_two(vm::k((15 - j) + i), vm::o(Opcode::Pick));
            lemma_concat(before, 0, 6, copy, 1, 1);
            lemma_concat(before + copy, 1, 6, scale, 0, 4);
        }
    }
}

proof fn lemma_output(row: Seq<int>, i: int)
    ensures
        needs(permutation::output_code(row, i), 1, 6),
{
    reveal(permutation::output_code);
    lemma_terms(row, i, 16);
    if !permutation::started(row, 16) {
        lemma_push(permutation::terms_code(row, i, 16), 0, 6, vm::k(0));
    }
}

proof fn lemma_linear_layer(m: Seq<Seq<int>>)
    ensures
        needs(permutation::linear_layer_code(m), 0, 21),
{
    reveal(permutation::linear_layer_code);
    let f = permutation::output_codes(m);
    assert forall|i: int| 0 <= i < 16 implies needs(#[trigger] f(i), 1, 6) by {
        lemma_output(m[i], i);
    }
    lemma_flat(16, f, 1, 6, 21);
    lemma_ops(16, Opcode::ToAltStack);
    lemma_ops(8, Opcode::Drop2);
    lemma_ops(16, Opcode::FromAltStack);
    let a = vm::flat(16, f);
    let b = a + vm::ops(16, Opcode::ToAltStack);
    let c = b + vm::ops(8, Opcode::Drop2);
    lemma_concat(a, 16, 21, vm::ops(16, Opcode::ToAltStack), 0, 0);
    lemma_concat(b, 16, 21, vm::ops(8, Opcode::Drop2), -16, 0);
    lemma_concat(c, 0, 21, vm::ops(16, Opcode::FromAltStack), 0, 0);
}

proof fn lemma_mds_light()
    ensures
        needs(permutation::mds_light_code(), 0, 21),
{
    reveal(permutation::mds_light_code);
    let a = permutation::linear_layer_code(layers::block_matrix());
    let b = permutation::linear_layer_code(layers::column_matrix());
    lemma_linear_layer(layers::block_matrix());
    lemma_linear_layer(layers::column_matrix());
    lemma_concat(a, 0, 21, b, 0, 21);
}

proof fn lemma_share(i: int)
    ensures
        needs(permutation::share_code(i), 1, 5),
{
    reveal(permutation::share_code);
    let copy = permutation::copy_input_code(i, i + 1);
    let scale = permutation::scale_code(layers::share(i));
    let sum = vm::pick_code(i + 1);
    lemma_two(vm::k((15 - i) + (i + 1)), vm::o(Opcode::Pick));
    lemma_two(vm::k(i + 1), vm::o(Opcode::Pick));
    lemma_scale(layers::share(i));
    lemma_add();
    lemma_concat(copy, 1, 1, scale, 0, 4);
    lemma_concat(copy + scale, 1, 5, sum, 1, 1);
    lemma_concat(copy + scale + sum, 2, 5, field::add_code(), -1, 1);
}

proof fn lemma_internal_linear()
    ensures
        needs(permutation::internal_linear_code(), 0, 21),
{
    reveal(permutation::internal_linear_code);
    let f = permutation::share_codes();
    assert forall|i: int| 0 <= i < 16 implies needs(#[trigger] f(i), 1, 5) by {
        lemma_share(i);
    }
    lemma_flat(16, f, 1, 5, 20);
    lemma_output(layers::ones(), 0);
    lemma_ops(16, Opcode::ToAltStack);
    lemma_ops(8, Opcode::Drop2);
    lemma_ops(1, Opcode::Drop);
    lemma_ops(16, Opcode::FromAltStack);
    let sum = permutation::output_code(layers::ones(), 0);
    let a = sum + vm::flat(16, f);
    let b = a + vm::ops(16, Opcode::ToAltStack);
    let c = b + vm::ops(8, Opcode::Drop2);
    let d = c + vm::ops(1, Opcode::Drop);
    lemma_concat(sum, 1, 6, vm::flat(16, f), 16, 20);
    lemma_concat(a, 17, 21, vm::ops(16, Opcode::ToAltStack), 0, 0);
    lemma_concat(b, 17, 21, vm::ops(8, Opcode::Drop2), -16, 0);
    lemma_concat(c, 1, 21, vm::ops(1, Opcode::Drop), -1, 0);
    lemma_concat(d, 0, 21, vm::ops(16, Opcode::FromAltStack), 0, 0);
}

proof fn lemma_sbox(c: int)
    ensures
        needs(permutation::add_rc_and_sbox_code(c), 0, 34),
{
    reveal(permutation::add_rc_and_sbox_code);
    let constant = vm::nil().push(vm::k(c));
    lemma_nil();
    lemma_one(vm::k(c));
    lemma_add();
    lemma_cube();
    lemma_concat(constant, 1, 1, field::add_code(), -1, 1);
    lemma_concat(constant + field::add_code(), 0, 2, field::cube_code(), 0, 34);
    lemma_concat(vm::nil(), 0, 0, field::cube_code(), 0, 34);
}

proof fn lemma_external_sbox_layer(rc: Seq<u32>)
    ensures
        needs(permutation::external_sbox_layer_code(rc), 0, 34),
{
    reveal(permutation::external_sbox_layer_code);
    let f = permutation::park_sbox_codes(rc);
    assert forall|j: int| 0 <= j < 16 implies needs(#[trigger] f(j), 0, 34) by {
        let c = rc[15 - j] as int;
        lemma_sbox(c);
        lemma_push(permutation::add_rc_and_sbox_code(c), 0, 34, vm::o(Opcode::ToAltStack));
    }
    lemma_flat(16, f, 0, 34, 34);
    lemma_ops(16, Opcode::FromAltStack);
    lemma_concat(vm::flat(16, f), 0, 34, vm::ops(16, Opcode::FromAltStack), 0, 0);
}

proof fn lemma_internal_sbox_layer(c: int)
    ensures
        needs(permutation::internal_sbox_layer_code(c), 0, 34),
{
    reveal(permutation::internal_sbox_layer_code);
    let a = vm::ops(15, Opcode::ToAltStack);
    lemma_ops(15, Opcode::ToAltStack);
    lemma_ops(15, Opcode::FromAltStack);
    lemma_sbox(c);
    lemma_concat(a, 0, 0, permutation::add_rc_and_sbox_code(c), 0, 34);
    lemma_concat(
        a + permutation::add_rc_and_sbox_code(c),
        0,
        34,
        vm::ops(15, Opcode::FromAltStack),
        0,
        0,
    );
}

/// The room a round needs.
pub proof fn lemma_round(k: int)
    ensures
        needs(permutation::round_code(k), 0, 34),
{
    let mds = permutation::mds_light_code();
    lemma_mds_light();
    lemma_internal_linear();
    if k == 0 {
        lemma_more(mds, 0, 21, 34);
    } else if k <= INITIAL_ROUNDS {
        let rc = EXTERNAL_INITIAL@[k - 1]@;
        lemma_external_sbox_layer(rc);
        lemma_concat(permutation::external_sbox_layer_code(rc), 0, 34, mds, 0, 21);
    } else if k <= INITIAL_ROUNDS + INTERNAL_ROUNDS {
        let c = INTERNAL@[k - 1 - INITIAL_ROUNDS] as int;
        lemma_internal_sbox_layer(c);
        lemma_concat(
            permutation::internal_sbox_layer_code(c),
            0,
            34,
            permutation::internal_linear_code(),
            0,
            21,
        );
    } else {
        let rc = EXTERNAL_FINAL@[k - 1 - INITIAL_ROUNDS - INTERNAL_ROUNDS]@;
        lemma_external_sbox_layer(rc);
        lemma_concat(permutation::external_sbox_layer_code(rc), 0, 34, mds, 0, 21);
    }
}

/// The room the permutation needs.
pub proof fn lemma_permute()
    ensures
        needs(permutation::permute_code(), 0, 34),
{
    reveal(permutation::permute_code);
    let f = permutation::round_codes();
    assert forall|k: int| 0 <= k < poseidon2::round_count() implies needs(#[trigger] f(k), 0, 34) by {
        lemma_round(k);
    }
    lemma_flat(poseidon2::round_count(), f, 0, 34, 34);
}

// ---------------------------------------------------------------------------
// Commitments and the disprove predicate
// ---------------------------------------------------------------------------

proof fn lemma_verify_digit(pk: Seq<u8>)
    ensures
        needs(winternitz::verify_digit_code(pk), -1, 2),
{
    reveal(winternitz::verify_digit_code);
    reveal(winternitz::walk_step_code);
    let step = vm::nil().push(vm::o(Opcode::Dup)).push(vm::o(Opcode::NotEqual0));
    let hash = vm::nil().push(vm::o(Opcode::Sub1)).push(vm::o(Opcode::Swap)).push(
        vm::o(Opcode::Hash160),
    );
    lemma_two(vm::o(Opcode::Dup), vm::o(Opcode::NotEqual0));
    lemma_three(vm::o(Opcode::Sub1), vm::o(Opcode::Swap), vm::o(Opcode::Hash160));
    lemma_push(hash, 0, 0, vm::o(Opcode::Swap));
    let body = hash.push(vm::o(Opcode::Swap));
    lemma_if(body, 0);
    lemma_concat(step, 1, 1, vm::if_code(body), -1, 0);
    let f = winternitz::walk_step_codes();
    assert forall|i: int| 0 <= i < 15 implies needs(#[trigger] f(i), 0, 1) by {}
    lemma_flat(15, f, 0, 1, 1);
    let a = vm::nil().push(vm::o(Opcode::Dup)).push(vm::o(Opcode::ToAltStack)).push(vm::k(15));
    lemma_three(vm::o(Opcode::Dup), vm::o(Opcode::ToAltStack), vm::k(15));
    lemma_push(a, 2, 2, vm::o(Opcode::Swap));
    let b = a.push(vm::o(Opcode::Swap));
    lemma_push(b, 2, 2, vm::o(Opcode::Sub));
    let c = b.push(vm::o(Opcode::Sub));
    lemma_concat(c, 1, 2, vm::flat(15, f), 0, 1);
    let d = c + vm::flat(15, f);
    lemma_push(d, 1, 2, vm::k(0));
    let e = d.push(vm::k(0));
    lemma_push(e, 2, 2, vm::o(Opcode::EqualVerify));
    let g = e.push(vm::o(Opcode::EqualVerify));
    lemma_push(g, 0, 2, Instr::Data(pk));
    let h = g.push(Instr::Data(pk));
    lemma_push(h, 1, 2, vm::o(Opcode::EqualVerify));
    lemma_push(h.push(vm::o(Opcode::EqualVerify)), -1, 2, vm::o(Opcode::FromAltStack));
}

proof fn lemma_times16()
    ensures
        needs(winternitz::times16_code(), 0, 1),
{
    reveal(winternitz::times16_code);
    let dup = vm::o(Opcode::Dup);
    let add = vm::o(Opcode::Add);
    let p1 = vm::nil().push(dup).push(add);
    let p2 = p1.push(dup).push(add);
    let p3 = p2.push(dup).push(add);
    lemma_two(dup, add);
    lemma_push(p1, 0, 1, dup);
    lemma_push(p1.push(dup), 1, 1, add);
    lemma_push(p2, 0, 1, dup);
    lemma_push(p2.push(dup), 1, 1, add);
    lemma_push(p3, 0, 1, dup);
    lemma_push(p3.push(dup), 1, 1, add);
}

proof fn lemma_element()
    ensures
        needs(winternitz::element_code(), -7, 3),
{
    reveal(winternitz::element_code);
    reveal(winternitz::element_digit_code);
    let t = winternitz::times16_code();
    let a = vm::nil().push(vm::o(Opcode::FromAltStack)).push(vm::o(Opcode::Tuck)).push(
        vm::o(Opcode::Swap),
    );
    lemma_three(vm::o(Opcode::FromAltStack), vm::o(Opcode::Tuck), vm::o(Opcode::Swap));
    lemma_times16();
    lemma_concat(a, 1, 1, t, 0, 1);
    let b = a + t;
    lemma_push(b, 1, 2, vm::o(Opcode::Add));
    let c = b.push(vm::o(Opcode::Add));
    lemma_push(c, 0, 2, vm::o(Opcode::Swap));
    let d = c.push(vm::o(Opcode::Swap));
    lemma_push(d, 0, 2, vm::o(Opcode::Rot));
    let e = d.push(vm::o(Opcode::Rot));
    lemma_push(e, 0, 2, vm::o(Opcode::Add));
    lemma_push(e.push(vm::o(Opcode::Add)), -1, 2, vm::o(Opcode::Swap));
    let f = winternitz::element_digit_codes();
    assert forall|i: int| 0 <= i < 8 implies needs(#[trigger] f(i), -1, 2) by {}
    lemma_flat(8, f, -1, 2, 2);
    let zero = vm::nil().push(vm::k(0));
    lemma_one(vm::k(0));
    lemma_concat(zero, 1, 1, vm::flat(8, f), -8, 2);
    lemma_push(zero + vm::flat(8, f), -7, 3, vm::o(Opcode::Swap));
}

/// The room opening one signed state needs, beside the signature itself.
proof fn lemma_verify(pks: Seq<Seq<u8>>)
    requires
        pks.len() == 131,
    ensures
        needs(winternitz::verify_code(pks, 16), -246, 2),
{
    reveal(winternitz::verify_code);
    reveal(winternitz::compare_sums_code);
    reveal_with_fuel(winternitz::digit_count, 4);
    let chains = winternitz::chain_codes(pks);
    assert forall|i: int| 0 <= i < 131 implies needs(#[trigger] chains(i), -1, 2) by {
        lemma_verify_digit(pks[i]);
        lemma_push(winternitz::verify_digit_code(pks[i]), -1, 2, vm::o(Opcode::ToAltStack));
    }
    lemma_flat(131, chains, -1, 2, 2);
    let a = vm::flat(131, chains);
    lemma_push(a, -131, 2, vm::k(0));
    let b = a.push(vm::k(0));
    let checks = winternitz::check_digit_codes();
    let t = winternitz::times16_code();
    assert forall|i: int| 0 <= i < 3 implies needs(#[trigger] checks(i), -1, 1) by {
        lemma_times16();
        lemma_push(t, 0, 1, vm::o(Opcode::FromAltStack));
        lemma_push(t.push(vm::o(Opcode::FromAltStack)), 0, 1, vm::o(Opcode::Add));
    }
    lemma_flat(3, checks, -1, 1, 1);
    assert(winternitz::digit_count(120 * 16) == 3);
    lemma_concat(b, -130, 2, vm::flat(3, checks), -3, 1);
    let c = b + vm::flat(3, checks);
    lemma_push(c, -133, 2, vm::k(0));
    let d = c.push(vm::k(0));
    let elements = winternitz::element_codes();
    assert forall|i: int| 0 <= i < 16 implies needs(#[trigger] elements(i), -7, 3) by {
        lemma_element();
    }
    lemma_flat(16, elements, -7, 3, 3);
    lemma_concat(d, -132, 2, vm::flat(16, elements), -112, 3);
    let e = d + vm::flat(16, elements);
    let roll = vm::roll_code(17);
    lemma_two(vm::k(17), vm::o(Opcode::Roll));
    lemma_push(roll, 0, 1, vm::o(Opcode::Add));
    let sum = roll.push(vm::o(Opcode::Add));
    lemma_push(sum, -1, 1, vm::k(1920));
    lemma_push(sum.push(vm::k(1920)), 0, 1, vm::o(Opcode::EqualVerify));
    lemma_concat(e, -244, 2, winternitz::compare_sums_code(16), -2, 1);
    let g = e + winternitz::compare_sums_code(16);
    let reorder = winternitz::reorder_codes();
    assert forall|i: int| 0 <= i < 15 implies needs(#[trigger] reorder(i), 0, 1) by {
        lemma_two(vm::k(i + 1), vm::o(Opcode::Roll));
    }
    lemma_flat(15, reorder, 0, 1, 1);
    lemma_concat(g, -246, 2, vm::flat(15, reorder), 0, 1);
}

proof fn lemma_open_states(pks_out: Seq<Seq<u8>>, pks_in: Seq<Seq<u8>>)
    requires
        pks_out.len() == 131,
        pks_in.len() == 131,
    ensures
        needs(disprove::open_states_code(pks_out, pks_in), -492, 2),
{
    reveal(disprove::open_states_code);
    let a = winternitz::verify_code(pks_in, 16);
    let b = a + vm::ops(16, Opcode::ToAltStack);
    let c = b + winternitz::verify_code(pks_out, 16);
    lemma_verify(pks_in);
    lemma_verify(pks_out);
    lemma_ops(16, Opcode::ToAltStack);
    lemma_ops(16, Opcode::FromAltStack);
    lemma_concat(a, -246, 2, vm::ops(16, Opcode::ToAltStack), 0, 0);
    lemma_concat(b, -246, 2, winternitz::verify_code(pks_out, 16), -246, 2);
    lemma_concat(c, -492, 2, vm::ops(16, Opcode::FromAltStack), 0, 0);
}

proof fn lemma_differs()
    ensures
        needs(disprove::differs_code(16), -31, 1),
{
    reveal(disprove::differs_code);
    let f = disprove::compare_codes(16);
    assert forall|j: int| 0 <= j < 16 implies needs(#[trigger] f(j), -1, 1) by {
        let roll = vm::roll_code(16 - j);
        lemma_two(vm::k(16 - j), vm::o(Opcode::Roll));
        lemma_push(roll, 0, 1, vm::o(Opcode::Equal));
        lemma_push(roll.push(vm::o(Opcode::Equal)), -1, 1, vm::o(Opcode::ToAltStack));
    }
    lemma_flat(16, f, -1, 1, 1);
    lemma_push(vm::flat(16, f), -16, 1, vm::k(1));
    let g = disprove::fold_codes();
    assert forall|j: int| 0 <= j < 16 implies needs(#[trigger] g(j), -1, 0) by {
        lemma_two(vm::o(Opcode::FromAltStack), vm::o(Opcode::BoolAnd));
    }
    lemma_flat(16, g, -1, 0, 0);
    let a = vm::flat(16, f).push(vm::k(1));
    lemma_concat(a, -15, 1, vm::flat(16, g), -16, 0);
    lemma_push(a + vm::flat(16, g), -31, 1, vm::o(Opcode::Not));
}

// ---------------------------------------------------------------------------
// The limit
// ---------------------------------------------------------------------------

/// The most items Bitcoin allows on the two stacks together.
pub open spec fn limit() -> int {
    1000
}

proof fn lemma_fits(p: Seq<Instr>, n: int, h: int, m: Vm)
    requires
        needs(p, n, h),
        m.ctx.live(),
    ensures
        within(p, m, load(m) + h),
{
    reveal(needs);
    assert(vm::run(p, m) == vm::run(p, m));
}

/// The permutation fits the stack: it never holds more than 34 items beyond
/// those that lay on the two stacks when it began, its own state being among
/// those, so it runs wherever that much room is left.
pub proof fn permutation_fits_the_stack(m: Vm)
    requires
        m.ctx.live(),
        load(m) + 34 <= limit(),
    ensures
        within(permutation::permute_code(), m, load(m) + 34),
        within(permutation::permute_code(), m, limit()),
{
    lemma_permute();
    lemma_fits(permutation::permute_code(), 0, 34, m);
    lemma_within_grows(permutation::permute_code(), m, load(m) + 34, limit());
}

/// A committed chunk fits the stack: beside its witness, two signatures of 131
/// chains with two items each, it never holds more than two items.
pub proof fn a_committed_chunk_fits_the_stack(
    m: Vm,
    first: int,
    len: nat,
    pks_out: Seq<Seq<u8>>,
    pks_in: Seq<Seq<u8>>,
)
    requires
        m.ctx.live(),
        load(m) == 4 * 131,
        pks_out.len() == 131,
        pks_in.len() == 131,
    ensures
        within(
            disprove::chunk_committed_code(first, len, pks_out, pks_in),
            m,
            load(m) + 2,
        ),
        within(disprove::chunk_committed_code(first, len, pks_out, pks_in), m, limit()),
{
    let f = disprove::chunk_round_codes(first);
    let a = disprove::open_states_code(pks_out, pks_in);
    let p = disprove::chunk_committed_code(first, len, pks_out, pks_in);
    lemma_open_states(pks_out, pks_in);
    assert forall|t: int| 0 <= t < len implies needs(#[trigger] f(t), 0, 34) by {
        lemma_round(first + t);
    }
    lemma_flat(len, f, 0, 34, 34);
    lemma_concat(a, -492, 2, vm::flat(len, f), 0, 34);
    lemma_differs();
    lemma_concat(a + vm::flat(len, f), -492, 2, disprove::differs_code(16), -31, 1);
    lemma_fits(p, -523, 2, m);
    lemma_within_grows(p, m, load(m) + 2, limit());
}

/// A committed round fits the stack, with the room a chunk needs.
pub proof fn a_committed_round_fits_the_stack(
    m: Vm,
    i: int,
    pks_out: Seq<Seq<u8>>,
    pks_in: Seq<Seq<u8>>,
)
    requires
        m.ctx.live(),
        load(m) == 4 * 131,
        pks_out.len() == 131,
        pks_in.len() == 131,
    ensures
        within(disprove::round_committed_code(i, pks_out, pks_in), m, load(m) + 2),
        within(disprove::round_committed_code(i, pks_out, pks_in), m, limit()),
{
    let a = disprove::open_states_code(pks_out, pks_in);
    let p = disprove::round_committed_code(i, pks_out, pks_in);
    lemma_open_states(pks_out, pks_in);
    lemma_round(i);
    lemma_differs();
    lemma_concat(permutation::round_code(i), 0, 34, disprove::differs_code(16), -31, 1);
    lemma_concat(a, -492, 2, disprove::round_code(i), -31, 34);
    lemma_fits(p, -523, 2, m);
    lemma_within_grows(p, m, load(m) + 2, limit());
}

} // verus!
