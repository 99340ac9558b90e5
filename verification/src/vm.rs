//! What a script does: the stack machine of Bitcoin Script, for the opcodes
//! this library emits.
//!
//! The machine is the one a taproot leaf runs under. Stack items are byte
//! strings; an arithmetic operand is a script number of at most four bytes; and
//! the argument of a conditional is exactly the empty string or the byte one.
//! The cap on the number of items is apart from that, in [`crate::room`].

use crate::script::{self, Instr, Opcode, Script};
use vstd::prelude::*;

verus! {

/// A stack item.
pub type Item = Seq<u8>;

/// What does not change while instructions outside conditionals run: the
/// enclosing branches, and the hash function behind `OP_HASH160`.
///
/// Every contract holds for every hash function, so nothing rests on what
/// `OP_HASH160` computes.
#[verifier::ext_equal]
pub struct Ctx {
    /// One entry per enclosing conditional: whether its branch is taken.
    pub cond: Seq<bool>,
    /// The hash function.
    pub hash: spec_fn(Seq<u8>) -> Seq<u8>,
}

/// The machine: main stack and altstack, the top of each at the end.
#[verifier::ext_equal]
pub struct Vm {
    pub ctx: Ctx,
    pub stack: Seq<Item>,
    pub alt: Seq<Item>,
}

impl Ctx {
    /// Whether instructions are executed rather than skipped.
    pub open spec fn live(self) -> bool {
        forall|i: int| 0 <= i < self.cond.len() ==> #[trigger] self.cond[i]
    }

    /// Inside one more conditional.
    pub open spec fn enter(self, taken: bool) -> Ctx {
        Ctx { cond: self.cond.push(taken), hash: self.hash }
    }

    /// Out of the innermost conditional.
    pub open spec fn leave(self) -> Ctx {
        Ctx { cond: self.cond.drop_last(), hash: self.hash }
    }
}

/// The machine with the given stack and altstack.
pub open spec fn at(c: Ctx, v: Seq<Item>, w: Seq<Item>) -> Vm {
    Vm { ctx: c, stack: v, alt: w }
}

// ---------------------------------------------------------------------------
// Script numbers
// ---------------------------------------------------------------------------

/// The item that represents `n`: its minimal script number.
#[verifier::opaque]
pub open spec fn num(n: int) -> Item {
    script::script_num(n)
}

/// The items that represent a sequence of integers.
pub open spec fn nums(s: Seq<int>) -> Seq<Item> {
    Seq::new(s.len(), |i: int| num(s[i]))
}

/// Distinct sequences of integers have distinct items.
pub proof fn lemma_nums_eq(s: Seq<int>, t: Seq<int>)
    ensures
        (nums(s) == nums(t)) <==> (s == t),
{
    if nums(s) == nums(t) {
        assert(nums(s).len() == nums(t).len());
        assert forall|i: int| 0 <= i < s.len() implies s[i] == t[i] by {
            assert(nums(s)[i] == nums(t)[i]);
            lemma_num_eq(s[i], t[i]);
        }
        assert(s =~= t);
    }
}

/// The item a boolean is represented by.
pub open spec fn flag(b: bool) -> Item {
    num(if b { 1 } else { 0 })
}

/// The value of little-endian bytes.
pub open spec fn le_value(b: Seq<u8>) -> int
    decreases b.len(),
{
    if b.len() == 0 {
        0
    } else {
        b[0] as int + 256 * le_value(b.subrange(1, b.len() as int))
    }
}

/// The number an item of any length represents: little-endian with the sign on
/// the top bit.
#[verifier::opaque]
pub open spec fn num_value(x: Item) -> int {
    if x.len() == 0 {
        0
    } else if x.last() >= 128 {
        -le_value(x.drop_last().push((x.last() - 128) as u8))
    } else {
        le_value(x)
    }
}

/// Reading an item as an arithmetic operand, which is at most four bytes long.
#[verifier::opaque]
pub open spec fn as_num(x: Item) -> Option<int> {
    if x.len() > 4 {
        None
    } else {
        Some(num_value(x))
    }
}

proof fn lemma_le_bytes(n: nat)
    ensures
        le_value(script::le_bytes(n)) == n,
        n > 0 ==> script::le_bytes(n).len() > 0 && script::le_bytes(n).last() > 0,
    decreases n,
{
    let b = script::le_bytes(n);
    if n > 0 {
        lemma_le_bytes(n / 256);
        let tail = script::le_bytes(n / 256);
        assert(b =~= seq![(n % 256) as u8] + tail);
        assert(b.subrange(1, b.len() as int) =~= tail);
        if n / 256 == 0 {
            assert(tail.len() == 0);
            assert(b.last() == n % 256);
        } else {
            assert(b.last() == tail.last());
        }
    }
}

proof fn lemma_le_bytes_len(n: nat)
    requires
        n < 0x80000000,
    ensures
        script::le_bytes(n).len() <= 4,
        script::le_bytes(n).len() == 4 ==> script::le_bytes(n).last() < 128,
{
    reveal_with_fuel(script::le_bytes, 5);
    let a = n / 256;
    let b = a / 256;
    let d = b / 256;
    assert(d < 128);
    assert(d / 256 == 0);
    assert(script::le_bytes(n) == if n == 0 { Seq::empty() } else { seq![(n % 256) as u8] + script::le_bytes(a) });
    assert(script::le_bytes(a) == if a == 0 { Seq::empty() } else { seq![(a % 256) as u8] + script::le_bytes(b) });
    assert(script::le_bytes(b) == if b == 0 { Seq::empty() } else { seq![(b % 256) as u8] + script::le_bytes(d) });
    assert(script::le_bytes(d) =~= if d == 0 { Seq::empty() } else { seq![(d % 256) as u8] });
}

proof fn lemma_le_value_push_zero(b: Seq<u8>)
    ensures
        le_value(b.push(0u8)) == le_value(b),
    decreases b.len(),
{
    let e = b.push(0u8);
    if b.len() == 0 {
        assert(e.subrange(1, e.len() as int) =~= Seq::<u8>::empty());
        assert(le_value(e.subrange(1, e.len() as int)) == 0);
        assert(e[0] == 0);
    } else {
        assert(e.subrange(1, e.len() as int) =~= b.subrange(1, b.len() as int).push(0u8));
        lemma_le_value_push_zero(b.subrange(1, b.len() as int));
    }
}

proof fn lemma_le_bytes_long(n: nat)
    requires
        n >= 0x80000000,
    ensures
        script::le_bytes(n).len() >= 4,
        script::le_bytes(n).len() == 4 ==> script::le_bytes(n).last() >= 128,
{
    let a = n / 256;
    let b = a / 256;
    let d = b / 256;
    let e = d / 256;
    assert(d >= 128);
    assert(script::le_bytes(n) == seq![(n % 256) as u8] + script::le_bytes(a));
    assert(script::le_bytes(a) == seq![(a % 256) as u8] + script::le_bytes(b));
    assert(script::le_bytes(b) == seq![(b % 256) as u8] + script::le_bytes(d));
    assert(script::le_bytes(d) == seq![(d % 256) as u8] + script::le_bytes(e));
    if e > 0 {
        lemma_le_bytes(e);
    } else {
        assert(script::le_bytes(e).len() == 0);
        assert(script::le_bytes(d).last() == d % 256);
    }
}

/// A minimal script number reads back as the number.
proof fn lemma_num_value(n: int)
    ensures
        num_value(num(n)) == n,
{
    reveal(num);
    reveal(num_value);
    let x = script::script_num(n);
    if n != 0 {
        let a: nat = (if n < 0 {
            -n
        } else {
            n
        }) as nat;
        let m = script::le_bytes(a);
        lemma_le_bytes(a);
        if m.last() >= 128 {
            lemma_le_value_push_zero(m);
            assert(x.drop_last() =~= m);
        } else {
            assert(x.drop_last() =~= m.drop_last());
            assert(m.drop_last().push(m.last()) =~= m);
        }
    }
}

/// A number within four bytes is an operand.
pub broadcast proof fn lemma_as_num(n: int)
    requires
        -0x80000000 < n < 0x80000000,
    ensures
        #[trigger] as_num(num(n)) == Some(n),
{
    lemma_num_value(n);
    reveal(num);
    reveal(as_num);
    lemma_le_bytes_len(
        (if n < 0 {
            -n
        } else {
            n
        }) as nat,
    );
}

/// A number that does not fit four bytes is no operand.
pub proof fn lemma_as_num_long(n: int)
    requires
        n <= -0x80000000 || 0x80000000 <= n,
    ensures
        as_num(num(n)) is None,
{
    reveal(num);
    reveal(as_num);
    lemma_le_bytes_long(
        (if n < 0 {
            -n
        } else {
            n
        }) as nat,
    );
}

/// An operand lies within four bytes.
pub proof fn lemma_as_num_range(x: Item)
    requires
        as_num(x) is Some,
    ensures
        -0x80000000 < as_num(x)->0 < 0x80000000,
{
    reveal(as_num);
    reveal(num_value);
    let lo = if x.len() == 0 {
        x
    } else if x.last() >= 128 {
        x.drop_last().push((x.last() - 128) as u8)
    } else {
        x
    };
    lemma_le_value_range(lo);
}

proof fn lemma_le_value_range(x: Seq<u8>)
    requires
        x.len() <= 4,
        x.len() > 0 ==> x.last() < 128,
    ensures
        0 <= le_value(x) < 0x80000000,
{
    reveal_with_fuel(le_value, 5);
    if x.len() > 0 {
        let a = x.subrange(1, x.len() as int);
        if a.len() > 0 {
            let b = a.subrange(1, a.len() as int);
            if b.len() > 0 {
                let d = b.subrange(1, b.len() as int);
                assert(d.len() > 0 ==> d.last() == x.last());
                assert(d.len() > 0 ==> d[0] == d.last());
                assert(d.len() > 0 ==> le_value(d.subrange(1, d.len() as int)) == 0);
            }
        }
    }
}

/// Distinct numbers have distinct items.
pub proof fn lemma_num_eq(a: int, b: int)
    ensures
        (num(a) == num(b)) <==> (a == b),
{
    lemma_num_value(a);
    lemma_num_value(b);
}

/// The two flags are different items.
pub broadcast proof fn lemma_flag(b: bool)
    ensures
        #![trigger flag(b)]
        num(1) != num(0),
{
    lemma_num_eq(1, 0);
}

// ---------------------------------------------------------------------------
// Execution
// ---------------------------------------------------------------------------

/// The numeric operand `k` items below the top, if there is one.
pub open spec fn arg(v: Seq<Item>, k: int) -> Option<int> {
    if k < v.len() {
        as_num(v[v.len() - 1 - k])
    } else {
        None
    }
}

/// Replace the top item.
pub open spec fn put1(m: Vm, x: Item) -> Option<Vm> {
    Some(Vm { stack: m.stack.drop_last().push(x), ..m })
}

/// Replace the top two items by one.
pub open spec fn put2(m: Vm, x: Item) -> Option<Vm> {
    Some(Vm { stack: m.stack.drop_last().drop_last().push(x), ..m })
}

/// A unary arithmetic opcode.
pub open spec fn unary(op: Opcode, m: Vm) -> Option<Vm> {
    match arg(m.stack, 0) {
        None => None,
        Some(a) => match op {
            Opcode::Sub1 => put1(m, num(a - 1)),
            Opcode::Not => put1(m, flag(a == 0)),
            _ => put1(m, flag(a != 0)),
        },
    }
}

/// A binary arithmetic opcode.
pub open spec fn binary(op: Opcode, m: Vm) -> Option<Vm> {
    match (arg(m.stack, 1), arg(m.stack, 0)) {
        (Some(a), Some(b)) => match op {
            Opcode::Add => put2(m, num(a + b)),
            Opcode::Sub => put2(m, num(a - b)),
            Opcode::BoolAnd => put2(m, flag(a != 0 && b != 0)),
            Opcode::NumEqual => put2(m, flag(a == b)),
            Opcode::LessThan => put2(m, flag(a < b)),
            _ => put2(m, flag(a >= b)),
        },
        _ => None,
    }
}

/// An opcode that only moves items.
pub open spec fn shuffle(op: Opcode, m: Vm) -> Option<Vm> {
    let v = m.stack;
    let n = v.len();
    match op {
        Opcode::ToAltStack => if n < 1 {
            None
        } else {
            Some(Vm { stack: v.drop_last(), alt: m.alt.push(v.last()), ..m })
        },
        Opcode::FromAltStack => if m.alt.len() < 1 {
            None
        } else {
            Some(Vm { stack: v.push(m.alt.last()), alt: m.alt.drop_last(), ..m })
        },
        Opcode::Drop2 => if n < 2 {
            None
        } else {
            Some(Vm { stack: v.drop_last().drop_last(), ..m })
        },
        Opcode::Drop => if n < 1 {
            None
        } else {
            Some(Vm { stack: v.drop_last(), ..m })
        },
        Opcode::Dup => if n < 1 {
            None
        } else {
            Some(Vm { stack: v.push(v.last()), ..m })
        },
        Opcode::Over => if n < 2 {
            None
        } else {
            Some(Vm { stack: v.push(v[n - 2]), ..m })
        },
        Opcode::Rot => if n < 3 {
            None
        } else {
            Some(
                Vm {
                    stack: v.drop_last().drop_last().drop_last().push(v[n - 2]).push(v[n - 1]).push(
                        v[n - 3],
                    ),
                    ..m
                },
            )
        },
        Opcode::Swap => if n < 2 {
            None
        } else {
            Some(Vm { stack: v.drop_last().drop_last().push(v[n - 1]).push(v[n - 2]), ..m })
        },
        _ => if n < 2 {
            None
        } else {
            // OP_TUCK
            Some(
                Vm {
                    stack: v.drop_last().drop_last().push(v[n - 1]).push(v[n - 2]).push(v[n - 1]),
                    ..m
                },
            )
        },
    }
}

/// `OP_PICK` and `OP_ROLL`: the depth is the top item, counted below itself.
pub open spec fn reach(op: Opcode, m: Vm) -> Option<Vm> {
    match arg(m.stack, 0) {
        None => None,
        Some(d) => {
            let v = m.stack.drop_last();
            if 0 <= d < v.len() {
                let k = v.len() - 1 - d;
                if op == Opcode::Pick {
                    Some(Vm { stack: v.push(v[k]), ..m })
                } else {
                    Some(Vm { stack: v.remove(k).push(v[k]), ..m })
                }
            } else {
                None
            }
        },
    }
}

/// `OP_EQUAL` and `OP_EQUALVERIFY`: byte-for-byte comparison of the top two.
pub open spec fn compare(op: Opcode, m: Vm) -> Option<Vm> {
    let v = m.stack;
    let n = v.len();
    if n < 2 {
        None
    } else if op == Opcode::Equal {
        put2(m, flag(v[n - 2] == v[n - 1]))
    } else if v[n - 2] == v[n - 1] {
        Some(Vm { stack: v.drop_last().drop_last(), ..m })
    } else {
        None
    }
}

/// Entering a conditional that is taken when its argument equals `when`.
pub open spec fn branch(m: Vm, when: bool) -> Option<Vm> {
    if m.stack.len() < 1 {
        None
    } else if m.stack.last() == num(1) {
        Some(Vm { stack: m.stack.drop_last(), ctx: m.ctx.enter(when), ..m })
    } else if m.stack.last() == num(0) {
        Some(Vm { stack: m.stack.drop_last(), ctx: m.ctx.enter(!when), ..m })
    } else {
        None
    }
}

/// The opcodes that delimit conditionals.
pub open spec fn is_control(op: Opcode) -> bool {
    op == Opcode::If || op == Opcode::NotIf || op == Opcode::Else || op == Opcode::EndIf
}

/// A delimiter of conditionals.
pub open spec fn control(op: Opcode, m: Vm) -> Option<Vm> {
    match op {
        Opcode::If => if m.ctx.live() {
            branch(m, true)
        } else {
            Some(Vm { ctx: m.ctx.enter(false), ..m })
        },
        Opcode::NotIf => if m.ctx.live() {
            branch(m, false)
        } else {
            Some(Vm { ctx: m.ctx.enter(false), ..m })
        },
        Opcode::Else => if m.ctx.cond.len() == 0 {
            None
        } else {
            Some(Vm { ctx: m.ctx.leave().enter(!m.ctx.cond.last()), ..m })
        },
        _ => if m.ctx.cond.len() == 0 {
            None
        } else {
            Some(Vm { ctx: m.ctx.leave(), ..m })
        },
    }
}

/// An opcode that is executed.
pub open spec fn execute(op: Opcode, m: Vm) -> Option<Vm> {
    match op {
        Opcode::Sub1 | Opcode::Not | Opcode::NotEqual0 => unary(op, m),
        Opcode::Add
        | Opcode::Sub
        | Opcode::BoolAnd
        | Opcode::NumEqual
        | Opcode::LessThan
        | Opcode::GreaterThanOrEqual => binary(op, m),
        Opcode::Pick | Opcode::Roll => reach(op, m),
        Opcode::Equal | Opcode::EqualVerify => compare(op, m),
        Opcode::Hash160 => if m.stack.len() < 1 {
            None
        } else {
            put1(m, (m.ctx.hash)(m.stack.last()))
        },
        _ => shuffle(op, m),
    }
}

/// One instruction. `None` is a script that has failed.
pub open spec fn step(i: Instr, m: Vm) -> Option<Vm> {
    match i {
        Instr::Op(op) => if is_control(op) {
            control(op, m)
        } else if m.ctx.live() {
            execute(op, m)
        } else {
            Some(m)
        },
        Instr::Int(n) => if m.ctx.live() {
            Some(Vm { stack: m.stack.push(num(n)), ..m })
        } else {
            Some(m)
        },
        Instr::Data(d) => if m.ctx.live() {
            Some(Vm { stack: m.stack.push(d), ..m })
        } else {
            Some(m)
        },
    }
}

/// Running instructions in order.
pub open spec fn run(p: Seq<Instr>, m: Vm) -> Option<Vm>
    decreases p.len(),
{
    if p.len() == 0 {
        Some(m)
    } else {
        match run(p.drop_last(), m) {
            None => None,
            Some(m1) => step(p.last(), m1),
        }
    }
}

/// Running `q` after what `p` left.
pub open spec fn resume(r: Option<Vm>, q: Seq<Instr>) -> Option<Vm> {
    match r {
        None => None,
        Some(m) => run(q, m),
    }
}

/// Running no instructions.
pub broadcast proof fn lemma_run_empty(m: Vm)
    ensures
        #[trigger] run(Seq::<Instr>::empty(), m) == Some(m),
{
}

/// Running one more instruction.
pub broadcast proof fn lemma_run_push(p: Seq<Instr>, i: Instr, m: Vm)
    ensures
        #[trigger] run(p.push(i), m) == match run(p, m) {
            None => None,
            Some(m1) => step(i, m1),
        },
{
    assert(p.push(i).drop_last() =~= p);
}

/// Running one script after another.
pub broadcast proof fn lemma_run_concat(p: Seq<Instr>, q: Seq<Instr>, m: Vm)
    ensures
        #[trigger] run(p + q, m) == resume(run(p, m), q),
    decreases q.len(),
{
    if q.len() == 0 {
        assert(p + q =~= p);
    } else {
        lemma_run_concat(p, q.drop_last(), m);
        assert((p + q).drop_last() =~= p + q.drop_last());
        assert((p + q).last() == q.last());
    }
}

/// Dropping what was pushed.
pub broadcast proof fn lemma_push_drop_last<A>(s: Seq<A>, x: A)
    ensures
        #[trigger] s.push(x).drop_last() == s,
{
    assert(s.push(x).drop_last() =~= s);
}

/// What straight-line code does, one instruction at a time.
pub broadcast group group_run {
    lemma_run_empty,
    lemma_run_push,
    lemma_run_concat,
    lemma_push_drop_last,
    lemma_as_num,
    lemma_flag,
}

// ---------------------------------------------------------------------------
// Shapes of code
// ---------------------------------------------------------------------------

/// Shorthand for an opcode.
pub open spec fn o(op: Opcode) -> Instr {
    Instr::Op(op)
}

/// Shorthand for a push of an integer.
pub open spec fn k(n: int) -> Instr {
    Instr::Int(n)
}

/// No code.
#[verifier::inline]
pub open spec fn nil() -> Seq<Instr> {
    Seq::empty()
}

/// Copying the item at depth `d`.
pub open spec fn pick_code(d: int) -> Seq<Instr> {
    nil().push(k(d)).push(o(Opcode::Pick))
}

/// Moving the item at depth `d` to the top.
pub open spec fn roll_code(d: int) -> Seq<Instr> {
    nil().push(k(d)).push(o(Opcode::Roll))
}

/// `body` inside a conditional.
pub open spec fn if_code(body: Seq<Instr>) -> Seq<Instr> {
    (nil().push(o(Opcode::If)) + body).push(o(Opcode::EndIf))
}

/// `body` inside a negated conditional.
pub open spec fn notif_code(body: Seq<Instr>) -> Seq<Instr> {
    (nil().push(o(Opcode::NotIf)) + body).push(o(Opcode::EndIf))
}

/// `yes` in a conditional and `no` in its alternative.
pub open spec fn if_else_code(yes: Seq<Instr>, no: Seq<Instr>) -> Seq<Instr> {
    ((nil().push(o(Opcode::If)) + yes).push(o(Opcode::Else)) + no).push(o(Opcode::EndIf))
}

/// The code of `f(0)`, `f(1)`, ..., `f(n - 1)` in that order.
pub open spec fn flat(n: nat, f: spec_fn(int) -> Seq<Instr>) -> Seq<Instr>
    decreases n,
{
    if n == 0 {
        Seq::empty()
    } else {
        flat((n - 1) as nat, f) + f(n - 1)
    }
}

/// `n` copies of an opcode.
pub open spec fn ops(n: nat, op: Opcode) -> Seq<Instr> {
    Seq::new(n, |i: int| o(op))
}

/// Code that is skipped as a whole when it stands in a branch not taken.
pub open spec fn inert(p: Seq<Instr>) -> bool {
    forall|m: Vm| !m.ctx.live() ==> #[trigger] run(p, m) == Some(m)
}

/// A run through a loop body by body.
pub proof fn lemma_run_flat(n: nat, f: spec_fn(int) -> Seq<Instr>, st: spec_fn(int) -> Vm)
    requires
        forall|i: int| 0 <= i < n ==> #[trigger] run(f(i), st(i)) == Some(st(i + 1)),
    ensures
        run(flat(n, f), st(0)) == Some(st(n as int)),
    decreases n,
{
    broadcast use group_run;

    if n > 0 {
        lemma_run_flat((n - 1) as nat, f, st);
        assert(run(f(n - 1), st(n - 1)) == Some(st(n as int)));
    }
}

/// A run through a loop that fails in body `j`.
pub proof fn lemma_run_flat_fails(
    n: nat,
    f: spec_fn(int) -> Seq<Instr>,
    st: spec_fn(int) -> Vm,
    j: int,
)
    requires
        0 <= j < n,
        forall|i: int| 0 <= i < j ==> #[trigger] run(f(i), st(i)) == Some(st(i + 1)),
        run(f(j), st(j)) is None,
    ensures
        run(flat(n, f), st(0)) is None,
    decreases n,
{
    broadcast use group_run;

    if n - 1 == j {
        lemma_run_flat(j as nat, f, st);
    } else {
        lemma_run_flat_fails((n - 1) as nat, f, st, j);
    }
}

/// No instructions are inert.
pub broadcast proof fn lemma_inert_nil()
    ensures
        #[trigger] inert(Seq::<Instr>::empty()),
{
}

/// Whether an instruction is not a delimiter of conditionals.
pub open spec fn plain(i: Instr) -> bool {
    match i {
        Instr::Op(op) => !is_control(op),
        _ => true,
    }
}

/// An unconditional instruction keeps a script inert.
pub broadcast proof fn lemma_inert_push(p: Seq<Instr>, i: Instr)
    requires
        inert(p),
        plain(i),
    ensures
        #[trigger] inert(p.push(i)),
{
    assert forall|m: Vm| !m.ctx.live() implies #[trigger] run(p.push(i), m) == Some(m) by {
        lemma_run_push(p, i, m);
        assert(run(p, m) == Some(m));
    }
}

/// Inert scripts concatenate to one.
pub broadcast proof fn lemma_inert_concat(p: Seq<Instr>, q: Seq<Instr>)
    requires
        inert(p),
        inert(q),
    ensures
        #[trigger] inert(p + q),
{
    assert forall|m: Vm| !m.ctx.live() implies #[trigger] run(p + q, m) == Some(m) by {
        lemma_run_concat(p, q, m);
        assert(run(p, m) == Some(m));
        assert(run(q, m) == Some(m));
    }
}

/// A run of inert scripts is inert.
pub broadcast proof fn lemma_inert_flat(n: nat, f: spec_fn(int) -> Seq<Instr>)
    requires
        forall|i: int| 0 <= i < n ==> inert(#[trigger] f(i)),
    ensures
        #[trigger] inert(flat(n, f)),
    decreases n,
{
    if n == 0 {
    } else {
        lemma_inert_flat((n - 1) as nat, f);
        assert(inert(f(n - 1)));
        lemma_inert_concat(flat((n - 1) as nat, f), f(n - 1));
    }
}

/// Repeating an unconditional opcode is inert.
pub broadcast proof fn lemma_inert_ops(n: nat, op: Opcode)
    requires
        !is_control(op),
    ensures
        #[trigger] inert(ops(n, op)),
    decreases n,
{
    if n == 0 {
        assert(ops(n, op) =~= Seq::empty());
    } else {
        lemma_inert_ops((n - 1) as nat, op);
        lemma_ops_push(n, op);
        lemma_inert_push(ops((n - 1) as nat, op), o(op));
    }
}

/// Entering a branch and leaving it.
pub proof fn lemma_enter_live(c: Ctx)
    ensures
        c.live() ==> c.enter(true).live(),
        !c.enter(false).live(),
        !c.live() ==> !c.enter(true).live(),
        forall|b: bool| #[trigger] c.enter(b).leave() == c,
{
    assert(!c.enter(false).cond[c.cond.len() as int]);
    if !c.live() {
        let i = choose|i: int| 0 <= i < c.cond.len() && !#[trigger] c.cond[i];
        assert(!c.enter(true).cond[i]);
    }
    assert forall|b: bool| #[trigger] c.enter(b).leave() == c by {
        assert(c.enter(b).leave() =~= c);
    }
}

/// A conditional, taken or not.
pub proof fn lemma_if(
    c: Ctx,
    v: Seq<Item>,
    w: Seq<Item>,
    body: Seq<Instr>,
    taken: bool,
    v2: Seq<Item>,
    w2: Seq<Item>,
)
    requires
        c.live(),
        inert(body),
        taken ==> run(body, at(c.enter(true), v, w)) == Some(at(c.enter(true), v2, w2)),
        !taken ==> v2 == v && w2 == w,
    ensures
        run(if_code(body), at(c, v.push(flag(taken)), w)) == Some(at(c, v2, w2)),
{
    broadcast use group_run;

    lemma_enter_live(c);
    if !taken {
        assert(run(body, at(c.enter(false), v, w)) == Some(at(c.enter(false), v, w)));
    }
}

/// A negated conditional, taken or not.
pub proof fn lemma_notif(
    c: Ctx,
    v: Seq<Item>,
    w: Seq<Item>,
    body: Seq<Instr>,
    taken: bool,
    v2: Seq<Item>,
    w2: Seq<Item>,
)
    requires
        c.live(),
        inert(body),
        taken ==> run(body, at(c.enter(true), v, w)) == Some(at(c.enter(true), v2, w2)),
        !taken ==> v2 == v && w2 == w,
    ensures
        run(notif_code(body), at(c, v.push(flag(!taken)), w)) == Some(at(c, v2, w2)),
{
    broadcast use group_run;

    lemma_enter_live(c);
    if !taken {
        assert(run(body, at(c.enter(false), v, w)) == Some(at(c.enter(false), v, w)));
    }
}

/// A conditional with an alternative.
pub proof fn lemma_if_else(
    c: Ctx,
    v: Seq<Item>,
    w: Seq<Item>,
    yes: Seq<Instr>,
    no: Seq<Instr>,
    taken: bool,
    v2: Seq<Item>,
    w2: Seq<Item>,
)
    requires
        c.live(),
        inert(yes),
        inert(no),
        run(if taken { yes } else { no }, at(c.enter(true), v, w)) == Some(at(c.enter(true), v2, w2)),
    ensures
        run(if_else_code(yes, no), at(c, v.push(flag(taken)), w)) == Some(at(c, v2, w2)),
{
    broadcast use group_run;

    lemma_enter_live(c);
    assert(c.enter(taken).leave() == c);
    if taken {
        assert(run(no, at(c.enter(false), v2, w2)) == Some(at(c.enter(false), v2, w2)));
    } else {
        assert(run(yes, at(c.enter(false), v, w)) == Some(at(c.enter(false), v, w)));
    }
}

/// A conditional around an inert body is inert.
pub broadcast proof fn lemma_inert_if(body: Seq<Instr>)
    requires
        inert(body),
    ensures
        #[trigger] inert(if_code(body)),
{
    broadcast use group_run;

    assert forall|m: Vm| !m.ctx.live() implies #[trigger] run(if_code(body), m) == Some(m) by {
        lemma_enter_live(m.ctx);
        let m1 = Vm { ctx: m.ctx.enter(false), ..m };
        assert(run(body, m1) == Some(m1));
        assert(Vm { ctx: m1.ctx.leave(), ..m1 } =~= m);
    }
}

/// A negated conditional around an inert body is inert.
pub broadcast proof fn lemma_inert_notif(body: Seq<Instr>)
    requires
        inert(body),
    ensures
        #[trigger] inert(notif_code(body)),
{
    broadcast use group_run;

    assert forall|m: Vm| !m.ctx.live() implies #[trigger] run(notif_code(body), m) == Some(m) by {
        lemma_enter_live(m.ctx);
        let m1 = Vm { ctx: m.ctx.enter(false), ..m };
        assert(run(body, m1) == Some(m1));
        assert(Vm { ctx: m1.ctx.leave(), ..m1 } =~= m);
    }
}

/// A conditional between inert bodies is inert.
pub broadcast proof fn lemma_inert_if_else(yes: Seq<Instr>, no: Seq<Instr>)
    requires
        inert(yes),
        inert(no),
    ensures
        #[trigger] inert(if_else_code(yes, no)),
{
    broadcast use group_run;

    assert forall|m: Vm| !m.ctx.live() implies #[trigger] run(if_else_code(yes, no), m) == Some(
        m,
    ) by {
        lemma_enter_live(m.ctx);
        let m1 = Vm { ctx: m.ctx.enter(false), ..m };
        let m2 = Vm { ctx: m.ctx.enter(true), ..m };
        assert(run(yes, m1) == Some(m1));
        assert(m1.ctx.leave() == m.ctx);
        assert(run(no, m2) == Some(m2));
        assert(Vm { ctx: m2.ctx.leave(), ..m2 } =~= m);
    }
}

/// What is skipped as a whole.
pub broadcast group group_inert {
    lemma_inert_nil,
    lemma_inert_push,
    lemma_inert_concat,
    lemma_inert_flat,
    lemma_inert_ops,
    lemma_inert_if,
    lemma_inert_notif,
    lemma_inert_if_else,
}

// ---------------------------------------------------------------------------
// Moving items
// ---------------------------------------------------------------------------

/// Copying the item at depth `d`.
pub proof fn lemma_pick(c: Ctx, v: Seq<Item>, w: Seq<Item>, d: int)
    requires
        c.live(),
        0 <= d < v.len(),
        d < 0x80000000,
    ensures
        run(pick_code(d), at(c, v, w)) == Some(
            at(c, v.push(v[v.len() - 1 - d]), w),
        ),
{
    broadcast use group_run;

}

/// Moving the item at depth `d` to the top.
pub proof fn lemma_roll(c: Ctx, v: Seq<Item>, w: Seq<Item>, d: int)
    requires
        c.live(),
        0 <= d < v.len(),
        d < 0x80000000,
    ensures
        run(roll_code(d), at(c, v, w)) == Some(
            at(c, v.remove(v.len() - 1 - d).push(v[v.len() - 1 - d]), w),
        ),
{
    broadcast use group_run;

}

proof fn lemma_ops_push(n: nat, op: Opcode)
    requires
        n > 0,
    ensures
        ops(n, op) == ops((n - 1) as nat, op).push(o(op)),
{
    assert(ops(n, op) =~= ops((n - 1) as nat, op).push(o(op)));
}

/// Parking the top `n` items: the altstack receives them top first.
pub proof fn lemma_to_alt(c: Ctx, v: Seq<Item>, x: Seq<Item>, w: Seq<Item>)
    requires
        c.live(),
    ensures
        run(ops(x.len(), Opcode::ToAltStack), at(c, v + x, w)) == Some(at(c, v, w + x.reverse())),
    decreases x.len(),
{
    broadcast use group_run;

    let n = x.len();
    if n == 0 {
        assert(ops(n, Opcode::ToAltStack) =~= Seq::empty());
        assert(v + x =~= v);
        assert(w + x.reverse() =~= w);
    } else {
        lemma_ops_push(n, Opcode::ToAltStack);
        let y = x.subrange(1, n as int);
        lemma_to_alt(c, v.push(x[0]), y, w);
        assert(v.push(x[0]) + y =~= v + x);
        assert((w + y.reverse()).push(x[0]) =~= w + x.reverse());
        assert(v.push(x[0]).drop_last() =~= v);
    }
}

/// Fetching back what was parked.
pub proof fn lemma_from_alt(c: Ctx, v: Seq<Item>, x: Seq<Item>, w: Seq<Item>)
    requires
        c.live(),
    ensures
        run(ops(x.len(), Opcode::FromAltStack), at(c, v, w + x.reverse())) == Some(
            at(c, v + x, w),
        ),
    decreases x.len(),
{
    broadcast use group_run;

    let n = x.len();
    if n == 0 {
        assert(ops(n, Opcode::FromAltStack) =~= Seq::empty());
        assert(v + x =~= v);
        assert(w + x.reverse() =~= w);
    } else {
        lemma_ops_push(n, Opcode::FromAltStack);
        let y = x.drop_last();
        assert(w + x.reverse() =~= w.push(x.last()) + y.reverse());
        lemma_from_alt(c, v, y, w.push(x.last()));
        assert((v + y).push(x.last()) =~= v + x);
        assert(w.push(x.last()).drop_last() =~= w);
    }
}

/// Dropping `2 * n` items two at a time.
pub proof fn lemma_drop2(c: Ctx, v: Seq<Item>, x: Seq<Item>, w: Seq<Item>, n: nat)
    requires
        c.live(),
        x.len() == 2 * n,
    ensures
        run(ops(n, Opcode::Drop2), at(c, v + x, w)) == Some(at(c, v, w)),
    decreases n,
{
    broadcast use group_run;

    if n == 0 {
        assert(ops(n, Opcode::Drop2) =~= Seq::empty());
        assert(v + x =~= v);
    } else {
        lemma_ops_push(n, Opcode::Drop2);
        let y = x.subrange(2, x.len() as int);
        lemma_drop2(c, v.push(x[0]).push(x[1]), y, w, (n - 1) as nat);
        assert(v.push(x[0]).push(x[1]) + y =~= v + x);
        assert(v.push(x[0]).push(x[1]).drop_last().drop_last() =~= v);
    }
}

/// Dropping any number of items, two at a time and the odd one by itself.
pub proof fn lemma_drop_all(c: Ctx, v: Seq<Item>, x: Seq<Item>, w: Seq<Item>)
    requires
        c.live(),
    ensures
        run(
            ops((x.len() / 2) as nat, Opcode::Drop2) + ops((x.len() % 2) as nat, Opcode::Drop),
            at(c, v + x, w),
        ) == Some(at(c, v, w)),
        resume(
            run(ops((x.len() / 2) as nat, Opcode::Drop2), at(c, v + x, w)),
            ops((x.len() % 2) as nat, Opcode::Drop),
        ) == Some(at(c, v, w)),
{
    broadcast use group_run;

    let odd = (x.len() % 2) as int;
    let rest = x.take(odd);
    assert(v + x =~= v + rest + x.skip(odd));
    lemma_drop2(c, v + rest, x.skip(odd), w, (x.len() / 2) as nat);
    if odd == 0 {
        assert(ops(0, Opcode::Drop) =~= Seq::empty());
        assert(v + rest =~= v);
    } else {
        assert(ops(1, Opcode::Drop) =~= nil().push(o(Opcode::Drop)));
        assert(v + rest =~= v.push(x[0]));
    }
}

/// `body` inside a conditional.
pub fn when(body: Script) -> (r: Script)
    ensures
        r.code() == if_code(body.code()),
{
    Script::new().op(Opcode::If).then_script(body).op(Opcode::EndIf)
}

/// `body` inside a negated conditional.
pub fn unless(body: Script) -> (r: Script)
    ensures
        r.code() == notif_code(body.code()),
{
    Script::new().op(Opcode::NotIf).then_script(body).op(Opcode::EndIf)
}

/// `yes` in a conditional and `no` in its alternative.
pub fn choice(yes: Script, no: Script) -> (r: Script)
    ensures
        r.code() == if_else_code(yes.code(), no.code()),
{
    Script::new().op(Opcode::If).then_script(yes).op(Opcode::Else).then_script(no).op(Opcode::EndIf)
}

/// `n` copies of an opcode.
pub fn repeat(n: usize, op: Opcode) -> (r: Script)
    ensures
        r.code() == ops(n as nat, op),
{
    let mut r = Script::new();
    let mut i: usize = 0;
    assert(ops(0, op) =~= Seq::empty());
    while i < n
        invariant
            i <= n,
            r.code() == ops(i as nat, op),
        decreases n - i,
    {
        r = r.op(op);
        i = i + 1;
        proof {
            lemma_ops_push(i as nat, op);
        }
    }
    r
}

/// The code that compares the last of `n - i` pairs of items.
pub open spec fn require_equal_codes(n: int) -> spec_fn(int) -> Seq<Instr> {
    |i: int| roll_code(n - i).push(o(Opcode::EqualVerify))
}

/// The code that requires two blocks of `n` items to be equal.
#[verifier::opaque]
pub open spec fn require_equal_code(n: nat) -> Seq<Instr> {
    flat(n, require_equal_codes(n as int))
}

/// Comparing the last elements of two equally long blocks.
proof fn lemma_require_equal_step(
    c: Ctx,
    v: Seq<Item>,
    w: Seq<Item>,
    e: Seq<Item>,
    d: Seq<Item>,
    j: int,
)
    requires
        c.live(),
        0 <= j < e.len(),
        e.len() == d.len(),
        e.len() < 0x80000000,
    ensures
        run(
            roll_code(j + 1).push(o(Opcode::EqualVerify)),
            at(c, v + e.take(j + 1) + d.take(j + 1), w),
        ) == (if e[j] == d[j] {
            Some(at(c, v + e.take(j) + d.take(j), w))
        } else {
            None
        }),
{
    let now = v + e.take(j + 1) + d.take(j + 1);
    lemma_roll(c, now, w, j + 1);
    assert(now[now.len() - 1 - (j + 1)] == e[j]);
    let under = v + e.take(j) + d.take(j);
    assert(now.remove(now.len() - 1 - (j + 1)).push(e[j]) =~= under.push(d[j]).push(e[j]));
    lemma_run_push(roll_code(j + 1), o(Opcode::EqualVerify), at(c, now, w));
    assert(under.push(d[j]).push(e[j]).drop_last().drop_last() =~= under);
}

/// Two suffixes agree when their heads and their tails do.
proof fn lemma_suffix_eq(e: Seq<Item>, d: Seq<Item>, j: int)
    requires
        0 <= j < e.len(),
        e.len() == d.len(),
    ensures
        e.skip(j + 1) == d.skip(j + 1) && e[j] == d[j] <==> e.skip(j) == d.skip(j),
{
    assert(e.skip(j) =~= seq![e[j]] + e.skip(j + 1));
    assert(d.skip(j) =~= seq![d[j]] + d.skip(j + 1));
    if e.skip(j) == d.skip(j) {
        assert(e.skip(j)[0] == d.skip(j)[0]);
        assert(e.skip(j).skip(1) =~= e.skip(j + 1));
        assert(d.skip(j).skip(1) =~= d.skip(j + 1));
    }
}

proof fn lemma_require_equal_upto(
    c: Ctx,
    v: Seq<Item>,
    w: Seq<Item>,
    e: Seq<Item>,
    d: Seq<Item>,
    i: nat,
)
    requires
        c.live(),
        e.len() == d.len(),
        e.len() < 0x80000000,
        i <= e.len(),
    ensures
        run(flat(i, require_equal_codes(e.len() as int)), at(c, v + e + d, w)) == (if e.skip(
            e.len() - i,
        ) == d.skip(e.len() - i) {
            Some(at(c, v + e.take(e.len() - i) + d.take(e.len() - i), w))
        } else {
            None
        }),
    decreases i,
{
    let n = e.len() as int;
    if i == 0 {
        lemma_run_empty(at(c, v + e + d, w));
        assert(e.skip(n) =~= d.skip(n));
        assert(e.take(n) =~= e && d.take(n) =~= d);
    } else {
        let j = n - i;
        let f = require_equal_codes(n);
        lemma_require_equal_upto(c, v, w, e, d, (i - 1) as nat);
        lemma_run_concat(flat((i - 1) as nat, f), f(i - 1), at(c, v + e + d, w));
        lemma_suffix_eq(e, d, j);
        lemma_require_equal_step(c, v, w, e, d, j);
    }
}

/// What comparing two blocks element by element does.
pub proof fn lemma_require_equal(c: Ctx, v: Seq<Item>, w: Seq<Item>, e: Seq<Item>, d: Seq<Item>)
    requires
        c.live(),
        e.len() == d.len(),
        e.len() < 0x80000000,
    ensures
        run(require_equal_code(e.len()), at(c, v + e + d, w)) == (if e == d {
            Some(at(c, v, w))
        } else {
            None
        }),
{
    reveal(require_equal_code);
    lemma_require_equal_upto(c, v, w, e, d, e.len());
    assert(e.skip(0) =~= e && d.skip(0) =~= d);
    assert(v + e.take(0) + d.take(0) =~= v);
}

/// Require two blocks of `n` items to be equal.
///
/// Each comparison removes two items, so the lower block rises by one every time
/// and the roll depth has to shrink with it.
pub(crate) fn require_equal(n: usize) -> (r: Script)
    requires
        n < 0x80000000,
    ensures
        r.code() == require_equal_code(n as nat),
{
    proof {
        reveal(require_equal_code);
    }
    let mut r = Script::new();
    let mut i: usize = 0;
    while i < n
        invariant
            i <= n < 0x80000000,
            r.code() == flat(i as nat, require_equal_codes(n as int)),
        decreases n - i,
    {
        r = r.then_script(
            Script::new().num((n - i) as i64).op(Opcode::Roll).op(Opcode::EqualVerify),
        );
        i = i + 1;
    }
    r
}

/// The code of each roll of a rotation.
pub open spec fn rotate_codes(d: int) -> spec_fn(int) -> Seq<Instr> {
    |i: int| roll_code(d)
}

/// The code that lifts a block of `n` items over what lies above it, the block's
/// deepest item lying at depth `d`.
#[verifier::opaque]
pub open spec fn rotate_code(n: nat, d: int) -> Seq<Instr> {
    flat(n, rotate_codes(d))
}

/// Lifting block `a` over block `b`.
pub proof fn lemma_rotate(c: Ctx, v: Seq<Item>, w: Seq<Item>, a: Seq<Item>, b: Seq<Item>)
    requires
        c.live(),
        a.len() + b.len() < 0x80000000,
    ensures
        run(rotate_code(a.len(), a.len() + b.len() - 1), at(c, v + a + b, w)) == Some(
            at(c, v + b + a, w),
        ),
{
    reveal(rotate_code);
    let n = a.len() as int;
    let d = n + b.len() - 1;
    let st = |i: int| at(c, v + a.skip(i) + b + a.take(i), w);
    let f = rotate_codes(d);
    assert forall|i: int| 0 <= i < n implies #[trigger] run(f(i), st(i)) == Some(st(i + 1)) by {
        let now = v + a.skip(i) + b + a.take(i);
        lemma_roll(c, now, w, d);
        assert(now[now.len() - 1 - d] == a[i]);
        assert(now.remove(now.len() - 1 - d).push(a[i]) =~= v + a.skip(i + 1) + b + a.take(i + 1));
    }
    lemma_run_flat(a.len(), f, st);
    assert(v + a.skip(0) + b + a.take(0) =~= v + a + b);
    assert(v + a.skip(n) + b + a.take(n) =~= v + b + a);
}

/// Lift a block of `n` items over what lies above it, the block's deepest item
/// lying at depth `d`.
///
/// Rolling the deepest item first, `n` times, preserves the order within each
/// block, which a naive sequence of swaps would not.
pub(crate) fn rotate(n: usize, d: usize) -> (r: Script)
    requires
        d < 0x80000000,
    ensures
        r.code() == rotate_code(n as nat, d as int),
{
    proof {
        reveal(rotate_code);
    }
    let mut r = Script::new();
    let mut i: usize = 0;
    while i < n
        invariant
            i <= n,
            d < 0x80000000,
            r.code() == flat(i as nat, rotate_codes(d as int)),
        decreases n - i,
    {
        r = r.then_script(Script::new().num(d as i64).op(Opcode::Roll));
        i = i + 1;
    }
    r
}

/// The code of each step of an excision.
pub open spec fn excise_codes(d: int) -> spec_fn(int) -> Seq<Instr> {
    |j: int| roll_code(d - j).push(o(Opcode::Drop))
}

/// The code that removes a block of `n` items from under what lies above it, the
/// block's deepest item lying at depth `d`.
#[verifier::opaque]
pub open spec fn excise_code(n: nat, d: int) -> Seq<Instr> {
    flat(n, excise_codes(d))
}

/// Removing block `a` from under block `b`.
pub proof fn lemma_excise(c: Ctx, v: Seq<Item>, w: Seq<Item>, a: Seq<Item>, b: Seq<Item>)
    requires
        c.live(),
        a.len() + b.len() < 0x80000000,
    ensures
        run(excise_code(a.len(), a.len() + b.len() - 1), at(c, v + a + b, w)) == Some(
            at(c, v + b, w),
        ),
{
    reveal(excise_code);
    let n = a.len() as int;
    let d = n + b.len() - 1;
    let st = |i: int| at(c, v + a.skip(i) + b, w);
    let f = excise_codes(d);
    assert forall|i: int| 0 <= i < n implies #[trigger] run(f(i), st(i)) == Some(st(i + 1)) by {
        let now = v + a.skip(i) + b;
        lemma_roll(c, now, w, d - i);
        assert(now[now.len() - 1 - (d - i)] == a[i]);
        let rest = now.remove(now.len() - 1 - (d - i));
        assert(rest =~= v + a.skip(i + 1) + b);
        lemma_run_push(roll_code(d - i), o(Opcode::Drop), at(c, now, w));
        assert(rest.push(a[i]).drop_last() =~= rest);
    }
    lemma_run_flat(a.len(), f, st);
    assert(v + a.skip(0) + b =~= v + a + b);
    assert(v + a.skip(n) + b =~= v + b);
}

/// Remove a block of `n` items from under what lies above it, the block's
/// deepest item lying at depth `d`.
pub(crate) fn excise(n: usize, d: usize) -> (r: Script)
    requires
        d < 0x80000000,
        n <= d + 1,
    ensures
        r.code() == excise_code(n as nat, d as int),
{
    proof {
        reveal(excise_code);
    }
    let mut r = Script::new();
    let mut j: usize = 0;
    while j < n
        invariant
            j <= n <= d + 1,
            d < 0x80000000,
            r.code() == flat(j as nat, excise_codes(d as int)),
        decreases n - j,
    {
        r = r.then_script(Script::new().num((d - j) as i64).op(Opcode::Roll).op(Opcode::Drop));
        j = j + 1;
    }
    r
}

} // verus!
