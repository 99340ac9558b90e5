//! KoalaBear field arithmetic in Bitcoin Script.
//!
//! # Representation
//!
//! KoalaBear's prime is `0x7f000001`, which is under `2^31 - 1`, so a canonical
//! element fits in one script number: arithmetic operands are capped at four
//! bytes. No multi-limb representation is needed.
//!
//! The sum of two canonical elements does *not* fit: `2(P-1)` exceeds
//! `2^31 - 1` and the addition would overflow. So addition runs through a
//! *twisted* form `n = v - P`, which lies in `[-P, 0)`. A canonical value plus a
//! twisted one lands in `[-P, P)`, always representable, and one conditional
//! fixes it up.
//!
//! # Multiplication
//!
//! There is no `OP_MUL`, so multiplication is emulated by double-and-add over
//! the bits of one operand. [`mul`] takes two runtime values; its multiplier is
//! decomposed by comparing against descending powers of two.
//! [`mul_by_constant`] takes one operand known at script-generation time and
//! walks that operand's non-adjacent form, with no decomposition at all.
//!
//! An addition names the modulus twice, and pushing it takes five bytes. So the
//! two multiplications keep one copy on the working stack, underneath what they
//! work on, and reach it with a two-byte pick.

use crate::arith;
use crate::script::{Instr, Opcode, Script};
use crate::vm::{self, Ctx, Item};
use vstd::arithmetic::div_mod::*;
use vstd::arithmetic::power2::*;
use vstd::bits::*;
use vstd::prelude::*;

verus! {

/// The KoalaBear prime, 2^31 - 2^24 + 1.
pub const P: u32 = 0x7f000001;

/// `P - 1 < 2^31`, so 31 bits index the whole field.
const BITS: usize = 31;

/// Code that replaces one canonical element on top of the stack by `f` of it.
pub open spec fn computes1(p: Seq<Instr>, f: spec_fn(int) -> int) -> bool {
    forall|a: int, c: Ctx, v: Seq<Item>, w: Seq<Item>|
        arith::felt(a) && c.live() ==> #[trigger] vm::run(p, vm::at(c, v.push(vm::num(a)), w))
            == Some(vm::at(c, v.push(vm::num(f(a))), w))
}

/// Code that replaces two canonical elements on top of the stack by `f` of them.
pub open spec fn computes2(p: Seq<Instr>, f: spec_fn(int, int) -> int) -> bool {
    forall|a: int, b: int, c: Ctx, v: Seq<Item>, w: Seq<Item>|
        arith::felt(a) && arith::felt(b) && c.live() ==> #[trigger] vm::run(
            p,
            vm::at(c, v.push(vm::num(a)).push(vm::num(b)), w),
        ) == Some(vm::at(c, v.push(vm::num(f(a, b))), w))
}

/// The code of [`adjust_canonical`].
#[verifier::opaque]
pub open spec fn adjust_canonical_code() -> Seq<Instr> {
    vm::nil().push(vm::o(Opcode::Dup)).push(vm::k(0)).push(vm::o(Opcode::LessThan)) + vm::if_code(
        vm::nil().push(vm::k(P as int)).push(vm::o(Opcode::Add)),
    )
}

proof fn lemma_adjust_canonical(c: Ctx, v: Seq<Item>, w: Seq<Item>, x: int)
    requires
        c.live(),
        -arith::modulus() <= x < arith::modulus(),
    ensures
        vm::run(adjust_canonical_code(), vm::at(c, v.push(vm::num(x)), w)) == Some(
            vm::at(c, v.push(vm::num(arith::red(x))), w),
        ),
{
    reveal(adjust_canonical_code);
    broadcast use vm::group_run;
    broadcast use vm::group_inert;

    arith::lemma_red(x);
    vm::lemma_if(
        c,
        v.push(vm::num(x)),
        w,
        vm::nil().push(vm::k(P as int)).push(vm::o(Opcode::Add)),
        x < 0,
        v.push(vm::num(arith::red(x))),
        w,
    );
}

/// Bring a value in `[-P, P)` back to canonical `[0, P)`.
fn adjust_canonical() -> (r: Script)
    ensures
        r.code() == adjust_canonical_code(),
        forall|x: int, c: Ctx, v: Seq<Item>, w: Seq<Item>|
            -P <= x < P && c.live() ==> #[trigger] vm::run(
                r.code(),
                vm::at(c, v.push(vm::num(x)), w),
            ) == Some(vm::at(c, v.push(vm::num(arith::red(x))), w)),
{
    proof {
        reveal(adjust_canonical_code);
    }
    proof {
        assert forall|x: int, c: Ctx, v: Seq<Item>, w: Seq<Item>|
            -P <= x < P && c.live() implies #[trigger] vm::run(
            adjust_canonical_code(),
            vm::at(c, v.push(vm::num(x)), w),
        ) == Some(vm::at(c, v.push(vm::num(arith::red(x))), w)) by {
            lemma_adjust_canonical(c, v, w, x);
        }
    }
    Script::new().op(Opcode::Dup).num(0).op(Opcode::LessThan).then_script(
        vm::when(Script::new().num(P as i64).op(Opcode::Add)),
    )
}

/// The code of [`to_twisted`].
#[verifier::opaque]
pub open spec fn to_twisted_code() -> Seq<Instr> {
    vm::nil().push(vm::k(P as int)).push(vm::o(Opcode::Sub))
}

/// Canonical to twisted: `v - P`, landing in `[-P, 0)`.
pub fn to_twisted() -> (r: Script)
    ensures
        r.code() == to_twisted_code(),
        computes1(r.code(), |a: int| a - P),
{
    proof {
        reveal(to_twisted_code);
    }
    broadcast use vm::group_run;

    Script::new().num(P as i64).op(Opcode::Sub)
}

/// The code of [`add`].
#[verifier::opaque]
pub open spec fn add_code() -> Seq<Instr> {
    (vm::nil() + to_twisted_code()).push(vm::o(Opcode::Add)) + adjust_canonical_code()
}

/// What [`add`] does to two canonical elements.
pub proof fn lemma_add(c: Ctx, v: Seq<Item>, w: Seq<Item>, a: int, b: int)
    requires
        c.live(),
        arith::felt(a),
        arith::felt(b),
    ensures
        vm::run(add_code(), vm::at(c, v.push(vm::num(a)).push(vm::num(b)), w)) == Some(
            vm::at(c, v.push(vm::num(arith::fadd(a, b))), w),
        ),
{
    reveal(add_code);
    reveal(to_twisted_code);
    broadcast use vm::group_run;

    lemma_adjust_canonical(c, v, w, a + b - arith::modulus());
    arith::lemma_red(a + b);
    arith::lemma_red(a + b - arith::modulus());
}

/// Add two canonical elements.
///
/// Input: `a b`. Output: `a + b`.
///
/// `b` is twisted first so the addition cannot overflow four bytes.
pub fn add() -> (r: Script)
    ensures
        r.code() == add_code(),
        computes2(r.code(), |a: int, b: int| arith::fadd(a, b)),
{
    proof {
        reveal(add_code);
    }
    proof {
        assert forall|a: int, b: int, c: Ctx, v: Seq<Item>, w: Seq<Item>|
            arith::felt(a) && arith::felt(b) && c.live() implies #[trigger] vm::run(
            add_code(),
            vm::at(c, v.push(vm::num(a)).push(vm::num(b)), w),
        ) == Some(vm::at(c, v.push(vm::num(arith::fadd(a, b))), w)) by {
            lemma_add(c, v, w, a, b);
        }
    }
    Script::new().then_script(to_twisted()).op(Opcode::Add).then_script(adjust_canonical())
}

/// The code of [`sub`].
#[verifier::opaque]
pub open spec fn sub_code() -> Seq<Instr> {
    vm::nil().push(vm::o(Opcode::Sub)) + adjust_canonical_code()
}

/// What [`sub`] does to two canonical elements.
pub proof fn lemma_sub(c: Ctx, v: Seq<Item>, w: Seq<Item>, a: int, b: int)
    requires
        c.live(),
        arith::felt(a),
        arith::felt(b),
    ensures
        vm::run(sub_code(), vm::at(c, v.push(vm::num(a)).push(vm::num(b)), w)) == Some(
            vm::at(c, v.push(vm::num(arith::fsub(a, b))), w),
        ),
{
    reveal(sub_code);
    broadcast use vm::group_run;

    lemma_adjust_canonical(c, v, w, a - b);
}

/// Subtract. Input: `a b`. Output: `a - b`.
pub fn sub() -> (r: Script)
    ensures
        r.code() == sub_code(),
        computes2(r.code(), |a: int, b: int| arith::fsub(a, b)),
{
    proof {
        reveal(sub_code);
    }
    proof {
        assert forall|a: int, b: int, c: Ctx, v: Seq<Item>, w: Seq<Item>|
            arith::felt(a) && arith::felt(b) && c.live() implies #[trigger] vm::run(
            sub_code(),
            vm::at(c, v.push(vm::num(a)).push(vm::num(b)), w),
        ) == Some(vm::at(c, v.push(vm::num(arith::fsub(a, b))), w)) by {
            lemma_sub(c, v, w, a, b);
        }
    }
    Script::new().op(Opcode::Sub).then_script(adjust_canonical())
}

/// The code of [`double`].
#[verifier::opaque]
pub open spec fn double_code() -> Seq<Instr> {
    vm::nil().push(vm::o(Opcode::Dup)) + add_code()
}

/// What [`double`] does to a canonical element.
pub proof fn lemma_double(c: Ctx, v: Seq<Item>, w: Seq<Item>, a: int)
    requires
        c.live(),
        arith::felt(a),
    ensures
        vm::run(double_code(), vm::at(c, v.push(vm::num(a)), w)) == Some(
            vm::at(c, v.push(vm::num(arith::fadd(a, a))), w),
        ),
{
    reveal(double_code);
    broadcast use vm::group_run;

    lemma_add(c, v, w, a, a);
}

/// Double a canonical element.
pub fn double() -> (r: Script)
    ensures
        r.code() == double_code(),
        computes1(r.code(), |a: int| arith::fadd(a, a)),
{
    proof {
        reveal(double_code);
    }
    proof {
        assert forall|a: int, c: Ctx, v: Seq<Item>, w: Seq<Item>|
            arith::felt(a) && c.live() implies #[trigger] vm::run(
            double_code(),
            vm::at(c, v.push(vm::num(a)), w),
        ) == Some(vm::at(c, v.push(vm::num(arith::fadd(a, a))), w)) by {
            lemma_double(c, v, w, a);
        }
    }
    Script::new().op(Opcode::Dup).then_script(self::add())
}

/// The code of [`neg`].
#[verifier::opaque]
pub open spec fn neg_code() -> Seq<Instr> {
    vm::nil().push(vm::k(P as int)).push(vm::o(Opcode::Swap)).push(vm::o(Opcode::Sub)).push(
        vm::o(Opcode::Dup),
    ).push(vm::k(P as int)).push(vm::o(Opcode::NumEqual)) + vm::if_code(
        vm::nil().push(vm::o(Opcode::Drop)).push(vm::k(0)),
    )
}

proof fn lemma_neg(c: Ctx, v: Seq<Item>, w: Seq<Item>, a: int)
    requires
        c.live(),
        arith::felt(a),
    ensures
        vm::run(neg_code(), vm::at(c, v.push(vm::num(a)), w)) == Some(
            vm::at(c, v.push(vm::num(arith::fsub(0, a))), w),
        ),
{
    reveal(neg_code);
    broadcast use vm::group_run;
    broadcast use vm::group_inert;

    arith::lemma_red(0 - a);
    vm::lemma_if(
        c,
        v.push(vm::num(P - a)),
        w,
        vm::nil().push(vm::o(Opcode::Drop)).push(vm::k(0)),
        a == 0,
        v.push(vm::num(arith::fsub(0, a))),
        w,
    );
}

/// Negate a canonical element. `0` maps to `0`, not to `P`.
pub fn neg() -> (r: Script)
    ensures
        r.code() == neg_code(),
        computes1(r.code(), |a: int| arith::fsub(0, a)),
{
    proof {
        reveal(neg_code);
    }
    proof {
        assert forall|a: int, c: Ctx, v: Seq<Item>, w: Seq<Item>|
            arith::felt(a) && c.live() implies #[trigger] vm::run(
            neg_code(),
            vm::at(c, v.push(vm::num(a)), w),
        ) == Some(vm::at(c, v.push(vm::num(arith::fsub(0, a))), w)) by {
            lemma_neg(c, v, w, a);
        }
    }
    Script::new().num(P as i64).op(Opcode::Swap).op(Opcode::Sub).op(Opcode::Dup).num(P as i64).op(
        Opcode::NumEqual,
    ).then_script(vm::when(Script::new().op(Opcode::Drop).num(0)))
}

// ---------------------------------------------------------------------------
// Multiplication by a constant
// ---------------------------------------------------------------------------

/// The non-adjacent form of `n`, least significant digit first.
pub open spec fn naf_digits(n: nat) -> Seq<i8>
    decreases n,
{
    if n == 0 {
        Seq::empty()
    } else if n % 4 == 1 {
        seq![1i8] + naf_digits(((n - 1) / 2) as nat)
    } else if n % 4 == 3 {
        seq![-1i8] + naf_digits(((n + 1) / 2) as nat)
    } else {
        seq![0i8] + naf_digits(n / 2)
    }
}

/// The integer a signed binary expansion stands for.
pub open spec fn naf_value(d: Seq<i8>) -> int
    decreases d.len(),
{
    if d.len() == 0 {
        0
    } else {
        d[0] + 2 * naf_value(d.subrange(1, d.len() as int))
    }
}

/// Whether no two adjacent digits are non-zero.
pub open spec fn non_adjacent(d: Seq<i8>) -> bool {
    forall|i: int, j: int|
        0 <= i && j == i + 1 && j < d.len() ==> #[trigger] d[i] == 0 || #[trigger] d[j] == 0
}

/// The non-adjacent form is an expansion of `n` in the digits `-1`, `0` and
/// `1`; it ends in 1 for `n > 0`; and no two adjacent digits are non-zero.
#[verifier::spinoff_prover]
pub proof fn naf_laws(n: nat)
    ensures
        naf_value(naf_digits(n)) == n,
        n > 0 ==> naf_digits(n).len() > 0 && naf_digits(n).last() == 1,
        forall|i: int| 0 <= i < naf_digits(n).len() ==> -1 <= #[trigger] naf_digits(n)[i] <= 1,
        non_adjacent(naf_digits(n)),
        naf_digits(n).len() > 0 && naf_digits(n)[0] != 0 ==> n % 2 == 1,
    decreases n,
{
    if n > 0 {
        let d = naf_digits(n);
        let z: int = if n % 4 == 1 {
            1
        } else if n % 4 == 3 {
            -1
        } else {
            0
        };
        let m = ((n - z) / 2) as nat;
        let t = naf_digits(m);
        assert(d == seq![z as i8] + t);
        naf_laws(m);
        assert(d.len() == t.len() + 1);
        assert(d[0] == z);
        assert forall|i: int| 0 < i < d.len() implies #[trigger] d[i] == t[i - 1] by {}
        assert(d.subrange(1, d.len() as int) =~= t);
        assert(z != 0 ==> m % 2 == 0);
        assert forall|i: int, j: int| 0 <= i && j == i + 1 && j < d.len() implies #[trigger] d[i]
            == 0 || #[trigger] d[j] == 0 by {
            if i > 0 {
                assert(t[i - 1] == 0 || t[j - 1] == 0);
            }
        }
        if m > 0 {
            assert(d.last() == t.last());
        } else {
            assert(t.len() == 0);
        }
    }
}

/// Non-adjacent form of `n`, least significant digit first.
///
/// No two adjacent digits are non-zero, which minimises the number of additions
/// in [`mul_by_constant`]. For `n > 0` the most significant digit is always 1.
fn naf(n: u32) -> (r: Vec<i8>)
    requires
        n < u32::MAX,
    ensures
        r@ == naf_digits(n as nat),
{
    let mut out: Vec<i8> = Vec::new();
    let mut n: u32 = n;
    let ghost whole = naf_digits(n as nat);
    assert(out@ + naf_digits(n as nat) =~= whole);
    while n > 0
        invariant
            n < u32::MAX,
            out@ + naf_digits(n as nat) == whole,
        decreases n,
    {
        let ghost before = out@;
        let ghost m = n as nat;
        if n % 2 == 1 {
            if n % 4 == 1 {
                out.push(1);
                n = n - 1;
            } else {
                out.push(-1);
                n = n + 1;
            }
        } else {
            out.push(0);
        }
        n = n / 2;
        assert(out@ + naf_digits(n as nat) =~= before + naf_digits(m));
    }
    assert(out@ + naf_digits(0) =~= out@);
    out
}

// ---------------------------------------------------------------------------
// Arithmetic with the modulus on the stack
// ---------------------------------------------------------------------------

/// The code of [`kept_adjust`].
#[verifier::opaque]
pub open spec fn kept_adjust_code() -> Seq<Instr> {
    vm::nil().push(vm::o(Opcode::Dup)).push(vm::k(0)).push(vm::o(Opcode::LessThan)) + vm::if_code(
        vm::pick_code(2).push(vm::o(Opcode::Add)),
    )
}

/// The code of [`kept_add`].
#[verifier::opaque]
pub open spec fn kept_add_code() -> Seq<Instr> {
    vm::pick_code(3).push(vm::o(Opcode::Sub)).push(vm::o(Opcode::Add)) + kept_adjust_code()
}

/// The code of [`kept_sub`].
#[verifier::opaque]
pub open spec fn kept_sub_code() -> Seq<Instr> {
    vm::nil().push(vm::o(Opcode::Sub)) + kept_adjust_code()
}

/// The code of [`kept_double`].
#[verifier::opaque]
pub open spec fn kept_double_code() -> Seq<Instr> {
    vm::nil().push(vm::o(Opcode::Dup)) + kept_add_code()
}

/// The modulus with one item above it.
pub open spec fn kept(v: Seq<Item>, u: Item) -> Seq<Item> {
    v.push(vm::num(arith::modulus())).push(u)
}

proof fn lemma_kept_adjust(c: Ctx, v: Seq<Item>, w: Seq<Item>, u: Item, x: int)
    requires
        c.live(),
        -arith::modulus() <= x < arith::modulus(),
    ensures
        vm::run(kept_adjust_code(), vm::at(c, kept(v, u).push(vm::num(x)), w)) == Some(
            vm::at(c, kept(v, u).push(vm::num(arith::red(x))), w),
        ),
{
    reveal(kept_adjust_code);
    broadcast use vm::group_run;
    broadcast use vm::group_inert;

    arith::lemma_red(x);
    let base = kept(v, u).push(vm::num(x));
    let done = kept(v, u).push(vm::num(arith::red(x)));
    let body = vm::pick_code(2).push(vm::o(Opcode::Add));
    vm::lemma_enter_live(c);
    assert(base[base.len() - 1 - 2] == vm::num(arith::modulus()));
    vm::lemma_pick(c.enter(true), base, w, 2);
    vm::lemma_if(c, base, w, body, x < 0, done, w);
}

/// What [`kept_add`] does to two canonical elements.
proof fn lemma_kept_add(c: Ctx, v: Seq<Item>, w: Seq<Item>, u: Item, a: int, b: int)
    requires
        c.live(),
        arith::felt(a),
        arith::felt(b),
    ensures
        vm::run(
            kept_add_code(),
            vm::at(c, kept(v, u).push(vm::num(a)).push(vm::num(b)), w),
        ) == Some(vm::at(c, kept(v, u).push(vm::num(arith::fadd(a, b))), w)),
{
    reveal(kept_add_code);
    broadcast use vm::group_run;

    let base = kept(v, u).push(vm::num(a)).push(vm::num(b));
    assert(base[base.len() - 1 - 3] == vm::num(arith::modulus()));
    vm::lemma_pick(c, base, w, 3);
    lemma_kept_adjust(c, v, w, u, a + b - arith::modulus());
    arith::lemma_red(a + b);
    arith::lemma_red(a + b - arith::modulus());
}

/// What [`kept_sub`] does to two canonical elements.
proof fn lemma_kept_sub(c: Ctx, v: Seq<Item>, w: Seq<Item>, u: Item, a: int, b: int)
    requires
        c.live(),
        arith::felt(a),
        arith::felt(b),
    ensures
        vm::run(
            kept_sub_code(),
            vm::at(c, kept(v, u).push(vm::num(a)).push(vm::num(b)), w),
        ) == Some(vm::at(c, kept(v, u).push(vm::num(arith::fsub(a, b))), w)),
{
    reveal(kept_sub_code);
    broadcast use vm::group_run;

    lemma_kept_adjust(c, v, w, u, a - b);
}

/// What [`kept_double`] does to a canonical element.
proof fn lemma_kept_double(c: Ctx, v: Seq<Item>, w: Seq<Item>, u: Item, a: int)
    requires
        c.live(),
        arith::felt(a),
    ensures
        vm::run(kept_double_code(), vm::at(c, kept(v, u).push(vm::num(a)), w)) == Some(
            vm::at(c, kept(v, u).push(vm::num(arith::fadd(a, a))), w),
        ),
{
    reveal(kept_double_code);
    broadcast use vm::group_run;

    lemma_kept_add(c, v, w, u, a, a);
}

/// [`adjust_canonical`] with the modulus two items down.
fn kept_adjust() -> (r: Script)
    ensures
        r.code() == kept_adjust_code(),
{
    proof {
        reveal(kept_adjust_code);
    }
    Script::new().op(Opcode::Dup).num(0).op(Opcode::LessThan).then_script(
        vm::when(Script::new().num(2).op(Opcode::Pick).op(Opcode::Add)),
    )
}

/// [`add`] with the modulus three items down.
fn kept_add() -> (r: Script)
    ensures
        r.code() == kept_add_code(),
{
    proof {
        reveal(kept_add_code);
    }
    Script::new().num(3).op(Opcode::Pick).op(Opcode::Sub).op(Opcode::Add).then_script(kept_adjust())
}

/// [`sub`] with the modulus three items down.
fn kept_sub() -> (r: Script)
    ensures
        r.code() == kept_sub_code(),
{
    proof {
        reveal(kept_sub_code);
    }
    Script::new().op(Opcode::Sub).then_script(kept_adjust())
}

/// [`double`] with the modulus two items down.
fn kept_double() -> (r: Script)
    ensures
        r.code() == kept_double_code(),
{
    proof {
        reveal(kept_double_code);
    }
    Script::new().op(Opcode::Dup).then_script(kept_add())
}

// ---------------------------------------------------------------------------
// Multiplication by a constant
// ---------------------------------------------------------------------------

/// The code for one digit below the leading one.
#[verifier::opaque]
pub open spec fn digit_code(d: int) -> Seq<Instr> {
    kept_double_code() + (if d == 1 {
        vm::nil().push(vm::o(Opcode::Over)) + kept_add_code()
    } else if d == -1 {
        vm::nil().push(vm::o(Opcode::Over)) + kept_sub_code()
    } else {
        vm::nil()
    })
}

/// The digits below the leading one, from the top down.
pub open spec fn digit_codes(d: Seq<i8>) -> spec_fn(int) -> Seq<Instr> {
    |j: int| digit_code(d[d.len() - 2 - j] as int)
}

/// The code of [`mul_by_constant`].
#[verifier::opaque]
pub open spec fn mul_by_constant_code(c: int) -> Seq<Instr> {
    let r = arith::red(c);
    let d = naf_digits(r as nat);
    if r == 0 {
        vm::nil().push(vm::o(Opcode::Drop)).push(vm::k(0))
    } else if r == 1 {
        vm::nil()
    } else {
        (vm::nil().push(vm::k(P as int)).push(vm::o(Opcode::Swap)).push(vm::o(Opcode::Dup))
            + vm::flat((d.len() - 1) as nat, digit_codes(d))).push(vm::o(Opcode::ToAltStack)).push(
            vm::o(Opcode::Drop2),
        ).push(vm::o(Opcode::FromAltStack))
    }
}

proof fn lemma_digit(c: Ctx, v: Seq<Item>, w: Seq<Item>, a: int, x: int, d: int)
    requires
        c.live(),
        arith::felt(a),
        -1 <= d <= 1,
    ensures
        vm::run(
            digit_code(d),
            vm::at(c, kept(v, vm::num(a)).push(vm::num(arith::fmul(a, x))), w),
        ) == Some(vm::at(c, kept(v, vm::num(a)).push(vm::num(arith::fmul(a, 2 * x + d))), w)),
{
    reveal(digit_code);
    broadcast use vm::group_run;

    let y = arith::fmul(a, x);
    let z = arith::fadd(y, y);
    arith::lemma_red(a * x);
    arith::lemma_red(y + y);
    lemma_kept_double(c, v, w, vm::num(a), y);
    lemma_kept_add(c, v, w, vm::num(a), z, a);
    lemma_kept_sub(c, v, w, vm::num(a), z, a);
    arith::lemma_red_add(a * x, a * x);
    arith::lemma_red_add(a * x + a * x, a);
    arith::lemma_red_sub(a * x + a * x, a);
    assert(a * (2 * x + d) == a * x + a * x + a * d) by (nonlinear_arith);
    assert(a * 1 == a && a * -1 == -a && a * 0 == 0);
}

/// What [`mul_by_constant`] does to a canonical element.
pub proof fn lemma_mul_by_constant(c: Ctx, v: Seq<Item>, w: Seq<Item>, a: int, n: int)
    requires
        c.live(),
        arith::felt(a),
    ensures
        vm::run(mul_by_constant_code(n), vm::at(c, v.push(vm::num(a)), w)) == Some(
            vm::at(c, v.push(vm::num(arith::fmul(a, n))), w),
        ),
{
    reveal(mul_by_constant_code);
    broadcast use vm::group_run;

    let r = arith::red(n);
    arith::lemma_red(n);
    arith::lemma_red(a);
    arith::lemma_red(0);
    arith::lemma_red_mul(a, n);
    assert(arith::fmul(a, n) == arith::red(a * r));
    assert(a * 1 == a && a * 0 == 0);
    if r >= 2 {
        let d = naf_digits(r as nat);
        naf_laws(r as nat);
        let f = digit_codes(d);
        let m = (d.len() - 1) as nat;
        let base = kept(v, vm::num(a));
        let value = |j: int| naf_value(d.subrange(d.len() - 1 - j, d.len() as int));
        let st = |j: int| vm::at(c, base.push(vm::num(arith::fmul(a, value(j)))), w);
        assert forall|j: int| 0 <= j < m implies #[trigger] vm::run(f(j), st(j)) == Some(
            st(j + 1),
        ) by {
            let s1 = d.subrange(d.len() - 1 - j, d.len() as int);
            let s2 = d.subrange(d.len() - 2 - j, d.len() as int);
            assert(s2.subrange(1, s2.len() as int) =~= s1);
            assert(value(j + 1) == d[d.len() - 2 - j] + 2 * value(j));
            lemma_digit(c, v, w, a, value(j), d[d.len() - 2 - j] as int);
        }
        vm::lemma_run_flat(m, f, st);
        let s0 = d.subrange(d.len() - 1, d.len() as int);
        assert(s0.subrange(1, 1) =~= Seq::empty());
        assert(naf_value(s0.subrange(1, 1)) == 0);
        assert(value(0) == 1);
        assert(d.subrange(0, d.len() as int) =~= d);
        assert(value(m as int) == r);
    }
}

/// Multiply a canonical element by a constant known at script-generation time.
///
/// Input: `a`. Output: `a * c`.
pub fn mul_by_constant(c: u32) -> (r: Script)
    ensures
        r.code() == mul_by_constant_code(c as int),
        computes1(r.code(), |a: int| arith::fmul(a, c as int)),
{
    proof {
        reveal(mul_by_constant_code);
    }
    proof {
        assert forall|a: int, x: Ctx, v: Seq<Item>, w: Seq<Item>|
            arith::felt(a) && x.live() implies #[trigger] vm::run(
            mul_by_constant_code(c as int),
            vm::at(x, v.push(vm::num(a)), w),
        ) == Some(vm::at(x, v.push(vm::num(arith::fmul(a, c as int))), w)) by {
            lemma_mul_by_constant(x, v, w, a, c as int);
        }
    }
    let n: u32 = c % P;
    if n == 0 {
        return Script::new().op(Opcode::Drop).num(0);
    }
    if n == 1 {
        return Script::new();
    }
    // The stack holds `P a acc`. The leading digit is 1, so the accumulator
    // starts as a copy of the input; the input itself is kept underneath to be
    // folded back in wherever a digit is non-zero, and dropped at the end with
    // the modulus.
    let digits = naf(n);
    proof {
        naf_laws(n as nat);
    }
    let count: usize = digits.len() - 1;
    let mut body = Script::new();
    let mut j: usize = 0;
    while j < count
        invariant
            j <= count,
            count == digits.len() - 1,
            digits@ == naf_digits(n as nat),
            body.code() == vm::flat(j as nat, digit_codes(digits@)),
        decreases count - j,
    {
        proof {
            reveal(digit_code);
        }
        let d: i8 = digits[count - 1 - j];
        let step = if d == 1 {
            kept_double().then_script(Script::new().op(Opcode::Over).then_script(kept_add()))
        } else if d == -1 {
            kept_double().then_script(Script::new().op(Opcode::Over).then_script(kept_sub()))
        } else {
            kept_double().then_script(Script::new())
        };
        body = body.then_script(step);
        j = j + 1;
    }
    Script::new().num(P as i64).op(Opcode::Swap).op(Opcode::Dup).then_script(body).op(
        Opcode::ToAltStack,
    ).op(Opcode::Drop2).op(Opcode::FromAltStack)
}

/// The inverse of `2^k` modulo `P`. The internal layer divides by 2, 8, 16,
/// `2^8` and `2^24`, and each becomes one [`mul_by_constant`].
pub fn inv_2exp(k: u32) -> (r: u32)
    ensures
        r == arith::inv_pow2(k as nat),
        arith::fmul(r as int, pow2(k as nat) as int) == 1,
{
    let half: u64 = (P as u64 + 1) / 2;
    let mut acc: u64 = 1;
    let mut i: u32 = 0;
    while i < k
        invariant
            i <= k,
            half == arith::half(),
            acc < P,
            acc == arith::inv_pow2(i as nat),
        decreases k - i,
    {
        assert(0 <= acc * half < 0x7f000001 * 0x3f800001) by (nonlinear_arith)
            requires
                0 <= acc < 0x7f000001,
                half == 0x3f800001,
        ;
        acc = acc * half % P as u64;
        i = i + 1;
    }
    proof {
        arith::inv_pow2_inverts(k as nat);
    }
    acc as u32
}

/// Halve: multiply by the inverse of two.
pub fn halve() -> (r: Script)
    ensures
        r.code() == mul_by_constant_code(arith::inv_pow2(1)),
        computes1(r.code(), |a: int| arith::fmul(a, arith::inv_pow2(1))),
{
    mul_by_constant(inv_2exp(1))
}

/// Halving undoes doubling.
pub proof fn halving_undoes_doubling(a: int)
    requires
        arith::felt(a),
    ensures
        arith::fmul(arith::fadd(a, a), arith::inv_pow2(1)) == a,
{
    let h = arith::inv_pow2(1);
    arith::inv_pow2_inverts(1);
    lemma2_to64();
    arith::lemma_red(a);
    arith::lemma_red_mul(a + a, h);
    assert((a + a) * h == a * (h * 2)) by (nonlinear_arith);
    arith::lemma_red_mul(a, h * 2);
    assert(a * 1 == a);
}

// ---------------------------------------------------------------------------
// Bits
// ---------------------------------------------------------------------------

/// Bit `i` of `b`.
pub open spec fn bit(b: int, i: nat) -> int {
    (b / pow2(i) as int) % 2
}

/// The low `n` bits of `b` as they lie on the altstack: most significant
/// deepest.
pub open spec fn bit_items(b: int, n: nat) -> Seq<Item> {
    Seq::new(n, |t: int| vm::num(bit(b, (n - 1 - t) as nat)))
}

/// The low bits of a number, one more at a time.
pub proof fn lemma_bit(b: int, i: nat)
    requires
        0 <= b,
    ensures
        0 <= bit(b, i) <= 1,
        b % pow2(i + 1) as int == bit(b, i) * pow2(i) + b % pow2(i) as int,
        0 <= b % (pow2(i) as int) < pow2(i),
{
    lemma_pow2_pos(i);
    lemma_pow2_unfold(i + 1);
    lemma_mod_breakdown(b, pow2(i) as int, 2);
    assert(pow2(i) as int * 2 == pow2(i + 1));
    assert(pow2(i) * bit(b, i) == bit(b, i) * pow2(i)) by (nonlinear_arith);
}

/// The code that splits off the `i`-th bit.
#[verifier::opaque]
pub open spec fn bit_code(i: nat) -> Seq<Instr> {
    (vm::nil().push(vm::o(Opcode::Dup)).push(vm::k(pow2(i) as int)).push(
        vm::o(Opcode::GreaterThanOrEqual),
    ) + vm::if_else_code(
        vm::nil().push(vm::k(pow2(i) as int)).push(vm::o(Opcode::Sub)).push(vm::k(1)),
        vm::nil().push(vm::k(0)),
    )).push(vm::o(Opcode::ToAltStack))
}

/// The code that takes off the low `n` bits, from the top one down.
pub open spec fn bit_codes(n: nat) -> spec_fn(int) -> Seq<Instr> {
    |j: int| bit_code((n - 1 - j) as nat)
}

proof fn lemma_bit_code(c: Ctx, v: Seq<Item>, w: Seq<Item>, b: int, i: nat)
    requires
        c.live(),
        0 <= b,
        i <= 30,
    ensures
        vm::run(bit_code(i), vm::at(c, v.push(vm::num(b % pow2(i + 1) as int)), w)) == Some(
            vm::at(c, v.push(vm::num(b % pow2(i) as int)), w.push(vm::num(bit(b, i)))),
        ),
{
    reveal(bit_code);
    broadcast use vm::group_run;
    broadcast use vm::group_inert;

    lemma_bit(b, i);
    lemma_bit(b, i + 1);
    lemma_pow2_le(i, 30);
    lemma2_to64();
    let q = pow2(i) as int;
    let x = b % pow2(i + 1) as int;
    let y = b % q;
    let taken = bit(b, i) == 1;
    assert(1 * q == q && 0 * q == 0);
    assert(x >= q <==> taken);
    let v2 = v.push(vm::num(y)).push(vm::num(bit(b, i)));
    assert(0 <= x < 0x80000000);
    let yes = vm::nil().push(vm::k(q)).push(vm::o(Opcode::Sub)).push(vm::k(1));
    let no = vm::nil().push(vm::k(0));
    assert(vm::run(if taken { yes } else { no }, vm::at(c.enter(true), v.push(vm::num(x)), w))
        == Some(vm::at(c.enter(true), v2, w))) by {
        vm::lemma_enter_live(c);
    }
    vm::lemma_if_else(c, v.push(vm::num(x)), w, yes, no, taken, v2, w);
}

proof fn lemma_pow2_le(i: nat, j: nat)
    requires
        i <= j,
    ensures
        pow2(i) <= pow2(j),
{
    if i < j {
        lemma_pow2_strictly_increases(i, j);
    }
}

/// The upper `m` of the low `n` bits of `b`, most significant first.
pub open spec fn upper_bits(b: int, n: nat, m: nat) -> Seq<Item> {
    Seq::new(m, |t: int| vm::num(bit(b, (n - 1 - t) as nat)))
}

proof fn lemma_upper_bits(c: Ctx, v: Seq<Item>, w: Seq<Item>, b: int, n: nat, m: nat)
    requires
        c.live(),
        0 <= b,
        m <= n <= 31,
    ensures
        vm::run(
            vm::flat(m, bit_codes(n)),
            vm::at(c, v.push(vm::num(b % pow2(n) as int)), w),
        ) == Some(
            vm::at(c, v.push(vm::num(b % pow2((n - m) as nat) as int)), w + upper_bits(b, n, m)),
        ),
{
    let st = |j: int|
        vm::at(
            c,
            v.push(vm::num(b % pow2((n - j) as nat) as int)),
            w + upper_bits(b, n, j as nat),
        );
    let f = bit_codes(n);
    assert forall|j: int| 0 <= j < m implies #[trigger] vm::run(f(j), st(j)) == Some(st(j + 1)) by {
        let w1 = w + upper_bits(b, n, j as nat);
        let w2 = w + upper_bits(b, n, (j + 1) as nat);
        let i = (n - 1 - j) as nat;
        lemma_bit_code(c, v, w1, b, i);
        assert(w1.push(vm::num(bit(b, i))) =~= w2);
        assert((n - (j + 1)) as nat == i && (n - j) as nat == i + 1);
    }
    vm::lemma_run_flat(m, f, st);
    assert(w + upper_bits(b, n, 0) =~= w);
    assert((n - 0) as nat == n);
}

proof fn lemma_bit_codes(c: Ctx, v: Seq<Item>, w: Seq<Item>, b: int, n: nat)
    requires
        c.live(),
        0 <= b,
        n <= 31,
    ensures
        vm::run(
            vm::flat(n, bit_codes(n)),
            vm::at(c, v.push(vm::num(b % pow2(n) as int)), w),
        ) == Some(vm::at(c, v.push(vm::num(0)), w + bit_items(b, n))),
{
    lemma_upper_bits(c, v, w, b, n, n);
    lemma2_to64();
    assert((n - n) as nat == 0);
    assert(b % 1 == 0);
    assert(upper_bits(b, n, n) =~= bit_items(b, n));
}

/// `1 << i` as a script integer.
pub(crate) fn power_of_two(i: usize) -> (r: i64)
    requires
        i < 31,
    ensures
        r == pow2(i as nat),
{
    proof {
        lemma_pow2_le(i as nat, 30);
        lemma2_to64();
        lemma_u32_shl_is_mul(1, i as u32);
    }
    (1u32 << (i as u32)) as i64
}

/// The comparison and subtraction that take bit `i` off the top element.
fn take_bit(i: usize) -> (r: Script)
    requires
        i < 31,
    ensures
        r.code() == bit_code(i as nat),
{
    proof {
        reveal(bit_code);
    }
    let q: i64 = power_of_two(i);
    Script::new().op(Opcode::Dup).num(q).op(Opcode::GreaterThanOrEqual).then_script(
        vm::choice(Script::new().num(q).op(Opcode::Sub).num(1), Script::new().num(0)),
    ).op(Opcode::ToAltStack)
}

/// The upper `m` of the low `n` bits taken off the top element, from the top one
/// down.
fn take_bits(n: usize, m: usize) -> (r: Script)
    requires
        m <= n <= 31,
    ensures
        r.code() == vm::flat(m as nat, bit_codes(n as nat)),
{
    let mut r = Script::new();
    let mut j: usize = 0;
    while j < m
        invariant
            j <= m <= n <= 31,
            r.code() == vm::flat(j as nat, bit_codes(n as nat)),
        decreases m - j,
    {
        r = r.then_script(take_bit(n - 1 - j));
        j = j + 1;
    }
    r
}

/// The code of [`bits_to_altstack`].
#[verifier::opaque]
pub open spec fn bits_to_altstack_code() -> Seq<Instr> {
    vm::flat(30, bit_codes(31))
}

proof fn lemma_bits_to_altstack(c: Ctx, v: Seq<Item>, w: Seq<Item>, b: int)
    requires
        c.live(),
        arith::felt(b),
    ensures
        vm::run(bits_to_altstack_code(), vm::at(c, v.push(vm::num(b)), w)) == Some(
            vm::at(c, v.push(vm::num(bit(b, 0))), w + upper_bits(b, 31, 30)),
        ),
{
    reveal(bits_to_altstack_code);
    lemma2_to64();
    assert(b % pow2(31) as int == b);
    assert(b / 1 == b);
    lemma_upper_bits(c, v, w, b, 31, 30);
}

/// Decompose the top element into its 31 bits, all but the lowest of them pushed
/// to the altstack.
///
/// Bits go on most-significant first, so popping yields them least-significant
/// first, which is the order [`mul`] consumes them in. Once they are taken off,
/// what remains is the lowest bit itself, and it stays where it is. Uses
/// comparison and subtraction only.
fn bits_to_altstack() -> (r: Script)
    ensures
        r.code() == bits_to_altstack_code(),
        forall|b: int, c: Ctx, v: Seq<Item>, w: Seq<Item>|
            arith::felt(b) && c.live() ==> #[trigger] vm::run(
                r.code(),
                vm::at(c, v.push(vm::num(b)), w),
            ) == Some(vm::at(c, v.push(vm::num(bit(b, 0))), w + upper_bits(b, 31, 30))),
{
    proof {
        assert forall|b: int, c: Ctx, v: Seq<Item>, w: Seq<Item>|
            arith::felt(b) && c.live() implies #[trigger] vm::run(
            bits_to_altstack_code(),
            vm::at(c, v.push(vm::num(b)), w),
        ) == Some(vm::at(c, v.push(vm::num(bit(b, 0))), w + upper_bits(b, 31, 30))) by {
            lemma_bits_to_altstack(c, v, w, b);
        }
        reveal(bits_to_altstack_code);
    }
    take_bits(BITS, BITS - 1)
}

// ---------------------------------------------------------------------------
// Multiplication
// ---------------------------------------------------------------------------

/// The code that folds the lowest bit in and lays the modulus down.
#[verifier::opaque]
pub open spec fn first_bit_code() -> Seq<Instr> {
    (((vm::nil().push(vm::k(0)).push(vm::o(Opcode::Swap)) + vm::if_code(
        vm::nil().push(vm::o(Opcode::Over)) + add_code(),
    )).push(vm::o(Opcode::Swap)) + double_code()).push(vm::k(P as int)).push(
        vm::o(Opcode::Swap),
    )).push(vm::o(Opcode::Rot))
}

/// The code that folds bit `i + 1` of the multiplier in.
#[verifier::opaque]
pub open spec fn mul_bit_code(i: int) -> Seq<Instr> {
    (vm::nil().push(vm::o(Opcode::FromAltStack)) + vm::if_code(
        vm::nil().push(vm::o(Opcode::Over)) + kept_add_code(),
    )) + (if i < 29 {
        (vm::nil().push(vm::o(Opcode::Swap)) + kept_double_code()).push(vm::o(Opcode::Swap))
    } else {
        vm::nil()
    })
}

/// The code of each step of double-and-add.
pub open spec fn mul_bit_codes() -> spec_fn(int) -> Seq<Instr> {
    |i: int| mul_bit_code(i)
}

/// The code of [`mul`].
#[verifier::opaque]
pub open spec fn mul_code() -> Seq<Instr> {
    (bits_to_altstack_code() + first_bit_code() + vm::flat(30, mul_bit_codes())).push(
        vm::o(Opcode::ToAltStack),
    ).push(vm::o(Opcode::Drop2)).push(vm::o(Opcode::FromAltStack))
}

proof fn lemma_first_bit(c: Ctx, v: Seq<Item>, w: Seq<Item>, x: int, taken: bool)
    requires
        c.live(),
        arith::felt(x),
    ensures
        vm::run(first_bit_code(), vm::at(c, v.push(vm::num(x)).push(vm::flag(taken)), w)) == Some(
            vm::at(
                c,
                kept(v, vm::num(arith::fadd(x, x))).push(
                    vm::num(
                        if taken {
                            x
                        } else {
                            0
                        },
                    ),
                ),
                w,
            ),
        ),
{
    reveal(first_bit_code);
    broadcast use vm::group_run;
    broadcast use vm::group_inert;
    broadcast use inert_add;

    let body = vm::nil().push(vm::o(Opcode::Over)) + add_code();
    let v1 = v.push(vm::num(x)).push(vm::num(0));
    let y: int = if taken {
        x
    } else {
        0
    };
    let v2 = v.push(vm::num(x)).push(vm::num(y));
    let base = v.push(vm::num(x)).push(vm::flag(taken)).push(vm::num(0));
    arith::lemma_red(x);
    vm::lemma_enter_live(c);
    lemma_add(c.enter(true), v.push(vm::num(x)), w, 0, x);
    assert(taken ==> vm::run(body, vm::at(c.enter(true), v1, w)) == Some(
        vm::at(c.enter(true), v2, w),
    ));
    vm::lemma_if(c, v1, w, body, taken, v2, w);
    assert(base.drop_last().drop_last() =~= v.push(vm::num(x)));
    assert(v2.drop_last().drop_last() =~= v);
    lemma_double(c, v.push(vm::num(y)), w, x);
}

proof fn lemma_mul_bit(c: Ctx, v: Seq<Item>, w: Seq<Item>, x: int, y: int, taken: bool, i: int)
    requires
        c.live(),
        arith::felt(x),
        arith::felt(y),
    ensures
        vm::run(
            mul_bit_code(i),
            vm::at(c, kept(v, vm::num(x)).push(vm::num(y)), w.push(vm::flag(taken))),
        ) == Some(
            vm::at(
                c,
                kept(
                    v,
                    vm::num(
                        if i < 29 {
                            arith::fadd(x, x)
                        } else {
                            x
                        },
                    ),
                ).push(
                    vm::num(
                        if taken {
                            arith::fadd(y, x)
                        } else {
                            y
                        },
                    ),
                ),
                w,
            ),
        ),
{
    reveal(mul_bit_code);
    broadcast use vm::group_run;
    broadcast use vm::group_inert;
    broadcast use inert_kept_add;

    let body = vm::nil().push(vm::o(Opcode::Over)) + kept_add_code();
    let v1 = kept(v, vm::num(x)).push(vm::num(y));
    let y2 = if taken {
        arith::fadd(y, x)
    } else {
        y
    };
    let v2 = kept(v, vm::num(x)).push(vm::num(y2));
    vm::lemma_enter_live(c);
    lemma_kept_add(c.enter(true), v, w, vm::num(x), y, x);
    assert(taken ==> vm::run(body, vm::at(c.enter(true), v1, w)) == Some(
        vm::at(c.enter(true), v2, w),
    ));
    vm::lemma_if(c, v1, w, body, taken, v2, w);
    assert(v2.drop_last().drop_last() =~= v.push(vm::num(arith::modulus())));
    lemma_kept_double(c, v, w, vm::num(y2), x);
}

/// What [`mul`] does to two canonical elements.
pub proof fn lemma_mul(c: Ctx, v: Seq<Item>, w: Seq<Item>, a: int, b: int)
    requires
        c.live(),
        arith::felt(a),
        arith::felt(b),
    ensures
        vm::run(mul_code(), vm::at(c, v.push(vm::num(a)).push(vm::num(b)), w)) == Some(
            vm::at(c, v.push(vm::num(arith::fmul(a, b))), w),
        ),
{
    reveal(mul_code);
    broadcast use vm::group_run;

    lemma_bits_to_altstack(c, v.push(vm::num(a)), w, b);
    let lo = |i: int| b % pow2((i + 1) as nat) as int;
    let dbl = |i: int|
        arith::fmul(
            a,
            pow2(
                (if i <= 29 {
                    i + 1
                } else {
                    30
                }) as nat,
            ) as int,
        );
    let bits = |i: int| upper_bits(b, 31, (30 - i) as nat);
    let st = |i: int|
        vm::at(
            c,
            kept(v, vm::num(dbl(i))).push(vm::num(arith::fmul(a, lo(i)))),
            w + bits(i),
        );
    let f = mul_bit_codes();
    assert forall|i: int| 0 <= i < 30 implies #[trigger] vm::run(f(i), st(i)) == Some(st(i + 1)) by {
        let k = (i + 1) as nat;
        let q = pow2(k) as int;
        let x = arith::fmul(a, q);
        let y = arith::fmul(a, lo(i));
        let t = bit(b, k);
        lemma_bit(b, k);
        arith::lemma_red(a * q);
        arith::lemma_red(a * lo(i));
        assert(w + bits(i) =~= (w + bits(i + 1)).push(vm::flag(t == 1)));
        lemma_mul_bit(c, v, w + bits(i + 1), x, y, t == 1, i);
        arith::lemma_red_add(a * q, a * q);
        lemma_pow2_unfold(k + 1);
        assert(a * q + a * q == a * (2 * q)) by (nonlinear_arith);
        arith::lemma_red_add(a * lo(i), a * q);
        assert(a * (t * q + lo(i)) == a * lo(i) + t * (a * q)) by (nonlinear_arith);
        assert(1 * (a * q) == a * q && 0 * (a * q) == 0);
        assert(lo(i + 1) == t * q + lo(i));
    }
    vm::lemma_run_flat(30, f, st);
    lemma2_to64();
    lemma_bit(b, 0);
    let t = bit(b, 0);
    lemma_first_bit(c, v, w + bits(0), a, t == 1);
    assert(b % 1 == 0);
    assert(b % pow2(31) as int == b);
    arith::lemma_red(a);
    arith::lemma_red(0);
    assert(a * 1 == a && a * 0 == 0 && a * 2 == a + a);
    assert(lo(0) == t);
    assert(w + bits(30) =~= w);
}

/// Multiply two canonical elements.
///
/// Input: `a b`. Output: `a * b`.
///
/// Double-and-add from the least significant bit: the stack carries
/// `running_double accumulator`, and each bit either folds the running double
/// into the accumulator or does not.
///
/// The first step is taken with plain additions. Only then is the modulus laid
/// underneath, `P running_double accumulator`, and the other steps pick it from
/// there. By that time one bit less is parked, so that the copy takes no room
/// beyond what the decomposition needed.
pub fn mul() -> (r: Script)
    ensures
        r.code() == mul_code(),
        computes2(r.code(), |a: int, b: int| arith::fmul(a, b)),
{
    proof {
        assert forall|a: int, b: int, c: Ctx, v: Seq<Item>, w: Seq<Item>|
            arith::felt(a) && arith::felt(b) && c.live() implies #[trigger] vm::run(
            mul_code(),
            vm::at(c, v.push(vm::num(a)).push(vm::num(b)), w),
        ) == Some(vm::at(c, v.push(vm::num(arith::fmul(a, b))), w)) by {
            lemma_mul(c, v, w, a, b);
        }
        reveal(mul_code);
        reveal(first_bit_code);
    }
    // stack: a bit       altstack: the other bits, lowest on top
    let bits = bits_to_altstack();
    let first = Script::new().num(0).op(Opcode::Swap).then_script(
        vm::when(Script::new().op(Opcode::Over).then_script(self::add())),
    ).op(Opcode::Swap).then_script(double()).num(P as i64).op(Opcode::Swap).op(Opcode::Rot);
    let mut body = Script::new();
    let mut i: usize = 0;
    while i < BITS - 1
        invariant
            i <= BITS - 1,
            body.code() == vm::flat(i as nat, mul_bit_codes()),
        decreases BITS - 1 - i,
    {
        proof {
            reveal(mul_bit_code);
        }
        let fold = Script::new().op(Opcode::FromAltStack).then_script(
            vm::when(Script::new().op(Opcode::Over).then_script(kept_add())),
        );
        let shift = if i < BITS - 2 {
            Script::new().op(Opcode::Swap).then_script(kept_double()).op(Opcode::Swap)
        } else {
            Script::new()
        };
        body = body.then_script(fold.then_script(shift));
        i = i + 1;
    }
    bits.then_script(first).then_script(body).op(Opcode::ToAltStack).op(Opcode::Drop2).op(
        Opcode::FromAltStack,
    )
}

/// The code of [`cube`].
#[verifier::opaque]
pub open spec fn cube_code() -> Seq<Instr> {
    vm::nil().push(vm::o(Opcode::Dup)).push(vm::o(Opcode::Dup)) + mul_code() + mul_code()
}

/// What [`cube`] does to a canonical element.
pub proof fn lemma_cube(c: Ctx, v: Seq<Item>, w: Seq<Item>, a: int)
    requires
        c.live(),
        arith::felt(a),
    ensures
        vm::run(cube_code(), vm::at(c, v.push(vm::num(a)), w)) == Some(
            vm::at(c, v.push(vm::num(arith::fcube(a))), w),
        ),
{
    reveal(cube_code);
    broadcast use vm::group_run;

    arith::lemma_red(a * a);
    lemma_mul(c, v.push(vm::num(a)), w, a, a);
    lemma_mul(c, v, w, a, arith::fmul(a, a));
}

/// Cube, the Poseidon2 S-box for KoalaBear.
///
/// Input: `a`. Output: `a^3`.
pub fn cube() -> (r: Script)
    ensures
        r.code() == cube_code(),
        computes1(r.code(), |a: int| arith::fcube(a)),
{
    proof {
        assert forall|a: int, c: Ctx, v: Seq<Item>, w: Seq<Item>|
            arith::felt(a) && c.live() implies #[trigger] vm::run(
            cube_code(),
            vm::at(c, v.push(vm::num(a)), w),
        ) == Some(vm::at(c, v.push(vm::num(arith::fcube(a))), w)) by {
            lemma_cube(c, v, w, a);
        }
        reveal(cube_code);
    }
    Script::new().op(Opcode::Dup).op(Opcode::Dup).then_script(self::mul()).then_script(self::mul())
}

// ---------------------------------------------------------------------------
// What a verifier needs beyond the hash
// ---------------------------------------------------------------------------

/// The code that clears bit `i` of the top element, knowing none above it set.
#[verifier::opaque]
pub open spec fn clear_bit_code(i: nat) -> Seq<Instr> {
    vm::nil().push(vm::o(Opcode::Dup)).push(vm::k(pow2(i) as int)).push(
        vm::o(Opcode::GreaterThanOrEqual),
    ) + vm::if_code(vm::nil().push(vm::k(pow2(i) as int)).push(vm::o(Opcode::Sub)))
}

/// The code that clears bits 30, 29, and so on down.
pub open spec fn clear_bit_codes() -> spec_fn(int) -> Seq<Instr> {
    |j: int| clear_bit_code((30 - j) as nat)
}

/// The code of [`low_bits_to_altstack`].
#[verifier::opaque]
pub open spec fn low_bits_to_altstack_code(bits: nat) -> Seq<Instr> {
    (vm::flat((31 - bits) as nat, clear_bit_codes()) + vm::flat(bits, bit_codes(bits))).push(
        vm::o(Opcode::Drop),
    )
}

proof fn lemma_clear_bit(c: Ctx, v: Seq<Item>, w: Seq<Item>, b: int, i: nat)
    requires
        c.live(),
        0 <= b,
        i <= 30,
    ensures
        vm::run(clear_bit_code(i), vm::at(c, v.push(vm::num(b % pow2(i + 1) as int)), w)) == Some(
            vm::at(c, v.push(vm::num(b % pow2(i) as int)), w),
        ),
{
    reveal(clear_bit_code);
    broadcast use vm::group_run;
    broadcast use vm::group_inert;

    lemma_bit(b, i);
    lemma_bit(b, i + 1);
    lemma_pow2_le(i, 30);
    lemma2_to64();
    let q = pow2(i) as int;
    let x = b % pow2(i + 1) as int;
    let taken = bit(b, i) == 1;
    assert(1 * q == q && 0 * q == 0);
    assert(x >= q <==> taken);
    let v2 = v.push(vm::num(b % q));
    assert(0 <= x < 0x80000000);
    let body = vm::nil().push(vm::k(q)).push(vm::o(Opcode::Sub));
    vm::lemma_enter_live(c);
    vm::lemma_if(c, v.push(vm::num(x)), w, body, taken, v2, w);
}

/// What [`low_bits_to_altstack`] does to a canonical element.
pub proof fn lemma_low_bits_to_altstack(c: Ctx, v: Seq<Item>, w: Seq<Item>, b: int, n: nat)
    requires
        c.live(),
        arith::felt(b),
        n <= 31,
    ensures
        vm::run(low_bits_to_altstack_code(n), vm::at(c, v.push(vm::num(b)), w)) == Some(
            vm::at(c, v, w + bit_items(b, n)),
        ),
{
    reveal(low_bits_to_altstack_code);
    broadcast use vm::group_run;

    let st = |j: int| vm::at(c, v.push(vm::num(b % pow2((31 - j) as nat) as int)), w);
    let f = clear_bit_codes();
    assert forall|j: int| 0 <= j < 31 - n implies #[trigger] vm::run(f(j), st(j)) == Some(
        st(j + 1),
    ) by {
        lemma_clear_bit(c, v, w, b, (30 - j) as nat);
        assert((31 - (j + 1)) as nat == (30 - j) as nat && (31 - j) as nat == (30 - j) as nat + 1);
    }
    vm::lemma_run_flat((31 - n) as nat, f, st);
    lemma2_to64();
    assert(b % pow2(31) as int == b);
    assert((31 - (31 - n)) as nat == n && (31 - 0) as nat == 31);
    lemma_bit_codes(c, v, w, b, n);
}

/// The low `bits` bits of the top element, pushed to the altstack.
///
/// This is the mask a query index needs, without `OP_MOD`: the bits above are
/// subtracted away, and the rest go on most-significant first, so popping
/// yields them least-significant first.
pub fn low_bits_to_altstack(bits: usize) -> (r: Script)
    requires
        bits <= 31,
    ensures
        r.code() == low_bits_to_altstack_code(bits as nat),
        forall|b: int, c: Ctx, v: Seq<Item>, w: Seq<Item>|
            arith::felt(b) && c.live() ==> #[trigger] vm::run(
                r.code(),
                vm::at(c, v.push(vm::num(b)), w),
            ) == Some(vm::at(c, v, w + bit_items(b, bits as nat))),
{
    proof {
        assert forall|b: int, c: Ctx, v: Seq<Item>, w: Seq<Item>|
            arith::felt(b) && c.live() implies #[trigger] vm::run(
            low_bits_to_altstack_code(bits as nat),
            vm::at(c, v.push(vm::num(b)), w),
        ) == Some(vm::at(c, v, w + bit_items(b, bits as nat))) by {
            lemma_low_bits_to_altstack(c, v, w, b, bits as nat);
        }
        reveal(low_bits_to_altstack_code);
    }
    let mut r = Script::new();
    let mut j: usize = 0;
    while j < BITS - bits
        invariant
            bits <= 31,
            j <= BITS - bits,
            r.code() == vm::flat(j as nat, clear_bit_codes()),
        decreases BITS - bits - j,
    {
        proof {
            reveal(clear_bit_code);
        }
        let q: i64 = power_of_two(BITS - 1 - j);
        r = r.then_script(
            Script::new().op(Opcode::Dup).num(q).op(Opcode::GreaterThanOrEqual).then_script(
                vm::when(Script::new().num(q).op(Opcode::Sub)),
            ),
        );
        j = j + 1;
    }
    r.then_script(take_bits(bits, bits)).op(Opcode::Drop)
}

/// The code of [`inverse_hinted`].
#[verifier::opaque]
pub open spec fn inverse_hinted_code() -> Seq<Instr> {
    (vm::nil().push(vm::o(Opcode::Tuck)) + mul_code()).push(vm::k(1)).push(
        vm::o(Opcode::EqualVerify),
    )
}

/// What [`inverse_hinted`] does to an element and a claimed inverse.
pub proof fn lemma_inverse_hinted(c: Ctx, v: Seq<Item>, w: Seq<Item>, x: int, inv: int)
    requires
        c.live(),
        arith::felt(x),
        arith::felt(inv),
    ensures
        vm::run(inverse_hinted_code(), vm::at(c, v.push(vm::num(x)).push(vm::num(inv)), w)) == (
        if arith::fmul(x, inv) == 1 {
            Some(vm::at(c, v.push(vm::num(inv)), w))
        } else {
            None
        }),
{
    reveal(inverse_hinted_code);
    broadcast use vm::group_run;

    arith::lemma_red(x * inv);
    lemma_mul(c, v.push(vm::num(inv)), w, x, inv);
    vm::lemma_num_eq(arith::fmul(x, inv), 1);
}

/// Inversion with the inverse supplied as a hint and checked.
///
/// Input: `x inv`. Output: `inv`. The script fails unless `x * inv` is one. For a
/// nonzero `x` exactly one hint passes, and for zero none does; see
/// [`crate::prime::inverses_exist_and_are_unique`].
pub fn inverse_hinted() -> (r: Script)
    ensures
        r.code() == inverse_hinted_code(),
        forall|x: int, inv: int, c: Ctx, v: Seq<Item>, w: Seq<Item>|
            arith::felt(x) && arith::felt(inv) && c.live() ==> #[trigger] vm::run(
                r.code(),
                vm::at(c, v.push(vm::num(x)).push(vm::num(inv)), w),
            ) == (if arith::fmul(x, inv) == 1 {
                Some(vm::at(c, v.push(vm::num(inv)), w))
            } else {
                None
            }),
{
    proof {
        assert forall|x: int, inv: int, c: Ctx, v: Seq<Item>, w: Seq<Item>|
            arith::felt(x) && arith::felt(inv) && c.live() implies #[trigger] vm::run(
            inverse_hinted_code(),
            vm::at(c, v.push(vm::num(x)).push(vm::num(inv)), w),
        ) == (if arith::fmul(x, inv) == 1 {
            Some(vm::at(c, v.push(vm::num(inv)), w))
        } else {
            None
        }) by {
            lemma_inverse_hinted(c, v, w, x, inv);
        }
        reveal(inverse_hinted_code);
    }
    Script::new().op(Opcode::Tuck).then_script(self::mul()).num(1).op(Opcode::EqualVerify)
}

/// The code that multiplies in `g^(2^i)` if the next bit is set.
#[verifier::opaque]
pub open spec fn pow_bit_code(g: int, i: nat) -> Seq<Instr> {
    vm::nil().push(vm::o(Opcode::FromAltStack)) + vm::if_code(
        mul_by_constant_code(arith::fpow(g, pow2(i))),
    )
}

/// The code of each step of raising the fixed base `g`.
pub open spec fn pow_bit_codes(g: int) -> spec_fn(int) -> Seq<Instr> {
    |i: int| pow_bit_code(g, i as nat)
}

/// The code of [`pow_const_base`].
#[verifier::opaque]
pub open spec fn pow_const_base_code(g: int, bits: nat) -> Seq<Instr> {
    low_bits_to_altstack_code(bits).push(vm::k(1)) + vm::flat(bits, pow_bit_codes(g))
}

/// What [`pow_const_base`] does to a canonical element.
pub proof fn lemma_pow_const_base(c: Ctx, v: Seq<Item>, w: Seq<Item>, g: int, e: int, n: nat)
    requires
        c.live(),
        arith::felt(e),
        n <= 31,
    ensures
        vm::run(pow_const_base_code(g, n), vm::at(c, v.push(vm::num(e)), w)) == Some(
            vm::at(c, v.push(vm::num(arith::fpow(g, (e % pow2(n) as int) as nat))), w),
        ),
{
    reveal(pow_const_base_code);
    broadcast use vm::group_run;

    lemma_low_bits_to_altstack(c, v, w, e, n);
    let lo = |i: int| (e % pow2(i as nat) as int) as nat;
    let bits = |i: int| Seq::new((n - i) as nat, |t: int| vm::num(bit(e, (n - 1 - t) as nat)));
    let st = |i: int| vm::at(c, v.push(vm::num(arith::fpow(g, lo(i)))), w + bits(i));
    let f = pow_bit_codes(g);
    assert forall|i: int| 0 <= i < n implies #[trigger] vm::run(f(i), st(i)) == Some(st(i + 1)) by {
        broadcast use vm::group_inert;
        broadcast use inert_mul_by_constant;

        reveal(pow_bit_code);
        let q = pow2(i as nat);
        let t = bit(e, i as nat);
        let x = arith::fpow(g, lo(i));
        lemma_bit(e, i as nat);
        arith::lemma_fpow_add(g, lo(i), q);
        arith::lemma_fpow_felt(g, lo(i));
        let body = mul_by_constant_code(arith::fpow(g, q));
        let w1 = w + bits(i + 1);
        assert(w + bits(i) =~= w1.push(vm::flag(t == 1)));
        assert(1 * q == q && 0 * q == 0);
        assert(lo(i + 1) == t * q + lo(i));
        vm::lemma_enter_live(c);
        lemma_mul_by_constant(c.enter(true), v, w1, x, arith::fpow(g, q));
        vm::lemma_if(
            c,
            v.push(vm::num(x)),
            w1,
            body,
            t == 1,
            v.push(vm::num(arith::fpow(g, lo(i + 1)))),
            w1,
        );
    }
    vm::lemma_run_flat(n, f, st);
    lemma2_to64();
    assert(e % 1 == 0);
    assert(lo(0) == 0);
    assert(bits(0) =~= bit_items(e, n));
    assert(w + bits(n as int) =~= w);
}

/// A constant raised to a run-time exponent, of which the low `bits` bits count.
///
/// Input: `e`. Output: `g^e`.
pub fn pow_const_base(g: u32, bits: usize) -> (r: Script)
    requires
        bits <= 31,
    ensures
        r.code() == pow_const_base_code(g as int, bits as nat),
        computes1(
            r.code(),
            |e: int| arith::fpow(g as int, (e % pow2(bits as nat) as int) as nat),
        ),
{
    proof {
        assert forall|e: int, c: Ctx, v: Seq<Item>, w: Seq<Item>|
            arith::felt(e) && c.live() implies #[trigger] vm::run(
            pow_const_base_code(g as int, bits as nat),
            vm::at(c, v.push(vm::num(e)), w),
        ) == Some(
            vm::at(
                c,
                v.push(vm::num(arith::fpow(g as int, (e % pow2(bits as nat) as int) as nat))),
                w,
            ),
        ) by {
            lemma_pow_const_base(c, v, w, g as int, e, bits as nat);
        }
        reveal(pow_const_base_code);
        lemma2_to64();
        reveal_with_fuel(arith::fpow, 2);
        assert(1 * g as int == g as int);
    }
    let mut r = low_bits_to_altstack(bits).num(1);
    let mut body = Script::new();
    let mut s: u64 = g as u64 % P as u64;
    let mut i: usize = 0;
    while i < bits
        invariant
            i <= bits,
            s < P,
            s == arith::fpow(g as int, pow2(i as nat)),
            body.code() == vm::flat(i as nat, pow_bit_codes(g as int)),
        decreases bits - i,
    {
        proof {
            reveal(pow_bit_code);
            assert(0 <= s * s < 0x7f000001 * 0x7f000001) by (nonlinear_arith)
                requires
                    0 <= s < 0x7f000001,
            ;
            lemma_pow2_unfold((i + 1) as nat);
            arith::lemma_fpow_add(g as int, pow2(i as nat), pow2(i as nat));
        }
        body = body.then_script(
            Script::new().op(Opcode::FromAltStack).then_script(
                vm::when(mul_by_constant(s as u32)),
            ),
        );
        s = s * s % P as u64;
        i = i + 1;
    }
    r.then_script(body)
}

// ---------------------------------------------------------------------------
// Code that may stand in a branch
// ---------------------------------------------------------------------------

/// [`add`] is inert.
pub broadcast proof fn inert_add()
    ensures
        #[trigger] vm::inert(add_code()),
{
    reveal(add_code);
    reveal(to_twisted_code);
    reveal(adjust_canonical_code);
    broadcast use vm::group_inert;

}

/// [`sub`] is inert.
pub broadcast proof fn inert_sub()
    ensures
        #[trigger] vm::inert(sub_code()),
{
    reveal(sub_code);
    reveal(adjust_canonical_code);
    broadcast use vm::group_inert;

}

/// [`double`] is inert.
pub broadcast proof fn inert_double()
    ensures
        #[trigger] vm::inert(double_code()),
{
    reveal(double_code);
    broadcast use {vm::group_inert, inert_add};

}

/// [`kept_add`] is inert.
pub broadcast proof fn inert_kept_add()
    ensures
        #[trigger] vm::inert(kept_add_code()),
{
    reveal(kept_add_code);
    reveal(kept_adjust_code);
    broadcast use vm::group_inert;

}

/// [`kept_sub`] is inert.
pub broadcast proof fn inert_kept_sub()
    ensures
        #[trigger] vm::inert(kept_sub_code()),
{
    reveal(kept_sub_code);
    reveal(kept_adjust_code);
    broadcast use vm::group_inert;

}

/// [`kept_double`] is inert.
pub broadcast proof fn inert_kept_double()
    ensures
        #[trigger] vm::inert(kept_double_code()),
{
    reveal(kept_double_code);
    broadcast use {vm::group_inert, inert_kept_add};

}

/// [`mul_by_constant`] is inert.
pub broadcast proof fn inert_mul_by_constant(n: int)
    ensures
        #[trigger] vm::inert(mul_by_constant_code(n)),
{
    reveal(mul_by_constant_code);
    reveal(digit_code);
    broadcast use {vm::group_inert, inert_kept_add, inert_kept_sub, inert_kept_double};

}

/// [`mul`] is inert.
pub broadcast proof fn inert_mul()
    ensures
        #[trigger] vm::inert(mul_code()),
{
    reveal(mul_code);
    reveal(mul_bit_code);
    reveal(first_bit_code);
    reveal(bits_to_altstack_code);
    reveal(bit_code);
    broadcast use {vm::group_inert, inert_add, inert_double, inert_kept_add, inert_kept_double};

}

/// [`cube`] is inert.
pub broadcast proof fn inert_cube()
    ensures
        #[trigger] vm::inert(cube_code()),
{
    reveal(cube_code);
    broadcast use {vm::group_inert, inert_mul};

}

/// Arithmetic may stand in a branch that is not taken.
pub broadcast group group_inert_field {
    inert_add,
    inert_sub,
    inert_double,
    inert_mul_by_constant,
    inert_mul,
    inert_cube,
}

} // verus!
