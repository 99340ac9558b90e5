//! Drawing challenges from the sponge, in Bitcoin Script.
//!
//! WHIR needs two kinds: field elements, which are rate slots taken as they
//! are, and query indices, which are a rate slot masked to the log of the domain
//! size.
//!
//! The verifier's absorb and squeeze schedule is fixed when the script is built,
//! so which rate slot a given challenge comes from is known at generation time
//! and is a parameter here rather than runtime state.

use crate::arith;
use crate::ext::{self, Ext};
use crate::ext4;
use crate::field;
use crate::poseidon2;
use crate::script::{Instr, Opcode, Script};
use crate::vm::{self, Ctx, Item};
use crate::whir::sponge::{RATE, WIDTH};
use vstd::arithmetic::power2::*;
use vstd::prelude::*;

verus! {

/// The code of [`sample_at`].
pub open spec fn sample_at_code(j: int, under: int) -> Seq<Instr> {
    vm::pick_code(15 - j + under)
}

/// What [`sample_at`] does.
pub proof fn lemma_sample_at(
    c: Ctx,
    v: Seq<Item>,
    w: Seq<Item>,
    s: Seq<int>,
    x: Seq<Item>,
    j: int,
)
    requires
        c.live(),
        s.len() == 16,
        0 <= j < 16,
        15 - j + x.len() < 0x80000000,
    ensures
        vm::run(sample_at_code(j, x.len() as int), vm::at(c, v + vm::nums(s) + x, w)) == Some(
            vm::at(c, (v + vm::nums(s) + x).push(vm::num(s[j])), w),
        ),
{
    let now = v + vm::nums(s) + x;
    assert(now[now.len() - 1 - (15 - j + x.len())] == vm::num(s[j]));
    vm::lemma_pick(c, now, w, 15 - j + x.len());
}

/// Copy rate slot `j` of the state, leaving the state in place.
///
/// A single base element, which is what a query index is masked from.
pub fn sample(j: usize) -> (r: Script)
    requires
        j < RATE,
    ensures
        r.code() == sample_at_code(j as int, 0),
        forall|s: Seq<int>, c: Ctx, v: Seq<Item>, w: Seq<Item>|
            s.len() == 16 && c.live() ==> #[trigger] vm::run(
                r.code(),
                vm::at(c, v + vm::nums(s), w),
            ) == Some(vm::at(c, (v + vm::nums(s)).push(vm::num(s[j as int])), w)),
{
    proof {
        assert forall|s: Seq<int>, c: Ctx, v: Seq<Item>, w: Seq<Item>|
            s.len() == 16 && c.live() implies #[trigger] vm::run(
            sample_at_code(j as int, 0),
            vm::at(c, v + vm::nums(s), w),
        ) == Some(vm::at(c, (v + vm::nums(s)).push(vm::num(s[j as int])), w)) by {
            let x = Seq::<Item>::empty();
            lemma_sample_at(c, v, w, s, x, j as int);
            assert(v + vm::nums(s) + x =~= v + vm::nums(s));
        }
    }
    Script::new().num((WIDTH - 1 - j) as i64).op(Opcode::Pick)
}

/// [`sample`] with `under` items sitting above the sponge state.
///
/// A query opening is the one place the state is not on top: the opening's root,
/// siblings and row have to be on the main stack before the index can be turned
/// into path directions, because the direction bits go on the altstack and would
/// otherwise be popped in the opening's place. Rather than shuffle the state
/// around the opening, the pick simply reaches further.
///
/// A pick depth is a script number of at most four bytes, which bounds `under`.
pub fn sample_at(j: usize, under: usize) -> (r: Script)
    requires
        j < RATE,
        under + 15 < 0x80000000,
    ensures
        r.code() == sample_at_code(j as int, under as int),
        forall|s: Seq<int>, x: Seq<Item>, c: Ctx, v: Seq<Item>, w: Seq<Item>|
            s.len() == 16 && x.len() == under && c.live() ==> #[trigger] vm::run(
                r.code(),
                vm::at(c, v + vm::nums(s) + x, w),
            ) == Some(vm::at(c, (v + vm::nums(s) + x).push(vm::num(s[j as int])), w)),
{
    proof {
        assert forall|s: Seq<int>, x: Seq<Item>, c: Ctx, v: Seq<Item>, w: Seq<Item>|
            s.len() == 16 && x.len() == under && c.live() implies #[trigger] vm::run(
            sample_at_code(j as int, under as int),
            vm::at(c, v + vm::nums(s) + x, w),
        ) == Some(vm::at(c, (v + vm::nums(s) + x).push(vm::num(s[j as int])), w)) by {
            lemma_sample_at(c, v, w, s, x, j as int);
        }
    }
    Script::new().num((WIDTH - 1 - j + under) as i64).op(Opcode::Pick)
}

/// Number of extension challenges one squeeze yields.
pub const EF_PER_SQUEEZE: usize = RATE / 4;

/// The extension element four consecutive slots of a state make.
pub open spec fn challenge(s: Seq<int>, j: int) -> Ext {
    Ext { c0: s[4 * j], c1: s[4 * j + 1], c2: s[4 * j + 2], c3: s[4 * j + 3] }
}

/// The code of each pick in [`sample_ef`].
pub open spec fn sample_ef_codes(j: int) -> spec_fn(int) -> Seq<Instr> {
    |i: int| vm::pick_code(15 - 4 * j)
}

/// The code of [`sample_ef`].
#[verifier::opaque]
pub open spec fn sample_ef_code(j: int) -> Seq<Instr> {
    vm::flat(4, sample_ef_codes(j))
}

/// What [`sample_ef`] does.
pub proof fn lemma_sample_ef(c: Ctx, v: Seq<Item>, w: Seq<Item>, s: Seq<int>, j: int)
    requires
        c.live(),
        poseidon2::is_state(s),
        0 <= j < 2,
    ensures
        vm::run(sample_ef_code(j), vm::at(c, v + vm::nums(s), w)) == Some(
            vm::at(c, ext4::put(v + vm::nums(s), challenge(s, j)), w),
        ),
        challenge(s, j).ok(),
{
    reveal(sample_ef_code);
    let n = challenge(s, j).coeffs();
    let base = v + vm::nums(s);
    let f = sample_ef_codes(j);
    let st = |i: int| vm::at(c, base + vm::nums(n.take(i)), w);
    assert forall|i: int| 0 <= i < 4 implies #[trigger] vm::run(f(i), st(i)) == Some(st(i + 1)) by {
        let now = base + vm::nums(n.take(i));
        assert(n[i] == s[4 * j + i]);
        assert(now[now.len() - 1 - (15 - 4 * j)] == vm::num(s[4 * j + i]));
        vm::lemma_pick(c, now, w, 15 - 4 * j);
        assert(now.push(vm::num(n[i])) =~= base + vm::nums(n.take(i + 1)));
    }
    vm::lemma_run_flat(4, f, st);
    assert(base + vm::nums(n.take(0)) =~= base);
    assert(n.take(4) =~= n);
    ext4::lemma_put_nums(base, challenge(s, j));
}

/// Draw the `j`-th extension challenge from the rate.
///
/// This is what the folding and constraint challenges are: four consecutive base
/// elements read as the coefficients of one extension element. **This is what
/// sets the security level.** A base-field challenge caps soundness near 31 bits
/// however many queries are made; at degree four the challenge space is about
/// 124 bits.
///
/// A rate of eight yields two extension challenges per squeeze, so the absorb
/// and squeeze schedule has to count in these, not in base elements.
///
/// Like [`ext4::copy`], the four picks sit at a constant depth: each push shifts
/// the remainder by exactly the step to the next coefficient.
pub fn sample_ef(j: usize) -> (r: Script)
    requires
        j < EF_PER_SQUEEZE,
    ensures
        r.code() == sample_ef_code(j as int),
        forall|s: Seq<int>, c: Ctx, v: Seq<Item>, w: Seq<Item>|
            poseidon2::is_state(s) && c.live() ==> #[trigger] vm::run(
                r.code(),
                vm::at(c, v + vm::nums(s), w),
            ) == Some(vm::at(c, ext4::put(v + vm::nums(s), challenge(s, j as int)), w)),
{
    proof {
        assert forall|s: Seq<int>, c: Ctx, v: Seq<Item>, w: Seq<Item>|
            poseidon2::is_state(s) && c.live() implies #[trigger] vm::run(
            sample_ef_code(j as int),
            vm::at(c, v + vm::nums(s), w),
        ) == Some(vm::at(c, ext4::put(v + vm::nums(s), challenge(s, j as int)), w)) by {
            lemma_sample_ef(c, v, w, s, j as int);
        }
        reveal(sample_ef_code);
    }
    let mut r = Script::new();
    let mut i: usize = 0;
    while i < 4
        invariant
            i <= 4,
            j < EF_PER_SQUEEZE,
            r.code() == vm::flat(i as nat, sample_ef_codes(j as int)),
        decreases 4 - i,
    {
        r = r.then_script(Script::new().num((WIDTH - 1 - 4 * j) as i64).op(Opcode::Pick));
        i = i + 1;
    }
    r
}

/// The code that puts bit `i` back with its weight.
#[verifier::opaque]
pub open spec fn weigh_bit_code(i: nat) -> Seq<Instr> {
    vm::nil().push(vm::o(Opcode::FromAltStack)) + vm::if_code(
        vm::nil().push(vm::k(pow2(i) as int)).push(vm::o(Opcode::Add)),
    )
}

/// The code that adds each bit with its weight.
pub open spec fn weigh_bit_codes() -> spec_fn(int) -> Seq<Instr> {
    |i: int| weigh_bit_code(i as nat)
}

/// The code of [`sample_bits`].
#[verifier::opaque]
pub open spec fn sample_bits_code(j: int, bits: nat) -> Seq<Instr> {
    (sample_at_code(j, 0) + field::low_bits_to_altstack_code(bits)).push(vm::k(0)) + vm::flat(
        bits,
        weigh_bit_codes(),
    )
}

#[verifier::rlimit(40)]
proof fn lemma_weigh_bit(c: Ctx, v: Seq<Item>, w: Seq<Item>, x: int, i: nat)
    requires
        c.live(),
        0 <= x,
        i <= 30,
    ensures
        vm::run(
            weigh_bit_code(i),
            vm::at(
                c,
                v.push(vm::num(x % pow2(i) as int)),
                w.push(vm::num(field::bit(x, i))),
            ),
        ) == Some(vm::at(c, v.push(vm::num(x % pow2(i + 1) as int)), w)),
{
    reveal(weigh_bit_code);
    broadcast use vm::group_run;
    broadcast use vm::group_inert;

    field::lemma_bit(x, i);
    lemma2_to64();
    if i < 30 {
        lemma_pow2_strictly_increases(i, 30);
    }
    let q = pow2(i) as int;
    let y = x % q;
    let taken = field::bit(x, i) == 1;
    assert(1 * q == q && 0 * q == 0);
    vm::lemma_enter_live(c);
    vm::lemma_if(
        c,
        v.push(vm::num(y)),
        w,
        vm::nil().push(vm::k(q)).push(vm::o(Opcode::Add)),
        taken,
        v.push(vm::num(x % pow2(i + 1) as int)),
        w,
    );
}

/// What [`sample_bits`] does.
pub proof fn lemma_sample_bits(
    c: Ctx,
    v: Seq<Item>,
    w: Seq<Item>,
    s: Seq<int>,
    j: int,
    bits: nat,
)
    requires
        c.live(),
        poseidon2::is_state(s),
        0 <= j < 16,
        bits <= 31,
    ensures
        vm::run(sample_bits_code(j, bits), vm::at(c, v + vm::nums(s), w)) == Some(
            vm::at(c, (v + vm::nums(s)).push(vm::num(s[j] % pow2(bits) as int)), w),
        ),
{
    reveal(sample_bits_code);
    let base = v + vm::nums(s);
    let e = Seq::<Item>::empty();
    let x = s[j];
    lemma_sample_at(c, v, w, s, e, j);
    assert(base + e =~= base);
    field::lemma_low_bits_to_altstack(c, base, w, x, bits);
    let left = |i: int|
        Seq::new((bits - i) as nat, |t: int| vm::num(field::bit(x, (bits - 1 - t) as nat)));
    let st = |i: int| vm::at(c, base.push(vm::num(x % pow2(i as nat) as int)), w + left(i));
    let f = weigh_bit_codes();
    assert forall|i: int| 0 <= i < bits implies #[trigger] vm::run(f(i), st(i)) == Some(
        st(i + 1),
    ) by {
        assert(w + left(i) =~= (w + left(i + 1)).push(vm::num(field::bit(x, i as nat))));
        lemma_weigh_bit(c, base, w + left(i + 1), x, i as nat);
    }
    vm::lemma_run_flat(bits, f, st);
    lemma2_to64();
    assert(x % 1 == 0);
    assert(left(0) =~= field::bit_items(x, bits));
    assert(w + left(bits as int) =~= w);
    broadcast use vm::group_run;

}

/// Rate slot `j`, masked to its low `bits` bits.
///
/// The mask is where an `OP_MOD` would go if script had one. It does not, so
/// the bits are peeled off by comparison and subtraction and reassembled with
/// their weights, which is also why the bits above `bits` have to be subtracted
/// away first rather than simply ignored.
pub fn sample_bits(j: usize, bits: usize) -> (r: Script)
    requires
        j < RATE,
        bits <= 31,
    ensures
        r.code() == sample_bits_code(j as int, bits as nat),
        forall|s: Seq<int>, c: Ctx, v: Seq<Item>, w: Seq<Item>|
            poseidon2::is_state(s) && c.live() ==> #[trigger] vm::run(
                r.code(),
                vm::at(c, v + vm::nums(s), w),
            ) == Some(
                vm::at(
                    c,
                    (v + vm::nums(s)).push(vm::num(s[j as int] % pow2(bits as nat) as int)),
                    w,
                ),
            ),
{
    proof {
        assert forall|s: Seq<int>, c: Ctx, v: Seq<Item>, w: Seq<Item>|
            poseidon2::is_state(s) && c.live() implies #[trigger] vm::run(
            sample_bits_code(j as int, bits as nat),
            vm::at(c, v + vm::nums(s), w),
        ) == Some(
            vm::at(
                c,
                (v + vm::nums(s)).push(vm::num(s[j as int] % pow2(bits as nat) as int)),
                w,
            ),
        ) by {
            lemma_sample_bits(c, v, w, s, j as int, bits as nat);
        }
        reveal(sample_bits_code);
    }
    let mut body = Script::new();
    let mut i: usize = 0;
    while i < bits
        invariant
            i <= bits <= 31,
            body.code() == vm::flat(i as nat, weigh_bit_codes()),
        decreases bits - i,
    {
        proof {
            reveal(weigh_bit_code);
        }
        body = body.then_script(
            Script::new().op(Opcode::FromAltStack).then_script(
                vm::when(Script::new().num(field::power_of_two(i)).op(Opcode::Add)),
            ),
        );
        i = i + 1;
    }
    sample(j).then_script(field::low_bits_to_altstack(bits)).num(0).then_script(body)
}

/// A sampled index lies in the domain.
pub proof fn sampled_indices_are_in_range(x: int, bits: nat)
    requires
        arith::felt(x),
    ensures
        0 <= x % (pow2(bits) as int) < pow2(bits),
{
    lemma_pow2_pos(bits);
}

} // verus!
