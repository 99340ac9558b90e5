//! The Fiat-Shamir duplex, in Bitcoin Script.
//!
//! A duplex sponge of rate eight over the width-16 permutation. Every challenge
//! in a WHIR proof comes from here, so getting the padding rule right matters:
//! absorbing binds the number of absorbed elements into the first capacity slot,
//! which is what stops a short absorb from colliding with a zero-padded longer
//! one; see [`poseidon2::absorbed_inputs_are_bound`].

use crate::arith;
use crate::field;
use crate::permutation;
use crate::poseidon2;
use crate::script::{Instr, Opcode, Script};
use crate::vm::{self, Ctx, Item};
use vstd::prelude::*;

verus! {

/// Sponge rate.
pub const RATE: usize = 8;

/// Sponge width.
pub const WIDTH: usize = 16;

/// The code that puts slot `i` of what is permuted on top.
#[verifier::opaque]
pub open spec fn slot_code(k: int, i: int) -> Seq<Instr> {
    if i < k {
        vm::pick_code((k - 1 - i) + i)
    } else if i < 8 && k > 0 {
        vm::nil().push(vm::k(0))
    } else if i == 8 && k > 0 {
        vm::pick_code((15 - i) + k + i).push(vm::k(k)) + field::add_code()
    } else {
        vm::pick_code((15 - i) + k + i)
    }
}

/// The code that builds each slot of the new state.
pub open spec fn slot_codes(k: int) -> spec_fn(int) -> Seq<Instr> {
    |i: int| slot_code(k, i)
}

/// The code of [`absorb`].
#[verifier::opaque]
pub open spec fn absorb_code(k: int) -> Seq<Instr> {
    vm::flat(16, slot_codes(k)) + vm::ops(16, Opcode::ToAltStack) + vm::ops(
        ((16 + k) / 2) as nat,
        Opcode::Drop2,
    ) + vm::ops(((16 + k) % 2) as nat, Opcode::Drop) + vm::ops(16, Opcode::FromAltStack)
        + permutation::permute_code()
}

proof fn lemma_slot(
    c: Ctx,
    v: Seq<Item>,
    w: Seq<Item>,
    s: Seq<int>,
    x: Seq<int>,
    outs: Seq<Item>,
)
    requires
        c.live(),
        poseidon2::is_state(s),
        arith::felts(x),
        x.len() <= 8,
        outs.len() < 16,
    ensures
        vm::run(
            slot_code(x.len() as int, outs.len() as int),
            vm::at(c, v + vm::nums(s) + vm::nums(x) + outs, w),
        ) == Some(
            vm::at(
                c,
                (v + vm::nums(s) + vm::nums(x) + outs).push(
                    vm::num(poseidon2::duplex_input(s, x)[outs.len() as int]),
                ),
                w,
            ),
        ),
{
    reveal(slot_code);
    let k = x.len() as int;
    let i = outs.len() as int;
    let now = v + vm::nums(s) + vm::nums(x) + outs;
    if i < k {
        assert(now[now.len() - 1 - ((k - 1 - i) + i)] == vm::num(x[i]));
        vm::lemma_pick(c, now, w, (k - 1 - i) + i);
    } else {
        assert(now[now.len() - 1 - ((15 - i) + k + i)] == vm::num(s[i]));
        vm::lemma_pick(c, now, w, (15 - i) + k + i);
        if i == 8 && k > 0 {
            field::lemma_add(c, now, w, s[8], k);
        }
    }
    broadcast use vm::group_run;

}

/// What [`absorb`] does to a state and its inputs.
pub proof fn lemma_absorb(c: Ctx, v: Seq<Item>, w: Seq<Item>, s: Seq<int>, x: Seq<int>)
    requires
        c.live(),
        poseidon2::is_state(s),
        arith::felts(x),
        x.len() <= 8,
    ensures
        vm::run(
            absorb_code(x.len() as int),
            vm::at(c, v + vm::nums(s) + vm::nums(x), w),
        ) == Some(vm::at(c, v + vm::nums(poseidon2::duplex(s, x)), w)),
{
    reveal(absorb_code);
    let k = x.len() as int;
    let new = poseidon2::duplex_input(s, x);
    let base = v + vm::nums(s) + vm::nums(x);
    let st = |i: int| vm::at(c, base + vm::nums(new.take(i)), w);
    let f = slot_codes(k);
    assert forall|i: int| 0 <= i < 16 implies #[trigger] vm::run(f(i), st(i)) == Some(st(i + 1)) by {
        lemma_slot(c, v, w, s, x, vm::nums(new.take(i)));
        assert((base + vm::nums(new.take(i))).push(vm::num(new[i])) =~= base + vm::nums(
            new.take(i + 1),
        ));
    }
    vm::lemma_run_flat(16, f, st);
    assert(base + vm::nums(new.take(0)) =~= base);
    assert(new.take(16) =~= new);
    let parked = w + vm::nums(new).reverse();
    vm::lemma_to_alt(c, base, vm::nums(new), w);
    let old = vm::nums(s) + vm::nums(x);
    assert(base =~= v + old);
    vm::lemma_drop_all(c, v, old, parked);
    vm::lemma_from_alt(c, v, vm::nums(new), w);
    poseidon2::lemma_duplex_is_state(s, x);
    permutation::lemma_permute(c, v, w, new);
    broadcast use vm::group_run;

}

/// Absorb `k` elements and permute.
///
/// Stack, bottom to top: the 16-element state, then the `k` inputs. Output: the
/// new state. `k == 0` is a squeeze: permute with the rate untouched and no
/// length tag.
pub fn absorb(k: usize) -> (r: Script)
    requires
        k <= RATE,
    ensures
        r.code() == absorb_code(k as int),
        forall|s: Seq<int>, x: Seq<int>, c: Ctx, v: Seq<Item>, w: Seq<Item>|
            poseidon2::is_state(s) && arith::felts(x) && x.len() == k && c.live()
                ==> #[trigger] vm::run(r.code(), vm::at(c, v + vm::nums(s) + vm::nums(x), w))
                == Some(vm::at(c, v + vm::nums(poseidon2::duplex(s, x)), w)),
{
    proof {
        assert forall|s: Seq<int>, x: Seq<int>, c: Ctx, v: Seq<Item>, w: Seq<Item>|
            poseidon2::is_state(s) && arith::felts(x) && x.len() == k
                && c.live() implies #[trigger] vm::run(
            absorb_code(k as int),
            vm::at(c, v + vm::nums(s) + vm::nums(x), w),
        ) == Some(vm::at(c, v + vm::nums(poseidon2::duplex(s, x)), w)) by {
            lemma_absorb(c, v, w, s, x);
        }
        reveal(absorb_code);
    }
    let n: usize = WIDTH + k;
    // The state and the inputs are left untouched while the new state is built
    // above them, so each operand's depth is a function of the push count.
    let mut rows = Script::new();
    let mut i: usize = 0;
    while i < WIDTH
        invariant
            i <= WIDTH,
            k <= RATE,
            rows.code() == vm::flat(i as nat, slot_codes(k as int)),
        decreases WIDTH - i,
    {
        proof {
            reveal(slot_code);
        }
        let row = if i < k {
            // Overwritten by input i.
            Script::new().num(((k - 1 - i) + i) as i64).op(Opcode::Pick)
        } else if i < RATE && k > 0 {
            // Rate slots the inputs did not reach are zeroed.
            Script::new().num(0)
        } else if i == RATE && k > 0 {
            // The length tag, bound into the first capacity element.
            Script::new().num(((WIDTH - 1 - i) + k + i) as i64).op(Opcode::Pick).num(
                k as i64,
            ).then_script(crate::field::add())
        } else {
            Script::new().num(((WIDTH - 1 - i) + k + i) as i64).op(Opcode::Pick)
        };
        rows = rows.then_script(row);
        i = i + 1;
    }
    // Park the new state, drop the old state and the inputs, restore.
    rows.then_script(vm::repeat(WIDTH, Opcode::ToAltStack)).then_script(
        vm::repeat(n / 2, Opcode::Drop2),
    ).then_script(vm::repeat(n % 2, Opcode::Drop)).then_script(
        vm::repeat(WIDTH, Opcode::FromAltStack),
    ).then_script(permutation::poseidon2_permute())
}

/// Squeeze: permute, leaving the rate as the first `RATE` elements of the state.
///
/// This is the duplex with nothing buffered, so no slot is overwritten and no
/// length tag is added.
pub fn squeeze() -> (r: Script)
    ensures
        r.code() == absorb_code(0),
        permutation::maps_state(r.code(), |s: Seq<int>| poseidon2::permutation(s)),
{
    proof {
        assert forall|s: Seq<int>, c: Ctx, v: Seq<Item>, w: Seq<Item>|
            poseidon2::is_state(s) && c.live() implies #[trigger] vm::run(
            absorb_code(0),
            vm::at(c, v + vm::nums(s), w),
        ) == Some(vm::at(c, v + vm::nums(poseidon2::permutation(s)), w)) by {
            let x = Seq::<int>::empty();
            lemma_absorb(c, v, w, s, x);
            assert(v + vm::nums(s) + vm::nums(x) =~= v + vm::nums(s));
        }
    }
    absorb(0)
}

} // verus!
