//! Disproving one step of the verifier, BitVM2-style.
//!
//! The verifier does not fit on Bitcoin. What BitVM2 does about that is not to
//! shrink it but to stop running it. The prover asserts the intermediate values,
//! and anyone who can show that *one step* is inconsistent takes their bond.
//! Only that one step is ever executed on-chain, and only when someone cheats.
//!
//! # A step is one permutation round
//!
//! The obvious unit is one Merkle level, and it is too big for
//! `MAX_STANDARD_TX_WEIGHT`'s 400 000 weight units. A step has to be
//! *sub-permutation*, and the permutation is already a chain of rounds, each
//! taking a state and leaving a state. [`crate::permutation::rounds`] emits
//! them, and [`crate::permutation::rounds_compose_to_the_permutation`] says that
//! chaining them all is the permutation.
//!
//! That makes the commitment scheme obvious too: the prover commits to the state
//! between rounds, a challenge names a round, and the disprove script runs that
//! one round against the committed input and output.
//!
//! # Predicate and commitment
//!
//! [`round`] is the *predicate*: given a claimed input and output for a step,
//! decide whether the claim is false. A predicate that can be satisfied for an
//! honest step lets anyone steal the bond. [`round_committed`] and
//! [`chunk_committed`] bind both states to one-time signatures first.

use crate::bytes;
use crate::constants::WIDTH;
use crate::permutation;
use crate::poseidon2;
use crate::script::{self, Instr, Opcode, Script};
use crate::vm::{self, Ctx, Item};
use crate::winternitz;
use vstd::prelude::*;

verus! {

// ---------------------------------------------------------------------------
// The predicate
// ---------------------------------------------------------------------------

/// The comparison of one pair, its outcome parked.
pub open spec fn compare_codes(n: int) -> spec_fn(int) -> Seq<Instr> {
    |j: int| vm::roll_code(n - j).push(vm::o(Opcode::Equal)).push(vm::o(Opcode::ToAltStack))
}

/// The fold of one outcome.
pub open spec fn fold_codes() -> spec_fn(int) -> Seq<Instr> {
    |j: int| vm::nil().push(vm::o(Opcode::FromAltStack)).push(vm::o(Opcode::BoolAnd))
}

/// The code of [`differs`].
#[verifier::opaque]
pub open spec fn differs_code(n: nat) -> Seq<Instr> {
    (vm::flat(n, compare_codes(n as int)).push(vm::k(1)) + vm::flat(n, fold_codes())).push(
        vm::o(Opcode::Not),
    )
}

/// Comparing the last elements of two blocks.
proof fn lemma_compare_step(
    c: Ctx,
    v: Seq<Item>,
    w: Seq<Item>,
    a: Seq<Item>,
    b: Seq<Item>,
    i: int,
)
    requires
        c.live(),
        0 <= i < a.len(),
        a.len() == b.len(),
        a.len() < 0x80000000,
    ensures
        vm::run(
            vm::roll_code(i + 1).push(vm::o(Opcode::Equal)).push(vm::o(Opcode::ToAltStack)),
            vm::at(c, v + a.take(i + 1) + b.take(i + 1), w),
        ) == Some(vm::at(c, v + a.take(i) + b.take(i), w.push(vm::flag(a[i] == b[i])))),
{
    let now = v + a.take(i + 1) + b.take(i + 1);
    vm::lemma_roll(c, now, w, i + 1);
    assert(now[now.len() - 2 - i] == a[i]);
    let under = v + a.take(i) + b.take(i);
    assert(now.remove(now.len() - 2 - i).push(a[i]) =~= under.push(b[i]).push(a[i]));
    broadcast use vm::group_run;

}

/// Folding one outcome in.
proof fn lemma_fold_step(c: Ctx, v: Seq<Item>, w: Seq<Item>, x: bool, y: bool)
    requires
        c.live(),
    ensures
        vm::run(
            vm::nil().push(vm::o(Opcode::FromAltStack)).push(vm::o(Opcode::BoolAnd)),
            vm::at(c, v.push(vm::flag(x)), w.push(vm::flag(y))),
        ) == Some(vm::at(c, v.push(vm::flag(x && y)), w)),
{
    broadcast use vm::group_run;

}

/// Two prefixes agree when their fronts and their last entries do.
proof fn lemma_prefix_eq(a: Seq<Item>, b: Seq<Item>, j: int)
    requires
        0 <= j < a.len(),
        a.len() == b.len(),
    ensures
        a.take(j + 1) == b.take(j + 1) <==> a.take(j) == b.take(j) && a[j] == b[j],
{
    assert(a.take(j + 1) =~= a.take(j).push(a[j]));
    assert(b.take(j + 1) =~= b.take(j).push(b[j]));
    if a.take(j + 1) == b.take(j + 1) {
        assert(a.take(j + 1)[j] == b.take(j + 1)[j]);
        assert(a.take(j + 1).take(j) =~= a.take(j));
        assert(b.take(j + 1).take(j) =~= b.take(j));
    }
}

/// The outcomes of the last `j` comparisons, in the order they were made.
spec fn outcomes(a: Seq<Item>, b: Seq<Item>, j: nat) -> Seq<Item> {
    Seq::new(j, |t: int| vm::flag(a[a.len() - 1 - t] == b[a.len() - 1 - t]))
}

proof fn lemma_compare_all(c: Ctx, v: Seq<Item>, w: Seq<Item>, a: Seq<Item>, b: Seq<Item>)
    requires
        c.live(),
        a.len() == b.len(),
        a.len() < 0x80000000,
    ensures
        vm::run(
            vm::flat(a.len(), compare_codes(a.len() as int)),
            vm::at(c, v + a + b, w),
        ) == Some(vm::at(c, v, w + outcomes(a, b, a.len()))),
{
    let n = a.len();
    let f = compare_codes(n as int);
    let st = |j: int| vm::at(c, v + a.take(n - j) + b.take(n - j), w + outcomes(a, b, j as nat));
    assert forall|j: int| 0 <= j < n implies #[trigger] vm::run(f(j), st(j)) == Some(st(j + 1)) by {
        let w1 = w + outcomes(a, b, j as nat);
        lemma_compare_step(c, v, w1, a, b, n - 1 - j);
        assert(w1.push(vm::flag(a[n - 1 - j] == b[n - 1 - j])) =~= w + outcomes(
            a,
            b,
            (j + 1) as nat,
        ));
    }
    vm::lemma_run_flat(n, f, st);
    assert(a.take(n as int) =~= a && b.take(n as int) =~= b);
    assert(w + outcomes(a, b, 0) =~= w);
    assert(v + a.take(0) + b.take(0) =~= v);
}

proof fn lemma_fold_all(c: Ctx, v: Seq<Item>, w: Seq<Item>, a: Seq<Item>, b: Seq<Item>)
    requires
        c.live(),
        a.len() == b.len(),
    ensures
        vm::run(
            vm::flat(a.len(), fold_codes()),
            vm::at(c, v.push(vm::flag(true)), w + outcomes(a, b, a.len())),
        ) == Some(vm::at(c, v.push(vm::flag(a == b)), w)),
{
    let n = a.len();
    let g = fold_codes();
    let st = |j: int|
        vm::at(
            c,
            v.push(vm::flag(a.take(j) == b.take(j))),
            w + outcomes(a, b, (n - j) as nat),
        );
    assert forall|j: int| 0 <= j < n implies #[trigger] vm::run(g(j), st(j)) == Some(st(j + 1)) by {
        let w1 = w + outcomes(a, b, (n - j - 1) as nat);
        assert(w + outcomes(a, b, (n - j) as nat) =~= w1.push(vm::flag(a[j] == b[j])));
        lemma_prefix_eq(a, b, j);
        lemma_fold_step(c, v, w1, a.take(j) == b.take(j), a[j] == b[j]);
    }
    vm::lemma_run_flat(n, g, st);
    assert(a.take(0) =~= b.take(0));
    assert(a.take(n as int) =~= a && b.take(n as int) =~= b);
    assert(w + outcomes(a, b, 0) =~= w);
}

/// What [`differs`] does to any two vectors of items.
pub proof fn lemma_differs(c: Ctx, v: Seq<Item>, w: Seq<Item>, a: Seq<Item>, b: Seq<Item>)
    requires
        c.live(),
        a.len() == b.len(),
        a.len() < 0x80000000,
    ensures
        vm::run(differs_code(a.len()), vm::at(c, v + a + b, w)) == Some(
            vm::at(c, v.push(vm::flag(a != b)), w),
        ),
{
    reveal(differs_code);
    lemma_compare_all(c, v, w, a, b);
    lemma_fold_all(c, v, w, a, b);
    broadcast use vm::group_run;

}

/// One iff the two `n`-element vectors differ somewhere.
///
/// The verifier's own comparisons are `OP_EQUALVERIFY`, which aborts on
/// difference. A disprove wants the opposite and cannot simply negate it:
/// `OP_EQUALVERIFY` leaves nothing to negate, and aborting is a failed spend
/// rather than a `false`. So every element is compared to a boolean, the
/// booleans are folded with `OP_BOOLAND`, and the result is negated.
///
/// # Stack
///
/// In: `a(n) b(n)`, `b` on top. Consumes both.
/// Out: `1` if they differ anywhere, `0` if they are equal.
///
/// The roll depth shrinks by one each step, because each comparison removes two
/// items from the pair and the boolean it leaves goes to the altstack.
///
/// A roll depth is a script number of at most four bytes, which bounds `n`.
pub fn differs(n: usize) -> (r: Script)
    requires
        n < 0x80000000,
    ensures
        r.code() == differs_code(n as nat),
        forall|a: Seq<Item>, b: Seq<Item>, c: Ctx, v: Seq<Item>, w: Seq<Item>|
            a.len() == n && b.len() == n && c.live() ==> #[trigger] vm::run(
                r.code(),
                vm::at(c, v + a + b, w),
            ) == Some(vm::at(c, v.push(vm::flag(a != b)), w)),
{
    proof {
        assert forall|a: Seq<Item>, b: Seq<Item>, c: Ctx, v: Seq<Item>, w: Seq<Item>|
            a.len() == n && b.len() == n && c.live() implies #[trigger] vm::run(
            differs_code(n as nat),
            vm::at(c, v + a + b, w),
        ) == Some(vm::at(c, v.push(vm::flag(a != b)), w)) by {
            lemma_differs(c, v, w, a, b);
        }
        reveal(differs_code);
    }
    let mut pairs = Script::new();
    let mut j: usize = 0;
    while j < n
        invariant
            j <= n < 0x80000000,
            pairs.code() == vm::flat(j as nat, compare_codes(n as int)),
        decreases n - j,
    {
        pairs = pairs.then_script(
            Script::new().num((n - j) as i64).op(Opcode::Roll).op(Opcode::Equal).op(
                Opcode::ToAltStack,
            ),
        );
        j = j + 1;
    }
    let mut folds = Script::new();
    let mut j: usize = 0;
    while j < n
        invariant
            j <= n,
            folds.code() == vm::flat(j as nat, fold_codes()),
        decreases n - j,
    {
        folds = folds.then_script(Script::new().op(Opcode::FromAltStack).op(Opcode::BoolAnd));
        j = j + 1;
    }
    pairs.num(1).then_script(folds).op(Opcode::Not)
}

/// Rounds one permutation is made of.
pub fn rounds_per_permutation() -> (r: usize)
    ensures
        r == poseidon2::round_count(),
{
    permutation::rounds().len()
}

/// The disprove code for round `i`.
pub open spec fn round_code(i: int) -> Seq<Instr> {
    permutation::round_code(i) + differs_code(16)
}

/// What [`round`] does to a claimed output and an input state.
pub proof fn lemma_round(c: Ctx, v: Seq<Item>, w: Seq<Item>, claim: Seq<Item>, s: Seq<int>, i: int)
    requires
        c.live(),
        claim.len() == 16,
        poseidon2::is_state(s),
        0 <= i < poseidon2::round_count(),
    ensures
        vm::run(round_code(i), vm::at(c, v + claim + vm::nums(s), w)) == Some(
            vm::at(c, v.push(vm::flag(claim != vm::nums(poseidon2::round(s, i)))), w),
        ),
{
    permutation::lemma_round(c, v + claim, w, s, i);
    poseidon2::lemma_round_keeps_states(s, i);
    lemma_differs(c, v, w, claim, vm::nums(poseidon2::round(s, i)));
    broadcast use vm::group_run;

}

/// The disprove script for round `i`: valid exactly when the claim is false.
///
/// # Stack
///
/// In: `claimed_out(16) state_in(16)`, the input on top: the layout the round
/// itself wants, with the value being challenged underneath it.
/// Out: `1` if the claimed output is wrong, `0` if it is right.
///
/// Leaving the boolean *is* the spending condition: a script ends valid only on
/// a truthy stack, so an honest step leaves `0` and the spend fails. Nothing
/// needs to assert anything.
///
/// # The direction matters
///
/// It would be easy to write this as `OP_EQUALVERIFY` and call the spend the
/// disprove, which is exactly backwards: that script succeeds when the prover
/// was *honest*. The predicate has to be false-on-honest.
pub fn round(i: usize) -> (r: Script)
    requires
        i < poseidon2::round_count(),
    ensures
        r.code() == round_code(i as int),
        forall|claim: Seq<Item>, s: Seq<int>, c: Ctx, v: Seq<Item>, w: Seq<Item>|
            claim.len() == 16 && poseidon2::is_state(s) && c.live() ==> #[trigger] vm::run(
                r.code(),
                vm::at(c, v + claim + vm::nums(s), w),
            ) == Some(
                vm::at(
                    c,
                    v.push(vm::flag(claim != vm::nums(poseidon2::round(s, i as int)))),
                    w,
                ),
            ),
{
    proof {
        assert forall|claim: Seq<Item>, s: Seq<int>, c: Ctx, v: Seq<Item>, w: Seq<Item>|
            claim.len() == 16 && poseidon2::is_state(s) && c.live() implies #[trigger] vm::run(
            round_code(i as int),
            vm::at(c, v + claim + vm::nums(s), w),
        ) == Some(
            vm::at(c, v.push(vm::flag(claim != vm::nums(poseidon2::round(s, i as int)))), w),
        ) by {
            lemma_round(c, v, w, claim, s, i as int);
        }
    }
    let rounds = permutation::rounds();
    round_of(&rounds, i)
}

/// The disprove script for round `i`, given all rounds.
fn round_of(rounds: &Vec<Script>, i: usize) -> (r: Script)
    requires
        is_rounds(rounds@),
        i < poseidon2::round_count(),
    ensures
        r.code() == round_code(i as int),
{
    rounds[i].clone().then_script(differs(WIDTH))
}

/// Whether scripts are the rounds of the permutation in order.
spec fn is_rounds(r: Seq<Script>) -> bool {
    &&& r.len() == poseidon2::round_count()
    &&& forall|k: int| 0 <= k < r.len() ==> (#[trigger] r[k]).code() == permutation::round_code(k)
}

// ---------------------------------------------------------------------------
// Committed states
// ---------------------------------------------------------------------------

/// The code that opens both signatures, the input's first.
#[verifier::opaque]
pub open spec fn open_states_code(pks_out: Seq<Seq<u8>>, pks_in: Seq<Seq<u8>>) -> Seq<Instr> {
    winternitz::verify_code(pks_in, 16) + vm::ops(16, Opcode::ToAltStack)
        + winternitz::verify_code(pks_out, 16) + vm::ops(16, Opcode::FromAltStack)
}

/// A signature over one state, as items.
pub struct Opening {
    /// The signature items, chain 0 first.
    pub sigs: Seq<Item>,
    /// The digit items, chain 0 first.
    pub digits: Seq<Item>,
}

impl Opening {
    /// Whether there is one signature item and one digit item per chain.
    pub open spec fn complete(self) -> bool {
        self.sigs.len() == 131 && self.digits.len() == 131
    }

    /// The items as they lie on the stack, chain 0 on top.
    pub open spec fn items(self) -> Seq<Item> {
        winternitz::witness(self.sigs, self.digits, 0)
    }

    /// Whether the opening is a signature under the keys.
    pub open spec fn valid(self, h: spec_fn(Seq<u8>) -> Seq<u8>, pks: Seq<Seq<u8>>) -> bool {
        winternitz::accepts(h, self.sigs, self.digits, pks, 16)
    }

    /// The state the opening spells out.
    pub open spec fn state(self) -> Seq<int> {
        winternitz::elements(winternitz::digit_values(self.digits), 16)
    }
}

proof fn lemma_state_chains()
    ensures
        winternitz::chain_count(128) == 131,
{
    reveal_with_fuel(winternitz::digit_count, 4);
}

proof fn lemma_open_states(
    c: Ctx,
    v: Seq<Item>,
    w: Seq<Item>,
    out: Opening,
    inp: Opening,
    pks_out: Seq<Seq<u8>>,
    pks_in: Seq<Seq<u8>>,
)
    requires
        c.live(),
        out.complete(),
        inp.complete(),
        pks_out.len() == 131,
        pks_in.len() == 131,
    ensures
        vm::run(
            open_states_code(pks_out, pks_in),
            vm::at(c, v + out.items() + inp.items(), w),
        ) == (if inp.valid(c.hash, pks_in) && out.valid(c.hash, pks_out) {
            Some(vm::at(c, v + vm::nums(out.state()) + vm::nums(inp.state()), w))
        } else {
            None
        }),
{
    reveal(open_states_code);
    lemma_state_chains();
    let x = vm::nums(inp.state());
    winternitz::lemma_verify(c, v + out.items(), w, inp.sigs, inp.digits, pks_in, 16);
    vm::lemma_to_alt(c, v + out.items(), x, w);
    winternitz::lemma_verify(c, v, w + x.reverse(), out.sigs, out.digits, pks_out, 16);
    vm::lemma_from_alt(c, v + vm::nums(out.state()), x, w);
    broadcast use vm::group_run;

}

/// Open both signatures, the input's first.
fn open_states(pks_out: &[[u8; 20]], pks_in: &[[u8; 20]]) -> (r: Script)
    requires
        pks_out@.len() == 131,
        pks_in@.len() == 131,
    ensures
        r.code() == open_states_code(winternitz::keys(pks_out@), winternitz::keys(pks_in@)),
{
    proof {
        reveal(open_states_code);
        lemma_state_chains();
    }
    winternitz::verify(pks_in, WIDTH).then_script(
        vm::repeat(WIDTH, Opcode::ToAltStack),
    ).then_script(winternitz::verify(pks_out, WIDTH)).then_script(
        vm::repeat(WIDTH, Opcode::FromAltStack),
    )
}

/// The code of [`round_committed`].
pub open spec fn round_committed_code(
    i: int,
    pks_out: Seq<Seq<u8>>,
    pks_in: Seq<Seq<u8>>,
) -> Seq<Instr> {
    open_states_code(pks_out, pks_in) + round_code(i)
}

/// What [`round_committed`] does to two openings.
pub proof fn lemma_round_committed(
    c: Ctx,
    v: Seq<Item>,
    w: Seq<Item>,
    out: Opening,
    inp: Opening,
    pks_out: Seq<Seq<u8>>,
    pks_in: Seq<Seq<u8>>,
    i: int,
)
    requires
        c.live(),
        out.complete(),
        inp.complete(),
        pks_out.len() == 131,
        pks_in.len() == 131,
        0 <= i < poseidon2::round_count(),
    ensures
        vm::run(
            round_committed_code(i, pks_out, pks_in),
            vm::at(c, v + out.items() + inp.items(), w),
        ) == (if inp.valid(c.hash, pks_in) && out.valid(c.hash, pks_out) {
            vm::run(
                round_code(i),
                vm::at(c, v + vm::nums(out.state()) + vm::nums(inp.state()), w),
            )
        } else {
            None
        }),
        inp.valid(c.hash, pks_in) && out.valid(c.hash, pks_out) && poseidon2::is_state(inp.state())
            ==> vm::run(
            round_committed_code(i, pks_out, pks_in),
            vm::at(c, v + out.items() + inp.items(), w),
        ) == Some(
            vm::at(c, v.push(vm::flag(out.state() != poseidon2::round(inp.state(), i))), w),
        ),
{
    lemma_open_states(c, v, w, out, inp, pks_out, pks_in);
    if inp.valid(c.hash, pks_in) && out.valid(c.hash, pks_out) && poseidon2::is_state(inp.state()) {
        lemma_round(c, v, w, vm::nums(out.state()), inp.state(), i);
        vm::lemma_nums_eq(out.state(), poseidon2::round(inp.state(), i));
    }
    broadcast use vm::group_run;

}

/// The complete disprove: round `i`, with both states taken from signatures.
///
/// # Stack
///
/// Witness, in pop order: the signature over the input, then the signature over
/// the claimed output, [`crate::winternitz::verify`]'s layout twice.
/// Out: `1` if the claimed output is wrong, `0` if it is right. The script fails
/// if either signature does not open; on two that open it does what [`round`]
/// does on the signed states.
///
/// # Why the input is verified first, and parked
///
/// Each verification consumes its witness from the top and leaves its state
/// there, so the second signature has to still be reachable, which it is not
/// if the first verification's output is sitting on top of it. The input is
/// therefore read first and moved to the altstack, which both frees the output's
/// witness and, because the move reverses twice, brings the state back in its
/// original order. That is also the order [`round`] wants: `claimed_out`
/// beneath `state_in`.
pub fn round_committed(i: usize, pks_out: &[[u8; 20]], pks_in: &[[u8; 20]]) -> (r: Script)
    requires
        i < poseidon2::round_count(),
        pks_out@.len() == 131,
        pks_in@.len() == 131,
    ensures
        r.code() == round_committed_code(
            i as int,
            winternitz::keys(pks_out@),
            winternitz::keys(pks_in@),
        ),
        forall|out: Opening, inp: Opening, c: Ctx, v: Seq<Item>, w: Seq<Item>|
            out.complete() && inp.complete() && c.live() ==> #[trigger] vm::run(
                r.code(),
                vm::at(c, v + out.items() + inp.items(), w),
            ) == (if inp.valid(c.hash, winternitz::keys(pks_in@)) && out.valid(
                c.hash,
                winternitz::keys(pks_out@),
            ) {
                vm::run(
                    round_code(i as int),
                    vm::at(c, v + vm::nums(out.state()) + vm::nums(inp.state()), w),
                )
            } else {
                None
            }),
        forall|out: Opening, inp: Opening, c: Ctx, v: Seq<Item>, w: Seq<Item>|
            out.complete() && inp.complete() && c.live() && inp.valid(
                c.hash,
                winternitz::keys(pks_in@),
            ) && out.valid(c.hash, winternitz::keys(pks_out@)) && poseidon2::is_state(inp.state())
                ==> #[trigger] vm::run(r.code(), vm::at(c, v + out.items() + inp.items(), w))
                == Some(
                vm::at(
                    c,
                    v.push(vm::flag(out.state() != poseidon2::round(inp.state(), i as int))),
                    w,
                ),
            ),
{
    let ghost ko = winternitz::keys(pks_out@);
    let ghost ki = winternitz::keys(pks_in@);
    proof {
        assert forall|out: Opening, inp: Opening, c: Ctx, v: Seq<Item>, w: Seq<Item>|
            out.complete() && inp.complete() && c.live() implies #[trigger] vm::run(
            round_committed_code(i as int, ko, ki),
            vm::at(c, v + out.items() + inp.items(), w),
        ) == (if inp.valid(c.hash, ki) && out.valid(c.hash, ko) {
            vm::run(
                round_code(i as int),
                vm::at(c, v + vm::nums(out.state()) + vm::nums(inp.state()), w),
            )
        } else {
            None
        }) by {
            lemma_round_committed(c, v, w, out, inp, ko, ki, i as int);
        }
        assert forall|out: Opening, inp: Opening, c: Ctx, v: Seq<Item>, w: Seq<Item>|
            out.complete() && inp.complete() && c.live() && inp.valid(c.hash, ki) && out.valid(
                c.hash,
                ko,
            ) && poseidon2::is_state(inp.state()) implies #[trigger] vm::run(
            round_committed_code(i as int, ko, ki),
            vm::at(c, v + out.items() + inp.items(), w),
        ) == Some(
            vm::at(
                c,
                v.push(vm::flag(out.state() != poseidon2::round(inp.state(), i as int))),
                w,
            ),
        ) by {
            lemma_round_committed(c, v, w, out, inp, ko, ki, i as int);
        }
    }
    open_states(pks_out, pks_in).then_script(round(i))
}

/// The state `len` rounds after round `first` was entered with `s`.
pub open spec fn run_of_rounds(s: Seq<int>, first: int, len: nat) -> Seq<int>
    decreases len,
{
    if len == 0 {
        s
    } else {
        poseidon2::round(run_of_rounds(s, first, (len - 1) as nat), first + len - 1)
    }
}

/// A run of rounds from the start of the permutation on is that part of it.
pub proof fn runs_follow_the_permutation(s: Seq<int>, first: nat, len: nat)
    ensures
        run_of_rounds(poseidon2::after(s, first), first as int, len) == poseidon2::after(
            s,
            first + len,
        ),
    decreases len,
{
    if len > 0 {
        runs_follow_the_permutation(s, first, (len - 1) as nat);
    }
}

/// The codes of the rounds from `first` on.
pub open spec fn chunk_round_codes(first: int) -> spec_fn(int) -> Seq<Instr> {
    |t: int| permutation::round_code(first + t)
}

/// The code of [`chunk_committed`].
pub open spec fn chunk_committed_code(
    first: int,
    len: nat,
    pks_out: Seq<Seq<u8>>,
    pks_in: Seq<Seq<u8>>,
) -> Seq<Instr> {
    open_states_code(pks_out, pks_in) + vm::flat(len, chunk_round_codes(first)) + differs_code(16)
}

proof fn lemma_run_of_rounds(
    c: Ctx,
    v: Seq<Item>,
    w: Seq<Item>,
    s: Seq<int>,
    first: int,
    len: nat,
)
    requires
        c.live(),
        poseidon2::is_state(s),
        0 <= first,
        first + len <= poseidon2::round_count(),
    ensures
        poseidon2::is_state(run_of_rounds(s, first, len)),
        vm::run(vm::flat(len, chunk_round_codes(first)), vm::at(c, v + vm::nums(s), w)) == Some(
            vm::at(c, v + vm::nums(run_of_rounds(s, first, len)), w),
        ),
    decreases len,
{
    broadcast use vm::group_run;

    if len > 0 {
        let m = (len - 1) as nat;
        lemma_run_of_rounds(c, v, w, s, first, m);
        permutation::lemma_round(c, v, w, run_of_rounds(s, first, m), first + len - 1);
        poseidon2::lemma_round_keeps_states(run_of_rounds(s, first, m), first + len - 1);
    }
}

/// What [`chunk_committed`] does to two openings.
pub proof fn lemma_chunk_committed(
    c: Ctx,
    v: Seq<Item>,
    w: Seq<Item>,
    out: Opening,
    inp: Opening,
    pks_out: Seq<Seq<u8>>,
    pks_in: Seq<Seq<u8>>,
    first: int,
    len: nat,
)
    requires
        c.live(),
        out.complete(),
        inp.complete(),
        pks_out.len() == 131,
        pks_in.len() == 131,
        0 <= first,
        first + len <= poseidon2::round_count(),
    ensures
        vm::run(
            chunk_committed_code(first, len, pks_out, pks_in),
            vm::at(c, v + out.items() + inp.items(), w),
        ) == (if inp.valid(c.hash, pks_in) && out.valid(c.hash, pks_out) {
            vm::run(
                vm::flat(len, chunk_round_codes(first)) + differs_code(16),
                vm::at(c, v + vm::nums(out.state()) + vm::nums(inp.state()), w),
            )
        } else {
            None
        }),
        inp.valid(c.hash, pks_in) && out.valid(c.hash, pks_out) && poseidon2::is_state(inp.state())
            ==> vm::run(
            chunk_committed_code(first, len, pks_out, pks_in),
            vm::at(c, v + out.items() + inp.items(), w),
        ) == Some(
            vm::at(c, v.push(vm::flag(out.state() != run_of_rounds(inp.state(), first, len))), w),
        ),
{
    lemma_open_states(c, v, w, out, inp, pks_out, pks_in);
    if inp.valid(c.hash, pks_in) && out.valid(c.hash, pks_out) && poseidon2::is_state(inp.state()) {
        let s = inp.state();
        let claim = vm::nums(out.state());
        lemma_run_of_rounds(c, v + claim, w, s, first, len);
        lemma_differs(c, v, w, claim, vm::nums(run_of_rounds(s, first, len)));
        vm::lemma_nums_eq(out.state(), run_of_rounds(s, first, len));
    }
    broadcast use vm::group_run;

}

/// A run of consecutive rounds, with only its two endpoints committed.
///
/// # Why a chunk is not one round
///
/// [`round_committed`] commits both sides of a single round, so the commitment
/// layer is paid once per round, and one key of 131 chains for every boundary in
/// the schedule. That is not forced: a challenger only has to execute the run
/// containing the disputed round, so the intermediate states inside a run never
/// need to be committed at all.
///
/// Making the run longer therefore amortises a fixed cost against a growing
/// one, and the length is decided by what still relays:
///
/// ```text
/// len * round + signatures  <=  MAX_STANDARD_TX_WEIGHT
/// ```
///
/// [`max_chunk_len`] solves that.
///
/// # Stack
///
/// As [`round_committed`], and for the same reasons: the input signature is read
/// first and parked, which frees the output's witness and returns the state in
/// the order the rounds want.
///
/// # Bounds
///
/// `first + len` must stay inside one permutation. The state between
/// permutations is not a permutation state, so a chunk that spanned two would be
/// claiming a step the schedule does not take.
pub fn chunk_committed(
    first: usize,
    len: usize,
    pks_out: &[[u8; 20]],
    pks_in: &[[u8; 20]],
) -> (r: Script)
    requires
        len >= 1,
        first + len <= poseidon2::round_count(),
        pks_out@.len() == 131,
        pks_in@.len() == 131,
    ensures
        r.code() == chunk_committed_code(
            first as int,
            len as nat,
            winternitz::keys(pks_out@),
            winternitz::keys(pks_in@),
        ),
        forall|out: Opening, inp: Opening, c: Ctx, v: Seq<Item>, w: Seq<Item>|
            out.complete() && inp.complete() && c.live() ==> #[trigger] vm::run(
                r.code(),
                vm::at(c, v + out.items() + inp.items(), w),
            ) == (if inp.valid(c.hash, winternitz::keys(pks_in@)) && out.valid(
                c.hash,
                winternitz::keys(pks_out@),
            ) {
                vm::run(
                    vm::flat(len as nat, chunk_round_codes(first as int)) + differs_code(16),
                    vm::at(c, v + vm::nums(out.state()) + vm::nums(inp.state()), w),
                )
            } else {
                None
            }),
        forall|out: Opening, inp: Opening, c: Ctx, v: Seq<Item>, w: Seq<Item>|
            out.complete() && inp.complete() && c.live() && inp.valid(
                c.hash,
                winternitz::keys(pks_in@),
            ) && out.valid(c.hash, winternitz::keys(pks_out@)) && poseidon2::is_state(inp.state())
                ==> #[trigger] vm::run(r.code(), vm::at(c, v + out.items() + inp.items(), w))
                == Some(
                vm::at(
                    c,
                    v.push(
                        vm::flag(
                            out.state() != run_of_rounds(inp.state(), first as int, len as nat),
                        ),
                    ),
                    w,
                ),
            ),
{
    let ghost ko = winternitz::keys(pks_out@);
    let ghost ki = winternitz::keys(pks_in@);
    proof {
        assert forall|out: Opening, inp: Opening, c: Ctx, v: Seq<Item>, w: Seq<Item>|
            out.complete() && inp.complete() && c.live() implies #[trigger] vm::run(
            chunk_committed_code(first as int, len as nat, ko, ki),
            vm::at(c, v + out.items() + inp.items(), w),
        ) == (if inp.valid(c.hash, ki) && out.valid(c.hash, ko) {
            vm::run(
                vm::flat(len as nat, chunk_round_codes(first as int)) + differs_code(16),
                vm::at(c, v + vm::nums(out.state()) + vm::nums(inp.state()), w),
            )
        } else {
            None
        }) by {
            lemma_chunk_committed(c, v, w, out, inp, ko, ki, first as int, len as nat);
        }
        assert forall|out: Opening, inp: Opening, c: Ctx, v: Seq<Item>, w: Seq<Item>|
            out.complete() && inp.complete() && c.live() && inp.valid(c.hash, ki) && out.valid(
                c.hash,
                ko,
            ) && poseidon2::is_state(inp.state()) implies #[trigger] vm::run(
            chunk_committed_code(first as int, len as nat, ko, ki),
            vm::at(c, v + out.items() + inp.items(), w),
        ) == Some(
            vm::at(
                c,
                v.push(
                    vm::flag(out.state() != run_of_rounds(inp.state(), first as int, len as nat)),
                ),
                w,
            ),
        ) by {
            lemma_chunk_committed(c, v, w, out, inp, ko, ki, first as int, len as nat);
        }
    }
    let opening = open_states(pks_out, pks_in);
    let rounds = permutation::rounds();
    chunk_of(&opening, &rounds, first, len, Ghost(ko), Ghost(ki))
}

/// A chunk, given the opened states and all rounds.
fn chunk_of(
    opening: &Script,
    rounds: &Vec<Script>,
    first: usize,
    len: usize,
    ko: Ghost<Seq<Seq<u8>>>,
    ki: Ghost<Seq<Seq<u8>>>,
) -> (r: Script)
    requires
        opening.code() == open_states_code(ko@, ki@),
        is_rounds(rounds@),
        first + len <= poseidon2::round_count(),
    ensures
        r.code() == chunk_committed_code(first as int, len as nat, ko@, ki@),
{
    let mut body = Script::new();
    let mut t: usize = 0;
    while t < len
        invariant
            t <= len,
            is_rounds(rounds@),
            first + len <= poseidon2::round_count(),
            body.code() == vm::flat(t as nat, chunk_round_codes(first as int)),
        decreases len - t,
    {
        body = body.with(&rounds[first + t]);
        t = t + 1;
    }
    opening.clone().then_script(body).then_script(differs(WIDTH))
}

// ---------------------------------------------------------------------------
// Sizes
// ---------------------------------------------------------------------------

/// Bytes of the chunk of `len` rounds from `first` on.
pub open spec fn chunk_size(first: int, len: nat) -> nat {
    let z = winternitz::zero_keys(131);
    script::size(chunk_committed_code(first, len, z, z))
}

/// Whether every run of `len` rounds fits the budget.
pub open spec fn all_fit(len: nat, budget: nat) -> bool {
    forall|first: int|
        0 <= first <= poseidon2::round_count() - len ==> #[trigger] chunk_size(first, len)
            <= budget
}

/// The largest of `f(0)`, ..., `f(n - 1)`.
pub open spec fn largest(n: nat, f: spec_fn(int) -> nat) -> nat
    decreases n,
{
    if n == 0 {
        0
    } else {
        let m = largest((n - 1) as nat, f);
        if m < f(n - 1) {
            f(n - 1)
        } else {
            m
        }
    }
}

/// Bytes of the largest chunk of `len` rounds.
pub open spec fn largest_chunk_size(len: nat) -> nat {
    largest((poseidon2::round_count() - len + 1) as nat, |first: int| chunk_size(first, len))
}

/// The longest length up to `n` of which every run fits the budget.
pub open spec fn longest_up_to(n: nat, budget: nat) -> nat
    decreases n,
{
    if n == 0 || all_fit(n, budget) {
        n
    } else {
        longest_up_to((n - 1) as nat, budget)
    }
}

/// The longest length of which every run fits the budget.
pub open spec fn longest_chunk(budget: nat) -> nat {
    longest_up_to(poseidon2::round_count(), budget)
}

/// The largest bounds all, and is one of them.
proof fn lemma_largest(n: nat, f: spec_fn(int) -> nat)
    ensures
        forall|i: int| 0 <= i < n ==> #[trigger] f(i) <= largest(n, f),
        n > 0 ==> exists|i: int| 0 <= i < n && #[trigger] f(i) == largest(n, f),
    decreases n,
{
    if n > 0 {
        lemma_largest((n - 1) as nat, f);
        if largest((n - 1) as nat, f) < f(n - 1) || n == 1 {
            assert(f(n - 1) == largest(n, f));
        }
    }
}

/// What bounds all and is one of them is the largest.
proof fn lemma_is_largest(n: nat, f: spec_fn(int) -> nat, r: nat, i: int)
    requires
        forall|j: int| 0 <= j < n ==> #[trigger] f(j) <= r,
        0 <= i < n,
        f(i) == r,
    ensures
        r == largest(n, f),
{
    lemma_largest(n, f);
}

/// The longest length that fits, where fitting stops at `r`.
proof fn lemma_is_longest(n: nat, budget: nat, r: nat)
    requires
        r <= n,
        r == 0 || all_fit(r, budget),
        forall|len: nat| r < len <= n ==> !#[trigger] all_fit(len, budget),
    ensures
        longest_up_to(n, budget) == r,
    decreases n,
{
    if n > r {
        assert(!all_fit(n, budget));
        lemma_is_longest((n - 1) as nat, budget, r);
    }
}

/// The longest length fits, and is at most `n`.
proof fn lemma_longest(n: nat, budget: nat)
    ensures
        longest_up_to(n, budget) <= n,
        longest_up_to(n, budget) == 0 || all_fit(longest_up_to(n, budget), budget),
        forall|len: nat|
            longest_up_to(n, budget) < len <= n ==> !#[trigger] all_fit(len, budget),
    decreases n,
{
    if n > 0 && !all_fit(n, budget) {
        lemma_longest((n - 1) as nat, budget);
    }
}

/// The longest chunk that still fits a standard transaction.
///
/// Measured rather than divided: the rounds are not all the same size, and the
/// answer is the longest *run* that fits, not the budget over the mean.
pub fn max_chunk_len(budget: usize) -> (r: usize)
    ensures
        r == longest_chunk(budget as nat),
        budget == 0 ==> r == 0,
        budget == standard_weight() ==> r == 22,
        budget >= standard_weight() ==> r >= 22,
        r <= poseidon2::round_count(),
        forall|len: int| 1 <= len <= r ==> #[trigger] all_fit(len as nat, budget as nat),
        forall|len: int|
            r < len <= poseidon2::round_count() ==> !#[trigger] all_fit(len as nat, budget as nat),
{
    let pks = winternitz::blank_keys(winternitz::state_chains());
    assert(winternitz::keys(pks@).len() == pks@.len());
    let ghost z = winternitz::zero_keys(131);
    let opening = open_states(&pks, &pks);
    let rounds = permutation::rounds();
    let n: usize = rounds.len();
    let mut best: usize = 0;
    let mut go = true;
    while go && best < n
        invariant
            best <= n == poseidon2::round_count(),
            is_rounds(rounds@),
            opening.code() == open_states_code(z, z),
            z == winternitz::zero_keys(131),
            forall|len: int| 1 <= len <= best ==> #[trigger] all_fit(len as nat, budget as nat),
            !go ==> best < n && !all_fit((best + 1) as nat, budget as nat),
        decreases n - best + (if go {
            1int
        } else {
            0
        }),
    {
        let len: usize = best + 1;
        let mut first: usize = 0;
        let mut fits = true;
        while fits && first <= n - len
            invariant
                1 <= len <= n == poseidon2::round_count(),
                first <= n - len + 1,
                is_rounds(rounds@),
                opening.code() == open_states_code(z, z),
                z == winternitz::zero_keys(131),
                fits ==> forall|f: int|
                    0 <= f < first ==> #[trigger] chunk_size(f, len as nat) <= budget,
                !fits ==> first <= n - len && chunk_size(first as int, len as nat) > budget,
            decreases n - len + 1 - first + (if fits {
                1int
            } else {
                0
            }),
        {
            let size = chunk_of(&opening, &rounds, first, len, Ghost(z), Ghost(z)).len();
            assert(size == chunk_size(first as int, len as nat));
            if size <= budget {
                first = first + 1;
            } else {
                fits = false;
            }
        }
        if fits {
            best = len;
        } else {
            go = false;
        }
    }
    proof {
        assert forall|len: int| best < len <= n implies !#[trigger] all_fit(
            len as nat,
            budget as nat,
        ) by {
            if all_fit(len as nat, budget as nat) {
                shorter_chunks_fit_too((best + 1) as nat, len as nat, budget as nat);
            }
        }
        let last: int = best as int;
        assert(last >= 1 ==> all_fit(last as nat, budget as nat));
        assert forall|len: nat| best < len <= n implies !#[trigger] all_fit(len, budget as nat) by {
            if all_fit(len, budget as nat) {
                shorter_chunks_fit_too((best + 1) as nat, len, budget as nat);
            }
        }
        lemma_is_longest(n as nat, budget as nat, best as nat);
        nothing_fits_an_empty_budget();
        the_longest_chunk_that_relays();
        if budget >= standard_weight() {
            a_larger_budget_fits_longer_chunks(standard_weight(), budget as nat);
        }
    }
    best
}

/// If every run of a length fits a budget, so does every shorter run.
pub proof fn shorter_chunks_fit_too(short: nat, long: nat, budget: nat)
    requires
        short <= long <= poseidon2::round_count(),
        all_fit(long, budget),
    ensures
        all_fit(short, budget),
{
    assert forall|first: int| 0 <= first <= poseidon2::round_count() - short implies #[trigger]
        chunk_size(first, short) <= budget by {
        let start = if first <= poseidon2::round_count() - long {
            first
        } else {
            poseidon2::round_count() - long
        };
        assert(chunk_size(start, long) <= budget);
        lemma_chunk_size(first, short);
        lemma_chunk_size(start, long);
        lemma_rounds_size(start, long, first, short);
    }
}

/// Bytes of a run of rounds without the signatures.
spec fn rounds_size(first: int, len: nat) -> nat {
    script::size(vm::flat(len, chunk_round_codes(first)))
}

proof fn lemma_chunk_size(first: int, len: nat)
    ensures
        ({
            let z = winternitz::zero_keys(131);
            chunk_size(first, len) == script::size(open_states_code(z, z)) + rounds_size(first, len)
                + script::size(differs_code(16))
        }),
{
    let z = winternitz::zero_keys(131);
    let a = open_states_code(z, z);
    let b = vm::flat(len, chunk_round_codes(first));
    script::lemma_assemble_concat(a, b);
    script::lemma_assemble_concat(a + b, differs_code(16));
}

/// A run inside another is no longer than it.
proof fn lemma_rounds_size(start: int, long: nat, first: int, short: nat)
    requires
        start <= first,
        first + short <= start + long,
    ensures
        rounds_size(first, short) <= rounds_size(start, long),
    decreases long + short,
{
    if short > 0 {
        let m = (long - 1) as nat;
        script::lemma_assemble_concat(
            vm::flat(m, chunk_round_codes(start)),
            chunk_round_codes(start)(long - 1),
        );
        if first + short < start + long {
            lemma_rounds_size(start, m, first, short);
        } else {
            let k = (short - 1) as nat;
            script::lemma_assemble_concat(
                vm::flat(k, chunk_round_codes(first)),
                chunk_round_codes(first)(short - 1),
            );
            lemma_rounds_size(start, m, first, k);
            assert(start + (long - 1) == first + (short - 1));
        }
    }
}

/// Bytes of the largest chunk of `len` rounds.
pub fn largest_chunk(len: usize) -> (r: usize)
    requires
        1 <= len <= poseidon2::round_count(),
    ensures
        r == largest_chunk_size(len as nat),
        all_fit(len as nat, r as nat),
        exists|first: int|
            0 <= first <= poseidon2::round_count() - len && r == #[trigger] chunk_size(
                first,
                len as nat,
            ),
{
    let pks = winternitz::blank_keys(winternitz::state_chains());
    assert(winternitz::keys(pks@).len() == pks@.len());
    let ghost z = winternitz::zero_keys(131);
    let opening = open_states(&pks, &pks);
    let rounds = permutation::rounds();
    let n: usize = rounds.len();
    let mut best: usize = chunk_of(&opening, &rounds, 0, len, Ghost(z), Ghost(z)).len();
    assert(best == chunk_size(0, len as nat));
    let mut first: usize = 1;
    while first <= n - len
        invariant
            1 <= len <= n == poseidon2::round_count(),
            1 <= first <= n - len + 1,
            is_rounds(rounds@),
            opening.code() == open_states_code(z, z),
            z == winternitz::zero_keys(131),
            forall|f: int| 0 <= f < first ==> #[trigger] chunk_size(f, len as nat) <= best,
            exists|f: int| 0 <= f < first && best == #[trigger] chunk_size(f, len as nat),
        decreases n - len + 1 - first,
    {
        let size = chunk_of(&opening, &rounds, first, len, Ghost(z), Ghost(z)).len();
        assert(size == chunk_size(first as int, len as nat));
        if size > best {
            best = size;
        }
        first = first + 1;
    }
    proof {
        let f = |first: int| chunk_size(first, len as nat);
        let i = choose|i: int| 0 <= i < first && best == #[trigger] chunk_size(i, len as nat);
        assert forall|j: int| 0 <= j < n - len + 1 implies #[trigger] f(j) <= best by {
            assert(chunk_size(j, len as nat) <= best);
        }
        lemma_is_largest((n - len + 1) as nat, f, best as nat, i);
    }
    best
}

/// Bytes of the largest step.
pub open spec fn largest_round_size() -> nat {
    largest(poseidon2::round_count(), |i: int| script::size(round_code(i)))
}

/// Bytes of the largest step, which is what decides whether a chunk relays.
pub fn largest_round() -> (r: usize)
    ensures
        r == largest_round_size(),
        r < standard_weight(),
        forall|i: int|
            0 <= i < poseidon2::round_count() ==> script::size(#[trigger] round_code(i)) <= r,
        exists|i: int|
            0 <= i < poseidon2::round_count() && r == script::size(#[trigger] round_code(i)),
{
    let rounds = permutation::rounds();
    let mut best: usize = round_of(&rounds, 0).len();
    assert(best == script::size(round_code(0)));
    let mut i: usize = 1;
    while i < rounds.len()
        invariant
            1 <= i <= rounds@.len(),
            is_rounds(rounds@),
            forall|t: int| 0 <= t < i ==> script::size(#[trigger] round_code(t)) <= best,
            exists|t: int| 0 <= t < i && best == script::size(#[trigger] round_code(t)),
        decreases rounds.len() - i,
    {
        let size = round_of(&rounds, i).len();
        assert(size == script::size(round_code(i as int)));
        if size > best {
            best = size;
        }
        i = i + 1;
    }
    proof {
        let f = |t: int| script::size(round_code(t));
        let t = choose|t: int| 0 <= t < i && best == script::size(#[trigger] round_code(t));
        assert forall|j: int| 0 <= j < rounds@.len() implies #[trigger] f(j) <= best by {
            assert(script::size(round_code(j)) <= best);
        }
        lemma_is_largest(rounds@.len(), f, best as nat, t);
        the_largest_step_relays();
    }
    best
}

/// Bytes of the committed step for round `i`.
pub open spec fn committed_size(i: int) -> nat {
    let z = winternitz::zero_keys(131);
    script::size(round_committed_code(i, z, z))
}

/// Bytes of the largest committed step.
pub open spec fn largest_committed_size() -> nat {
    largest(poseidon2::round_count(), |i: int| committed_size(i))
}

/// Bytes of the largest *committed* step, the number a chunk is measured by.
pub fn largest_committed_round() -> (r: usize)
    ensures
        r == largest_committed_size(),
        r < standard_weight(),
        forall|i: int|
            0 <= i < poseidon2::round_count() ==> #[trigger] committed_size(i) <= r,
        exists|i: int| 0 <= i < poseidon2::round_count() && r == #[trigger] committed_size(i),
{
    let pks = winternitz::blank_keys(winternitz::state_chains());
    assert(winternitz::keys(pks@).len() == pks@.len());
    let ghost z = winternitz::zero_keys(131);
    let opening = open_states(&pks, &pks);
    let rounds = permutation::rounds();
    let mut best: usize = opening.clone().then_script(round_of(&rounds, 0)).len();
    assert(best == committed_size(0));
    let mut i: usize = 1;
    while i < rounds.len()
        invariant
            1 <= i <= rounds@.len(),
            is_rounds(rounds@),
            opening.code() == open_states_code(z, z),
            z == winternitz::zero_keys(131),
            forall|t: int| 0 <= t < i ==> #[trigger] committed_size(t) <= best,
            exists|t: int| 0 <= t < i && best == #[trigger] committed_size(t),
        decreases rounds.len() - i,
    {
        let size = opening.clone().then_script(round_of(&rounds, i)).len();
        assert(size == committed_size(i as int));
        if size > best {
            best = size;
        }
        i = i + 1;
    }
    proof {
        let f = |t: int| committed_size(t);
        let t = choose|t: int| 0 <= t < i && best == #[trigger] committed_size(t);
        assert forall|j: int| 0 <= j < rounds@.len() implies #[trigger] f(j) <= best by {
            assert(committed_size(j) <= best);
        }
        lemma_is_largest(rounds@.len(), f, best as nat, t);
        the_largest_step_relays();
    }
    best
}

// ---------------------------------------------------------------------------
// What relays
// ---------------------------------------------------------------------------

/// The weight of a standard transaction, `MAX_STANDARD_TX_WEIGHT`.
pub open spec fn standard_weight() -> nat {
    400_000
}

/// A length fits a budget exactly when its largest chunk does, and the longest
/// length that fits is at most a permutation.
pub proof fn a_length_fits_when_its_largest_chunk_does(len: nat, budget: nat)
    requires
        1 <= len <= poseidon2::round_count(),
    ensures
        longest_chunk(budget) <= poseidon2::round_count(),
        largest_chunk_size(len) <= budget <==> len <= longest_chunk(budget),
{
    let n = poseidon2::round_count();
    let f = |first: int| chunk_size(first, len);
    let m = (n - len + 1) as nat;
    lemma_largest(m, f);
    lemma_longest(n, budget);
    assert(largest_chunk_size(len) <= budget ==> all_fit(len, budget)) by {
        assert forall|first: int| 0 <= first <= n - len implies #[trigger] chunk_size(first, len)
            <= largest_chunk_size(len) by {
            assert(f(first) <= largest(m, f));
        }
    }
    assert(all_fit(len, budget) ==> largest_chunk_size(len) <= budget) by {
        let i = choose|i: int| 0 <= i < m && #[trigger] f(i) == largest(m, f);
        assert(chunk_size(i, len) == largest_chunk_size(len));
    }
    let r = longest_chunk(budget);
    if len <= r {
        shorter_chunks_fit_too(len, r, budget);
    } else {
        assert(!all_fit(len, budget));
    }
}

/// The largest bounds every value and is one of them, and no values have none.
pub proof fn the_largest_is_one_of_them(n: nat, f: spec_fn(int) -> nat)
    ensures
        forall|i: int| 0 <= i < n ==> #[trigger] f(i) <= largest(n, f),
        n > 0 ==> exists|i: int| 0 <= i < n && #[trigger] f(i) == largest(n, f),
        n == 0 ==> largest(n, f) == 0,
{
    lemma_largest(n, f);
}

/// The longest chunk of a budget is a length of which every run fits it, and no longer
/// length is one.
pub proof fn the_longest_chunk_is_the_longest(budget: nat, len: nat)
    requires
        1 <= len <= 29,
    ensures
        longest_chunk(budget) <= 29,
        len <= longest_chunk(budget) <==> forall|first: int|
            0 <= first <= 29 - len ==> #[trigger] chunk_size(first, len) <= budget,
{
    let r = longest_chunk(budget);
    lemma_longest(poseidon2::round_count(), budget);
    if len <= r {
        shorter_chunks_fit_too(len, r, budget);
    } else {
        assert(!all_fit(len, budget));
    }
}

/// A chunk grows by the bytes of each round it takes in, in front or behind.
pub proof fn a_chunk_grows_by_its_rounds(first: int, len: nat)
    ensures
        chunk_size(first, len + 1) == chunk_size(first, len) + script::size(
            permutation::round_code(first + len),
        ),
        chunk_size(first, len + 1) == chunk_size(first + 1, len) + script::size(
            permutation::round_code(first),
        ),
    decreases len,
{
    lemma_chunk_size(first, len + 1);
    lemma_chunk_size(first, len);
    lemma_chunk_size(first + 1, len);
    let g = chunk_round_codes(first);
    bytes::lemma_concat(vm::flat(len, g), g(len as int));
    let h = chunk_round_codes(first + 1);
    if len > 0 {
        let m = (len - 1) as nat;
        a_chunk_grows_by_its_rounds(first, m);
        lemma_chunk_size(first, m);
        lemma_chunk_size(first + 1, m);
        bytes::lemma_concat(vm::flat(m, h), h(m as int));
        assert(first + 1 + m == first + len);
    }
}

/// A larger budget fits chunks at least as long.
pub proof fn a_larger_budget_fits_longer_chunks(small: nat, large: nat)
    requires
        small <= large,
    ensures
        longest_chunk(small) <= longest_chunk(large),
{
    let r = longest_chunk(small);
    lemma_longest(poseidon2::round_count(), small);
    if r > 0 {
        a_length_fits_when_its_largest_chunk_does(r, small);
        a_length_fits_when_its_largest_chunk_does(r, large);
    }
}

/// Nothing fits an empty budget.
pub proof fn nothing_fits_an_empty_budget()
    ensures
        longest_chunk(0) == 0,
{
    let r = longest_chunk(0);
    lemma_longest(poseidon2::round_count(), 0);
    if r > 0 {
        assert(chunk_size(0, r) <= 0);
        lemma_chunk_size(0, r);
        bytes::lemma_differs();
    }
}

/// Blank keys are twenty bytes each.
proof fn lemma_zero_keys()
    ensures
        forall|i: int| 0 <= i < 131 ==> (#[trigger] winternitz::zero_keys(131)[i]).len() == 20,
{
}

/// What a chunk takes: both signatures, the rounds and the comparison.
proof fn lemma_measured_chunk(first: int, len: nat)
    requires
        0 <= first,
        first + len <= poseidon2::round_count(),
    ensures
        chunk_size(first, len) == 43_992 + bytes::prefix_size(first + len) - bytes::prefix_size(
            first,
        ),
{
    let z = winternitz::zero_keys(131);
    lemma_zero_keys();
    bytes::signature_size(z);
    bytes::lemma_open_states(z, z);
    bytes::lemma_differs();
    bytes::lemma_run(first, len);
    lemma_chunk_size(first, len);
}

/// The longest chunk that fits a standard transaction has 22 rounds, so that
/// chunks are worth far more than single rounds.
pub proof fn the_longest_chunk_that_relays()
    ensures
        all_fit(22, standard_weight()),
        longest_chunk(standard_weight()) == 22,
{
    assert forall|first: int| 0 <= first <= poseidon2::round_count() - 22 implies #[trigger]
        chunk_size(first, 22) <= standard_weight() by {
        lemma_measured_chunk(first, 22);
    }
    lemma_measured_chunk(1, 23);
    a_length_fits_when_its_largest_chunk_does(22, standard_weight());
    a_length_fits_when_its_largest_chunk_does(23, standard_weight());
    lemma_longest(poseidon2::round_count(), standard_weight());
    if longest_chunk(standard_weight()) >= 23 {
        shorter_chunks_fit_too(23, longest_chunk(standard_weight()), standard_weight());
    }
    if longest_chunk(standard_weight()) < 22 {
        assert(!all_fit(22, standard_weight()));
    }
}

/// A committed step costs its bare step, two signatures, and parking the state
/// between them.
pub proof fn a_committed_step_adds_two_signatures(
    i: int,
    pks_out: Seq<Seq<u8>>,
    pks_in: Seq<Seq<u8>>,
)
    ensures
        script::size(round_committed_code(i, pks_out, pks_in)) == script::size(round_code(i))
            + script::size(winternitz::verify_code(pks_in, 16)) + script::size(
            winternitz::verify_code(pks_out, 16),
        ) + 32,
{
    bytes::lemma_open_states(pks_out, pks_in);
    bytes::lemma_concat(open_states_code(pks_out, pks_in), round_code(i));
}

/// The largest committed step is the largest bare step with the same added.
pub proof fn the_largest_committed_step_adds_two_signatures()
    ensures
        largest_committed_size() == largest_round_size() + 2 * script::size(
            winternitz::verify_code(winternitz::zero_keys(131), 16),
        ) + 32,
{
    let z = winternitz::zero_keys(131);
    let n = poseidon2::round_count();
    let f = |i: int| script::size(round_code(i));
    let g = |i: int| committed_size(i);
    let d = 2 * script::size(winternitz::verify_code(z, 16)) + 32;
    assert forall|i: int| #[trigger] g(i) == f(i) + d by {
        a_committed_step_adds_two_signatures(i, z, z);
    }
    lemma_largest(n, f);
    let i = choose|i: int| 0 <= i < n && #[trigger] f(i) == largest(n, f);
    assert(g(i) == f(i) + d);
    assert forall|j: int| 0 <= j < n implies #[trigger] g(j) <= g(i) by {
        assert(f(j) <= largest(n, f));
    }
    lemma_is_largest(n, g, g(i), i);
}

/// Every step fits a standard transaction, bare and with both states signed,
/// whatever the keys.
pub proof fn every_step_relays(i: int, pks_out: Seq<Seq<u8>>, pks_in: Seq<Seq<u8>>)
    requires
        0 <= i < poseidon2::round_count(),
        pks_out.len() == 131,
        pks_in.len() == 131,
        forall|j: int| 0 <= j < 131 ==> (#[trigger] pks_out[j]).len() == 20,
        forall|j: int| 0 <= j < 131 ==> (#[trigger] pks_in[j]).len() == 20,
    ensures
        script::size(round_code(i)) < standard_weight(),
        script::size(round_committed_code(i, pks_out, pks_in)) < standard_weight(),
{
    bytes::round_sizes(i);
    bytes::lemma_differs();
    bytes::lemma_concat(permutation::round_code(i), differs_code(16));
    bytes::signature_size(pks_out);
    bytes::signature_size(pks_in);
    a_committed_step_adds_two_signatures(i, pks_out, pks_in);
}

/// The largest step takes 50,126 bytes, and 94,020 with both states signed: 44 kB
/// of signature against 50 kB of arithmetic.
pub proof fn the_largest_steps()
    ensures
        largest_round_size() == 50_126,
        largest_committed_size() == 94_020,
{
    let z = winternitz::zero_keys(131);
    let n = poseidon2::round_count();
    let f = |i: int| script::size(round_code(i));
    let g = |i: int| committed_size(i);
    lemma_zero_keys();
    bytes::signature_size(z);
    bytes::lemma_differs();
    assert forall|i: int| 0 <= i < n implies #[trigger] f(i) == bytes::round_size(i) + 98 by {
        bytes::round_sizes(i);
        bytes::lemma_concat(permutation::round_code(i), differs_code(16));
    }
    assert forall|i: int| 0 <= i < n implies #[trigger] g(i) == bytes::round_size(i) + 43_992 by {
        assert(f(i) == bytes::round_size(i) + 98);
        a_committed_step_adds_two_signatures(i, z, z);
    }
    assert(f(1) == 50_126);
    assert(g(1) == 94_020);
    lemma_is_largest(n, f, 50_126, 1);
    lemma_is_largest(n, g, 94_020, 1);
}

/// The largest steps, bare and committed, fit a standard transaction.
pub proof fn the_largest_step_relays()
    ensures
        largest_round_size() < standard_weight(),
        largest_committed_size() < standard_weight(),
        forall|i: int|
            0 <= i < poseidon2::round_count() ==> #[trigger] committed_size(i) < standard_weight(),
{
    let z = winternitz::zero_keys(131);
    let n = poseidon2::round_count();
    let f = |i: int| script::size(round_code(i));
    let g = |i: int| committed_size(i);
    lemma_zero_keys();
    lemma_largest(n, f);
    lemma_largest(n, g);
    let i = choose|i: int| 0 <= i < n && #[trigger] f(i) == largest(n, f);
    let j = choose|j: int| 0 <= j < n && #[trigger] g(j) == largest(n, g);
    every_step_relays(i, z, z);
    assert forall|t: int| 0 <= t < n implies #[trigger] committed_size(t) < standard_weight() by {
        every_step_relays(t, z, z);
    }
    assert(committed_size(j) == largest(n, g));
}

} // verus!
