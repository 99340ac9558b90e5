//! The WHIR sumcheck round, in Bitcoin Script, over the quartic extension.
//!
//! The claim, the sent evaluations and the challenge are all extension elements.
//! Running this over the base field would cap soundness near 31 bits however
//! many queries were made, so every value here is four slots wide.

use crate::arith;
use crate::ext::{self, Ext};
use crate::ext4;
use crate::layers;
use crate::poseidon2;
use crate::script::{Instr, Opcode, Script};
use crate::vm::{self, Ctx, Item};
use crate::whir::algebra;
use crate::whir::{challenger, sponge};
use vstd::prelude::*;

verus! {

/// `h(0) * (1 - r)`.
#[verifier::opaque]
pub open spec fn first_term_code() -> Seq<Instr> {
    ext4::copy_code(2) + ext4::push_one_code() + ext4::copy_code(2) + ext4::sub_code()
        + ext4::mul_code()
}

/// `h(1) * r`, with `h(1) = claim - h(0)`, added in.
#[verifier::opaque]
pub open spec fn second_term_code() -> Seq<Instr> {
    ext4::copy_code(4) + ext4::copy_code(4) + ext4::sub_code() + ext4::copy_code(2)
        + ext4::mul_code() + ext4::add_code()
}

/// `h(inf) * r * (r - 1)`, added in.
#[verifier::opaque]
pub open spec fn third_term_code() -> Seq<Instr> {
    ext4::copy_code(2) + ext4::copy_code(2) + ext4::mul_code() + ext4::copy_code(2)
        + ext4::push_one_code() + ext4::sub_code() + ext4::mul_code() + ext4::add_code()
}

/// The code of [`sumcheck_round`].
#[verifier::opaque]
pub open spec fn sumcheck_round_code() -> Seq<Instr> {
    first_term_code() + second_term_code() + third_term_code() + ext4::to_altstack_code()
        + ext4::drop_n_code(4) + ext4::from_altstack_code()
}

/// The operands of a round, bottom to top.
spec fn operands(claim: Ext, c0: Ext, c_inf: Ext, r: Ext) -> Seq<Ext> {
    Seq::<Ext>::empty().push(claim).push(c0).push(c_inf).push(r)
}

proof fn lemma_terms(
    c: Ctx,
    v: Seq<Item>,
    w: Seq<Item>,
    claim: Ext,
    c0: Ext,
    c_inf: Ext,
    r: Ext,
)
    requires
        c.live(),
        claim.ok(),
        c0.ok(),
        c_inf.ok(),
        r.ok(),
    ensures
        ({
            let s = operands(claim, c0, c_inf, r);
            let one = ext::eone();
            let x = ext::emul(c0, ext::esub(one, r));
            let y = ext::eadd(x, ext::emul(ext::esub(claim, c0), r));
            let z = ext::eadd(y, ext::emul(ext::emul(c_inf, r), ext::esub(r, one)));
            &&& vm::run(first_term_code(), vm::at(c, ext4::puts(v, s), w)) == Some(
                vm::at(c, ext4::puts(v, s.push(x)), w),
            )
            &&& vm::run(second_term_code(), vm::at(c, ext4::puts(v, s.push(x)), w)) == Some(
                vm::at(c, ext4::puts(v, s.push(y)), w),
            )
            &&& vm::run(third_term_code(), vm::at(c, ext4::puts(v, s.push(y)), w)) == Some(
                vm::at(c, ext4::puts(v, s.push(z)), w),
            )
        }),
{
    reveal(first_term_code);
    reveal(second_term_code);
    reveal(third_term_code);
    ext::ext_identities(r);
    broadcast use {ext4::group_run_ext, ext::group_ok};

}

/// What [`sumcheck_round`] does.
pub proof fn lemma_sumcheck_round(
    c: Ctx,
    v: Seq<Item>,
    w: Seq<Item>,
    claim: Ext,
    c0: Ext,
    c_inf: Ext,
    r: Ext,
)
    requires
        c.live(),
        claim.ok(),
        c0.ok(),
        c_inf.ok(),
        r.ok(),
    ensures
        vm::run(
            sumcheck_round_code(),
            vm::at(c, ext4::put(ext4::put(ext4::put(ext4::put(v, claim), c0), c_inf), r), w),
        ) == Some(vm::at(c, ext4::put(v, algebra::next_claim(claim, c0, c_inf, r)), w)),
        algebra::next_claim(claim, c0, c_inf, r).ok(),
{
    reveal(sumcheck_round_code);
    let s = operands(claim, c0, c_inf, r);
    let one = ext::eone();
    lemma_terms(c, v, w, claim, c0, c_inf, r);
    ext::emul_associates(c_inf, r, ext::esub(r, one));
    let x = ext::emul(c0, ext::esub(one, r));
    let y = ext::eadd(x, ext::emul(ext::esub(claim, c0), r));
    let z = algebra::next_claim(claim, c0, c_inf, r);
    assert(z == ext::eadd(y, ext::emul(ext::emul(c_inf, r), ext::esub(r, one))));
    assert(ext4::puts(v, s) == ext4::put(
        ext4::put(ext4::put(ext4::put(v, claim), c0), c_inf),
        r,
    )) by {
        broadcast use ext4::lemma_puts_push;

    }
    ext4::lemma_drop_top(c, v, ext4::park(w, z), s, 4);
    assert(s.take(0) =~= Seq::<Ext>::empty());
    ext4::lemma_from_altstack(c, v, w, z);
    ext4::run_to_altstack(c, v, w, s.push(z));
    vm::lemma_push_drop_last(s, z);
    broadcast use {vm::lemma_run_concat, ext::group_ok};

}

/// One round, over the extension.
///
/// Input, bottom to top: `claim c0 c_inf r`, each four slots. Output: the new
/// claim, `h(r)`.
///
/// `h(1)` is never sent, because the sumcheck constraint `h(0) + h(1) = claim`
/// gives it, so this reconstructs from `{0, 1, inf}` with the weights
/// `[1 - r, r, r(r - 1)]`.
///
/// Element depths at rest: `r` 0, `c_inf` 1, `c0` 2, `claim` 3, and each copy
/// pushed above shifts them by one element.
pub fn sumcheck_round() -> (r: Script)
    ensures
        r.code() == sumcheck_round_code(),
        forall|claim: Ext, c0: Ext, c_inf: Ext, x: Ext, c: Ctx, v: Seq<Item>, w: Seq<Item>|
            claim.ok() && c0.ok() && c_inf.ok() && x.ok() && c.live() ==> #[trigger] vm::run(
                r.code(),
                vm::at(c, ext4::put(ext4::put(ext4::put(ext4::put(v, claim), c0), c_inf), x), w),
            ) == Some(vm::at(c, ext4::put(v, algebra::next_claim(claim, c0, c_inf, x)), w)),
{
    proof {
        assert forall|claim: Ext, c0: Ext, c_inf: Ext, x: Ext, c: Ctx, v: Seq<Item>, w: Seq<Item>|
            claim.ok() && c0.ok() && c_inf.ok() && x.ok() && c.live() implies #[trigger] vm::run(
            sumcheck_round_code(),
            vm::at(c, ext4::put(ext4::put(ext4::put(ext4::put(v, claim), c0), c_inf), x), w),
        ) == Some(vm::at(c, ext4::put(v, algebra::next_claim(claim, c0, c_inf, x)), w)) by {
            lemma_sumcheck_round(c, v, w, claim, c0, c_inf, x);
        }
        reveal(sumcheck_round_code);
        reveal(first_term_code);
        reveal(second_term_code);
        reveal(third_term_code);
    }
    let mul = crate::ext4::mul();
    // h(0) * (1 - r)
    let first = ext4::copy(2).then_script(ext4::push_one()).then_script(ext4::copy(2)).then_script(
        crate::ext4::sub(),
    ).with(&mul);
    // h(1) * r, with h(1) = claim - h(0)
    let second = ext4::copy(4).then_script(ext4::copy(4)).then_script(
        crate::ext4::sub(),
    ).then_script(ext4::copy(2)).with(&mul).then_script(crate::ext4::add());
    // h(inf) * r * (r - 1)
    let third = ext4::copy(2).then_script(ext4::copy(2)).with(&mul).then_script(
        ext4::copy(2),
    ).then_script(ext4::push_one()).then_script(crate::ext4::sub()).with(&mul).then_script(
        crate::ext4::add(),
    );
    // Keep the new claim, drop the four inputs.
    first.then_script(second).then_script(third).then_script(ext4::to_altstack()).then_script(
        ext4::drop_n(4),
    ).then_script(ext4::from_altstack())
}

// ---------------------------------------------------------------------------
// Transcript-bound rounds
// ---------------------------------------------------------------------------

/// The eight base elements a round absorbs.
pub open spec fn sent(c0: Ext, c_inf: Ext) -> Seq<int> {
    c0.coeffs() + c_inf.coeffs()
}

/// The sponge after a round's evaluations were absorbed.
pub open spec fn round_state(s: Seq<int>, c0: Ext, c_inf: Ext) -> Seq<int> {
    poseidon2::duplex(s, sent(c0, c_inf))
}

/// The challenge of a round, drawn after its evaluations were absorbed.
pub open spec fn round_challenge(s: Seq<int>, c0: Ext, c_inf: Ext) -> Ext {
    challenger::challenge(round_state(s, c0, c_inf), 0)
}

/// The claim after a transcript-bound round.
pub open spec fn round_claim(claim: Ext, s: Seq<int>, c0: Ext, c_inf: Ext) -> Ext {
    algebra::next_claim(claim, c0, c_inf, round_challenge(s, c0, c_inf))
}

/// The code that parks the evaluations, absorbs them, draws the challenge, and
/// lifts the claim and the evaluations over it.
#[verifier::opaque]
pub open spec fn bind_round_code() -> Seq<Instr> {
    ext4::copy_code(0) + ext4::to_altstack_code() + ext4::copy_code(1) + ext4::to_altstack_code()
        + sponge::absorb_code(8) + challenger::sample_ef_code(0) + vm::rotate_code(4, 23)
        + ext4::from_altstack_code() + ext4::from_altstack_code()
}

/// The code of [`sumcheck_round_fs`].
#[verifier::opaque]
pub open spec fn sumcheck_round_fs_code() -> Seq<Instr> {
    bind_round_code() + vm::rotate_code(4, 15) + sumcheck_round_code() + vm::rotate_code(16, 19)
}

/// Two elements on a stack as eight base elements.
proof fn lemma_sent(v: Seq<Item>, c0: Ext, c_inf: Ext)
    requires
        c0.ok(),
        c_inf.ok(),
    ensures
        ext4::put(ext4::put(v, c0), c_inf) == v + vm::nums(sent(c0, c_inf)),
        arith::felts(sent(c0, c_inf)),
        sent(c0, c_inf).len() == 8,
{
    ext4::lemma_put_nums(v, c0);
    ext4::lemma_put_nums(ext4::put(v, c0), c_inf);
    assert(v + vm::nums(c0.coeffs()) + vm::nums(c_inf.coeffs()) =~= v + vm::nums(
        sent(c0, c_inf),
    ));
    let x = sent(c0, c_inf);
    assert forall|i: int| 0 <= i < x.len() implies arith::felt(#[trigger] x[i]) by {
        if i < 4 {
            assert(x[i] == c0.coeffs()[i]);
        } else {
            assert(x[i] == c_inf.coeffs()[i - 4]);
        }
    }
}

#[verifier::spinoff_prover]
#[verifier::rlimit(50)]
proof fn lemma_bind_round(
    c: Ctx,
    v: Seq<Item>,
    w: Seq<Item>,
    claim: Ext,
    s: Seq<int>,
    c0: Ext,
    c_inf: Ext,
)
    requires
        c.live(),
        poseidon2::is_state(s),
        c0.ok(),
        c_inf.ok(),
    ensures
        poseidon2::is_state(round_state(s, c0, c_inf)),
        round_challenge(s, c0, c_inf).ok(),
        vm::run(
            bind_round_code(),
            vm::at(c, ext4::put(ext4::put(ext4::put(v, claim) + vm::nums(s), c0), c_inf), w),
        ) == Some(
            vm::at(
                c,
                ext4::put(
                    ext4::put(
                        ext4::put(
                            ext4::put(
                                v + vm::nums(round_state(s, c0, c_inf)),
                                round_challenge(s, c0, c_inf),
                            ),
                            claim,
                        ),
                        c0,
                    ),
                    c_inf,
                ),
                w,
            ),
        ),
{
    reveal(bind_round_code);
    let base = ext4::put(v, claim) + vm::nums(s);
    let start = ext4::put(ext4::put(base, c0), c_inf);
    let w1 = ext4::park(w, c_inf);
    let w2 = ext4::park(w1, c0);
    let t = round_state(s, c0, c_inf);
    let r = round_challenge(s, c0, c_inf);
    // Park copies of both evaluations.
    ext4::lemma_copy_items(c, start, w, 0, c_inf);
    ext4::lemma_to_altstack(c, start, w, c_inf);
    ext4::lemma_copy_items(c, start, w1, 1, c0);
    ext4::lemma_to_altstack(c, start, w1, c0);
    // Absorb and sample.
    lemma_sent(base, c0, c_inf);
    poseidon2::lemma_duplex_is_state(s, sent(c0, c_inf));
    sponge::lemma_absorb(c, ext4::put(v, claim), w2, s, sent(c0, c_inf));
    challenger::lemma_sample_ef(c, ext4::put(v, claim), w2, t, 0);
    // Lift the claim.
    let a = vm::nums(claim.coeffs());
    let b = vm::nums(t) + vm::nums(r.coeffs());
    ext4::lemma_put_nums(v, claim);
    ext4::lemma_put_nums(ext4::put(v, claim) + vm::nums(t), r);
    assert(ext4::put(ext4::put(v, claim) + vm::nums(t), r) =~= v + a + b);
    vm::lemma_rotate(c, v, w2, a, b);
    ext4::lemma_put_nums(v + vm::nums(t), r);
    let up = ext4::put(v + vm::nums(t), r);
    ext4::lemma_put_nums(up, claim);
    assert(v + b + a =~= ext4::put(up, claim));
    // Fetch the evaluations back.
    ext4::lemma_from_altstack(c, ext4::put(up, claim), w1, c0);
    ext4::lemma_from_altstack(c, ext4::put(ext4::put(up, claim), c0), w, c_inf);
    broadcast use vm::lemma_run_concat;

}

/// What [`sumcheck_round_fs`] does.
pub proof fn lemma_sumcheck_round_fs(
    c: Ctx,
    v: Seq<Item>,
    w: Seq<Item>,
    claim: Ext,
    s: Seq<int>,
    c0: Ext,
    c_inf: Ext,
)
    requires
        c.live(),
        claim.ok(),
        poseidon2::is_state(s),
        c0.ok(),
        c_inf.ok(),
    ensures
        poseidon2::is_state(round_state(s, c0, c_inf)),
        round_claim(claim, s, c0, c_inf).ok(),
        vm::run(
            sumcheck_round_fs_code(),
            vm::at(c, ext4::put(ext4::put(ext4::put(v, claim) + vm::nums(s), c0), c_inf), w),
        ) == Some(
            vm::at(
                c,
                ext4::put(v, round_claim(claim, s, c0, c_inf)) + vm::nums(
                    round_state(s, c0, c_inf),
                ),
                w,
            ),
        ),
{
    reveal(sumcheck_round_fs_code);
    let t = round_state(s, c0, c_inf);
    let r = round_challenge(s, c0, c_inf);
    let next = round_claim(claim, s, c0, c_inf);
    lemma_bind_round(c, v, w, claim, s, c0, c_inf);
    // Lift r over the three.
    let low = v + vm::nums(t);
    let a = vm::nums(r.coeffs());
    let b = vm::nums(claim.coeffs()) + vm::nums(c0.coeffs()) + vm::nums(c_inf.coeffs());
    lemma_three(low, r, claim, c0, c_inf);
    vm::lemma_rotate(c, low, w, a, b);
    lemma_sumcheck_round(c, low, w, claim, c0, c_inf, r);
    // Put the state back on top.
    let n = vm::nums(next.coeffs());
    ext4::lemma_put_nums(low, next);
    ext4::lemma_put_nums(v, next);
    vm::lemma_rotate(c, v, w, vm::nums(t), n);
    assert(low + n =~= v + vm::nums(t) + n);
    assert(v + n + vm::nums(t) =~= ext4::put(v, next) + vm::nums(t));
    broadcast use vm::lemma_run_concat;

}

/// Four elements on a stack as blocks of base elements, and the first of them
/// lifted over the others.
proof fn lemma_three(v: Seq<Item>, r: Ext, x: Ext, y: Ext, z: Ext)
    ensures
        ext4::put(ext4::put(ext4::put(ext4::put(v, r), x), y), z) == v + vm::nums(r.coeffs()) + (
        vm::nums(x.coeffs()) + vm::nums(y.coeffs()) + vm::nums(z.coeffs())),
        ext4::put(ext4::put(ext4::put(ext4::put(v, x), y), z), r) == v + (vm::nums(x.coeffs())
            + vm::nums(y.coeffs()) + vm::nums(z.coeffs())) + vm::nums(r.coeffs()),
{
    ext4::lemma_put_nums(v, r);
    ext4::lemma_put_nums(ext4::put(v, r), x);
    ext4::lemma_put_nums(ext4::put(ext4::put(v, r), x), y);
    ext4::lemma_put_nums(ext4::put(ext4::put(ext4::put(v, r), x), y), z);
    ext4::lemma_put_nums(v, x);
    ext4::lemma_put_nums(ext4::put(v, x), y);
    ext4::lemma_put_nums(ext4::put(ext4::put(v, x), y), z);
    ext4::lemma_put_nums(ext4::put(ext4::put(ext4::put(v, x), y), z), r);
    let (nr, nx, ny, nz) = (
        vm::nums(r.coeffs()),
        vm::nums(x.coeffs()),
        vm::nums(y.coeffs()),
        vm::nums(z.coeffs()),
    );
    assert(v + nr + nx + ny + nz =~= v + nr + (nx + ny + nz));
    assert(v + nx + ny + nz + nr =~= v + (nx + ny + nz) + nr);
}

/// Park the evaluations, absorb them, draw the challenge, and lift the claim and
/// the evaluations over it.
fn bind_round() -> (r: Script)
    ensures
        r.code() == bind_round_code(),
{
    proof {
        reveal(bind_round_code);
    }
    // The absorb consumes its inputs, so park copies first. Pushing c_inf then
    // c0 means the pops below come back c0 then c_inf. Rolling the claim's
    // deepest slot first, four times, keeps a0 deepest and a3 on top.
    ext4::copy(0).then_script(ext4::to_altstack()).then_script(ext4::copy(1)).then_script(
        ext4::to_altstack(),
    ).then_script(sponge::absorb(2 * ext4::D)).then_script(challenger::sample_ef(0)).then_script(
        vm::rotate(ext4::D, 2 * ext4::D + sponge::WIDTH - 1),
    ).then_script(ext4::from_altstack()).then_script(ext4::from_altstack())
}

/// One round with the challenge **derived in script** from the transcript.
///
/// [`sumcheck_round`] takes `r` as an input. That is right for testing the
/// arithmetic and useless as a verifier: a prover who supplies `r` steers the
/// round wherever it likes. Binding `r` to the transcript is what removes the
/// freedom: it is fixed only once `(c0, c_inf)` have been absorbed.
///
/// # Stack
///
/// In: `claim(4) state(16)`, with the round's `c0(4) c_inf(4)` pushed above.
/// Out: `claim'(4) state'(16)`, the same shape, so rounds compose.
///
/// The state sits above the claim because that is already the layout
/// [`sponge::absorb`] wants once the evaluations are pushed on top of it.
///
/// # Cost
///
/// One permutation. Absorbing *is* the duplexing, so there is no separate
/// squeeze.
pub fn sumcheck_round_fs() -> (r: Script)
    ensures
        r.code() == sumcheck_round_fs_code(),
        forall|claim: Ext, s: Seq<int>, c0: Ext, c_inf: Ext, c: Ctx, v: Seq<Item>, w: Seq<Item>|
            claim.ok() && poseidon2::is_state(s) && c0.ok() && c_inf.ok() && c.live()
                ==> #[trigger] vm::run(
                r.code(),
                vm::at(c, ext4::put(ext4::put(ext4::put(v, claim) + vm::nums(s), c0), c_inf), w),
            ) == Some(
                vm::at(
                    c,
                    ext4::put(v, round_claim(claim, s, c0, c_inf)) + vm::nums(
                        round_state(s, c0, c_inf),
                    ),
                    w,
                ),
            ),
{
    proof {
        assert forall|
            claim: Ext,
            s: Seq<int>,
            c0: Ext,
            c_inf: Ext,
            c: Ctx,
            v: Seq<Item>,
            w: Seq<Item>,
        |
            claim.ok() && poseidon2::is_state(s) && c0.ok() && c_inf.ok()
                && c.live() implies #[trigger] vm::run(
            sumcheck_round_fs_code(),
            vm::at(c, ext4::put(ext4::put(ext4::put(v, claim) + vm::nums(s), c0), c_inf), w),
        ) == Some(
            vm::at(
                c,
                ext4::put(v, round_claim(claim, s, c0, c_inf)) + vm::nums(
                    round_state(s, c0, c_inf),
                ),
                w,
            ),
        ) by {
            lemma_sumcheck_round_fs(c, v, w, claim, s, c0, c_inf);
        }
        reveal(sumcheck_round_fs_code);
    }
    // Lift r over the three, so the operands read claim c0 c_inf r bottom to
    // top; put the state back on top afterwards.
    bind_round().then_script(vm::rotate(ext4::D, 4 * ext4::D - 1)).then_script(
        sumcheck_round(),
    ).then_script(vm::rotate(sponge::WIDTH, ext4::D + sponge::WIDTH - 1))
}

/// What the prover sends in one round.
pub struct Evaluations {
    /// `h(0)`.
    pub c0: Ext,
    /// `h(inf)`.
    pub c_inf: Ext,
}

impl Evaluations {
    /// Whether both are canonical.
    pub open spec fn ok(self) -> bool {
        self.c0.ok() && self.c_inf.ok()
    }
}

/// Changing what the prover sends in a round moves the sponge that the round's
/// challenge is drawn from.
pub proof fn other_evaluations_move_the_sponge(s: Seq<int>, a: Evaluations, b: Evaluations)
    requires
        poseidon2::is_state(s),
        a.ok(),
        b.ok(),
        a != b,
    ensures
        round_state(s, a.c0, a.c_inf) != round_state(s, b.c0, b.c_inf),
{
    let x = sent(a.c0, a.c_inf);
    let y = sent(b.c0, b.c_inf);
    if x == y {
        assert(x[0] == y[0] && x[1] == y[1] && x[2] == y[2] && x[3] == y[3]);
        assert(x[4] == y[4] && x[5] == y[5] && x[6] == y[6] && x[7] == y[7]);
    }
    layers::absorbing_other_elements_moves_the_state(s, x, y);
}

/// Whether all evaluations are canonical.
pub open spec fn evaluations_ok(e: Seq<Evaluations>) -> bool {
    forall|i: int| 0 <= i < e.len() ==> (#[trigger] e[i]).ok()
}

/// The sponge after `k` rounds.
pub open spec fn chain_state(s: Seq<int>, e: Seq<Evaluations>, k: nat) -> Seq<int>
    decreases k,
{
    if k == 0 {
        s
    } else {
        round_state(chain_state(s, e, (k - 1) as nat), e[k - 1].c0, e[k - 1].c_inf)
    }
}

/// The claim after `k` rounds.
pub open spec fn chain_claim(claim: Ext, s: Seq<int>, e: Seq<Evaluations>, k: nat) -> Ext
    decreases k,
{
    if k == 0 {
        claim
    } else {
        let j = (k - 1) as nat;
        round_claim(
            chain_claim(claim, s, e, j),
            chain_state(s, e, j),
            e[k - 1].c0,
            e[k - 1].c_inf,
        )
    }
}

/// The challenges of the first `k` rounds, in round order.
pub open spec fn chain_challenges(s: Seq<int>, e: Seq<Evaluations>, k: nat) -> Seq<Ext>
    decreases k,
{
    if k == 0 {
        Seq::empty()
    } else {
        let j = (k - 1) as nat;
        chain_challenges(s, e, j).push(
            round_challenge(chain_state(s, e, j), e[k - 1].c0, e[k - 1].c_inf),
        )
    }
}

/// The altstack with the evaluations of rounds `k` and up, each round's `c0` on
/// top of its `c_inf` and the next round on top of later ones.
pub open spec fn rounds_alt(w: Seq<Item>, e: Seq<Evaluations>, k: nat) -> Seq<Item>
    decreases e.len() - k,
{
    if k >= e.len() {
        w
    } else {
        ext4::park(
            ext4::park(rounds_alt(w, e, k + 1), e[k as int].c_inf),
            e[k as int].c0,
        )
    }
}

/// States stay states and claims stay canonical along a chain.
pub proof fn lemma_chain_ok(claim: Ext, s: Seq<int>, e: Seq<Evaluations>, k: nat)
    requires
        claim.ok(),
        poseidon2::is_state(s),
        evaluations_ok(e),
        k <= e.len(),
    ensures
        poseidon2::is_state(chain_state(s, e, k)),
        chain_claim(claim, s, e, k).ok(),
        ext::all_ok(chain_challenges(s, e, k)),
        chain_challenges(s, e, k).len() == k,
    decreases k,
{
    if k > 0 {
        let j = (k - 1) as nat;
        lemma_chain_ok(claim, s, e, j);
        assert(e[k - 1].ok());
        let t = chain_state(s, e, j);
        lemma_sent(Seq::empty(), e[k - 1].c0, e[k - 1].c_inf);
        poseidon2::lemma_duplex_is_state(t, sent(e[k - 1].c0, e[k - 1].c_inf));
        broadcast use ext::group_ok;

    }
}

/// One round with its evaluations fetched from the altstack.
pub open spec fn fetched_round_codes() -> spec_fn(int) -> Seq<Instr> {
    |i: int|
        ext4::from_altstack_code() + ext4::from_altstack_code() + sumcheck_round_fs_code()
}

/// The code of [`sumcheck_rounds_fs`].
#[verifier::opaque]
pub open spec fn sumcheck_rounds_fs_code(n: nat) -> Seq<Instr> {
    vm::flat(n, fetched_round_codes())
}

/// What [`sumcheck_rounds_fs`] does.
pub proof fn lemma_sumcheck_rounds_fs(
    c: Ctx,
    v: Seq<Item>,
    w: Seq<Item>,
    claim: Ext,
    s: Seq<int>,
    e: Seq<Evaluations>,
)
    requires
        c.live(),
        claim.ok(),
        poseidon2::is_state(s),
        evaluations_ok(e),
    ensures
        vm::run(
            sumcheck_rounds_fs_code(e.len()),
            vm::at(c, ext4::put(v, claim) + vm::nums(s), rounds_alt(w, e, 0)),
        ) == Some(
            vm::at(
                c,
                ext4::put(v, chain_claim(claim, s, e, e.len())) + vm::nums(
                    chain_state(s, e, e.len()),
                ),
                w,
            ),
        ),
{
    reveal(sumcheck_rounds_fs_code);
    let f = fetched_round_codes();
    let st = |k: int|
        vm::at(
            c,
            ext4::put(v, chain_claim(claim, s, e, k as nat)) + vm::nums(
                chain_state(s, e, k as nat),
            ),
            rounds_alt(w, e, k as nat),
        );
    assert forall|k: int| 0 <= k < e.len() implies #[trigger] vm::run(f(k), st(k)) == Some(
        st(k + 1),
    ) by {
        lemma_chain_ok(claim, s, e, k as nat);
        assert(e[k].ok());
        let cl = chain_claim(claim, s, e, k as nat);
        let t = chain_state(s, e, k as nat);
        let base = ext4::put(v, cl) + vm::nums(t);
        let w1 = rounds_alt(w, e, (k + 1) as nat);
        ext4::lemma_from_altstack(c, base, ext4::park(w1, e[k].c_inf), e[k].c0);
        ext4::lemma_from_altstack(c, ext4::put(base, e[k].c0), w1, e[k].c_inf);
        lemma_sumcheck_round_fs(c, v, w1, cl, t, e[k].c0, e[k].c_inf);
        broadcast use vm::lemma_run_concat;

    }
    vm::lemma_run_flat(e.len(), f, st);
}

/// `n` transcript-bound rounds, each taking its `c0 c_inf` from the altstack.
///
/// Push order, bottom to top of the altstack: rounds in reverse, and within a
/// round `c_inf` then `c0`, so each round pops `c0` first. Unlike
/// [`sumcheck_rounds`] there is no `r` to push, and that is the point.
///
/// [`sumcheck_round_fs`] leaves the altstack balanced, so later rounds'
/// evaluations stay buried underneath while a round runs.
pub fn sumcheck_rounds_fs(n: usize) -> (r: Script)
    ensures
        r.code() == sumcheck_rounds_fs_code(n as nat),
        forall|claim: Ext, s: Seq<int>, e: Seq<Evaluations>, c: Ctx, v: Seq<Item>, w: Seq<Item>|
            claim.ok() && poseidon2::is_state(s) && evaluations_ok(e) && e.len() == n && c.live()
                ==> #[trigger] vm::run(
                r.code(),
                vm::at(c, ext4::put(v, claim) + vm::nums(s), rounds_alt(w, e, 0)),
            ) == Some(
                vm::at(
                    c,
                    ext4::put(v, chain_claim(claim, s, e, n as nat)) + vm::nums(
                        chain_state(s, e, n as nat),
                    ),
                    w,
                ),
            ),
{
    proof {
        assert forall|
            claim: Ext,
            s: Seq<int>,
            e: Seq<Evaluations>,
            c: Ctx,
            v: Seq<Item>,
            w: Seq<Item>,
        |
            claim.ok() && poseidon2::is_state(s) && evaluations_ok(e) && e.len() == n
                && c.live() implies #[trigger] vm::run(
            sumcheck_rounds_fs_code(n as nat),
            vm::at(c, ext4::put(v, claim) + vm::nums(s), rounds_alt(w, e, 0)),
        ) == Some(
            vm::at(
                c,
                ext4::put(v, chain_claim(claim, s, e, n as nat)) + vm::nums(
                    chain_state(s, e, n as nat),
                ),
                w,
            ),
        ) by {
            lemma_sumcheck_rounds_fs(c, v, w, claim, s, e);
        }
        reveal(sumcheck_rounds_fs_code);
    }
    let mut r = Script::new();
    if n > 0 {
        let round = ext4::from_altstack().then_script(ext4::from_altstack()).then_script(
            sumcheck_round_fs(),
        );
        let mut i: usize = 0;
        while i < n
            invariant
                i <= n,
                round.code() == fetched_round_codes()(0),
                r.code() == vm::flat(i as nat, fetched_round_codes()),
            decreases n - i,
        {
            r = r.with(&round);
            i = i + 1;
        }
    }
    r
}

/// One round with its evaluations fetched, its challenge kept under the claim.
pub open spec fn kept_round_codes() -> spec_fn(int) -> Seq<Instr> {
    |i: int|
        ext4::from_altstack_code() + ext4::from_altstack_code() + bind_round_code()
            + ext4::copy_code(3) + sumcheck_round_code() + vm::rotate_code(16, 23)
}

/// The code of [`sumcheck_rounds_fs_keep`].
#[verifier::opaque]
pub open spec fn sumcheck_rounds_fs_keep_code(n: nat) -> Seq<Instr> {
    vm::flat(n, kept_round_codes())
}

proof fn lemma_kept_round(
    c: Ctx,
    v: Seq<Item>,
    w: Seq<Item>,
    claim: Ext,
    s: Seq<int>,
    c0: Ext,
    c_inf: Ext,
)
    requires
        c.live(),
        claim.ok(),
        poseidon2::is_state(s),
        c0.ok(),
        c_inf.ok(),
    ensures
        vm::run(
            kept_round_codes()(0),
            vm::at(
                c,
                ext4::put(v, claim) + vm::nums(s),
                ext4::park(ext4::park(w, c_inf), c0),
            ),
        ) == Some(
            vm::at(
                c,
                ext4::put(
                    ext4::put(v, round_challenge(s, c0, c_inf)),
                    round_claim(claim, s, c0, c_inf),
                ) + vm::nums(round_state(s, c0, c_inf)),
                w,
            ),
        ),
{
    let t = round_state(s, c0, c_inf);
    let r = round_challenge(s, c0, c_inf);
    let next = round_claim(claim, s, c0, c_inf);
    let base = ext4::put(v, claim) + vm::nums(s);
    ext4::lemma_from_altstack(c, base, ext4::park(w, c_inf), c0);
    ext4::lemma_from_altstack(c, ext4::put(base, c0), w, c_inf);
    lemma_bind_round(c, v, w, claim, s, c0, c_inf);
    let low = v + vm::nums(t);
    let four = ext4::put(ext4::put(ext4::put(ext4::put(low, r), claim), c0), c_inf);
    ext4::lemma_copy_items(c, four, w, 3, r);
    lemma_sumcheck_round(c, ext4::put(low, r), w, claim, c0, c_inf, r);
    let a = vm::nums(t);
    let b = vm::nums(r.coeffs()) + vm::nums(next.coeffs());
    ext4::lemma_put_nums(low, r);
    ext4::lemma_put_nums(ext4::put(low, r), next);
    ext4::lemma_put_nums(v, r);
    ext4::lemma_put_nums(ext4::put(v, r), next);
    assert(ext4::put(ext4::put(low, r), next) =~= v + a + b);
    vm::lemma_rotate(c, v, w, a, b);
    assert(v + b + a =~= ext4::put(ext4::put(v, r), next) + vm::nums(t));
    broadcast use vm::lemma_run_concat;

}

/// What [`sumcheck_rounds_fs_keep`] does.
pub proof fn lemma_sumcheck_rounds_fs_keep(
    c: Ctx,
    v: Seq<Item>,
    w: Seq<Item>,
    claim: Ext,
    s: Seq<int>,
    e: Seq<Evaluations>,
)
    requires
        c.live(),
        claim.ok(),
        poseidon2::is_state(s),
        evaluations_ok(e),
    ensures
        vm::run(
            sumcheck_rounds_fs_keep_code(e.len()),
            vm::at(c, ext4::put(v, claim) + vm::nums(s), rounds_alt(w, e, 0)),
        ) == Some(
            vm::at(
                c,
                ext4::put(
                    ext4::puts(v, chain_challenges(s, e, e.len())),
                    chain_claim(claim, s, e, e.len()),
                ) + vm::nums(chain_state(s, e, e.len())),
                w,
            ),
        ),
{
    reveal(sumcheck_rounds_fs_keep_code);
    let f = kept_round_codes();
    let st = |k: int|
        vm::at(
            c,
            ext4::put(
                ext4::puts(v, chain_challenges(s, e, k as nat)),
                chain_claim(claim, s, e, k as nat),
            ) + vm::nums(chain_state(s, e, k as nat)),
            rounds_alt(w, e, k as nat),
        );
    assert forall|k: int| 0 <= k < e.len() implies #[trigger] vm::run(f(k), st(k)) == Some(
        st(k + 1),
    ) by {
        lemma_chain_ok(claim, s, e, k as nat);
        assert(e[k].ok());
        let cl = chain_claim(claim, s, e, k as nat);
        let t = chain_state(s, e, k as nat);
        let rs = chain_challenges(s, e, k as nat);
        lemma_kept_round(
            c,
            ext4::puts(v, rs),
            rounds_alt(w, e, (k + 1) as nat),
            cl,
            t,
            e[k].c0,
            e[k].c_inf,
        );
        ext4::lemma_puts_push(v, rs, round_challenge(t, e[k].c0, e[k].c_inf));
        assert(f(k) == f(0));
    }
    vm::lemma_run_flat(e.len(), f, st);
}

/// [`sumcheck_rounds_fs`] that keeps every round's challenge.
///
/// In: `claim(4) state(16)`. Out: the `n` challenges, the first deepest, then
/// `claim'(4) state'(16)`.
pub fn sumcheck_rounds_fs_keep(n: usize) -> (r: Script)
    ensures
        r.code() == sumcheck_rounds_fs_keep_code(n as nat),
        forall|claim: Ext, s: Seq<int>, e: Seq<Evaluations>, c: Ctx, v: Seq<Item>, w: Seq<Item>|
            claim.ok() && poseidon2::is_state(s) && evaluations_ok(e) && e.len() == n && c.live()
                ==> #[trigger] vm::run(
                r.code(),
                vm::at(c, ext4::put(v, claim) + vm::nums(s), rounds_alt(w, e, 0)),
            ) == Some(
                vm::at(
                    c,
                    ext4::put(
                        ext4::puts(v, chain_challenges(s, e, n as nat)),
                        chain_claim(claim, s, e, n as nat),
                    ) + vm::nums(chain_state(s, e, n as nat)),
                    w,
                ),
            ),
{
    proof {
        assert forall|
            claim: Ext,
            s: Seq<int>,
            e: Seq<Evaluations>,
            c: Ctx,
            v: Seq<Item>,
            w: Seq<Item>,
        |
            claim.ok() && poseidon2::is_state(s) && evaluations_ok(e) && e.len() == n
                && c.live() implies #[trigger] vm::run(
            sumcheck_rounds_fs_keep_code(n as nat),
            vm::at(c, ext4::put(v, claim) + vm::nums(s), rounds_alt(w, e, 0)),
        ) == Some(
            vm::at(
                c,
                ext4::put(
                    ext4::puts(v, chain_challenges(s, e, n as nat)),
                    chain_claim(claim, s, e, n as nat),
                ) + vm::nums(chain_state(s, e, n as nat)),
                w,
            ),
        ) by {
            lemma_sumcheck_rounds_fs_keep(c, v, w, claim, s, e);
        }
        reveal(sumcheck_rounds_fs_keep_code);
    }
    let mut r = Script::new();
    if n > 0 {
        let round = ext4::from_altstack().then_script(ext4::from_altstack()).then_script(
            bind_round(),
        ).then_script(ext4::copy(3)).then_script(sumcheck_round()).then_script(
            vm::rotate(sponge::WIDTH, 2 * ext4::D + sponge::WIDTH - 1),
        );
        let mut i: usize = 0;
        while i < n
            invariant
                i <= n,
                round.code() == kept_round_codes()(0),
                r.code() == vm::flat(i as nat, kept_round_codes()),
            decreases n - i,
        {
            r = r.with(&round);
            i = i + 1;
        }
    }
    r
}

// ---------------------------------------------------------------------------
// Rounds with supplied challenges
// ---------------------------------------------------------------------------

/// The claim after `k` rounds with the given challenges.
pub open spec fn supplied_claim(claim: Ext, e: Seq<Evaluations>, r: Seq<Ext>, k: nat) -> Ext
    decreases k,
{
    if k == 0 {
        claim
    } else {
        algebra::next_claim(
            supplied_claim(claim, e, r, (k - 1) as nat),
            e[k - 1].c0,
            e[k - 1].c_inf,
            r[k - 1],
        )
    }
}

/// The altstack with the evaluations and challenges of rounds `k` and up.
pub open spec fn supplied_alt(w: Seq<Item>, e: Seq<Evaluations>, r: Seq<Ext>, k: nat) -> Seq<Item>
    decreases e.len() - k,
{
    if k >= e.len() {
        w
    } else {
        ext4::park(
            ext4::park(
                ext4::park(supplied_alt(w, e, r, k + 1), r[k as int]),
                e[k as int].c_inf,
            ),
            e[k as int].c0,
        )
    }
}

/// The code of each round with its challenge supplied.
pub open spec fn supplied_round_codes() -> spec_fn(int) -> Seq<Instr> {
    |i: int|
        ext4::from_altstack_code() + ext4::from_altstack_code() + ext4::from_altstack_code()
            + sumcheck_round_code()
}

/// The code of [`sumcheck_rounds`].
#[verifier::opaque]
pub open spec fn sumcheck_rounds_code(n: nat) -> Seq<Instr> {
    vm::flat(n, supplied_round_codes())
}

proof fn lemma_supplied_ok(claim: Ext, e: Seq<Evaluations>, r: Seq<Ext>, k: nat)
    requires
        claim.ok(),
    ensures
        supplied_claim(claim, e, r, k).ok(),
{
    broadcast use ext::group_ok;

}

/// What [`sumcheck_rounds`] does.
pub proof fn lemma_sumcheck_rounds(
    c: Ctx,
    v: Seq<Item>,
    w: Seq<Item>,
    claim: Ext,
    e: Seq<Evaluations>,
    r: Seq<Ext>,
)
    requires
        c.live(),
        claim.ok(),
        evaluations_ok(e),
        ext::all_ok(r),
        r.len() == e.len(),
    ensures
        vm::run(
            sumcheck_rounds_code(e.len()),
            vm::at(c, ext4::put(v, claim), supplied_alt(w, e, r, 0)),
        ) == Some(vm::at(c, ext4::put(v, supplied_claim(claim, e, r, e.len())), w)),
{
    reveal(sumcheck_rounds_code);
    let f = supplied_round_codes();
    let st = |k: int|
        vm::at(
            c,
            ext4::put(v, supplied_claim(claim, e, r, k as nat)),
            supplied_alt(w, e, r, k as nat),
        );
    assert forall|k: int| 0 <= k < e.len() implies #[trigger] vm::run(f(k), st(k)) == Some(
        st(k + 1),
    ) by {
        lemma_supplied_ok(claim, e, r, k as nat);
        assert(e[k].ok() && r[k].ok());
        let cl = supplied_claim(claim, e, r, k as nat);
        let base = ext4::put(v, cl);
        let w1 = supplied_alt(w, e, r, (k + 1) as nat);
        let w2 = ext4::park(w1, r[k]);
        ext4::lemma_from_altstack(c, base, ext4::park(w2, e[k].c_inf), e[k].c0);
        ext4::lemma_from_altstack(c, ext4::put(base, e[k].c0), w2, e[k].c_inf);
        ext4::lemma_from_altstack(c, ext4::put(ext4::put(base, e[k].c0), e[k].c_inf), w1, r[k]);
        lemma_sumcheck_round(c, v, w1, cl, e[k].c0, e[k].c_inf, r[k]);
        broadcast use vm::lemma_run_concat;

    }
    vm::lemma_run_flat(e.len(), f, st);
}

/// `n` rounds, each taking its `c0 c_inf r` from the altstack.
///
/// The claim is not known until the previous round finishes, so the proof data
/// cannot be laid out on the main stack in advance; it is fed from the altstack
/// instead. Push order: rounds in reverse, and within a round `r`, `c_inf`,
/// then `c0`.
pub fn sumcheck_rounds(n: usize) -> (r: Script)
    ensures
        r.code() == sumcheck_rounds_code(n as nat),
        forall|claim: Ext, e: Seq<Evaluations>, x: Seq<Ext>, c: Ctx, v: Seq<Item>, w: Seq<Item>|
            claim.ok() && evaluations_ok(e) && ext::all_ok(x) && e.len() == n && x.len() == n
                && c.live() ==> #[trigger] vm::run(
                r.code(),
                vm::at(c, ext4::put(v, claim), supplied_alt(w, e, x, 0)),
            ) == Some(vm::at(c, ext4::put(v, supplied_claim(claim, e, x, n as nat)), w)),
{
    proof {
        assert forall|
            claim: Ext,
            e: Seq<Evaluations>,
            x: Seq<Ext>,
            c: Ctx,
            v: Seq<Item>,
            w: Seq<Item>,
        |
            claim.ok() && evaluations_ok(e) && ext::all_ok(x) && e.len() == n && x.len() == n
                && c.live() implies #[trigger] vm::run(
            sumcheck_rounds_code(n as nat),
            vm::at(c, ext4::put(v, claim), supplied_alt(w, e, x, 0)),
        ) == Some(vm::at(c, ext4::put(v, supplied_claim(claim, e, x, n as nat)), w)) by {
            lemma_sumcheck_rounds(c, v, w, claim, e, x);
        }
        reveal(sumcheck_rounds_code);
    }
    let round = ext4::from_altstack().then_script(ext4::from_altstack()).then_script(
        ext4::from_altstack(),
    ).then_script(sumcheck_round());
    let mut r = Script::new();
    let mut i: usize = 0;
    while i < n
        invariant
            i <= n,
            round.code() == supplied_round_codes()(0),
            r.code() == vm::flat(i as nat, supplied_round_codes()),
        decreases n - i,
    {
        r = r.with(&round);
        i = i + 1;
    }
    r
}

} // verus!
