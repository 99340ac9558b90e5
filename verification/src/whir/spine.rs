//! How many permutations the spine of the verifier holds.
//!
//! Nearly all of a script's weight is permutations, so their number is what a
//! schedule costs. Here it is read off the code that
//! [`crate::whir::protocol::verify`] emits: that code is permutations, with gaps
//! between them that are each shorter than one.

use crate::bytes;
use crate::ext4;
use crate::merkle;
use crate::permutation;
use crate::poseidon2;
use crate::script::{self, Instr, Opcode};
use crate::vm;
use crate::whir::protocol::{self, Config, Round};
use crate::whir::{challenger, sponge, sumcheck};
use vstd::arithmetic::power2::*;
use vstd::prelude::*;

verus! {

// ---------------------------------------------------------------------------
// Permutations and gaps
// ---------------------------------------------------------------------------

/// The gaps with a permutation between every two of them.
pub open spec fn woven(gaps: Seq<Seq<Instr>>) -> Seq<Instr>
    decreases gaps.len(),
{
    if gaps.len() == 0 {
        Seq::empty()
    } else if gaps.len() == 1 {
        gaps[0]
    } else {
        woven(gaps.drop_last()) + permutation::permute_code() + gaps.last()
    }
}

/// Whether code is `n` permutations with gaps before, between and behind them, no
/// gap being long enough to hold another permutation.
pub open spec fn holds_permutations(p: Seq<Instr>, n: nat) -> bool {
    exists|gaps: Seq<Seq<Instr>>|
        #![trigger woven(gaps)]
        p == woven(gaps) && gaps.len() == n + 1 && forall|i: int|
            0 <= i < gaps.len() ==> script::size(#[trigger] gaps[i]) < script::size(
                permutation::permute_code(),
            )
}

/// Two weavings one after the other: the gaps that meet become one.
spec fn joined(g: Seq<Seq<Instr>>, h: Seq<Seq<Instr>>) -> Seq<Seq<Instr>> {
    g.drop_last().push(g.last() + h.first()) + h.skip(1)
}

proof fn lemma_joined(g: Seq<Seq<Instr>>, h: Seq<Seq<Instr>>)
    requires
        g.len() > 0,
        h.len() > 0,
    ensures
        woven(joined(g, h)) == woven(g) + woven(h),
    decreases h.len(),
{
    let j = joined(g, h);
    let p = permutation::permute_code();
    if h.len() == 1 {
        assert(j =~= g.drop_last().push(g.last() + h[0]));
        assert(j.drop_last() =~= g.drop_last());
        if g.len() > 1 {
            let a = woven(g.drop_last()) + p;
            assert(a + (g.last() + h[0]) =~= (a + g.last()) + h[0]);
        }
    } else {
        let t = h.drop_last();
        lemma_joined(g, t);
        assert(j.drop_last() =~= joined(g, t));
        assert(j.last() == h.last());
        assert(woven(g) + woven(t) + p + h.last() =~= woven(g) + (woven(t) + p + h.last()));
    }
}

/// Gaps as the pieces of the spine have them: little before the first permutation,
/// the arithmetic of a round at most behind the last, and nothing where there is no
/// permutation.
spec fn tame(gaps: Seq<Seq<Instr>>) -> bool {
    &&& gaps.len() > 0
    &&& gaps.len() == 1 ==> gaps[0].len() == 0
    &&& script::size(gaps.first()) <= 700
    &&& script::size(gaps.last()) <= 100_000
    &&& forall|i: int|
        0 <= i < gaps.len() ==> script::size(#[trigger] gaps[i]) < script::size(
            permutation::permute_code(),
        )
}

/// Whether code is a piece of the spine with `n` permutations.
spec fn piece(p: Seq<Instr>, n: nat) -> bool {
    exists|gaps: Seq<Seq<Instr>>| #[trigger] woven(gaps) == p && gaps.len() == n + 1 && tame(gaps)
}

proof fn lemma_piece_nil()
    ensures
        piece(Seq::empty(), 0),
{
    let gaps = seq![Seq::<Instr>::empty()];
    bytes::permutation_size();
    assert(script::size(Seq::<Instr>::empty()) == 0);
    assert(woven(gaps) == Seq::<Instr>::empty());
    assert(tame(gaps));
}

proof fn lemma_piece_one(a: Seq<Instr>, b: Seq<Instr>)
    requires
        script::size(a) <= 700,
        script::size(b) <= 100_000,
    ensures
        piece(a + permutation::permute_code() + b, 1),
{
    let gaps = seq![a, b];
    bytes::permutation_size();
    assert(gaps.drop_last() =~= seq![a]);
    assert(woven(gaps.drop_last()) == a);
    assert(woven(gaps) == a + permutation::permute_code() + b);
    assert(tame(gaps));
}

proof fn lemma_piece_concat(p: Seq<Instr>, n: nat, q: Seq<Instr>, m: nat)
    requires
        piece(p, n),
        piece(q, m),
    ensures
        piece(p + q, n + m),
{
    let g = choose|g: Seq<Seq<Instr>>| #[trigger] woven(g) == p && g.len() == n + 1 && tame(g);
    let h = choose|h: Seq<Seq<Instr>>| #[trigger] woven(h) == q && h.len() == m + 1 && tame(h);
    if n == 0 {
        assert(p + q =~= q);
    } else if m == 0 {
        assert(p + q =~= p);
    } else {
        let j = joined(g, h);
        lemma_joined(g, h);
        bytes::permutation_size();
        bytes::lemma_concat(g.last(), h.first());
        assert(j.len() == n + m + 1);
        assert forall|i: int| 0 <= i < j.len() implies script::size(#[trigger] j[i])
            < script::size(permutation::permute_code()) by {
            if i < n {
                assert(j[i] == g[i]);
            } else if i > n {
                assert(j[i] == h[i - n]);
            }
        }
        assert(j.first() == g.first());
        assert(j.last() == h.last());
        assert(tame(j));
    }
}

proof fn lemma_piece_flat(k: nat, f: spec_fn(int) -> Seq<Instr>)
    requires
        forall|i: int| 0 <= i < k ==> piece(#[trigger] f(i), 1),
    ensures
        piece(vm::flat(k, f), k),
    decreases k,
{
    if k == 0 {
        lemma_piece_nil();
    } else {
        let j = (k - 1) as nat;
        lemma_piece_flat(j, f);
        lemma_piece_concat(vm::flat(j, f), j, f(k - 1), 1);
    }
}

/// What lies around a middle part, regrouped.
proof fn lemma_around(x: Seq<Instr>, a: Seq<Instr>, p: Seq<Instr>, b: Seq<Instr>, y: Seq<Instr>)
    ensures
        x + (a + p + b) + y == (x + a) + p + (b + y),
{
    assert(x + (a + p + b) + y =~= (x + a) + p + (b + y));
}

// ---------------------------------------------------------------------------
// The pieces
// ---------------------------------------------------------------------------

/// What absorbing emits before its permutation.
spec fn refill_code(k: int) -> Seq<Instr> {
    vm::flat(16, sponge::slot_codes(k)) + vm::ops(16, Opcode::ToAltStack) + vm::ops(
        ((16 + k) / 2) as nat,
        Opcode::Drop2,
    ) + vm::ops(((16 + k) % 2) as nat, Opcode::Drop) + vm::ops(16, Opcode::FromAltStack)
}

proof fn lemma_refill(k: int)
    requires
        0 <= k <= 8,
    ensures
        script::size(refill_code(k)) <= 420,
        sponge::absorb_code(k) == refill_code(k) + permutation::permute_code(),
{
    broadcast use bytes::group_size;
    broadcast use bytes::lemma_ops;

    reveal(sponge::absorb_code);
    bytes::lemma_linear();
    let f = sponge::slot_codes(k);
    assert forall|i: int| 0 <= i < 16 implies script::size(#[trigger] f(i)) <= 22 by {
        reveal(sponge::slot_code);
    }
    bytes::lemma_flat_at_most(16, f, 22);
}

proof fn lemma_absorb_n(n: nat)
    ensures
        piece(protocol::absorb_n_code(n), poseidon2::chunk_count(n)),
{
    reveal(protocol::absorb_n_code);
    let f = protocol::block_codes(n as int);
    assert forall|t: int| 0 <= t < poseidon2::chunk_count(n) implies piece(#[trigger] f(t), 1) by {
        let k = merkle::chunk_len(n as int, t);
        let a = vm::ops(k as nat, Opcode::FromAltStack);
        let p = permutation::permute_code();
        let none = Seq::<Instr>::empty();
        lemma_refill(k);
        bytes::lemma_ops(k as nat, Opcode::FromAltStack);
        bytes::lemma_concat(a, refill_code(k));
        assert(script::size(none) == 0);
        lemma_piece_one(a + refill_code(k), none);
        assert(f(t) =~= (a + refill_code(k)) + p + none);
    }
    lemma_piece_flat(poseidon2::chunk_count(n), f);
}

/// The arithmetic of a sumcheck round takes 95,100 bytes.
pub proof fn sumcheck_round_size()
    ensures
        script::size(sumcheck::sumcheck_round_code()) == 95_100,
{
    broadcast use bytes::group_size;
    broadcast use bytes::lemma_ops;

    reveal(sumcheck::first_term_code);
    reveal(sumcheck::second_term_code);
    reveal(sumcheck::third_term_code);
    reveal(sumcheck::sumcheck_round_code);
    bytes::lemma_ext_linear();
    bytes::extension_product_size();
    bytes::lemma_ext_moves(2);
    bytes::lemma_ext_moves(4);
}

/// Lifting a block.
proof fn lemma_rotate(n: nat, d: int)
    requires
        0 <= d < 0x80,
    ensures
        script::size(vm::rotate_code(n, d)) <= 3 * n,
{
    broadcast use bytes::group_size;

    reveal(vm::rotate_code);
    let f = vm::rotate_codes(d);
    assert forall|i: int| 0 <= i < n implies script::size(#[trigger] f(i)) <= 3 by {}
    bytes::lemma_flat_at_most(n, f, 3);
    assert(n * 3 == 3 * n);
}

/// A transcript-bound round is one permutation.
proof fn lemma_kept_round(i: int)
    ensures
        piece(sumcheck::kept_round_codes()(i), 1),
{
    broadcast use bytes::group_size;
    broadcast use bytes::lemma_ops;

    reveal(sumcheck::bind_round_code);
    reveal(challenger::sample_ef_code);
    let fetch = ext4::from_altstack_code();
    let p = permutation::permute_code();
    let before = ext4::copy_code(0) + ext4::to_altstack_code() + ext4::copy_code(1)
        + ext4::to_altstack_code();
    let after = challenger::sample_ef_code(0) + vm::rotate_code(4, 23) + fetch + fetch;
    let rest = ext4::copy_code(3) + sumcheck::sumcheck_round_code() + vm::rotate_code(16, 23);
    let x = fetch + fetch;
    let a = before + refill_code(8);
    lemma_refill(8);
    bytes::lemma_ext_moves(0);
    bytes::lemma_ext_moves(1);
    bytes::lemma_ext_moves(3);
    lemma_rotate(4, 23);
    lemma_rotate(16, 23);
    sumcheck_round_size();
    let f = challenger::sample_ef_codes(0);
    assert forall|t: int| 0 <= t < 4 implies script::size(#[trigger] f(t)) <= 3 by {}
    bytes::lemma_flat_at_most(4, f, 3);
    assert(sumcheck::bind_round_code() =~= a + p + after);
    lemma_around(x, a, p, after, rest);
    assert(sumcheck::kept_round_codes()(i) =~= x + sumcheck::bind_round_code() + rest);
    lemma_piece_one(x + a, after + rest);
}

proof fn lemma_kept_rounds(n: nat)
    ensures
        piece(sumcheck::sumcheck_rounds_fs_keep_code(n), n),
{
    reveal(sumcheck::sumcheck_rounds_fs_keep_code);
    let f = sumcheck::kept_round_codes();
    assert forall|i: int| 0 <= i < n implies piece(#[trigger] f(i), 1) by {
        lemma_kept_round(i);
    }
    lemma_piece_flat(n, f);
}

// ---------------------------------------------------------------------------
// The spine
// ---------------------------------------------------------------------------

/// The permutations of one folding round: one for the commitment, one for each
/// answer, and one for each sumcheck round.
pub open spec fn round_permutations(r: Round) -> nat {
    1 + r.ood_samples as nat + r.folding_factor as nat
}

/// The permutations of folding rounds.
pub open spec fn rounds_permutations(rs: Seq<Round>) -> nat
    decreases rs.len(),
{
    if rs.len() == 0 {
        0
    } else {
        rounds_permutations(rs.drop_last()) + round_permutations(rs.last())
    }
}

/// The permutations of the spine: one for each sumcheck round, those of the folding
/// rounds, and one for every eight elements of the final polynomial, which has four
/// to a coefficient.
pub open spec fn spine_permutations(cfg: Config) -> nat {
    cfg.initial_folding_factor as nat + rounds_permutations(cfg.rounds@) + poseidon2::chunk_count(
        4 * pow2(cfg.final_poly_vars as nat),
    ) + cfg.final_sumcheck_rounds as nat
}

proof fn lemma_fold_round(r: Round)
    ensures
        piece(protocol::fold_round_code(r), round_permutations(r)),
{
    reveal(protocol::fold_round_code);
    let f = protocol::answer_codes();
    let k = r.ood_samples as nat;
    let a = protocol::absorb_n_code(8);
    lemma_absorb_n(8);
    assert forall|i: int| 0 <= i < k implies piece(#[trigger] f(i), 1) by {
        lemma_absorb_n(4);
    }
    lemma_piece_flat(k, f);
    lemma_piece_concat(a, 1, vm::flat(k, f), k);
    lemma_kept_rounds(r.folding_factor as nat);
    lemma_piece_concat(
        a + vm::flat(k, f),
        1 + k,
        sumcheck::sumcheck_rounds_fs_keep_code(r.folding_factor as nat),
        r.folding_factor as nat,
    );
}

proof fn lemma_fold_rounds(rs: Seq<Round>)
    ensures
        piece(protocol::fold_rounds_code(rs), rounds_permutations(rs)),
    decreases rs.len(),
{
    if rs.len() == 0 {
        lemma_piece_nil();
    } else {
        lemma_fold_rounds(rs.drop_last());
        lemma_fold_round(rs.last());
        lemma_piece_concat(
            protocol::fold_rounds_code(rs.drop_last()),
            rounds_permutations(rs.drop_last()),
            protocol::fold_round_code(rs.last()),
            round_permutations(rs.last()),
        );
    }
}

/// A weaving weighs at least its permutations.
proof fn lemma_woven_size(gaps: Seq<Seq<Instr>>)
    requires
        gaps.len() > 0,
    ensures
        script::size(woven(gaps)) >= (gaps.len() - 1) * script::size(permutation::permute_code()),
    decreases gaps.len(),
{
    let p = permutation::permute_code();
    if gaps.len() == 1 {
        assert(0 * script::size(p) == 0);
    } else {
        let front = gaps.drop_last();
        lemma_woven_size(front);
        bytes::lemma_concat(woven(front), p);
        bytes::lemma_concat(woven(front) + p, gaps.last());
        let (n, m, z) = (gaps.len() - 1, front.len() - 1, script::size(p));
        assert(n * z == m * z + z) by (nonlinear_arith)
            requires
                n == m + 1,
        ;
    }
}

/// The spine of a schedule is that many permutations, in gaps too short for
/// another one, and weighs at least as much as they do.
pub proof fn the_spine_holds_its_permutations(cfg: Config)
    ensures
        holds_permutations(protocol::verify_code(cfg), spine_permutations(cfg)),
        script::size(protocol::verify_code(cfg)) >= spine_permutations(cfg) * script::size(
            permutation::permute_code(),
        ),
{
    reveal(protocol::verify_code);
    let n0 = cfg.initial_folding_factor as nat;
    let n1 = rounds_permutations(cfg.rounds@);
    let v = 4 * pow2(cfg.final_poly_vars as nat);
    let n2 = poseidon2::chunk_count(v);
    let n3 = cfg.final_sumcheck_rounds as nat;
    let a = sumcheck::sumcheck_rounds_fs_keep_code(n0);
    let b = a + protocol::fold_rounds_code(cfg.rounds@);
    let c = b + protocol::absorb_n_code(v);
    lemma_kept_rounds(n0);
    lemma_fold_rounds(cfg.rounds@);
    lemma_absorb_n(v);
    lemma_kept_rounds(n3);
    lemma_piece_concat(a, n0, protocol::fold_rounds_code(cfg.rounds@), n1);
    lemma_piece_concat(b, n0 + n1, protocol::absorb_n_code(v), n2);
    lemma_piece_concat(c, n0 + n1 + n2, sumcheck::sumcheck_rounds_fs_keep_code(n3), n3);
    let p = protocol::verify_code(cfg);
    let n = spine_permutations(cfg);
    assert(piece(p, n));
    let gaps = choose|g: Seq<Seq<Instr>>| #[trigger] woven(g) == p && g.len() == n + 1 && tame(g);
    assert(p == woven(gaps));
    lemma_woven_size(gaps);
}

// ---------------------------------------------------------------------------
// Query openings
// ---------------------------------------------------------------------------

proof fn lemma_level()
    ensures
        piece(merkle::merkle_step_from_altstack_code(), 1),
{
    broadcast use bytes::group_size;
    broadcast use bytes::lemma_ops;

    reveal(merkle::merkle_step_from_altstack_code);
    reveal(merkle::ordered_compress_code);
    reveal(permutation::compress_code);
    let fetch = vm::nil().push(vm::o(Opcode::FromAltStack));
    let order = vm::notif_code(merkle::swap_digests_code());
    let keep = vm::ops(4, Opcode::Drop2);
    let p = permutation::permute_code();
    lemma_rotate(8, 15);
    lemma_piece_one(fetch + order, keep);
    assert(fetch + (order + (p + keep)) =~= (fetch + order) + p + keep);
}

/// Comparing a computed root with the expected one.
proof fn lemma_compare_root()
    ensures
        script::size(vm::require_equal_code(8)) <= 24,
{
    broadcast use bytes::group_size;

    reveal(vm::require_equal_code);
    let f = vm::require_equal_codes(8);
    assert forall|i: int| 0 <= i < 8 implies script::size(#[trigger] f(i)) <= 3 by {}
    bytes::lemma_flat_at_most(8, f, 3);
}

/// Walking a path of a query opening is one permutation a level, in gaps too short
/// for another one.
pub proof fn a_path_holds_one_permutation_a_level(depth: nat)
    ensures
        holds_permutations(merkle::merkle_verify_from_altstack_code(depth), depth),
{
    reveal(merkle::merkle_verify_from_altstack_code);
    let f = merkle::merkle_step_from_altstack_codes();
    let q = vm::require_equal_code(8);
    assert forall|i: int| 0 <= i < depth implies piece(#[trigger] f(i), 1) by {
        lemma_level();
    }
    lemma_piece_flat(depth, f);
    lemma_compare_root();
    bytes::permutation_size();
    let p = vm::flat(depth, f);
    let g = choose|g: Seq<Seq<Instr>>| #[trigger] woven(g) == p && g.len() == depth + 1 && tame(g);
    let h = seq![q];
    let j = joined(g, h);
    lemma_joined(g, h);
    bytes::lemma_concat(g.last(), q);
    assert(woven(h) == q);
    assert forall|i: int| 0 <= i < j.len() implies script::size(#[trigger] j[i]) < script::size(
        permutation::permute_code(),
    ) by {
        if i < depth {
            assert(j[i] == g[i]);
        }
    }
    assert(woven(j) == p + q);
}

} // verus!
