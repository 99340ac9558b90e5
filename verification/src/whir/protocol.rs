//! The WHIR verifier, composed.
//!
//! ```text
//! initial sumcheck rounds                     (folding factor of round 0)
//! for each round:
//!     absorb the round commitment and the out-of-domain answers
//!     sample query indices, open Merkle paths, fold each answer
//!     sample the constraint challenge, combine
//!     sumcheck rounds                         (folding factor of round i+1)
//! observe the final polynomial in the clear
//! open the final round's queries
//! final sumcheck rounds
//! check  claimed_eval == weights * f(final_randomness)
//! ```
//!
//! What this module adds to the primitives is the schedule: how the transcript
//! runs through them, and how many permutations a given [`Config`] costs, which
//! is the number that decides whether a WHIR verifier fits on Bitcoin.

use crate::arith;
use crate::ext::{self, Ext};
use crate::ext4;
use crate::field;
use crate::merkle;
use crate::poseidon2;
use crate::quartic;
use crate::script::{Instr, Opcode, Script};
use crate::vm::{self, Ctx, Item};
use crate::whir::sponge::RATE;
use crate::whir::sumcheck::{self, Evaluations};
use crate::whir::{challenger, sponge};
use vstd::arithmetic::power2::*;
use vstd::prelude::*;

verus! {

/// One round of the WHIR schedule.
#[derive(Clone, Debug)]
pub struct Round {
    /// Sumcheck rounds this round runs, i.e. the next folding factor.
    pub folding_factor: usize,
    /// In-domain queries opened against the previous commitment.
    pub num_queries: usize,
    /// Merkle depth of the codeword being opened.
    pub log_domain_size: usize,
    /// Out-of-domain samples absorbed with the commitment.
    pub ood_samples: usize,
}

/// A WHIR instance.
#[derive(Clone, Debug)]
pub struct Config {
    /// Sumcheck rounds before the first folding round.
    pub initial_folding_factor: usize,
    /// The folding rounds.
    pub rounds: Vec<Round>,
    /// The final round's queries.
    pub final_round: Round,
    /// Sumcheck rounds after the last folding round.
    pub final_sumcheck_rounds: usize,
    /// Variables of the final polynomial sent in the clear.
    pub final_poly_vars: usize,
}

// ---------------------------------------------------------------------------
// Absorbing
// ---------------------------------------------------------------------------

/// The code that fetches and absorbs each block of `n` elements.
pub open spec fn block_codes(n: int) -> spec_fn(int) -> Seq<Instr> {
    |t: int|
        vm::ops(merkle::chunk_len(n, t) as nat, Opcode::FromAltStack) + sponge::absorb_code(
            merkle::chunk_len(n, t),
        )
}

/// The code that absorbs `n` elements from the altstack.
#[verifier::opaque]
pub open spec fn absorb_n_code(n: nat) -> Seq<Instr> {
    vm::flat(poseidon2::chunk_count(n), block_codes(n as int))
}

proof fn lemma_absorb_n(c: Ctx, v: Seq<Item>, w: Seq<Item>, s: Seq<int>, x: Seq<int>)
    requires
        c.live(),
        poseidon2::is_state(s),
        arith::felts(x),
    ensures
        vm::run(
            absorb_n_code(x.len()),
            vm::at(c, v + vm::nums(s), w + vm::nums(x).reverse()),
        ) == Some(vm::at(c, v + vm::nums(poseidon2::absorb_all(s, x)), w)),
        poseidon2::is_state(poseidon2::absorb_all(s, x)),
{
    reveal(absorb_n_code);
    let n = x.len() as int;
    let m = poseidon2::chunk_count(x.len());
    let left = |t: int|
        x.skip(
            if 8 * t <= n {
                8 * t
            } else {
                n
            },
        );
    let st = |t: int|
        vm::at(
            c,
            v + vm::nums(poseidon2::transcript(s, x, t as nat)),
            w + vm::nums(left(t)).reverse(),
        );
    let f = block_codes(n);
    assert forall|t: int| 0 <= t < m implies #[trigger] vm::run(f(t), st(t)) == Some(st(t + 1)) by {
        let now = poseidon2::transcript(s, x, t as nat);
        let y = poseidon2::chunk(x, t);
        poseidon2::lemma_transcript_is_state(s, x, t as nat);
        poseidon2::lemma_chunk(x, t);
        assert(y.len() == merkle::chunk_len(n, t));
        let w1 = w + vm::nums(left(t + 1)).reverse();
        assert(w + vm::nums(left(t)).reverse() =~= w1 + vm::nums(y).reverse());
        vm::lemma_from_alt(c, v + vm::nums(now), vm::nums(y), w1);
        sponge::lemma_absorb(c, v, w1, now, y);
        vm::lemma_run_concat(
            vm::ops(y.len(), Opcode::FromAltStack),
            sponge::absorb_code(y.len() as int),
            st(t),
        );
    }
    vm::lemma_run_flat(m, f, st);
    assert(left(0) =~= x);
    assert(w + vm::nums(left(m as int)).reverse() =~= w);
    poseidon2::lemma_transcript_is_state(s, x, m);
}

/// Absorb `n` field elements taken from the altstack, splitting across
/// rate-sized blocks as the duplex does. Each block is one permutation.
///
/// The values come from the altstack because a script's witness is its initial
/// stack: everything the spender supplies is present from the first opcode, and
/// only the altstack lets the verifier consume it in transcript order without
/// burying the sponge state.
///
/// No trailing squeeze: absorbing already permutes.
fn absorb_n_from_altstack(n: usize) -> (r: Script)
    ensures
        r.code() == absorb_n_code(n as nat),
{
    proof {
        reveal(absorb_n_code);
    }
    let mut r = Script::new();
    let mut left: usize = n;
    let ghost mut t: nat = 0;
    while left > 0
        invariant
            left == (if n - 8 * t >= 0 {
                n - 8 * t
            } else {
                0
            }),
            t <= poseidon2::chunk_count(n as nat),
            r.code() == vm::flat(t, block_codes(n as int)),
        decreases left,
    {
        let len: usize = if left < RATE {
            left
        } else {
            RATE
        };
        assert(len == merkle::chunk_len(n as int, t as int));
        r = r.then_script(vm::repeat(len, Opcode::FromAltStack).then_script(sponge::absorb(len)));
        left = left - len;
        proof {
            t = t + 1;
        }
    }
    assert(t == poseidon2::chunk_count(n as nat));
    r
}

// ---------------------------------------------------------------------------
// Queries
// ---------------------------------------------------------------------------

/// The directions of the path to the leaf at an index, from the leaf up: the
/// low bits of the index, least significant first.
pub open spec fn directions(index: int, depth: nat) -> Seq<bool> {
    Seq::new(depth, |i: int| field::bit(index, i as nat) == 1)
}

/// The code of [`open_query`].
#[verifier::opaque]
pub open spec fn open_query_code(slot: int, depth: nat, row_len: int) -> Seq<Instr> {
    challenger::sample_at_code(slot, 8 + 8 * depth + row_len) + field::low_bits_to_altstack_code(
        depth,
    ) + merkle::hash_row_code(row_len) + merkle::merkle_verify_from_altstack_code(depth)
}

/// How much room siblings take.
proof fn lemma_sibling_items_len(siblings: Seq<Seq<int>>, k: nat)
    requires
        merkle::is_path(siblings),
        k <= siblings.len(),
    ensures
        merkle::sibling_items(siblings, k).len() == 8 * (siblings.len() - k),
    decreases siblings.len() - k,
{
    if k < siblings.len() {
        lemma_sibling_items_len(siblings, k + 1);
        assert(poseidon2::is_digest(siblings[k as int]));
    }
}

/// What [`open_query`] does.
pub proof fn lemma_open_query(
    c: Ctx,
    v: Seq<Item>,
    w: Seq<Item>,
    s: Seq<int>,
    slot: int,
    root: Seq<Item>,
    siblings: Seq<Seq<int>>,
    row: Seq<int>,
)
    requires
        c.live(),
        poseidon2::is_state(s),
        0 <= slot < 8,
        root.len() == 8,
        merkle::is_path(siblings),
        siblings.len() <= 31,
        arith::felts(row),
        23 + 8 * siblings.len() + row.len() < 0x80000000,
    ensures
        vm::run(
            open_query_code(slot, siblings.len(), row.len() as int),
            vm::at(
                c,
                v + vm::nums(s) + root + merkle::sibling_items(siblings, 0) + vm::nums(row),
                w,
            ),
        ) == (if root == vm::nums(
            merkle::path_root(
                poseidon2::row_digest(row),
                siblings,
                directions(s[slot], siblings.len()),
            ),
        ) {
            Some(vm::at(c, v + vm::nums(s), w))
        } else {
            None
        }),
{
    reveal(open_query_code);
    let d = siblings.len();
    let base = v + vm::nums(s);
    let sib = merkle::sibling_items(siblings, 0);
    let leaf = poseidon2::row_digest(row);
    let right = directions(s[slot], d);
    lemma_sibling_items_len(siblings, 0);
    let opening = root + sib + vm::nums(row);
    let full = base + root + sib + vm::nums(row);
    assert(full =~= base + opening);
    challenger::lemma_sample_at(c, v, w, s, opening, slot);
    assert(arith::felt(s[slot]));
    field::lemma_low_bits_to_altstack(c, full, w, s[slot], d);
    let w1 = w + field::bit_items(s[slot], d);
    assert(field::bit_items(s[slot], d) =~= merkle::direction_items(right)) by {
        assert forall|i: int| 0 <= i < d implies field::bit_items(s[slot], d)[i]
            == #[trigger] merkle::direction_items(right)[i] by {
            field::lemma_bit(s[slot], (d - 1 - i) as nat);
        }
    }
    merkle::lemma_hash_row(c, base + root + sib, w1, row);
    poseidon2::lemma_row_digest_is_digest(row);
    merkle::lemma_merkle_verify_from_altstack(c, base, w, root, leaf, siblings, right);
    broadcast use vm::lemma_run_concat;

}

/// Open one query: derive its index from the transcript, then authenticate the
/// opening against the committed root.
///
/// The query index *is* the path. Sampling it and feeding those bits to the walk
/// is what binds the opening: the spender picks neither which leaf is opened nor
/// where it sits.
///
/// `slot` selects which rate element the index is read from. One squeeze yields
/// `RATE` of them and the caller must re-squeeze once they are spent; see
/// [`queries_per_squeeze`]. Reading is a bare pick that neither permutes nor
/// advances any buffer, so queries reading the same slot open the same leaf.
///
/// The opening is one unit: the **row** goes in, the root is checked, and no
/// leaf digest is taken on trust in between. [`merkle::hash_row`] reproduces the
/// sponge the commitment was built with, so the walk authenticates the values
/// themselves: another canonical row of the same length that opens at the same
/// place collides with it, see [`poseidon2::two_rows_under_one_root_collide`].
///
/// Stack: the sponge state, then the opening pushed as
/// `root(8) siblings(8*depth) row(row_len)`. Consumes the opening and leaves the
/// state, so the caller's layout is preserved. The index bits go on the altstack,
/// and [`merkle::hash_row`] leaves the altstack as it found it, so the walk still
/// finds them. For a canonical row and canonical siblings the spend is invalid
/// unless they lead to the root.
///
/// A path has at most as many levels as an element has bits, and a pick depth is a
/// script number of at most four bytes, which bounds the opening.
pub fn open_query(slot: usize, log_domain_size: usize, row_len: usize) -> (r: Script)
    requires
        slot < RATE,
        log_domain_size <= 31,
        0 < row_len,
        23 + 8 * log_domain_size + row_len < 0x80000000,
    ensures
        r.code() == open_query_code(slot as int, log_domain_size as nat, row_len as int),
        forall|
            s: Seq<int>,
            root: Seq<Item>,
            siblings: Seq<Seq<int>>,
            row: Seq<int>,
            c: Ctx,
            v: Seq<Item>,
            w: Seq<Item>,
        |
            poseidon2::is_state(s) && root.len() == 8 && merkle::is_path(siblings)
                && siblings.len() == log_domain_size && arith::felts(row) && row.len() == row_len
                && c.live() ==> #[trigger] vm::run(
                r.code(),
                vm::at(
                    c,
                    v + vm::nums(s) + root + merkle::sibling_items(siblings, 0) + vm::nums(row),
                    w,
                ),
            ) == (if root == vm::nums(
                merkle::path_root(
                    poseidon2::row_digest(row),
                    siblings,
                    directions(s[slot as int], log_domain_size as nat),
                ),
            ) {
                Some(vm::at(c, v + vm::nums(s), w))
            } else {
                None
            }),
{
    proof {
        assert forall|
            s: Seq<int>,
            root: Seq<Item>,
            siblings: Seq<Seq<int>>,
            row: Seq<int>,
            c: Ctx,
            v: Seq<Item>,
            w: Seq<Item>,
        |
            poseidon2::is_state(s) && root.len() == 8 && merkle::is_path(siblings)
                && siblings.len() == log_domain_size && arith::felts(row) && row.len() == row_len
                && c.live() implies #[trigger] vm::run(
            open_query_code(slot as int, log_domain_size as nat, row_len as int),
            vm::at(
                c,
                v + vm::nums(s) + root + merkle::sibling_items(siblings, 0) + vm::nums(row),
                w,
            ),
        ) == (if root == vm::nums(
            merkle::path_root(
                poseidon2::row_digest(row),
                siblings,
                directions(s[slot as int], log_domain_size as nat),
            ),
        ) {
            Some(vm::at(c, v + vm::nums(s), w))
        } else {
            None
        }) by {
            lemma_open_query(c, v, w, s, slot as int, root, siblings, row);
        }
        reveal(open_query_code);
    }
    // The opening lies above the state.
    let under: usize = merkle::DIGEST + merkle::DIGEST * log_domain_size + row_len;
    challenger::sample_at(slot, under).then_script(
        field::low_bits_to_altstack(log_domain_size),
    ).then_script(merkle::hash_row(row_len)).then_script(
        merkle::merkle_verify_from_altstack(log_domain_size),
    )
}

/// Query indices available from one squeeze.
///
/// Each index is masked out of a single base element, so the rate yields `RATE`
/// of them before the sponge has to be permuted again.
pub fn queries_per_squeeze() -> (r: usize)
    ensures
        r == RATE,
{
    RATE
}

// ---------------------------------------------------------------------------
// The closing identity
// ---------------------------------------------------------------------------

/// The code of [`final_check`].
#[verifier::opaque]
pub open spec fn final_check_code() -> Seq<Instr> {
    ext4::mul_code() + vm::require_equal_code(4)
}

/// The final consistency check: `claimed_eval == weight * f(r)`, over the
/// extension.
///
/// Input, bottom to top: `claimed_eval(4) weight(4) f_at_r(4)`. Leaves nothing;
/// the spend is invalid unless the identity holds in all four coefficients.
///
/// This is the linear `Z * eq(X, z)` case of WHIR's closing condition
/// `sum_b w(f_M(b), alpha, b) = h_M(alpha)`, which is the shape a multilinear
/// evaluation query takes.
///
/// It has to be an extension-field comparison. Checking one coefficient would
/// leave a base-field equality worth at most `log2(P) ~ 31` bits.
pub fn final_check() -> (r: Script)
    ensures
        r.code() == final_check_code(),
        forall|claimed: Seq<Item>, weight: Ext, f: Ext, c: Ctx, v: Seq<Item>, w: Seq<Item>|
            claimed.len() == 4 && weight.ok() && f.ok() && c.live() ==> #[trigger] vm::run(
                r.code(),
                vm::at(c, ext4::put(ext4::put(v + claimed, weight), f), w),
            ) == (if claimed == vm::nums(ext::emul(weight, f).coeffs()) {
                Some(vm::at(c, v, w))
            } else {
                None
            }),
{
    proof {
        reveal(final_check_code);
        assert forall|claimed: Seq<Item>, weight: Ext, f: Ext, c: Ctx, v: Seq<Item>, w: Seq<Item>|
            claimed.len() == 4 && weight.ok() && f.ok() && c.live() implies #[trigger] vm::run(
            final_check_code(),
            vm::at(c, ext4::put(ext4::put(v + claimed, weight), f), w),
        ) == (if claimed == vm::nums(ext::emul(weight, f).coeffs()) {
            Some(vm::at(c, v, w))
        } else {
            None
        }) by {
            let p = ext::emul(weight, f);
            ext4::lemma_mul(c, v + claimed, w, weight, f);
            ext4::lemma_put_nums(v + claimed, p);
            vm::lemma_require_equal(c, v, w, claimed, vm::nums(p.coeffs()));
            vm::lemma_run_concat(
                ext4::mul_code(),
                vm::require_equal_code(4),
                vm::at(c, ext4::put(ext4::put(v + claimed, weight), f), w),
            );
        }
    }
    crate::ext4::mul().then_script(vm::require_equal(4))
}

/// Neither factor of the closing identity is decorative: where the other one is
/// not zero, no claimed value passes with two of them.
pub proof fn one_factor_closes(claimed: Ext, other: Ext, a: Ext, b: Ext)
    requires
        other.ok(),
        other != ext::ezero(),
        a.ok(),
        b.ok(),
        claimed == ext::emul(a, other) && claimed == ext::emul(b, other) || claimed == ext::emul(
            other,
            a,
        ) && claimed == ext::emul(other, b),
    ensures
        a == b,
{
    ext::emul_commutes(a, other);
    ext::emul_commutes(b, other);
    quartic::extension_cancellation(other, a, b);
}

// ---------------------------------------------------------------------------
// The transcript
// ---------------------------------------------------------------------------

/// What the prover sends for one folding round.
pub struct RoundProof {
    /// The commitment to the folded codeword.
    pub commitment: Seq<int>,
    /// The out-of-domain answers.
    pub answers: Seq<Ext>,
    /// The sumcheck evaluations.
    pub evaluations: Seq<Evaluations>,
}

/// What the prover sends.
pub struct Proof {
    /// The evaluations of the initial sumcheck rounds.
    pub initial: Seq<Evaluations>,
    /// The folding rounds.
    pub rounds: Seq<RoundProof>,
    /// The final polynomial's coefficients, four base elements each.
    pub final_poly: Seq<int>,
    /// The evaluations of the final sumcheck rounds.
    pub last: Seq<Evaluations>,
}

impl RoundProof {
    /// Whether the round is canonical and has the shape of the schedule.
    pub open spec fn fits(self, r: Round) -> bool {
        &&& poseidon2::is_digest(self.commitment)
        &&& ext::all_ok(self.answers)
        &&& self.answers.len() == r.ood_samples
        &&& sumcheck::evaluations_ok(self.evaluations)
        &&& self.evaluations.len() == r.folding_factor
    }
}

impl Proof {
    /// Whether the proof is canonical and has the shape of the schedule.
    pub open spec fn fits(self, cfg: Config) -> bool {
        &&& sumcheck::evaluations_ok(self.initial)
        &&& self.initial.len() == cfg.initial_folding_factor
        &&& self.rounds.len() == cfg.rounds@.len()
        &&& forall|i: int|
            0 <= i < self.rounds.len() ==> (#[trigger] self.rounds[i]).fits(cfg.rounds@[i])
        &&& arith::felts(self.final_poly)
        &&& self.final_poly.len() == 4 * pow2(cfg.final_poly_vars as nat)
        &&& sumcheck::evaluations_ok(self.last)
        &&& self.last.len() == cfg.final_sumcheck_rounds
    }
}

/// What the spine carries from step to step.
pub struct Position {
    /// The folding randomness drawn so far, the first coordinate first.
    pub randomness: Seq<Ext>,
    /// The chained sumcheck claim.
    pub claim: Ext,
    /// The transcript sponge.
    pub state: Seq<int>,
}

impl Position {
    /// Whether all values are canonical.
    pub open spec fn ok(self) -> bool {
        self.claim.ok() && poseidon2::is_state(self.state)
    }

    /// The stack that holds the position above `v`.
    pub open spec fn on(self, v: Seq<Item>) -> Seq<Item> {
        ext4::put(ext4::puts(v, self.randomness), self.claim) + vm::nums(self.state)
    }

    /// The position after absorbing elements.
    pub open spec fn absorb(self, x: Seq<int>) -> Position {
        Position { state: poseidon2::absorb_all(self.state, x), ..self }
    }

    /// The position after sumcheck rounds.
    pub open spec fn fold(self, e: Seq<Evaluations>) -> Position {
        Position {
            randomness: self.randomness + sumcheck::chain_challenges(self.state, e, e.len()),
            claim: sumcheck::chain_claim(self.claim, self.state, e, e.len()),
            state: sumcheck::chain_state(self.state, e, e.len()),
        }
    }

    /// The position after absorbing the first `k` answers.
    pub open spec fn answers(self, a: Seq<Ext>, k: nat) -> Position
        decreases k,
    {
        if k == 0 {
            self
        } else {
            self.answers(a, (k - 1) as nat).absorb(a[k - 1].coeffs())
        }
    }

    /// The position after a folding round: the commitment is absorbed, then each
    /// answer on its own, then the sumcheck runs.
    pub open spec fn round(self, r: RoundProof) -> Position {
        self.absorb(r.commitment).answers(r.answers, r.answers.len()).fold(r.evaluations)
    }

    /// The position after the first `k` folding rounds.
    pub open spec fn rounds(self, rs: Seq<RoundProof>, k: nat) -> Position
        decreases k,
    {
        if k == 0 {
            self
        } else {
            self.rounds(rs, (k - 1) as nat).round(rs[k - 1])
        }
    }

    /// The position at the end of the transcript.
    pub open spec fn end(self, p: Proof) -> Position {
        self.fold(p.initial).rounds(p.rounds, p.rounds.len()).absorb(p.final_poly).fold(p.last)
    }
}

/// An altstack with elements above `w` in the order they are absorbed.
pub open spec fn elements_alt(w: Seq<Item>, x: Seq<int>) -> Seq<Item> {
    w + vm::nums(x).reverse()
}

/// An altstack with the answers from the `k`-th on above `w`.
pub open spec fn answers_alt(w: Seq<Item>, a: Seq<Ext>, k: nat) -> Seq<Item>
    decreases a.len() - k,
{
    if k >= a.len() {
        w
    } else {
        elements_alt(answers_alt(w, a, k + 1), a[k as int].coeffs())
    }
}

/// An altstack with what one folding round consumes above `w`.
pub open spec fn round_alt(w: Seq<Item>, r: RoundProof) -> Seq<Item> {
    elements_alt(
        answers_alt(sumcheck::rounds_alt(w, r.evaluations, 0), r.answers, 0),
        r.commitment,
    )
}

/// An altstack with the folding rounds from the `k`-th on above `w`.
pub open spec fn folding_alt(w: Seq<Item>, rs: Seq<RoundProof>, k: nat) -> Seq<Item>
    decreases rs.len() - k,
{
    if k >= rs.len() {
        w
    } else {
        round_alt(folding_alt(w, rs, k + 1), rs[k as int])
    }
}

/// An altstack with the whole transcript above `w`, in consumption order.
pub open spec fn proof_alt(w: Seq<Item>, p: Proof) -> Seq<Item> {
    sumcheck::rounds_alt(
        folding_alt(
            elements_alt(sumcheck::rounds_alt(w, p.last, 0), p.final_poly),
            p.rounds,
            0,
        ),
        p.initial,
        0,
    )
}

/// Absorbing each answer.
pub open spec fn answer_codes() -> spec_fn(int) -> Seq<Instr> {
    |i: int| absorb_n_code(4)
}

/// The code of one folding round.
#[verifier::opaque]
pub open spec fn fold_round_code(r: Round) -> Seq<Instr> {
    absorb_n_code(8) + vm::flat(r.ood_samples as nat, answer_codes())
        + sumcheck::sumcheck_rounds_fs_keep_code(r.folding_factor as nat)
}

/// The code of folding rounds.
pub open spec fn fold_rounds_code(rs: Seq<Round>) -> Seq<Instr>
    decreases rs.len(),
{
    if rs.len() == 0 {
        vm::nil()
    } else {
        fold_rounds_code(rs.drop_last()) + fold_round_code(rs.last())
    }
}

/// The code of [`verify`].
#[verifier::opaque]
pub open spec fn verify_code(cfg: Config) -> Seq<Instr> {
    sumcheck::sumcheck_rounds_fs_keep_code(cfg.initial_folding_factor as nat)
        + fold_rounds_code(cfg.rounds@) + absorb_n_code(4 * pow2(cfg.final_poly_vars as nat))
        + sumcheck::sumcheck_rounds_fs_keep_code(cfg.final_sumcheck_rounds as nat)
}

/// The absorbing step.
proof fn lemma_absorb_step(c: Ctx, v: Seq<Item>, w: Seq<Item>, p: Position, x: Seq<int>)
    requires
        c.live(),
        p.ok(),
        arith::felts(x),
    ensures
        vm::run(absorb_n_code(x.len()), vm::at(c, p.on(v), elements_alt(w, x))) == Some(
            vm::at(c, p.absorb(x).on(v), w),
        ),
        p.absorb(x).ok(),
{
    lemma_absorb_n(c, ext4::put(ext4::puts(v, p.randomness), p.claim), w, p.state, x);
}

/// The sumcheck step.
proof fn lemma_fold_step(c: Ctx, v: Seq<Item>, w: Seq<Item>, p: Position, e: Seq<Evaluations>)
    requires
        c.live(),
        p.ok(),
        sumcheck::evaluations_ok(e),
    ensures
        vm::run(
            sumcheck::sumcheck_rounds_fs_keep_code(e.len()),
            vm::at(c, p.on(v), sumcheck::rounds_alt(w, e, 0)),
        ) == Some(vm::at(c, p.fold(e).on(v), w)),
        p.fold(e).ok(),
{
    let base = ext4::puts(v, p.randomness);
    sumcheck::lemma_sumcheck_rounds_fs_keep(c, base, w, p.claim, p.state, e);
    sumcheck::lemma_chain_ok(p.claim, p.state, e, e.len());
    ext4::lemma_puts_concat(
        v,
        p.randomness,
        sumcheck::chain_challenges(p.state, e, e.len()),
    );
}

/// Absorbing the answers.
proof fn lemma_answers_step(c: Ctx, v: Seq<Item>, w: Seq<Item>, p: Position, a: Seq<Ext>, k: nat)
    requires
        c.live(),
        p.ok(),
        ext::all_ok(a),
        k <= a.len(),
    ensures
        vm::run(vm::flat(k, answer_codes()), vm::at(c, p.on(v), answers_alt(w, a, 0))) == Some(
            vm::at(c, p.answers(a, k).on(v), answers_alt(w, a, k)),
        ),
        p.answers(a, k).ok(),
    decreases k,
{
    let start = vm::at(c, p.on(v), answers_alt(w, a, 0));
    if k == 0 {
        vm::lemma_run_empty(start);
    } else {
        let j = (k - 1) as nat;
        lemma_answers_step(c, v, w, p, a, j);
        assert(a[j as int].ok());
        let x = a[j as int].coeffs();
        assert(x.len() == 4 && arith::felts(x));
        lemma_absorb_step(c, v, answers_alt(w, a, k), p.answers(a, j), x);
        vm::lemma_run_concat(vm::flat(j, answer_codes()), answer_codes()(j as int), start);
    }
}

/// One folding round.
proof fn lemma_round_step(
    c: Ctx,
    v: Seq<Item>,
    w: Seq<Item>,
    p: Position,
    r: RoundProof,
    shape: Round,
)
    requires
        c.live(),
        p.ok(),
        r.fits(shape),
    ensures
        vm::run(fold_round_code(shape), vm::at(c, p.on(v), round_alt(w, r))) == Some(
            vm::at(c, p.round(r).on(v), w),
        ),
        p.round(r).ok(),
{
    reveal(fold_round_code);
    let w2 = sumcheck::rounds_alt(w, r.evaluations, 0);
    let w1 = answers_alt(w2, r.answers, 0);
    let p1 = p.absorb(r.commitment);
    let p2 = p1.answers(r.answers, r.answers.len());
    lemma_absorb_step(c, v, w1, p, r.commitment);
    lemma_answers_step(c, v, w2, p1, r.answers, r.answers.len());
    lemma_fold_step(c, v, w, p2, r.evaluations);
    broadcast use vm::lemma_run_concat;

}

/// The folding rounds.
proof fn lemma_rounds_step(
    c: Ctx,
    v: Seq<Item>,
    w: Seq<Item>,
    p: Position,
    rs: Seq<RoundProof>,
    shape: Seq<Round>,
    k: nat,
)
    requires
        c.live(),
        p.ok(),
        rs.len() == shape.len(),
        forall|i: int| 0 <= i < rs.len() ==> (#[trigger] rs[i]).fits(shape[i]),
        k <= rs.len(),
    ensures
        vm::run(
            fold_rounds_code(shape.take(k as int)),
            vm::at(c, p.on(v), folding_alt(w, rs, 0)),
        ) == Some(vm::at(c, p.rounds(rs, k).on(v), folding_alt(w, rs, k))),
        p.rounds(rs, k).ok(),
    decreases k,
{
    let start = vm::at(c, p.on(v), folding_alt(w, rs, 0));
    if k == 0 {
        vm::lemma_run_empty(start);
    } else {
        let j = (k - 1) as nat;
        lemma_rounds_step(c, v, w, p, rs, shape, j);
        assert(shape.take(k as int).drop_last() =~= shape.take(j as int));
        assert(shape.take(k as int).last() == shape[j as int]);
        assert(rs[j as int].fits(shape[j as int]));
        lemma_round_step(
            c,
            v,
            folding_alt(w, rs, k),
            p.rounds(rs, j),
            rs[j as int],
            shape[j as int],
        );
        vm::lemma_run_concat(
            fold_rounds_code(shape.take(j as int)),
            fold_round_code(shape[j as int]),
            start,
        );
    }
}

/// The position the spine starts from.
pub open spec fn start(claim: Ext, s: Seq<int>) -> Position {
    Position { randomness: Seq::empty(), claim, state: s }
}

/// What [`verify`] does.
pub proof fn lemma_verify(
    c: Ctx,
    v: Seq<Item>,
    w: Seq<Item>,
    claim: Ext,
    s: Seq<int>,
    p: Proof,
    cfg: Config,
)
    requires
        c.live(),
        claim.ok(),
        poseidon2::is_state(s),
        p.fits(cfg),
    ensures
        vm::run(
            verify_code(cfg),
            vm::at(c, ext4::put(v, claim) + vm::nums(s), proof_alt(w, p)),
        ) == Some(vm::at(c, start(claim, s).end(p).on(v), w)),
        start(claim, s).end(p).ok(),
{
    reveal(verify_code);
    let w3 = sumcheck::rounds_alt(w, p.last, 0);
    let w2 = elements_alt(w3, p.final_poly);
    let w1 = folding_alt(w2, p.rounds, 0);
    let p0 = start(claim, s);
    let p1 = p0.fold(p.initial);
    let p2 = p1.rounds(p.rounds, p.rounds.len());
    let p3 = p2.absorb(p.final_poly);
    let shape = cfg.rounds@;
    assert(shape.take(shape.len() as int) =~= shape);
    lemma_fold_step(c, v, w1, p0, p.initial);
    lemma_rounds_step(c, v, w2, p1, p.rounds, shape, p.rounds.len());
    lemma_absorb_step(c, v, w3, p2, p.final_poly);
    lemma_fold_step(c, v, w, p3, p.last);
    broadcast use vm::lemma_run_concat;

}

/// The spine draws one coordinate of folding randomness per sumcheck round, and
/// all of them are canonical.
pub proof fn one_coordinate_per_sumcheck_round(claim: Ext, s: Seq<int>, p: Proof, cfg: Config)
    requires
        claim.ok(),
        poseidon2::is_state(s),
        p.fits(cfg),
    ensures
        start(claim, s).end(p).randomness.len() == cfg.initial_folding_factor + folding_total(
            cfg.rounds@,
        ) + cfg.final_sumcheck_rounds,
        ext::all_ok(start(claim, s).end(p).randomness),
{
    let p0 = start(claim, s);
    let p1 = p0.fold(p.initial);
    let p2 = p1.rounds(p.rounds, p.rounds.len());
    let p3 = p2.absorb(p.final_poly);
    lemma_fold_randomness(p0, p.initial);
    lemma_rounds_randomness(p1, p.rounds, cfg.rounds@, p.rounds.len());
    assert(cfg.rounds@.take(p.rounds.len() as int) =~= cfg.rounds@);
    lemma_transcript_ok(p2, p.final_poly);
    lemma_fold_randomness(p3, p.last);
}

/// The sumcheck rounds of folding rounds.
pub open spec fn folding_total(rs: Seq<Round>) -> nat
    decreases rs.len(),
{
    if rs.len() == 0 {
        0
    } else {
        folding_total(rs.drop_last()) + rs.last().folding_factor as nat
    }
}

proof fn lemma_transcript_ok(p: Position, x: Seq<int>)
    requires
        p.ok(),
        arith::felts(x),
    ensures
        p.absorb(x).ok(),
{
    poseidon2::lemma_transcript_is_state(p.state, x, poseidon2::chunk_count(x.len()));
}

proof fn lemma_fold_randomness(p: Position, e: Seq<Evaluations>)
    requires
        p.ok(),
        ext::all_ok(p.randomness),
        sumcheck::evaluations_ok(e),
    ensures
        p.fold(e).ok(),
        ext::all_ok(p.fold(e).randomness),
        p.fold(e).randomness.len() == p.randomness.len() + e.len(),
{
    sumcheck::lemma_chain_ok(p.claim, p.state, e, e.len());
    let t = sumcheck::chain_challenges(p.state, e, e.len());
    assert forall|i: int| 0 <= i < (p.randomness + t).len() implies (
    #[trigger] (p.randomness + t)[i]).ok() by {
        if i < p.randomness.len() {
            assert(p.randomness[i].ok());
        } else {
            assert(t[i - p.randomness.len()].ok());
        }
    }
}

proof fn lemma_answers_randomness(p: Position, a: Seq<Ext>, k: nat)
    requires
        p.ok(),
        ext::all_ok(a),
        k <= a.len(),
    ensures
        p.answers(a, k).ok(),
        p.answers(a, k).randomness == p.randomness,
    decreases k,
{
    if k > 0 {
        lemma_answers_randomness(p, a, (k - 1) as nat);
        assert(a[k - 1].ok());
        lemma_transcript_ok(p.answers(a, (k - 1) as nat), a[k - 1].coeffs());
    }
}

proof fn lemma_rounds_randomness(p: Position, rs: Seq<RoundProof>, shape: Seq<Round>, k: nat)
    requires
        p.ok(),
        ext::all_ok(p.randomness),
        rs.len() == shape.len(),
        forall|i: int| 0 <= i < rs.len() ==> (#[trigger] rs[i]).fits(shape[i]),
        k <= rs.len(),
    ensures
        p.rounds(rs, k).ok(),
        ext::all_ok(p.rounds(rs, k).randomness),
        p.rounds(rs, k).randomness.len() == p.randomness.len() + folding_total(
            shape.take(k as int),
        ),
    decreases k,
{
    if k > 0 {
        let j = (k - 1) as nat;
        lemma_rounds_randomness(p, rs, shape, j);
        let r = rs[j as int];
        assert(r.fits(shape[j as int]));
        let q = p.rounds(rs, j);
        lemma_transcript_ok(q, r.commitment);
        let q1 = q.absorb(r.commitment);
        lemma_answers_randomness(q1, r.answers, r.answers.len());
        lemma_fold_randomness(q1.answers(r.answers, r.answers.len()), r.evaluations);
        assert(shape.take(k as int).drop_last() =~= shape.take(j as int));
        assert(shape.take(k as int).last() == shape[j as int]);
    }
}

/// `k` times two to the power `n`.
fn scaled(k: usize, n: usize) -> (r: usize)
    requires
        k * pow2(n as nat) <= usize::MAX,
    ensures
        r == k * pow2(n as nat),
{
    let mut r: usize = k;
    let mut i: usize = 0;
    proof {
        lemma2_to64();
    }
    while i < n
        invariant
            i <= n,
            k * pow2(n as nat) <= usize::MAX,
            r == k * pow2(i as nat),
        decreases n - i,
    {
        proof {
            let j = (i + 1) as nat;
            lemma_pow2_unfold(j);
            assert(k * pow2(j) == 2 * (k * pow2(i as nat))) by (nonlinear_arith)
                requires
                    pow2(j) == 2 * pow2(i as nat),
            ;
            if j < n {
                lemma_pow2_strictly_increases(j, n as nat);
            }
            assert(k * pow2(j) <= k * pow2(n as nat)) by (nonlinear_arith)
                requires
                    pow2(j) <= pow2(n as nat),
            ;
        }
        r = r * 2;
        i = i + 1;
    }
    r
}

/// One folding round of the spine.
fn fold_round(r: &Round) -> (s: Script)
    ensures
        s.code() == fold_round_code(*r),
{
    proof {
        reveal(fold_round_code);
    }
    let mut answers = Script::new();
    if r.ood_samples > 0 {
        let answer = absorb_n_from_altstack(ext4::D);
        let mut i: usize = 0;
        while i < r.ood_samples
            invariant
                i <= r.ood_samples,
                answer.code() == absorb_n_code(4),
                answers.code() == vm::flat(i as nat, answer_codes()),
            decreases r.ood_samples - i,
        {
            answers = answers.with(&answer);
            i = i + 1;
        }
    }
    absorb_n_from_altstack(merkle::DIGEST).then_script(answers).then_script(
        sumcheck::sumcheck_rounds_fs_keep(r.folding_factor),
    )
}

/// Emit the transcript spine of the verifier for `cfg`.
///
/// Every opcode this emits is wired and executable: the sumcheck chains derive
/// their own challenges, and the round commitments, out-of-domain answers and
/// final polynomial are absorbed into the same sponge, so the challenges are a
/// function of the proof rather than of the spender's choosing.
///
/// # Stack
///
/// In: `claim(4) state(16)` on the main stack, with the transcript on the
/// altstack in consumption order: for each sumcheck round its two evaluations,
/// for each folding round the commitment and then each out-of-domain answer, and
/// before the last sumcheck rounds the final polynomial's coefficients.
/// Out: `R claim(4) state(16)`, the folding randomness with its first coordinate
/// deepest, the chained claim and the final sponge state.
///
/// # Order
///
/// Each out-of-domain answer is absorbed on its own: its point is sampled from
/// the rate the previous absorb produced, and only then is the answer absorbed.
///
/// # What this does not cover
///
/// The query openings, which [`open_query`] makes one by one, and the closing
/// identity, which needs the randomness this leaves behind: see
/// [`crate::whir::constraint::constraint_eval_at`] and [`final_check`].
/// [`permutation_count`] prices the whole schedule including queries, and
/// [`crate::whir::spine::the_spine_holds_its_permutations`] counts what this emits.
pub fn verify(cfg: &Config) -> (r: Script)
    requires
        4 * pow2(cfg.final_poly_vars as nat) <= usize::MAX,
    ensures
        r.code() == verify_code(*cfg),
        forall|claim: Ext, s: Seq<int>, p: Proof, c: Ctx, v: Seq<Item>, w: Seq<Item>|
            claim.ok() && poseidon2::is_state(s) && p.fits(*cfg) && c.live() ==> #[trigger] vm::run(
                r.code(),
                vm::at(c, ext4::put(v, claim) + vm::nums(s), proof_alt(w, p)),
            ) == Some(vm::at(c, start(claim, s).end(p).on(v), w)),
{
    proof {
        assert forall|claim: Ext, s: Seq<int>, p: Proof, c: Ctx, v: Seq<Item>, w: Seq<Item>|
            claim.ok() && poseidon2::is_state(s) && p.fits(*cfg)
                && c.live() implies #[trigger] vm::run(
            verify_code(*cfg),
            vm::at(c, ext4::put(v, claim) + vm::nums(s), proof_alt(w, p)),
        ) == Some(vm::at(c, start(claim, s).end(p).on(v), w)) by {
            lemma_verify(c, v, w, claim, s, p, *cfg);
        }
        reveal(verify_code);
        assert(cfg.rounds@.take(0).len() == 0);
    }
    let mut rounds = Script::new();
    let mut i: usize = 0;
    while i < cfg.rounds.len()
        invariant
            i <= cfg.rounds@.len(),
            rounds.code() == fold_rounds_code(cfg.rounds@.take(i as int)),
        decreases cfg.rounds@.len() - i,
    {
        // The round commitment and its out-of-domain answers enter the
        // transcript, so every challenge drawn after this point depends on them.
        rounds = rounds.then_script(fold_round(&cfg.rounds[i]));
        proof {
            let now = cfg.rounds@.take(i + 1);
            assert(now.drop_last() =~= cfg.rounds@.take(i as int));
            assert(now.last() == cfg.rounds@[i as int]);
        }
        i = i + 1;
    }
    assert(cfg.rounds@.take(cfg.rounds@.len() as int) =~= cfg.rounds@);
    // The final polynomial arrives in the clear and is absorbed whole.
    sumcheck::sumcheck_rounds_fs_keep(cfg.initial_folding_factor).then_script(rounds).then_script(
        absorb_n_from_altstack(scaled(ext4::D, cfg.final_poly_vars)),
    ).then_script(sumcheck::sumcheck_rounds_fs_keep(cfg.final_sumcheck_rounds))
}

// ---------------------------------------------------------------------------
// The permutation budget
// ---------------------------------------------------------------------------

/// The squeezes that drawing `q` query indices costs: they come eight per
/// squeeze, and the first batch rides the preceding absorb.
pub open spec fn index_squeezes(q: nat) -> nat {
    if q == 0 {
        0
    } else {
        (poseidon2::chunk_count(q) - 1) as nat
    }
}

/// The permutations opening a round's queries costs: the squeezes, and one per
/// Merkle level.
pub open spec fn query_permutations(r: Round) -> nat {
    index_squeezes(r.num_queries as nat) + r.num_queries as nat * r.log_domain_size as nat
}

/// The permutations of a folding round: its commitment and out-of-domain
/// answers, its queries, and one per sumcheck round.
pub open spec fn round_permutations(r: Round) -> nat {
    poseidon2::chunk_count(8 + r.ood_samples as nat) + query_permutations(r)
        + r.folding_factor as nat
}

/// The permutations of folding rounds.
pub open spec fn rounds_permutations(rs: Seq<Round>) -> nat
    decreases rs.len(),
{
    if rs.len() == 0 {
        0
    } else {
        rounds_permutations(rs.drop_last()) + round_permutations(rs.last())
    }
}

/// The permutations of a schedule, the final polynomial priced as one element to a
/// coefficient.
pub open spec fn permutations(cfg: Config) -> nat {
    cfg.initial_folding_factor as nat + rounds_permutations(cfg.rounds@) + poseidon2::chunk_count(
        pow2(cfg.final_poly_vars as nat),
    ) + query_permutations(cfg.final_round) + cfg.final_sumcheck_rounds as nat
}

proof fn lemma_rounds_permutations_grow(rs: Seq<Round>, k: int)
    requires
        0 <= k <= rs.len(),
    ensures
        rounds_permutations(rs.take(k)) <= rounds_permutations(rs),
    decreases rs.len(),
{
    if k < rs.len() {
        assert(rs.drop_last().take(k) =~= rs.take(k));
        lemma_rounds_permutations_grow(rs.drop_last(), k);
    } else {
        assert(rs.take(k) =~= rs);
    }
}

/// Blocks of eight that `n` elements fall into.
fn blocks(n: usize) -> (r: usize)
    ensures
        r == poseidon2::chunk_count(n as nat),
{
    if n % RATE == 0 {
        n / RATE
    } else {
        n / RATE + 1
    }
}

/// The permutations that opening a round's queries costs.
fn count_queries(r: &Round) -> (n: usize)
    requires
        query_permutations(*r) <= usize::MAX,
    ensures
        n == query_permutations(*r),
{
    let squeezes: usize = if r.num_queries == 0 {
        0
    } else {
        blocks(r.num_queries) - 1
    };
    proof {
        assert(0 <= r.num_queries * r.log_domain_size) by (nonlinear_arith)
            requires
                0 <= r.num_queries,
                0 <= r.log_domain_size,
        ;
    }
    squeezes + r.num_queries * r.log_domain_size
}

/// Count the permutations `cfg` costs, including the query openings that
/// [`verify`] does not compose.
///
/// Script weight is very nearly this number times the permutation size, because
/// nothing else is within 1% of one.
///
/// A sumcheck round is one permutation: the absorb *is* the duplexing. A round
/// absorbs two extension elements, eight base elements, which fits one rate
/// block. Query indices are drawn `RATE` at a time, so a round with more queries
/// than that has to re-squeeze.
///
/// The transcript is priced with one base element to a value. The commitment and
/// the out-of-domain answers of a round count as `8 + ood_samples` elements packed
/// into shared rate blocks, and the final polynomial as `2^final_poly_vars`
/// elements. [`verify`] absorbs every answer on its own and four elements to a
/// coefficient; how many permutations it holds is
/// [`crate::whir::spine::spine_permutations`].
pub fn permutation_count(cfg: &Config) -> (n: usize)
    requires
        permutations(*cfg) <= usize::MAX,
        pow2(cfg.final_poly_vars as nat) <= usize::MAX,
        forall|i: int|
            0 <= i < cfg.rounds@.len() ==> (#[trigger] cfg.rounds@[i]).ood_samples + 8
                <= usize::MAX,
    ensures
        n == permutations(*cfg),
{
    let mut total: usize = 0;
    let mut i: usize = 0;
    assert(cfg.rounds@.take(0).len() == 0);
    while i < cfg.rounds.len()
        invariant
            i <= cfg.rounds@.len(),
            permutations(*cfg) <= usize::MAX,
            forall|j: int|
                0 <= j < cfg.rounds@.len() ==> (#[trigger] cfg.rounds@[j]).ood_samples + 8
                    <= usize::MAX,
            total == rounds_permutations(cfg.rounds@.take(i as int)),
        decreases cfg.rounds@.len() - i,
    {
        proof {
            let now = cfg.rounds@.take(i + 1);
            lemma_rounds_permutations_grow(cfg.rounds@, i + 1);
            assert(now.drop_last() =~= cfg.rounds@.take(i as int));
            assert(now.last() == cfg.rounds@[i as int]);
            assert(rounds_permutations(now) == total + round_permutations(cfg.rounds@[i as int]));
        }
        let r = &cfg.rounds[i];
        // Commitment and out-of-domain answers, then the queries, then the
        // sumcheck rounds.
        total = total + blocks(merkle::DIGEST + r.ood_samples) + count_queries(r)
            + r.folding_factor;
        i = i + 1;
    }
    assert(cfg.rounds@.take(cfg.rounds@.len() as int) =~= cfg.rounds@);
    assert(1 * pow2(cfg.final_poly_vars as nat) == pow2(cfg.final_poly_vars as nat));
    cfg.initial_folding_factor + total + blocks(scaled(1, cfg.final_poly_vars)) + count_queries(
        &cfg.final_round,
    ) + cfg.final_sumcheck_rounds
}

} // verus!
