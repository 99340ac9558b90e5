//! The width-16 Poseidon2 permutation over KoalaBear as a mathematical function
//! on sequences of sixteen field elements.

use crate::arith;
use crate::constants::{
    EXTERNAL_FINAL, EXTERNAL_INITIAL, INITIAL_ROUNDS, INTERNAL, INTERNAL_ROUNDS, ROUNDS,
};
use vstd::prelude::*;

verus! {

/// Whether a sequence is a state: sixteen canonical field elements.
pub open spec fn is_state(s: Seq<int>) -> bool {
    s.len() == 16 && arith::felts(s)
}

/// The four-by-four block of the external layer.
pub open spec fn m4(i: int, j: int) -> int {
    if i == j {
        2
    } else if j == (i + 1) % 4 {
        3
    } else {
        1
    }
}

/// The external linear layer: every four-by-four block is `M4`, and those on
/// the diagonal count twice.
pub open spec fn mds_matrix() -> Seq<Seq<int>> {
    Seq::new(
        16,
        |i: int|
            Seq::new(
                16,
                |j: int|
                    if i / 4 == j / 4 {
                        2 * m4(i % 4, j % 4)
                    } else {
                        m4(i % 4, j % 4)
                    },
            ),
    )
}

/// The diagonal the internal layer adds to the all-ones matrix: `-2`, `1`, `2`,
/// `1/2`, `3`, `4`, `-1/2`, `-3`, `-4`, `1/2^8`, `1/8`, `1/2^24`, `-1/2^8`,
/// `-1/8`, `-1/16`, `-1/2^24`.
pub open spec fn diagonal(i: int) -> int {
    if i == 0 {
        -2
    } else if i == 1 {
        1
    } else if i == 2 {
        2
    } else if i == 3 {
        arith::inv_pow2(1)
    } else if i == 4 {
        3
    } else if i == 5 {
        4
    } else if i == 6 {
        -arith::inv_pow2(1)
    } else if i == 7 {
        -3
    } else if i == 8 {
        -4
    } else if i == 9 {
        arith::inv_pow2(8)
    } else if i == 10 {
        arith::inv_pow2(3)
    } else if i == 11 {
        arith::inv_pow2(24)
    } else if i == 12 {
        -arith::inv_pow2(8)
    } else if i == 13 {
        -arith::inv_pow2(3)
    } else if i == 14 {
        -arith::inv_pow2(4)
    } else {
        -arith::inv_pow2(24)
    }
}

/// The internal linear layer: all ones, plus the diagonal.
pub open spec fn internal_matrix() -> Seq<Seq<int>> {
    Seq::new(
        16,
        |i: int|
            Seq::new(
                16,
                |j: int|
                    if i == j {
                        arith::red(1 + diagonal(i))
                    } else {
                        1
                    },
            ),
    )
}

/// The external linear layer.
pub open spec fn mds(s: Seq<int>) -> Seq<int> {
    arith::apply(mds_matrix(), s)
}

/// The internal linear layer.
pub open spec fn internal(s: Seq<int>) -> Seq<int> {
    arith::apply(internal_matrix(), s)
}

/// Add a round constant and cube.
pub open spec fn sbox(x: int, c: int) -> int {
    arith::fcube(arith::fadd(x, c))
}

/// Add a constant to every element and cube it.
pub open spec fn full_sbox(s: Seq<int>, rc: Seq<u32>) -> Seq<int> {
    Seq::new(16, |i: int| sbox(s[i], rc[i] as int))
}

/// Add a constant to the first element and cube it.
pub open spec fn partial_sbox(s: Seq<int>, c: int) -> Seq<int> {
    s.update(0, sbox(s[0], c))
}

/// The number of rounds, the opening linear layer among them.
pub open spec fn round_count() -> nat {
    ROUNDS as nat
}

/// Round `k`: the opening linear layer, the initial external rounds, the internal
/// rounds, the terminal external rounds.
pub open spec fn round(s: Seq<int>, k: int) -> Seq<int> {
    if k == 0 {
        mds(s)
    } else if k <= INITIAL_ROUNDS {
        mds(full_sbox(s, EXTERNAL_INITIAL@[k - 1]@))
    } else if k <= INITIAL_ROUNDS + INTERNAL_ROUNDS {
        internal(partial_sbox(s, INTERNAL@[k - 1 - INITIAL_ROUNDS] as int))
    } else {
        mds(full_sbox(s, EXTERNAL_FINAL@[k - 1 - INITIAL_ROUNDS - INTERNAL_ROUNDS]@))
    }
}

/// The state after the first `n` rounds.
pub open spec fn after(s: Seq<int>, n: nat) -> Seq<int>
    decreases n,
{
    if n == 0 {
        s
    } else {
        round(after(s, (n - 1) as nat), n - 1)
    }
}

/// The permutation.
pub open spec fn permutation(s: Seq<int>) -> Seq<int> {
    after(s, round_count())
}

/// The two-to-one compression: the first eight elements of the permuted state.
pub open spec fn compression(left: Seq<int>, right: Seq<int>) -> Seq<int> {
    permutation(left + right).take(8)
}

/// Layers and S-boxes keep states states.
pub proof fn lemma_layers_keep_states(s: Seq<int>)
    requires
        s.len() == 16,
    ensures
        is_state(mds(s)),
        is_state(internal(s)),
{
    assert forall|m: Seq<Seq<int>>, i: int| 0 <= i < m.len() implies arith::felt(
        #[trigger] arith::apply(m, s)[i],
    ) by {
        arith::lemma_red(arith::dot(m[i], s, s.len()));
    }
}

/// Every round keeps states states.
pub proof fn lemma_round_keeps_states(s: Seq<int>, k: int)
    requires
        s.len() == 16,
    ensures
        is_state(round(s, k)),
{
    lemma_layers_keep_states(s);
    lemma_layers_keep_states(full_sbox(s, EXTERNAL_INITIAL@[k - 1]@));
    lemma_layers_keep_states(full_sbox(s, EXTERNAL_FINAL@[k - 1 - INITIAL_ROUNDS - INTERNAL_ROUNDS]@));
    lemma_layers_keep_states(partial_sbox(s, INTERNAL@[k - 1 - INITIAL_ROUNDS] as int));
}

/// The state is canonical after any number of rounds.
pub proof fn lemma_after_is_state(s: Seq<int>, n: nat)
    requires
        is_state(s),
    ensures
        is_state(after(s, n)),
    decreases n,
{
    if n > 0 {
        lemma_after_is_state(s, (n - 1) as nat);
        lemma_round_keeps_states(after(s, (n - 1) as nat), n - 1);
    }
}

/// The padding-free sponge's absorption: the first elements of the state are
/// overwritten and the rest kept.
pub open spec fn overwrite(s: Seq<int>, x: Seq<int>) -> Seq<int> {
    Seq::new(
        16,
        |i: int|
            if i < x.len() {
                x[i]
            } else {
                s[i]
            },
    )
}

/// Chunk `c` of a row: eight elements, or what is left of it.
pub open spec fn chunk(row: Seq<int>, c: int) -> Seq<int> {
    row.subrange(
        8 * c,
        if 8 * (c + 1) <= row.len() {
            8 * (c + 1)
        } else {
            row.len() as int
        },
    )
}

/// The number of chunks a row of `n` elements falls into.
pub open spec fn chunk_count(n: nat) -> nat {
    (n + 7) / 8
}

/// The sponge after absorbing the first `c` chunks of a row.
pub open spec fn sponge(row: Seq<int>, c: nat) -> Seq<int>
    decreases c,
{
    if c == 0 {
        Seq::new(16, |i: int| 0)
    } else {
        permutation(overwrite(sponge(row, (c - 1) as nat), chunk(row, c - 1)))
    }
}

/// The digest of a row: the padding-free sponge over all of it.
pub open spec fn row_digest(row: Seq<int>) -> Seq<int> {
    sponge(row, chunk_count(row.len())).take(8)
}

/// Whether a sequence is a digest: eight canonical field elements.
pub open spec fn is_digest(d: Seq<int>) -> bool {
    d.len() == 8 && arith::felts(d)
}

/// One level of a Merkle tree: `right` says that the running digest is the
/// right child.
pub open spec fn parent(digest: Seq<int>, sibling: Seq<int>, right: bool) -> Seq<int> {
    if right {
        compression(sibling, digest)
    } else {
        compression(digest, sibling)
    }
}

/// The digest reached after the first `k` levels of a Merkle path.
pub open spec fn path_digest(
    leaf: Seq<int>,
    siblings: Seq<Seq<int>>,
    right: Seq<bool>,
    k: nat,
) -> Seq<int>
    decreases k,
{
    if k == 0 {
        leaf
    } else {
        parent(path_digest(leaf, siblings, right, (k - 1) as nat), siblings[k - 1], right[k - 1])
    }
}

/// The permutation keeps states states.
pub proof fn lemma_permutation_is_state(s: Seq<int>)
    requires
        is_state(s),
    ensures
        is_state(permutation(s)),
{
    lemma_after_is_state(s, round_count());
}

/// Compression yields digests.
pub proof fn lemma_compression_is_digest(left: Seq<int>, right: Seq<int>)
    requires
        is_digest(left),
        is_digest(right),
    ensures
        is_digest(compression(left, right)),
        is_state(left + right),
{
    assert forall|i: int| 0 <= i < 16 implies arith::felt(#[trigger] (left + right)[i]) by {
        if i < 8 {
            assert((left + right)[i] == left[i]);
        } else {
            assert((left + right)[i] == right[i - 8]);
        }
    }
    lemma_permutation_is_state(left + right);
}

/// Absorbing a chunk yields a state.
pub proof fn lemma_overwrite_is_state(s: Seq<int>, x: Seq<int>)
    requires
        is_state(s),
        arith::felts(x),
    ensures
        is_state(overwrite(s, x)),
{
}

/// The sponge is always a state.
pub proof fn lemma_sponge_is_state(row: Seq<int>, c: nat)
    requires
        arith::felts(row),
        c <= chunk_count(row.len()),
    ensures
        is_state(sponge(row, c)),
    decreases c,
{
    if c > 0 {
        lemma_sponge_is_state(row, (c - 1) as nat);
        let x = chunk(row, c - 1);
        assert(arith::felts(x)) by {
            assert forall|i: int| 0 <= i < x.len() implies arith::felt(#[trigger] x[i]) by {
                assert(x[i] == row[8 * (c - 1) + i]);
            }
        }
        lemma_overwrite_is_state(sponge(row, (c - 1) as nat), x);
        lemma_permutation_is_state(overwrite(sponge(row, (c - 1) as nat), x));
    }
}

/// A row's digest is a digest.
pub proof fn lemma_row_digest_is_digest(row: Seq<int>)
    requires
        arith::felts(row),
    ensures
        is_digest(row_digest(row)),
{
    lemma_sponge_is_state(row, chunk_count(row.len()));
}

/// Every digest along a path is a digest.
pub proof fn lemma_path_digest_is_digest(
    leaf: Seq<int>,
    siblings: Seq<Seq<int>>,
    right: Seq<bool>,
    k: nat,
)
    requires
        is_digest(leaf),
        k <= siblings.len(),
        forall|i: int| 0 <= i < siblings.len() ==> is_digest(#[trigger] siblings[i]),
    ensures
        is_digest(path_digest(leaf, siblings, right, k)),
    decreases k,
{
    if k > 0 {
        lemma_path_digest_is_digest(leaf, siblings, right, (k - 1) as nat);
        let d = path_digest(leaf, siblings, right, (k - 1) as nat);
        assert(is_digest(siblings[k - 1]));
        lemma_compression_is_digest(d, siblings[k - 1]);
        lemma_compression_is_digest(siblings[k - 1], d);
    }
}

/// The two children compressed at level `k` of a path, left first.
pub open spec fn children(
    leaf: Seq<int>,
    siblings: Seq<Seq<int>>,
    right: Seq<bool>,
    k: int,
) -> (Seq<int>, Seq<int>) {
    let d = path_digest(leaf, siblings, right, k as nat);
    if right[k] {
        (siblings[k], d)
    } else {
        (d, siblings[k])
    }
}

/// Two different pairs of digests that compress to the same digest.
pub open spec fn collide(a: (Seq<int>, Seq<int>), b: (Seq<int>, Seq<int>)) -> bool {
    a != b && compression(a.0, a.1) == compression(b.0, b.1)
}

/// A root binds its leaves: where the same position of the same root opens to
/// two different leaves, the two paths collide in the compression at some level.
pub proof fn two_leaves_under_one_root_collide(
    leaf: Seq<int>,
    siblings: Seq<Seq<int>>,
    other_leaf: Seq<int>,
    other_siblings: Seq<Seq<int>>,
    right: Seq<bool>,
    depth: nat,
)
    requires
        leaf != other_leaf,
        path_digest(leaf, siblings, right, depth) == path_digest(
            other_leaf,
            other_siblings,
            right,
            depth,
        ),
    ensures
        exists|k: int|
            0 <= k < depth && collide(
                #[trigger] children(leaf, siblings, right, k),
                children(other_leaf, other_siblings, right, k),
            ),
    decreases depth,
{
    if depth > 0 {
        let k = (depth - 1) as nat;
        if path_digest(leaf, siblings, right, k) == path_digest(
            other_leaf,
            other_siblings,
            right,
            k,
        ) {
            two_leaves_under_one_root_collide(
                leaf,
                siblings,
                other_leaf,
                other_siblings,
                right,
                k,
            );
        } else {
            assert(collide(
                children(leaf, siblings, right, k as int),
                children(other_leaf, other_siblings, right, k as int),
            ));
        }
    }
}

/// What the sponge permutes when it absorbs chunk `k` of a row.
pub open spec fn absorbed(row: Seq<int>, k: int) -> Seq<int> {
    overwrite(sponge(row, k as nat), chunk(row, k))
}

/// Two different states that the permutation takes to states with the same first
/// half, which is what a digest shows, or with the same second half, which is what
/// the sponge carries on.
pub open spec fn sponges_collide(a: Seq<int>, b: Seq<int>) -> bool {
    &&& a != b
    &&& permutation(a).take(8) == permutation(b).take(8) || permutation(a).skip(8) == permutation(
        b,
    ).skip(8)
}

/// Sponges that absorbed the same at a chunk had the same chunk there, and the
/// same capacity before.
proof fn lemma_absorbed(row: Seq<int>, other: Seq<int>, k: int)
    requires
        row.len() == other.len(),
        arith::felts(row),
        arith::felts(other),
        0 <= k < chunk_count(row.len()),
        absorbed(row, k) == absorbed(other, k),
    ensures
        chunk(row, k) == chunk(other, k),
        sponge(row, k as nat).skip(8) == sponge(other, k as nat).skip(8),
{
    let a = absorbed(row, k);
    let b = absorbed(other, k);
    lemma_chunk(row, k);
    lemma_chunk(other, k);
    lemma_sponge_is_state(row, k as nat);
    lemma_sponge_is_state(other, k as nat);
    assert forall|i: int| 0 <= i < chunk(row, k).len() implies #[trigger] chunk(row, k)[i]
        == chunk(other, k)[i] by {
        assert(a[i] == b[i]);
    }
    assert(chunk(row, k) =~= chunk(other, k));
    let s = sponge(row, k as nat).skip(8);
    let t = sponge(other, k as nat).skip(8);
    assert forall|i: int| 0 <= i < 8 implies #[trigger] s[i] == t[i] by {
        assert(a[i + 8] == b[i + 8]);
    }
    assert(s =~= t);
}

/// Sponges with one capacity that absorbed different elements collided on the way.
proof fn lemma_capacity_binds(row: Seq<int>, other: Seq<int>, c: nat, i: int)
    requires
        row.len() == other.len(),
        arith::felts(row),
        arith::felts(other),
        c <= chunk_count(row.len()),
        sponge(row, c).skip(8) == sponge(other, c).skip(8),
        0 <= i < 8 * c,
        i < row.len(),
        row[i] != other[i],
    ensures
        exists|k: int|
            0 <= k < c && sponges_collide(#[trigger] absorbed(row, k), absorbed(other, k)),
    decreases c,
{
    let k = c - 1;
    if absorbed(row, k) == absorbed(other, k) {
        lemma_absorbed(row, other, k);
        if i >= 8 * k {
            assert(chunk(row, k)[i - 8 * k] == row[i]);
            assert(chunk(other, k)[i - 8 * k] == other[i]);
        }
        lemma_capacity_binds(row, other, k as nat, i);
    } else {
        assert(sponges_collide(absorbed(row, k), absorbed(other, k)));
    }
}

/// A leaf binds its row: where two different rows of one length have the same
/// digest, their sponges collide at some chunk.
pub proof fn two_rows_under_one_digest_collide(row: Seq<int>, other: Seq<int>)
    requires
        row.len() == other.len(),
        arith::felts(row),
        arith::felts(other),
        row != other,
        row_digest(row) == row_digest(other),
    ensures
        exists|k: int|
            0 <= k < chunk_count(row.len()) && sponges_collide(
                #[trigger] absorbed(row, k),
                absorbed(other, k),
            ),
{
    if forall|i: int| 0 <= i < row.len() ==> row[i] == other[i] {
        assert(row =~= other);
    }
    let i = choose|i: int| 0 <= i < row.len() && row[i] != other[i];
    let c = chunk_count(row.len());
    let k = c - 1;
    if absorbed(row, k) == absorbed(other, k) {
        lemma_absorbed(row, other, k);
        if i >= 8 * k {
            assert(chunk(row, k)[i - 8 * k] == row[i]);
            assert(chunk(other, k)[i - 8 * k] == other[i]);
        }
        lemma_capacity_binds(row, other, k as nat, i);
    } else {
        assert(sponges_collide(absorbed(row, k), absorbed(other, k)));
    }
}

/// A root binds its rows: where the same position of the same root opens to two
/// different rows of one length, either their sponges or their paths collide.
pub proof fn two_rows_under_one_root_collide(
    row: Seq<int>,
    siblings: Seq<Seq<int>>,
    other: Seq<int>,
    other_siblings: Seq<Seq<int>>,
    right: Seq<bool>,
    depth: nat,
)
    requires
        row.len() == other.len(),
        arith::felts(row),
        arith::felts(other),
        row != other,
        path_digest(row_digest(row), siblings, right, depth) == path_digest(
            row_digest(other),
            other_siblings,
            right,
            depth,
        ),
    ensures
        (exists|k: int|
            0 <= k < chunk_count(row.len()) && sponges_collide(
                #[trigger] absorbed(row, k),
                absorbed(other, k),
            )) || (exists|k: int|
            0 <= k < depth && collide(
                #[trigger] children(row_digest(row), siblings, right, k),
                children(row_digest(other), other_siblings, right, k),
            )),
{
    if row_digest(row) == row_digest(other) {
        two_rows_under_one_digest_collide(row, other);
    } else {
        two_leaves_under_one_root_collide(
            row_digest(row),
            siblings,
            row_digest(other),
            other_siblings,
            right,
            depth,
        );
    }
}

// ---------------------------------------------------------------------------
// The transcript sponge
// ---------------------------------------------------------------------------

/// What the duplex permutes after absorbing `x`: the inputs overwrite the
/// leading rate slots, the rest of the rate is zeroed, and the number of inputs
/// is added to the first capacity slot. With no inputs the state is untouched.
pub open spec fn duplex_input(s: Seq<int>, x: Seq<int>) -> Seq<int> {
    if x.len() == 0 {
        s
    } else {
        Seq::new(
            16,
            |i: int|
                if i < x.len() {
                    x[i]
                } else if i < 8 {
                    0
                } else if i == 8 {
                    arith::fadd(s[8], x.len() as int)
                } else {
                    s[i]
                },
        )
    }
}

/// Absorbing up to eight elements into the transcript sponge.
pub open spec fn duplex(s: Seq<int>, x: Seq<int>) -> Seq<int> {
    permutation(duplex_input(s, x))
}

/// Absorbing yields states.
pub proof fn lemma_duplex_is_state(s: Seq<int>, x: Seq<int>)
    requires
        is_state(s),
        arith::felts(x),
        x.len() <= 8,
    ensures
        is_state(duplex_input(s, x)),
        is_state(duplex(s, x)),
{
    arith::lemma_red(s[8] + x.len());
    lemma_permutation_is_state(duplex_input(s, x));
}

/// Different absorbed inputs give different states to permute, whatever their
/// lengths: a short absorb cannot be passed off as a zero-padded longer one.
pub proof fn absorbed_inputs_are_bound(s: Seq<int>, x: Seq<int>, y: Seq<int>)
    requires
        is_state(s),
        x.len() <= 8,
        y.len() <= 8,
        x != y,
    ensures
        duplex_input(s, x) != duplex_input(s, y),
{
    let a = duplex_input(s, x);
    let b = duplex_input(s, y);
    if a == b {
        arith::lemma_red(s[8] + x.len());
        arith::lemma_red(s[8] + y.len());
        arith::lemma_red(s[8]);
        assert(a[8] == b[8]);
        assert(x.len() == y.len());
        assert forall|i: int| 0 <= i < x.len() implies x[i] == y[i] by {
            assert(a[i] == b[i]);
        }
        assert(x =~= y);
    }
}

/// The transcript sponge after absorbing the first `c` blocks of eight.
pub open spec fn transcript(s: Seq<int>, x: Seq<int>, c: nat) -> Seq<int>
    decreases c,
{
    if c == 0 {
        s
    } else {
        duplex(transcript(s, x, (c - 1) as nat), chunk(x, c - 1))
    }
}

/// The transcript sponge after absorbing elements in blocks of eight.
pub open spec fn absorb_all(s: Seq<int>, x: Seq<int>) -> Seq<int> {
    transcript(s, x, chunk_count(x.len()))
}

/// The transcript sponge is always a state.
pub proof fn lemma_transcript_is_state(s: Seq<int>, x: Seq<int>, c: nat)
    requires
        is_state(s),
        arith::felts(x),
        c <= chunk_count(x.len()),
    ensures
        is_state(transcript(s, x, c)),
    decreases c,
{
    if c > 0 {
        lemma_transcript_is_state(s, x, (c - 1) as nat);
        let b = chunk(x, c - 1);
        lemma_chunk(x, c - 1);
        lemma_duplex_is_state(transcript(s, x, (c - 1) as nat), b);
    }
}

/// A chunk is at most eight canonical elements.
pub proof fn lemma_chunk(x: Seq<int>, c: int)
    requires
        arith::felts(x),
        0 <= c < chunk_count(x.len()),
    ensures
        arith::felts(chunk(x, c)),
        0 < chunk(x, c).len() <= 8,
{
    let b = chunk(x, c);
    assert forall|i: int| 0 <= i < b.len() implies arith::felt(#[trigger] b[i]) by {
        assert(b[i] == x[8 * c + i]);
    }
}

} // verus!
