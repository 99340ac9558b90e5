//! Merkle path verification in Bitcoin Script.
//!
//! This is the inner loop of any FRI, STIR or WHIR query, and on Bitcoin it is
//! where essentially all the cost is: one Poseidon2 permutation per level.
//!
//! # Stack layout
//!
//! Bottom to top, for a path of depth `d`:
//!
//! ```text
//! sibling[d-1] (8)  bit[d-1] ... sibling[0] (8)  bit[0]  leaf (8)
//! ```
//!
//! so the leaf is on top and each level's sibling and direction bit sit
//! directly beneath the digest they combine with. `bit = 0` means the running
//! digest is the left child. The result is the computed root, eight elements.
//!
//! Nothing is concatenated at any point: a digest is eight field elements, and
//! combining two of them is a sixteen-element permutation state. That is the
//! whole reason this works without `OP_CAT`.

use crate::arith;
use crate::constants::WIDTH;
use crate::permutation;
use crate::poseidon2;
use crate::script::{Instr, Opcode, Script};
use crate::vm::{self, Ctx, Item};
use vstd::prelude::*;

verus! {

/// Digest width in field elements.
pub const DIGEST: usize = 8;

/// Sponge rate for leaf hashing.
pub const HASH_RATE: usize = 8;

// ---------------------------------------------------------------------------
// Leaf hashing
// ---------------------------------------------------------------------------

/// The code that copies element `i` of the overwritten state to the top.
pub open spec fn overwrite_codes(k: int) -> spec_fn(int) -> Seq<Instr> {
    |i: int|
        if i < k {
            vm::pick_code((k - 1 - i) + i)
        } else {
            vm::pick_code((15 - i) + k + i)
        }
}

/// The code of [`overwrite_permute`].
#[verifier::opaque]
pub open spec fn overwrite_permute_code(k: int) -> Seq<Instr> {
    vm::flat(16, overwrite_codes(k)) + vm::ops(16, Opcode::ToAltStack) + vm::ops(
        ((16 + k) / 2) as nat,
        Opcode::Drop2,
    ) + vm::ops(((16 + k) % 2) as nat, Opcode::Drop) + vm::ops(16, Opcode::FromAltStack)
        + permutation::permute_code()
}

proof fn lemma_overwrite_permute(c: Ctx, v: Seq<Item>, w: Seq<Item>, s: Seq<int>, x: Seq<int>)
    requires
        c.live(),
        poseidon2::is_state(s),
        arith::felts(x),
        x.len() <= 8,
    ensures
        vm::run(
            overwrite_permute_code(x.len() as int),
            vm::at(c, v + vm::nums(s) + vm::nums(x), w),
        ) == Some(
            vm::at(c, v + vm::nums(poseidon2::permutation(poseidon2::overwrite(s, x))), w),
        ),
{
    reveal(overwrite_permute_code);
    broadcast use vm::group_run;

    let k = x.len() as int;
    let new = poseidon2::overwrite(s, x);
    let base = v + vm::nums(s) + vm::nums(x);
    let st = |i: int| vm::at(c, base + vm::nums(new.take(i)), w);
    let f = overwrite_codes(k);
    assert forall|i: int| 0 <= i < 16 implies #[trigger] vm::run(f(i), st(i)) == Some(st(i + 1)) by {
        let now = base + vm::nums(new.take(i));
        if i < k {
            assert(now[now.len() - 1 - ((k - 1 - i) + i)] == vm::num(x[i]));
            vm::lemma_pick(c, now, w, (k - 1 - i) + i);
        } else {
            assert(now[now.len() - 1 - ((15 - i) + k + i)] == vm::num(s[i]));
            vm::lemma_pick(c, now, w, (15 - i) + k + i);
        }
        assert(now.push(vm::num(new[i])) =~= base + vm::nums(new.take(i + 1)));
    }
    vm::lemma_run_flat(16, f, st);
    assert(base + vm::nums(new.take(0)) =~= base);
    assert(new.take(16) =~= new);
    let parked = w + vm::nums(new).reverse();
    vm::lemma_to_alt(c, base, vm::nums(new), w);
    let old = vm::nums(s) + vm::nums(x);
    assert(base =~= v + old);
    vm::lemma_drop_all(c, v, old, parked);
    vm::lemma_from_alt(c, v, vm::nums(new), w);
    poseidon2::lemma_overwrite_is_state(s, x);
    permutation::lemma_permute(c, v, w, new);
}

/// Overwrite the first `k` state elements and permute.
///
/// The state is the sixteen elements beneath the `k` inputs. Elements past `k`
/// are *kept*, not zeroed, and no length is mixed in: that is what makes this
/// the padding-free sponge rather than the duplex the challenger uses. The two
/// must not be conflated: [`crate::whir::sponge::absorb`] zeroes the rest of the
/// rate and binds the absorbed count into the capacity, precisely so that a
/// short absorb cannot collide with a zero-padded longer one. A leaf hash has a
/// length fixed by the commitment, so it does not need that.
fn overwrite_permute(k: usize) -> (r: Script)
    requires
        k <= HASH_RATE,
    ensures
        r.code() == overwrite_permute_code(k as int),
        forall|s: Seq<int>, x: Seq<int>, c: Ctx, v: Seq<Item>, w: Seq<Item>|
            poseidon2::is_state(s) && arith::felts(x) && x.len() == k && c.live()
                ==> #[trigger] vm::run(r.code(), vm::at(c, v + vm::nums(s) + vm::nums(x), w))
                == Some(
                vm::at(c, v + vm::nums(poseidon2::permutation(poseidon2::overwrite(s, x))), w),
            ),
{
    proof {
        assert forall|s: Seq<int>, x: Seq<int>, c: Ctx, v: Seq<Item>, w: Seq<Item>|
            poseidon2::is_state(s) && arith::felts(x) && x.len() == k
                && c.live() implies #[trigger] vm::run(
            overwrite_permute_code(k as int),
            vm::at(c, v + vm::nums(s) + vm::nums(x), w),
        ) == Some(
            vm::at(c, v + vm::nums(poseidon2::permutation(poseidon2::overwrite(s, x))), w),
        ) by {
            lemma_overwrite_permute(c, v, w, s, x);
        }
        reveal(overwrite_permute_code);
    }
    let n: usize = WIDTH + k;
    // The new state is built above the old one, so each operand's depth is a
    // function of how many outputs have been pushed.
    let mut rows = Script::new();
    let mut i: usize = 0;
    while i < WIDTH
        invariant
            i <= WIDTH,
            k <= HASH_RATE,
            rows.code() == vm::flat(i as nat, overwrite_codes(k as int)),
        decreases WIDTH - i,
    {
        let row = if i < k {
            Script::new().num(((k - 1 - i) + i) as i64).op(Opcode::Pick)
        } else {
            Script::new().num(((WIDTH - 1 - i) + k + i) as i64).op(Opcode::Pick)
        };
        rows = rows.then_script(row);
        i = i + 1;
    }
    rows.then_script(vm::repeat(WIDTH, Opcode::ToAltStack)).then_script(
        vm::repeat(n / 2, Opcode::Drop2),
    ).then_script(vm::repeat(n % 2, Opcode::Drop)).then_script(
        vm::repeat(WIDTH, Opcode::FromAltStack),
    ).then_script(permutation::poseidon2_permute())
}

/// The length of chunk `c` of a row of `n` elements.
pub open spec fn chunk_len(n: int, c: int) -> int {
    if n - 8 * c < 8 {
        n - 8 * c
    } else {
        8
    }
}

/// The code that absorbs chunk `c`.
pub open spec fn absorb_codes(n: int) -> spec_fn(int) -> Seq<Instr> {
    |c: int|
        vm::ops(chunk_len(n, c) as nat, Opcode::FromAltStack) + overwrite_permute_code(
            chunk_len(n, c),
        )
}

/// The code that pushes `n` zeros.
pub open spec fn zeros_code(n: nat) -> Seq<Instr> {
    Seq::new(n, |i: int| vm::k(0))
}

proof fn lemma_zeros(c: Ctx, v: Seq<Item>, w: Seq<Item>, n: nat)
    requires
        c.live(),
    ensures
        vm::run(zeros_code(n), vm::at(c, v, w)) == Some(
            vm::at(c, v + vm::nums(Seq::new(n, |i: int| 0)), w),
        ),
    decreases n,
{
    broadcast use vm::group_run;

    if n == 0 {
        assert(zeros_code(0) =~= Seq::empty());
        assert(v + vm::nums(Seq::new(0, |i: int| 0)) =~= v);
    } else {
        let m = (n - 1) as nat;
        lemma_zeros(c, v, w, m);
        assert(zeros_code(n) =~= zeros_code(m).push(vm::k(0)));
        assert((v + vm::nums(Seq::new(m, |i: int| 0))).push(vm::num(0)) =~= v + vm::nums(
            Seq::new(n, |i: int| 0),
        ));
    }
}

/// Push `n` zeros.
pub(crate) fn zeros(n: usize) -> (r: Script)
    ensures
        r.code() == zeros_code(n as nat),
{
    let mut r = Script::new();
    let mut i: usize = 0;
    assert(zeros_code(0) =~= Seq::empty());
    while i < n
        invariant
            i <= n,
            r.code() == zeros_code(i as nat),
        decreases n - i,
    {
        r = r.num(0);
        i = i + 1;
        assert(zeros_code(i as nat) =~= zeros_code((i - 1) as nat).push(vm::k(0)));
    }
    r
}

/// The code of [`hash_row`].
#[verifier::opaque]
pub open spec fn hash_row_code(n: int) -> Seq<Instr> {
    vm::ops(n as nat, Opcode::ToAltStack) + zeros_code(16) + vm::flat(
        poseidon2::chunk_count(n as nat),
        absorb_codes(n),
    ) + vm::ops(4, Opcode::Drop2)
}

/// What [`hash_row`] does to a row.
pub proof fn lemma_hash_row(c: Ctx, v: Seq<Item>, w: Seq<Item>, row: Seq<int>)
    requires
        c.live(),
        arith::felts(row),
    ensures
        vm::run(hash_row_code(row.len() as int), vm::at(c, v + vm::nums(row), w)) == Some(
            vm::at(c, v + vm::nums(poseidon2::row_digest(row)), w),
        ),
{
    reveal(hash_row_code);
    broadcast use vm::group_run;

    let n = row.len() as int;
    let m = poseidon2::chunk_count(row.len());
    vm::lemma_to_alt(c, v, vm::nums(row), w);
    lemma_zeros(c, v, w + vm::nums(row).reverse(), 16);
    let left = |t: int|
        row.skip(
            if 8 * t <= n {
                8 * t
            } else {
                n
            },
        );
    let st = |t: int|
        vm::at(
            c,
            v + vm::nums(poseidon2::sponge(row, t as nat)),
            w + vm::nums(left(t)).reverse(),
        );
    let f = absorb_codes(n);
    assert forall|t: int| 0 <= t < m implies #[trigger] vm::run(f(t), st(t)) == Some(st(t + 1)) by {
        let s = poseidon2::sponge(row, t as nat);
        let x = poseidon2::chunk(row, t);
        poseidon2::lemma_sponge_is_state(row, t as nat);
        assert(x.len() == chunk_len(n, t));
        assert(arith::felts(x)) by {
            assert forall|i: int| 0 <= i < x.len() implies arith::felt(#[trigger] x[i]) by {
                assert(x[i] == row[8 * t + i]);
            }
        }
        let w1 = w + vm::nums(left(t + 1)).reverse();
        assert(w + vm::nums(left(t)).reverse() =~= w1 + vm::nums(x).reverse());
        vm::lemma_from_alt(c, v + vm::nums(s), vm::nums(x), w1);
        lemma_overwrite_permute(c, v, w1, s, x);
    }
    vm::lemma_run_flat(m, f, st);
    assert(left(0) =~= row);
    assert(vm::nums(poseidon2::sponge(row, 0)) =~= vm::nums(Seq::new(16, |i: int| 0)));
    assert(w + vm::nums(left(m as int)).reverse() =~= w);
    let s = poseidon2::sponge(row, m);
    poseidon2::lemma_sponge_is_state(row, m);
    assert(v + vm::nums(s) =~= v + vm::nums(s.take(8)) + vm::nums(s.skip(8)));
    vm::lemma_drop2(c, v + vm::nums(s.take(8)), vm::nums(s.skip(8)), w, 4);
}

/// Hash a row of `n` field elements into a leaf digest.
///
/// This is the padding-free sponge a Merkle leaf is made with: the leaf is the
/// digest of the opened row, not the row itself.
///
/// # Why the verifier needs it
///
/// Without this the query is only half bound. Walking the Merkle path proves
/// that *some* committed leaf sits at the sampled index, but the values folded
/// into the constraint arrive as a separate hint, and nothing ties the two
/// together. Hashing the row in script and requiring the result to be the leaf
/// is what closes that gap.
///
/// Stack: the row, `row[0]` deepest. Output: the eight-element digest,
/// `d[0]` deepest, ready for [`merkle_verify_from_altstack`].
///
/// # Cost
///
/// `ceil(n / 8)` permutations.
pub fn hash_row(n: usize) -> (r: Script)
    requires
        n > 0,
    ensures
        r.code() == hash_row_code(n as int),
        forall|row: Seq<int>, c: Ctx, v: Seq<Item>, w: Seq<Item>|
            arith::felts(row) && row.len() == n && c.live() ==> #[trigger] vm::run(
                r.code(),
                vm::at(c, v + vm::nums(row), w),
            ) == Some(vm::at(c, v + vm::nums(poseidon2::row_digest(row)), w)),
{
    proof {
        assert forall|row: Seq<int>, c: Ctx, v: Seq<Item>, w: Seq<Item>|
            arith::felts(row) && row.len() == n && c.live() implies #[trigger] vm::run(
            hash_row_code(n as int),
            vm::at(c, v + vm::nums(row), w),
        ) == Some(vm::at(c, v + vm::nums(poseidon2::row_digest(row)), w)) by {
            lemma_hash_row(c, v, w, row);
        }
        reveal(hash_row_code);
    }
    let mut body = Script::new();
    let mut left: usize = n;
    let ghost mut c: nat = 0;
    while left > 0
        invariant
            left == (if n - 8 * c >= 0 {
                n - 8 * c
            } else {
                0
            }),
            c <= poseidon2::chunk_count(n as nat),
            body.code() == vm::flat(c, absorb_codes(n as int)),
        decreases left,
    {
        let len: usize = if left < HASH_RATE {
            left
        } else {
            HASH_RATE
        };
        assert(len == chunk_len(n as int, c as int));
        body = body.then_script(
            vm::repeat(len, Opcode::FromAltStack).then_script(overwrite_permute(len)),
        );
        left = left - len;
        proof {
            c = c + 1;
        }
    }
    assert(c == poseidon2::chunk_count(n as nat));
    // Park the row so chunks can be pulled in order: popping yields `row[0]`
    // first, which is the element that overwrites `state[0]`. The sponge starts
    // from zero. The digest is the first elements of the final state; drop the
    // capacity above it.
    vm::repeat(n, Opcode::ToAltStack).then_script(zeros(WIDTH)).then_script(body).then_script(
        vm::repeat((WIDTH - DIGEST) / 2, Opcode::Drop2),
    )
}

// ---------------------------------------------------------------------------
// Paths
// ---------------------------------------------------------------------------

/// The code of [`swap_digests`].
pub open spec fn swap_digests_code() -> Seq<Instr> {
    vm::rotate_code(8, 15)
}

/// Swap the two eight-element digests on top of the stack.
///
/// Rolling the lower block up one element at a time preserves the order within
/// each block, which a naive sequence of swaps would not.
pub(crate) fn swap_digests() -> (r: Script)
    ensures
        r.code() == swap_digests_code(),
        forall|a: Seq<Item>, b: Seq<Item>, c: Ctx, v: Seq<Item>, w: Seq<Item>|
            a.len() == 8 && b.len() == 8 && c.live() ==> #[trigger] vm::run(
                r.code(),
                vm::at(c, v + a + b, w),
            ) == Some(vm::at(c, v + b + a, w)),
{
    proof {
        assert forall|a: Seq<Item>, b: Seq<Item>, c: Ctx, v: Seq<Item>, w: Seq<Item>|
            a.len() == 8 && b.len() == 8 && c.live() implies #[trigger] vm::run(
            swap_digests_code(),
            vm::at(c, v + a + b, w),
        ) == Some(vm::at(c, v + b + a, w)) by {
            vm::lemma_rotate(c, v, w, a, b);
        }
    }
    vm::rotate(DIGEST, 2 * DIGEST - 1)
}

/// The code that orders the pair by the bit on top, then compresses.
#[verifier::opaque]
pub open spec fn ordered_compress_code() -> Seq<Instr> {
    vm::notif_code(swap_digests_code()) + permutation::compress_code()
}

proof fn lemma_ordered_compress(
    c: Ctx,
    v: Seq<Item>,
    w: Seq<Item>,
    digest: Seq<int>,
    sibling: Seq<int>,
    right: bool,
)
    requires
        c.live(),
        poseidon2::is_digest(digest),
        poseidon2::is_digest(sibling),
    ensures
        vm::run(
            ordered_compress_code(),
            vm::at(c, (v + vm::nums(sibling) + vm::nums(digest)).push(vm::flag(right)), w),
        ) == Some(vm::at(c, v + vm::nums(poseidon2::parent(digest, sibling, right)), w)),
{
    reveal(ordered_compress_code);
    broadcast use vm::group_run;
    broadcast use vm::group_inert;

    let a = vm::nums(sibling);
    let b = vm::nums(digest);
    assert(vm::inert(swap_digests_code())) by {
        reveal(vm::rotate_code);
    }
    vm::lemma_enter_live(c);
    vm::lemma_rotate(c.enter(true), v, w, a, b);
    vm::lemma_notif(
        c,
        v + a + b,
        w,
        swap_digests_code(),
        !right,
        if right {
            v + a + b
        } else {
            v + b + a
        },
        w,
    );
    permutation::lemma_compress(c, v, w, sibling, digest);
    permutation::lemma_compress(c, v, w, digest, sibling);
}

/// Order the pair by the bit on top, then compress.
fn ordered_compress() -> (r: Script)
    ensures
        r.code() == ordered_compress_code(),
{
    proof {
        reveal(ordered_compress_code);
    }
    vm::unless(swap_digests()).then_script(permutation::poseidon2_compress())
}

/// The code of [`merkle_step`].
#[verifier::opaque]
pub open spec fn merkle_step_code() -> Seq<Instr> {
    vm::roll_code(8) + ordered_compress_code()
}

proof fn lemma_merkle_step(
    c: Ctx,
    v: Seq<Item>,
    w: Seq<Item>,
    digest: Seq<int>,
    sibling: Seq<int>,
    right: bool,
)
    requires
        c.live(),
        poseidon2::is_digest(digest),
        poseidon2::is_digest(sibling),
    ensures
        vm::run(
            merkle_step_code(),
            vm::at(c, (v + vm::nums(sibling)).push(vm::flag(right)) + vm::nums(digest), w),
        ) == Some(vm::at(c, v + vm::nums(poseidon2::parent(digest, sibling, right)), w)),
{
    reveal(merkle_step_code);
    broadcast use vm::group_run;

    let now = (v + vm::nums(sibling)).push(vm::flag(right)) + vm::nums(digest);
    vm::lemma_roll(c, now, w, 8);
    assert(now[now.len() - 9] == vm::flag(right));
    assert(now.remove(now.len() - 9).push(vm::flag(right)) =~= (v + vm::nums(sibling) + vm::nums(
        digest,
    )).push(vm::flag(right)));
    lemma_ordered_compress(c, v, w, digest, sibling, right);
}

/// One level: order the pair by the direction bit, then compress.
///
/// The permutation reads its state with `s[0]` deepest, so whichever digest
/// lies lower becomes the left child. On entry the sibling is the lower one, so
/// the swap happens when the bit says the *running digest* is on the left,
/// that is, when the bit is zero.
pub fn merkle_step() -> (r: Script)
    ensures
        r.code() == merkle_step_code(),
        forall|digest: Seq<int>, sibling: Seq<int>, right: bool, c: Ctx, v: Seq<Item>, w: Seq<Item>|
            poseidon2::is_digest(digest) && poseidon2::is_digest(sibling) && c.live()
                ==> #[trigger] vm::run(
                r.code(),
                vm::at(c, (v + vm::nums(sibling)).push(vm::flag(right)) + vm::nums(digest), w),
            ) == Some(vm::at(c, v + vm::nums(poseidon2::parent(digest, sibling, right)), w)),
{
    proof {
        assert forall|
            digest: Seq<int>,
            sibling: Seq<int>,
            right: bool,
            c: Ctx,
            v: Seq<Item>,
            w: Seq<Item>,
        |
            poseidon2::is_digest(digest) && poseidon2::is_digest(sibling)
                && c.live() implies #[trigger] vm::run(
            merkle_step_code(),
            vm::at(c, (v + vm::nums(sibling)).push(vm::flag(right)) + vm::nums(digest), w),
        ) == Some(vm::at(c, v + vm::nums(poseidon2::parent(digest, sibling, right)), w)) by {
            lemma_merkle_step(c, v, w, digest, sibling, right);
        }
        reveal(merkle_step_code);
    }
    // The bit sits under the eight-element digest; bring it to the top.
    Script::new().num(DIGEST as i64).op(Opcode::Roll).then_script(ordered_compress())
}

/// A Merkle path: one sibling digest per level.
pub open spec fn is_path(siblings: Seq<Seq<int>>) -> bool {
    forall|i: int| 0 <= i < siblings.len() ==> poseidon2::is_digest(#[trigger] siblings[i])
}

/// The siblings and direction bits of levels `k` and up as they lie on the
/// stack, the topmost level deepest.
pub open spec fn path_items(siblings: Seq<Seq<int>>, right: Seq<bool>, k: nat) -> Seq<Item>
    decreases siblings.len() - k,
{
    if k >= siblings.len() {
        Seq::empty()
    } else {
        (path_items(siblings, right, k + 1) + vm::nums(siblings[k as int])).push(
            vm::flag(right[k as int]),
        )
    }
}

/// The root a leaf and a path lead to.
pub open spec fn path_root(leaf: Seq<int>, siblings: Seq<Seq<int>>, right: Seq<bool>) -> Seq<int> {
    poseidon2::path_digest(leaf, siblings, right, siblings.len())
}

/// The code of each level of a path.
pub open spec fn merkle_step_codes() -> spec_fn(int) -> Seq<Instr> {
    |k: int| merkle_step_code()
}

/// The code of [`merkle_path`].
#[verifier::opaque]
pub open spec fn merkle_path_code(depth: nat) -> Seq<Instr> {
    vm::flat(depth, merkle_step_codes())
}

/// What [`merkle_path`] does to a leaf and its path.
pub proof fn lemma_merkle_path(
    c: Ctx,
    v: Seq<Item>,
    w: Seq<Item>,
    leaf: Seq<int>,
    siblings: Seq<Seq<int>>,
    right: Seq<bool>,
)
    requires
        c.live(),
        poseidon2::is_digest(leaf),
        is_path(siblings),
    ensures
        vm::run(
            merkle_path_code(siblings.len()),
            vm::at(c, v + path_items(siblings, right, 0) + vm::nums(leaf), w),
        ) == Some(vm::at(c, v + vm::nums(path_root(leaf, siblings, right)), w)),
{
    reveal(merkle_path_code);
    let d = siblings.len();
    let st = |k: int|
        vm::at(
            c,
            v + path_items(siblings, right, k as nat) + vm::nums(
                poseidon2::path_digest(leaf, siblings, right, k as nat),
            ),
            w,
        );
    let f = merkle_step_codes();
    assert forall|k: int| 0 <= k < d implies #[trigger] vm::run(f(k), st(k)) == Some(st(k + 1)) by {
        let digest = poseidon2::path_digest(leaf, siblings, right, k as nat);
        let rest = v + path_items(siblings, right, (k + 1) as nat);
        poseidon2::lemma_path_digest_is_digest(leaf, siblings, right, k as nat);
        assert(v + path_items(siblings, right, k as nat) =~= (rest + vm::nums(siblings[k])).push(
            vm::flag(right[k]),
        ));
        lemma_merkle_step(c, rest, w, digest, siblings[k], right[k]);
    }
    vm::lemma_run_flat(d, f, st);
    assert(v + path_items(siblings, right, d) =~= v);
}

/// Walk a path of `depth` levels, leaving the computed root on the stack.
pub fn merkle_path(depth: usize) -> (r: Script)
    ensures
        r.code() == merkle_path_code(depth as nat),
        forall|
            leaf: Seq<int>,
            siblings: Seq<Seq<int>>,
            right: Seq<bool>,
            c: Ctx,
            v: Seq<Item>,
            w: Seq<Item>,
        |
            poseidon2::is_digest(leaf) && is_path(siblings) && siblings.len() == depth && c.live()
                ==> #[trigger] vm::run(
                r.code(),
                vm::at(c, v + path_items(siblings, right, 0) + vm::nums(leaf), w),
            ) == Some(vm::at(c, v + vm::nums(path_root(leaf, siblings, right)), w)),
{
    proof {
        assert forall|
            leaf: Seq<int>,
            siblings: Seq<Seq<int>>,
            right: Seq<bool>,
            c: Ctx,
            v: Seq<Item>,
            w: Seq<Item>,
        |
            poseidon2::is_digest(leaf) && is_path(siblings) && siblings.len() == depth
                && c.live() implies #[trigger] vm::run(
            merkle_path_code(depth as nat),
            vm::at(c, v + path_items(siblings, right, 0) + vm::nums(leaf), w),
        ) == Some(vm::at(c, v + vm::nums(path_root(leaf, siblings, right)), w)) by {
            lemma_merkle_path(c, v, w, leaf, siblings, right);
        }
        reveal(merkle_path_code);
    }
    let step = merkle_step();
    let mut r = Script::new();
    let mut k: usize = 0;
    while k < depth
        invariant
            k <= depth,
            step.code() == merkle_step_code(),
            r.code() == vm::flat(k as nat, merkle_step_codes()),
        decreases depth - k,
    {
        r = r.with(&step);
        k = k + 1;
    }
    r
}

/// The code of [`merkle_verify`].
#[verifier::opaque]
pub open spec fn merkle_verify_code(depth: nat) -> Seq<Instr> {
    merkle_path_code(depth) + vm::require_equal_code(8)
}

/// What [`merkle_verify`] does to an expected root, a leaf and its path.
pub proof fn lemma_merkle_verify(
    c: Ctx,
    v: Seq<Item>,
    w: Seq<Item>,
    root: Seq<Item>,
    leaf: Seq<int>,
    siblings: Seq<Seq<int>>,
    right: Seq<bool>,
)
    requires
        c.live(),
        root.len() == 8,
        poseidon2::is_digest(leaf),
        is_path(siblings),
    ensures
        vm::run(
            merkle_verify_code(siblings.len()),
            vm::at(c, v + root + path_items(siblings, right, 0) + vm::nums(leaf), w),
        ) == (if root == vm::nums(path_root(leaf, siblings, right)) {
            Some(vm::at(c, v, w))
        } else {
            None
        }),
{
    reveal(merkle_verify_code);
    broadcast use vm::group_run;

    poseidon2::lemma_path_digest_is_digest(leaf, siblings, right, siblings.len());
    lemma_merkle_path(c, v + root, w, leaf, siblings, right);
    vm::lemma_require_equal(c, v, w, root, vm::nums(path_root(leaf, siblings, right)));
}

/// Walk the path and require the result to equal a root already on the stack.
///
/// Expects the expected root, eight elements, beneath the path data.
pub fn merkle_verify(depth: usize) -> (r: Script)
    ensures
        r.code() == merkle_verify_code(depth as nat),
        forall|
            root: Seq<Item>,
            leaf: Seq<int>,
            siblings: Seq<Seq<int>>,
            right: Seq<bool>,
            c: Ctx,
            v: Seq<Item>,
            w: Seq<Item>,
        |
            root.len() == 8 && poseidon2::is_digest(leaf) && is_path(siblings) && siblings.len()
                == depth && c.live() ==> #[trigger] vm::run(
                r.code(),
                vm::at(c, v + root + path_items(siblings, right, 0) + vm::nums(leaf), w),
            ) == (if root == vm::nums(path_root(leaf, siblings, right)) {
                Some(vm::at(c, v, w))
            } else {
                None
            }),
{
    proof {
        assert forall|
            root: Seq<Item>,
            leaf: Seq<int>,
            siblings: Seq<Seq<int>>,
            right: Seq<bool>,
            c: Ctx,
            v: Seq<Item>,
            w: Seq<Item>,
        |
            root.len() == 8 && poseidon2::is_digest(leaf) && is_path(siblings) && siblings.len()
                == depth && c.live() implies #[trigger] vm::run(
            merkle_verify_code(depth as nat),
            vm::at(c, v + root + path_items(siblings, right, 0) + vm::nums(leaf), w),
        ) == (if root == vm::nums(path_root(leaf, siblings, right)) {
            Some(vm::at(c, v, w))
        } else {
            None
        }) by {
            lemma_merkle_verify(c, v, w, root, leaf, siblings, right);
        }
        reveal(merkle_verify_code);
    }
    merkle_path(depth).then_script(vm::require_equal(DIGEST))
}

/// The code of [`merkle_step_from_altstack`].
#[verifier::opaque]
pub open spec fn merkle_step_from_altstack_code() -> Seq<Instr> {
    vm::nil().push(vm::o(Opcode::FromAltStack)) + ordered_compress_code()
}

/// What [`merkle_step_from_altstack`] does.
pub proof fn lemma_merkle_step_from_altstack(
    c: Ctx,
    v: Seq<Item>,
    w: Seq<Item>,
    digest: Seq<int>,
    sibling: Seq<int>,
    right: bool,
)
    requires
        c.live(),
        poseidon2::is_digest(digest),
        poseidon2::is_digest(sibling),
    ensures
        vm::run(
            merkle_step_from_altstack_code(),
            vm::at(c, v + vm::nums(sibling) + vm::nums(digest), w.push(vm::flag(right))),
        ) == Some(vm::at(c, v + vm::nums(poseidon2::parent(digest, sibling, right)), w)),
{
    reveal(merkle_step_from_altstack_code);
    broadcast use vm::group_run;

    lemma_ordered_compress(c, v, w, digest, sibling, right);
}

/// One level, taking the direction bit from the altstack.
///
/// The stack-fed [`merkle_step`] lets the spender choose the direction, which
/// is only safe when the direction is already committed elsewhere. In a query
/// opening it is not: the direction bits *are* the query index, and the index
/// comes from the transcript. Sourcing them from the altstack lets the caller
/// push the sampled bits and leaves the spender no choice.
pub fn merkle_step_from_altstack() -> (r: Script)
    ensures
        r.code() == merkle_step_from_altstack_code(),
        forall|digest: Seq<int>, sibling: Seq<int>, right: bool, c: Ctx, v: Seq<Item>, w: Seq<Item>|
            poseidon2::is_digest(digest) && poseidon2::is_digest(sibling) && c.live()
                ==> #[trigger] vm::run(
                r.code(),
                vm::at(c, v + vm::nums(sibling) + vm::nums(digest), w.push(vm::flag(right))),
            ) == Some(vm::at(c, v + vm::nums(poseidon2::parent(digest, sibling, right)), w)),
{
    proof {
        assert forall|
            digest: Seq<int>,
            sibling: Seq<int>,
            right: bool,
            c: Ctx,
            v: Seq<Item>,
            w: Seq<Item>,
        |
            poseidon2::is_digest(digest) && poseidon2::is_digest(sibling)
                && c.live() implies #[trigger] vm::run(
            merkle_step_from_altstack_code(),
            vm::at(c, v + vm::nums(sibling) + vm::nums(digest), w.push(vm::flag(right))),
        ) == Some(vm::at(c, v + vm::nums(poseidon2::parent(digest, sibling, right)), w)) by {
            lemma_merkle_step_from_altstack(c, v, w, digest, sibling, right);
        }
        reveal(merkle_step_from_altstack_code);
    }
    Script::new().op(Opcode::FromAltStack).then_script(ordered_compress())
}

/// The siblings of levels `k` and up as they lie on the stack, the topmost
/// level deepest.
pub open spec fn sibling_items(siblings: Seq<Seq<int>>, k: nat) -> Seq<Item>
    decreases siblings.len() - k,
{
    if k >= siblings.len() {
        Seq::empty()
    } else {
        sibling_items(siblings, k + 1) + vm::nums(siblings[k as int])
    }
}

/// Direction bits as they lie on the altstack, the first level's on top.
pub open spec fn direction_items(right: Seq<bool>) -> Seq<Item> {
    Seq::new(right.len(), |i: int| vm::flag(right[right.len() - 1 - i]))
}

/// The code of each level of a path with its directions on the altstack.
pub open spec fn merkle_step_from_altstack_codes() -> spec_fn(int) -> Seq<Instr> {
    |k: int| merkle_step_from_altstack_code()
}

/// The code of [`merkle_verify_from_altstack`].
#[verifier::opaque]
pub open spec fn merkle_verify_from_altstack_code(depth: nat) -> Seq<Instr> {
    vm::flat(depth, merkle_step_from_altstack_codes()) + vm::require_equal_code(8)
}

/// What [`merkle_verify_from_altstack`] does.
pub proof fn lemma_merkle_verify_from_altstack(
    c: Ctx,
    v: Seq<Item>,
    w: Seq<Item>,
    root: Seq<Item>,
    leaf: Seq<int>,
    siblings: Seq<Seq<int>>,
    right: Seq<bool>,
)
    requires
        c.live(),
        root.len() == 8,
        poseidon2::is_digest(leaf),
        is_path(siblings),
        right.len() == siblings.len(),
    ensures
        vm::run(
            merkle_verify_from_altstack_code(siblings.len()),
            vm::at(
                c,
                v + root + sibling_items(siblings, 0) + vm::nums(leaf),
                w + direction_items(right),
            ),
        ) == (if root == vm::nums(path_root(leaf, siblings, right)) {
            Some(vm::at(c, v, w))
        } else {
            None
        }),
{
    reveal(merkle_verify_from_altstack_code);
    broadcast use vm::group_run;

    let d = siblings.len();
    let v0 = v + root;
    let st = |k: int|
        vm::at(
            c,
            v0 + sibling_items(siblings, k as nat) + vm::nums(
                poseidon2::path_digest(leaf, siblings, right, k as nat),
            ),
            w + direction_items(right.skip(k)),
        );
    let f = merkle_step_from_altstack_codes();
    assert forall|k: int| 0 <= k < d implies #[trigger] vm::run(f(k), st(k)) == Some(st(k + 1)) by {
        let digest = poseidon2::path_digest(leaf, siblings, right, k as nat);
        let rest = v0 + sibling_items(siblings, (k + 1) as nat);
        let w1 = w + direction_items(right.skip(k + 1));
        poseidon2::lemma_path_digest_is_digest(leaf, siblings, right, k as nat);
        assert(v0 + sibling_items(siblings, k as nat) =~= rest + vm::nums(siblings[k]));
        assert(w + direction_items(right.skip(k)) =~= w1.push(vm::flag(right[k])));
        lemma_merkle_step_from_altstack(c, rest, w1, digest, siblings[k], right[k]);
    }
    vm::lemma_run_flat(d, f, st);
    assert(right.skip(0) =~= right);
    assert(w + direction_items(right.skip(d as int)) =~= w);
    assert(v0 + sibling_items(siblings, d) =~= v0);
    poseidon2::lemma_path_digest_is_digest(leaf, siblings, right, d);
    vm::lemma_require_equal(c, v, w, root, vm::nums(path_root(leaf, siblings, right)));
}

/// Walk a path whose directions come from the altstack, least significant
/// first, and require the root to equal the one already on the stack.
///
/// Stack, bottom to top: `root (8)`, the siblings deepest-last, then the leaf.
/// Altstack: `depth` direction bits, the first level's on top.
pub fn merkle_verify_from_altstack(depth: usize) -> (r: Script)
    ensures
        r.code() == merkle_verify_from_altstack_code(depth as nat),
        forall|
            root: Seq<Item>,
            leaf: Seq<int>,
            siblings: Seq<Seq<int>>,
            right: Seq<bool>,
            c: Ctx,
            v: Seq<Item>,
            w: Seq<Item>,
        |
            root.len() == 8 && poseidon2::is_digest(leaf) && is_path(siblings) && siblings.len()
                == depth && right.len() == depth && c.live() ==> #[trigger] vm::run(
                r.code(),
                vm::at(
                    c,
                    v + root + sibling_items(siblings, 0) + vm::nums(leaf),
                    w + direction_items(right),
                ),
            ) == (if root == vm::nums(path_root(leaf, siblings, right)) {
                Some(vm::at(c, v, w))
            } else {
                None
            }),
{
    proof {
        assert forall|
            root: Seq<Item>,
            leaf: Seq<int>,
            siblings: Seq<Seq<int>>,
            right: Seq<bool>,
            c: Ctx,
            v: Seq<Item>,
            w: Seq<Item>,
        |
            root.len() == 8 && poseidon2::is_digest(leaf) && is_path(siblings) && siblings.len()
                == depth && right.len() == depth && c.live() implies #[trigger] vm::run(
            merkle_verify_from_altstack_code(depth as nat),
            vm::at(
                c,
                v + root + sibling_items(siblings, 0) + vm::nums(leaf),
                w + direction_items(right),
            ),
        ) == (if root == vm::nums(path_root(leaf, siblings, right)) {
            Some(vm::at(c, v, w))
        } else {
            None
        }) by {
            lemma_merkle_verify_from_altstack(c, v, w, root, leaf, siblings, right);
        }
        reveal(merkle_verify_from_altstack_code);
    }
    let step = merkle_step_from_altstack();
    let mut r = Script::new();
    let mut k: usize = 0;
    while k < depth
        invariant
            k <= depth,
            step.code() == merkle_step_from_altstack_code(),
            r.code() == vm::flat(k as nat, merkle_step_from_altstack_codes()),
        decreases depth - k,
    {
        r = r.with(&step);
        k = k + 1;
    }
    r.then_script(vm::require_equal(DIGEST))
}

} // verus!
