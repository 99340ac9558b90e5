//! The linear layers of the permutation row by row, the sparse forms they are
//! emitted in, and that no layer loses anything: the permutation is one.

use crate::arith;
use crate::constants::{
    EXTERNAL_FINAL, EXTERNAL_INITIAL, INITIAL_ROUNDS, INTERNAL, INTERNAL_ROUNDS,
};
use crate::poseidon2;
use crate::prime;
use vstd::arithmetic::power2::*;
use vstd::prelude::*;

verus! {

/// Output `i` of the four-by-four block, not reduced.
pub open spec fn mix(i: int, a: int, b: int, c: int, d: int) -> int {
    if i == 0 {
        2 * a + 3 * b + c + d
    } else if i == 1 {
        a + 2 * b + 3 * c + d
    } else if i == 2 {
        a + b + 2 * c + 3 * d
    } else {
        3 * a + b + c + 2 * d
    }
}

/// One output of the four-by-four block its index lies in, not reduced.
pub open spec fn block(s: Seq<int>, i: int) -> int {
    let b = 4 * (i / 4);
    mix(i % 4, s[b], s[b + 1], s[b + 2], s[b + 3])
}

/// The four blocks' outputs in one column, not reduced.
pub open spec fn column(s: Seq<int>, k: int) -> int {
    block(s, k) + block(s, k + 4) + block(s, k + 8) + block(s, k + 12)
}

/// The inner product written out.
proof fn lemma_dot16(row: Seq<int>, s: Seq<int>)
    ensures
        arith::dot(row, s, 16) == row[0] * s[0] + row[1] * s[1] + row[2] * s[2] + row[3] * s[3]
            + row[4] * s[4] + row[5] * s[5] + row[6] * s[6] + row[7] * s[7] + row[8] * s[8]
            + row[9] * s[9] + row[10] * s[10] + row[11] * s[11] + row[12] * s[12] + row[13] * s[13]
            + row[14] * s[14] + row[15] * s[15],
{
    reveal_with_fuel(arith::dot, 17);
}

proof fn lemma_scaled(r: int, x: int)
    by (nonlinear_arith)
    ensures
        r == 1 ==> r * x == x,
        r == 2 ==> r * x == 2 * x,
        r == 3 ==> r * x == 3 * x,
        r == 4 ==> r * x == 4 * x,
        r == 6 ==> r * x == 6 * x,
{
}

/// A row of the external layer, through its blocks.
#[verifier::spinoff_prover]
#[verifier::rlimit(40)]
pub proof fn lemma_mds_row(s: Seq<int>, i: int)
    requires
        0 <= i < 16,
    ensures
        arith::dot(poseidon2::mds_matrix()[i], s, 16) == block(s, i) + column(s, i % 4),
{
    let row = poseidon2::mds_matrix()[i];
    lemma_dot16(row, s);
    lemma_scaled(row[0], s[0]);
    lemma_scaled(row[1], s[1]);
    lemma_scaled(row[2], s[2]);
    lemma_scaled(row[3], s[3]);
    lemma_scaled(row[4], s[4]);
    lemma_scaled(row[5], s[5]);
    lemma_scaled(row[6], s[6]);
    lemma_scaled(row[7], s[7]);
    lemma_scaled(row[8], s[8]);
    lemma_scaled(row[9], s[9]);
    lemma_scaled(row[10], s[10]);
    lemma_scaled(row[11], s[11]);
    lemma_scaled(row[12], s[12]);
    lemma_scaled(row[13], s[13]);
    lemma_scaled(row[14], s[14]);
    lemma_scaled(row[15], s[15]);
    if i == 0 {
    } else if i == 1 {
    } else if i == 2 {
    } else if i == 3 {
    } else if i == 4 {
    } else if i == 5 {
    } else if i == 6 {
    } else if i == 7 {
    } else if i == 8 {
    } else if i == 9 {
    } else if i == 10 {
    } else if i == 11 {
    } else if i == 12 {
    } else if i == 13 {
    } else if i == 14 {
    } else {
    }
}

// ---------------------------------------------------------------------------
// The external layer in two passes
// ---------------------------------------------------------------------------

/// The first pass: `M4` on every block of four.
pub open spec fn block_matrix() -> Seq<Seq<int>> {
    Seq::new(
        16,
        |i: int|
            Seq::new(
                16,
                |j: int|
                    if i / 4 == j / 4 {
                        poseidon2::m4(i % 4, j % 4)
                    } else {
                        0
                    },
            ),
    )
}

/// The second pass: every element plus the sum of its column, those whose index
/// leaves the same remainder by four.
pub open spec fn column_matrix() -> Seq<Seq<int>> {
    Seq::new(
        16,
        |i: int|
            Seq::new(
                16,
                |j: int|
                    if i == j {
                        2
                    } else if i % 4 == j % 4 {
                        1
                    } else {
                        0
                    },
            ),
    )
}

/// A row of the first pass.
#[verifier::spinoff_prover]
#[verifier::rlimit(40)]
proof fn lemma_block_row(s: Seq<int>, i: int)
    requires
        0 <= i < 16,
    ensures
        arith::dot(block_matrix()[i], s, 16) == block(s, i),
{
    let row = block_matrix()[i];
    lemma_dot16(row, s);
    lemma_scaled(row[0], s[0]);
    lemma_scaled(row[1], s[1]);
    lemma_scaled(row[2], s[2]);
    lemma_scaled(row[3], s[3]);
    lemma_scaled(row[4], s[4]);
    lemma_scaled(row[5], s[5]);
    lemma_scaled(row[6], s[6]);
    lemma_scaled(row[7], s[7]);
    lemma_scaled(row[8], s[8]);
    lemma_scaled(row[9], s[9]);
    lemma_scaled(row[10], s[10]);
    lemma_scaled(row[11], s[11]);
    lemma_scaled(row[12], s[12]);
    lemma_scaled(row[13], s[13]);
    lemma_scaled(row[14], s[14]);
    lemma_scaled(row[15], s[15]);
    if i == 0 {
    } else if i == 1 {
    } else if i == 2 {
    } else if i == 3 {
    } else if i == 4 {
    } else if i == 5 {
    } else if i == 6 {
    } else if i == 7 {
    } else if i == 8 {
    } else if i == 9 {
    } else if i == 10 {
    } else if i == 11 {
    } else if i == 12 {
    } else if i == 13 {
    } else if i == 14 {
    } else {
    }
}

/// A row of the second pass.
#[verifier::spinoff_prover]
#[verifier::rlimit(40)]
proof fn lemma_column_row(t: Seq<int>, i: int)
    requires
        0 <= i < 16,
    ensures
        arith::dot(column_matrix()[i], t, 16) == t[i] + (t[i % 4] + t[i % 4 + 4] + t[i % 4 + 8] + t[
        i % 4 + 12]),
{
    let row = column_matrix()[i];
    lemma_dot16(row, t);
    lemma_scaled(row[0], t[0]);
    lemma_scaled(row[1], t[1]);
    lemma_scaled(row[2], t[2]);
    lemma_scaled(row[3], t[3]);
    lemma_scaled(row[4], t[4]);
    lemma_scaled(row[5], t[5]);
    lemma_scaled(row[6], t[6]);
    lemma_scaled(row[7], t[7]);
    lemma_scaled(row[8], t[8]);
    lemma_scaled(row[9], t[9]);
    lemma_scaled(row[10], t[10]);
    lemma_scaled(row[11], t[11]);
    lemma_scaled(row[12], t[12]);
    lemma_scaled(row[13], t[13]);
    lemma_scaled(row[14], t[14]);
    lemma_scaled(row[15], t[15]);
    if i == 0 {
    } else if i == 1 {
    } else if i == 2 {
    } else if i == 3 {
    } else if i == 4 {
    } else if i == 5 {
    } else if i == 6 {
    } else if i == 7 {
    } else if i == 8 {
    } else if i == 9 {
    } else if i == 10 {
    } else if i == 11 {
    } else if i == 12 {
    } else if i == 13 {
    } else if i == 14 {
    } else {
    }
}

/// A sum can be reduced term by term.
proof fn lemma_red_sum(x: int, a: int, b: int, c: int, d: int)
    ensures
        arith::red(
            arith::red(x) + (arith::red(a) + arith::red(b) + arith::red(c) + arith::red(d)),
        ) == arith::red(x + (a + b + c + d)),
{
    arith::lemma_red_add(a, arith::red(b));
    arith::lemma_red_add(a, b);
    arith::lemma_red_add(arith::red(a) + arith::red(b), arith::red(c));
    arith::lemma_red_add(a + b, c);
    arith::lemma_red_add(arith::red(a) + arith::red(b) + arith::red(c), arith::red(d));
    arith::lemma_red_add(a + b + c, d);
    arith::lemma_red_add(
        arith::red(x),
        arith::red(a) + arith::red(b) + arith::red(c) + arith::red(d),
    );
    arith::lemma_red_add(x, a + b + c + d);
}

/// The two passes make up the external layer: blocks first, then columns.
pub proof fn the_external_layer_factors(s: Seq<int>)
    requires
        s.len() == 16,
    ensures
        arith::apply(column_matrix(), arith::apply(block_matrix(), s)) == poseidon2::mds(s),
{
    let t = arith::apply(block_matrix(), s);
    assert forall|k: int| 0 <= k < 16 implies #[trigger] t[k] == arith::red(block(s, k)) by {
        lemma_block_row(s, k);
    }
    assert forall|i: int| 0 <= i < 16 implies arith::red(
        arith::dot(#[trigger] column_matrix()[i], t, 16),
    ) == poseidon2::mds(s)[i] by {
        let r = i % 4;
        lemma_column_row(t, i);
        lemma_mds_row(s, i);
        lemma_red_sum(block(s, i), block(s, r), block(s, r + 4), block(s, r + 8), block(s, r + 12));
    }
    assert(arith::apply(column_matrix(), t) =~= poseidon2::mds(s));
}

// ---------------------------------------------------------------------------
// The internal layer as a sum and a share
// ---------------------------------------------------------------------------

/// The sum of the first `n` entries.
pub open spec fn total(s: Seq<int>, n: nat) -> int
    decreases n,
{
    if n == 0 {
        0
    } else {
        total(s, (n - 1) as nat) + s[n - 1]
    }
}

/// The inner product with a row of ones but for one entry.
proof fn lemma_dot_ones(row: Seq<int>, s: Seq<int>, n: nat, i: int)
    requires
        forall|j: int| 0 <= j < n && j != i ==> #[trigger] row[j] == 1,
    ensures
        arith::dot(row, s, n) == total(s, n) + (if 0 <= i < n {
            row[i] * s[i] - s[i]
        } else {
            0
        }),
    decreases n,
{
    if n > 0 {
        lemma_dot_ones(row, s, (n - 1) as nat, i);
        if i != n - 1 {
            lemma_scaled(row[n - 1], s[n - 1]);
        }
    }
}

/// A row of the internal layer: the sum of all, plus the diagonal's share.
pub proof fn lemma_internal_row(s: Seq<int>, i: int)
    requires
        0 <= i < 16,
    ensures
        arith::red(arith::dot(poseidon2::internal_matrix()[i], s, 16)) == arith::red(
            total(s, 16) + poseidon2::diagonal(i) * s[i],
        ),
{
    let row = poseidon2::internal_matrix()[i];
    let v = poseidon2::diagonal(i);
    let x = s[i];
    let t = total(s, 16);
    lemma_dot_ones(row, s, 16, i);
    assert(row[i] == arith::red(1 + v));
    arith::lemma_red_mul(1 + v, x);
    arith::lemma_red_add(t - x, arith::red(1 + v) * x);
    arith::lemma_red_add(t - x, (1 + v) * x);
    assert((1 + v) * x == x + v * x) by (nonlinear_arith);
}

/// A row of ones.
pub open spec fn ones() -> Seq<int> {
    Seq::new(16, |j: int| 1int)
}

/// What entry `i` adds to the sum of all: its product with the diagonal.
pub open spec fn share(i: int) -> int {
    arith::red(poseidon2::diagonal(i))
}

/// The internal layer is the sum of all plus each element's share of itself.
pub proof fn the_internal_layer_is_a_sum_and_shares(s: Seq<int>, i: int)
    requires
        s.len() == 16,
        0 <= i < 16,
    ensures
        arith::fadd(
            arith::fmul(s[i], share(i)),
            arith::red(arith::dot(ones(), s, 16)),
        ) == poseidon2::internal(s)[i],
{
    let v = poseidon2::diagonal(i);
    lemma_dot_ones(ones(), s, 16, -1);
    lemma_internal_row(s, i);
    arith::lemma_red_mul(s[i], v);
    arith::lemma_red_add(s[i] * v, total(s, 16));
    assert(v * s[i] == s[i] * v) by (nonlinear_arith);
}

// ---------------------------------------------------------------------------
// The layers are injective
// ---------------------------------------------------------------------------

/// A combination of multiples of the modulus is one.
proof fn lemma_combine(x: int, y: int, a: int, b: int)
    requires
        arith::red(x) == 0,
        arith::red(y) == 0,
    ensures
        arith::red(a * x + b * y) == 0,
{
    arith::lemma_red_mul(a, x);
    arith::lemma_red_mul(b, y);
    arith::lemma_red_add(a * x, b * y);
    assert(a * 0 == 0 && b * 0 == 0);
    arith::lemma_red(0);
}

/// The same for four of them.
proof fn lemma_combine4(x: int, y: int, z: int, w: int, a: int, b: int, c: int, d: int)
    requires
        arith::red(x) == 0,
        arith::red(y) == 0,
        arith::red(z) == 0,
        arith::red(w) == 0,
    ensures
        arith::red(a * x + b * y + c * z + d * w) == 0,
{
    lemma_combine(x, y, a, b);
    lemma_combine(z, w, c, d);
    lemma_combine(a * x + b * y, c * z + d * w, 1, 1);
}

/// A factor can be taken out of a multiple of the modulus.
proof fn lemma_factor(k: int, e: int)
    requires
        0 < k < arith::modulus(),
        arith::red(k * e) == 0,
    ensures
        arith::red(e) == 0,
{
    arith::lemma_red(e);
    arith::lemma_red_mul(k, e);
    if arith::red(e) != 0 {
        prime::no_zero_divisors(k, arith::red(e));
    }
}

/// Canonical elements that differ by a multiple of the modulus are the same.
proof fn lemma_same(a: int, b: int)
    requires
        arith::felt(a),
        arith::felt(b),
        arith::red(a - b) == 0,
    ensures
        a == b,
{
    arith::lemma_red(a - b);
}

/// The four-by-four block has an inverse.
proof fn lemma_block_vanishes(a: int, b: int, c: int, d: int)
    requires
        arith::red(mix(0, a, b, c, d)) == 0,
        arith::red(mix(1, a, b, c, d)) == 0,
        arith::red(mix(2, a, b, c, d)) == 0,
        arith::red(mix(3, a, b, c, d)) == 0,
    ensures
        arith::red(a) == 0,
        arith::red(b) == 0,
        arith::red(c) == 0,
        arith::red(d) == 0,
{
    let x = mix(0, a, b, c, d);
    let y = mix(1, a, b, c, d);
    let z = mix(2, a, b, c, d);
    let w = mix(3, a, b, c, d);
    lemma_combine4(x, y, z, w, -4, 3, -11, 17);
    assert(-4 * x + 3 * y - 11 * z + 17 * w == 35 * a);
    lemma_combine4(x, y, z, w, 17, -4, 3, -11);
    assert(17 * x - 4 * y + 3 * z - 11 * w == 35 * b);
    lemma_combine4(x, y, z, w, -11, 17, -4, 3);
    assert(-11 * x + 17 * y - 4 * z + 3 * w == 35 * c);
    lemma_combine4(x, y, z, w, 3, -11, 17, -4);
    assert(3 * x - 11 * y + 17 * z - 4 * w == 35 * d);
    lemma_factor(35, a);
    lemma_factor(35, b);
    lemma_factor(35, c);
    lemma_factor(35, d);
}

/// How two states differ, element by element.
spec fn difference(s: Seq<int>, t: Seq<int>) -> Seq<int> {
    Seq::new(16, |i: int| s[i] - t[i])
}

/// The blocks of a difference.
proof fn lemma_block_difference(s: Seq<int>, t: Seq<int>, i: int)
    requires
        0 <= i < 16,
    ensures
        block(difference(s, t), i) == block(s, i) - block(t, i),
{
}

/// Where every row vanishes with its column's sum added, the rows vanish.
proof fn lemma_column_vanishes(x: int, y: int, z: int, w: int)
    requires
        arith::red(x + (x + y + z + w)) == 0,
        arith::red(y + (x + y + z + w)) == 0,
        arith::red(z + (x + y + z + w)) == 0,
        arith::red(w + (x + y + z + w)) == 0,
    ensures
        arith::red(x) == 0,
        arith::red(y) == 0,
        arith::red(z) == 0,
        arith::red(w) == 0,
{
    let c = x + y + z + w;
    // The four rows add up to five times the sum.
    lemma_combine4(x + c, y + c, z + c, w + c, 1, 1, 1, 1);
    assert(1 * (x + c) + 1 * (y + c) + 1 * (z + c) + 1 * (w + c) == 5 * c);
    lemma_factor(5, c);
    lemma_combine(x + c, c, 1, -1);
    lemma_combine(y + c, c, 1, -1);
    lemma_combine(z + c, c, 1, -1);
    lemma_combine(w + c, c, 1, -1);
    assert(1 * (x + c) + -1 * c == x);
    assert(1 * (y + c) + -1 * c == y);
    assert(1 * (z + c) + -1 * c == z);
    assert(1 * (w + c) + -1 * c == w);
}

/// What the external layer makes of a difference it does not see.
proof fn lemma_mds_difference(s: Seq<int>, t: Seq<int>, i: int)
    requires
        s.len() == 16,
        t.len() == 16,
        poseidon2::mds(s) == poseidon2::mds(t),
        0 <= i < 16,
    ensures
        arith::red(block(difference(s, t), i) + column(difference(s, t), i % 4)) == 0,
{
    let a = arith::dot(poseidon2::mds_matrix()[i], s, 16);
    let b = arith::dot(poseidon2::mds_matrix()[i], t, 16);
    assert(poseidon2::mds(s)[i] == arith::red(a));
    assert(poseidon2::mds(t)[i] == arith::red(b));
    lemma_mds_row(s, i);
    lemma_mds_row(t, i);
    lemma_block_difference(s, t, i);
    lemma_block_difference(s, t, i % 4);
    lemma_block_difference(s, t, i % 4 + 4);
    lemma_block_difference(s, t, i % 4 + 8);
    lemma_block_difference(s, t, i % 4 + 12);
    arith::lemma_red_sub(a, b);
    arith::lemma_red(0);
}

/// The blocks of one column of a difference the external layer does not see.
proof fn lemma_blocks_vanish(s: Seq<int>, t: Seq<int>, r: int)
    requires
        s.len() == 16,
        t.len() == 16,
        poseidon2::mds(s) == poseidon2::mds(t),
        0 <= r < 4,
    ensures
        arith::red(block(difference(s, t), r)) == 0,
        arith::red(block(difference(s, t), r + 4)) == 0,
        arith::red(block(difference(s, t), r + 8)) == 0,
        arith::red(block(difference(s, t), r + 12)) == 0,
{
    let d = difference(s, t);
    let x = block(d, r);
    let y = block(d, r + 4);
    let z = block(d, r + 8);
    let w = block(d, r + 12);
    let c = column(d, r);
    assert(c == x + y + z + w);
    assert(arith::red(x + c) == 0) by {
        lemma_mds_difference(s, t, r);
    }
    assert(arith::red(y + c) == 0) by {
        lemma_mds_difference(s, t, r + 4);
        assert((r + 4) % 4 == r);
    }
    assert(arith::red(z + c) == 0) by {
        lemma_mds_difference(s, t, r + 8);
        assert((r + 8) % 4 == r);
    }
    assert(arith::red(w + c) == 0) by {
        lemma_mds_difference(s, t, r + 12);
        assert((r + 12) % 4 == r);
    }
    lemma_column_vanishes(x, y, z, w);
}

/// The external layer loses nothing.
pub proof fn mds_is_injective(s: Seq<int>, t: Seq<int>)
    requires
        poseidon2::is_state(s),
        poseidon2::is_state(t),
        poseidon2::mds(s) == poseidon2::mds(t),
    ensures
        s == t,
{
    let d = difference(s, t);
    lemma_blocks_vanish(s, t, 0);
    lemma_blocks_vanish(s, t, 1);
    lemma_blocks_vanish(s, t, 2);
    lemma_blocks_vanish(s, t, 3);
    lemma_block_vanishes(d[0], d[1], d[2], d[3]);
    lemma_block_vanishes(d[4], d[5], d[6], d[7]);
    lemma_block_vanishes(d[8], d[9], d[10], d[11]);
    lemma_block_vanishes(d[12], d[13], d[14], d[15]);
    assert forall|i: int| 0 <= i < 16 implies s[i] == t[i] by {
        assert(arith::red(d[i]) == 0);
        lemma_same(s[i], t[i]);
    }
    assert(s =~= t);
}

/// Twelve over the entries of the diagonal.
spec fn weight(i: int) -> int {
    if i == 0 {
        -6
    } else if i == 1 {
        12
    } else if i == 2 {
        6
    } else if i == 3 {
        24
    } else if i == 4 {
        4
    } else if i == 5 {
        3
    } else if i == 6 {
        -24
    } else if i == 7 {
        -4
    } else if i == 8 {
        -3
    } else if i == 9 {
        0xc00
    } else if i == 10 {
        96
    } else if i == 11 {
        0xc000000
    } else if i == 12 {
        -0xc00
    } else if i == 13 {
        -96
    } else if i == 14 {
        -192
    } else {
        -0xc000000
    }
}

/// Twelve over an inverse power of two.
proof fn lemma_weight_of_inverse(k: nat)
    ensures
        arith::red(12 * pow2(k) * arith::inv_pow2(k)) == 12,
        arith::red(-(12 * pow2(k)) * -arith::inv_pow2(k)) == 12,
{
    let h = arith::inv_pow2(k);
    let q = pow2(k) as int;
    arith::inv_pow2_inverts(k);
    arith::lemma_red_mul(12, h * q);
    arith::lemma_red(12);
    assert(12 * q * h == 12 * (h * q)) by (nonlinear_arith);
    assert(-(12 * q) * -h == 12 * q * h) by (nonlinear_arith);
}

/// The weights undo the diagonal, up to twelve.
proof fn lemma_weight(i: int)
    requires
        0 <= i < 16,
    ensures
        arith::red(weight(i) * poseidon2::diagonal(i)) == 12,
{
    lemma2_to64();
    lemma_weight_of_inverse(1);
    lemma_weight_of_inverse(3);
    lemma_weight_of_inverse(4);
    lemma_weight_of_inverse(8);
    lemma_weight_of_inverse(24);
    arith::lemma_red(12);
}

/// The sum of the first `n` weights.
spec fn weights(n: nat) -> int
    decreases n,
{
    if n == 0 {
        0
    } else {
        weights((n - 1) as nat) + weight(n - 1)
    }
}

/// One row of the internal layer, multiplied by its weight.
proof fn lemma_weighted_row(d: Seq<int>, e: int, i: int)
    requires
        0 <= i < 16,
        arith::red(e + poseidon2::diagonal(i) * d[i]) == 0,
    ensures
        arith::red(weight(i) * e + 12 * d[i]) == 0,
{
    let w = weight(i);
    let v = poseidon2::diagonal(i);
    lemma_weight(i);
    lemma_combine(e + v * d[i], 0, w, 0);
    assert(w * (e + v * d[i]) + 0 * 0 == w * e + w * v * d[i]) by (nonlinear_arith);
    arith::lemma_red_mul(w * v, d[i]);
    arith::lemma_red_add(w * e, w * v * d[i]);
    arith::lemma_red_add(w * e, 12 * d[i]);
}

/// The weighted rows add up.
proof fn lemma_weighted_sum(d: Seq<int>, e: int, n: nat)
    requires
        n <= 16,
        forall|i: int|
            0 <= i < 16 ==> arith::red(e + #[trigger] poseidon2::diagonal(i) * d[i]) == 0,
    ensures
        arith::red(weights(n) * e + 12 * total(d, n)) == 0,
    decreases n,
{
    if n == 0 {
        assert(0 * e == 0);
        arith::lemma_red(0);
    } else {
        let k = (n - 1) as nat;
        lemma_weighted_sum(d, e, k);
        assert(arith::red(e + poseidon2::diagonal(n - 1) * d[n - 1]) == 0);
        lemma_weighted_row(d, e, n - 1);
        lemma_combine(
            weights(k) * e + 12 * total(d, k),
            weight(n - 1) * e + 12 * d[n - 1],
            1,
            1,
        );
        assert(weights(n) * e == weights(k) * e + weight(n - 1) * e) by (nonlinear_arith)
            requires
                weights(n) == weights(k) + weight(n - 1),
        ;
    }
}

/// The sum of a difference.
proof fn lemma_total_difference(s: Seq<int>, t: Seq<int>, n: nat)
    requires
        n <= 16,
    ensures
        total(difference(s, t), n) == total(s, n) - total(t, n),
    decreases n,
{
    if n > 0 {
        lemma_total_difference(s, t, (n - 1) as nat);
    }
}

/// The weights add up to minus fifteen times twelve.
proof fn lemma_weights()
    ensures
        weights(16) == -180,
{
    reveal_with_fuel(weights, 17);
}

/// What the internal layer makes of a difference it does not see.
proof fn lemma_internal_difference(s: Seq<int>, t: Seq<int>, i: int)
    requires
        s.len() == 16,
        t.len() == 16,
        poseidon2::internal(s) == poseidon2::internal(t),
        0 <= i < 16,
    ensures
        arith::red(
            total(difference(s, t), 16) + poseidon2::diagonal(i) * difference(s, t)[i],
        ) == 0,
{
    let v = poseidon2::diagonal(i);
    let a = arith::dot(poseidon2::internal_matrix()[i], s, 16);
    let b = arith::dot(poseidon2::internal_matrix()[i], t, 16);
    let x = total(s, 16) + v * s[i];
    let y = total(t, 16) + v * t[i];
    assert(poseidon2::internal(s)[i] == arith::red(a));
    assert(poseidon2::internal(t)[i] == arith::red(b));
    lemma_internal_row(s, i);
    lemma_internal_row(t, i);
    arith::lemma_red_sub(x, y);
    arith::lemma_red(0);
    lemma_total_difference(s, t, 16);
    assert(v * s[i] - v * t[i] == v * (s[i] - t[i])) by (nonlinear_arith);
}

/// The internal layer loses nothing.
pub proof fn internal_is_injective(s: Seq<int>, t: Seq<int>)
    requires
        poseidon2::is_state(s),
        poseidon2::is_state(t),
        poseidon2::internal(s) == poseidon2::internal(t),
    ensures
        s == t,
{
    let d = difference(s, t);
    let e = total(d, 16);
    assert forall|i: int| 0 <= i < 16 implies arith::red(
        e + #[trigger] poseidon2::diagonal(i) * d[i],
    ) == 0 by {
        lemma_internal_difference(s, t, i);
    }
    assert(arith::red(e) == 0) by {
        lemma_weighted_sum(d, e, 16);
        lemma_weights();
        lemma_combine(-180 * e + 12 * e, 0, -1, 0);
        assert(-1 * (-180 * e + 12 * e) + 0 * 0 == 168 * e);
        lemma_factor(168, e);
    }
    assert forall|i: int| 0 <= i < 16 implies s[i] == t[i] by {
        let w = weight(i);
        assert(arith::red(e + poseidon2::diagonal(i) * d[i]) == 0);
        lemma_weighted_row(d, e, i);
        lemma_combine(w * e + 12 * d[i], e, 1, -w);
        assert(1 * (w * e + 12 * d[i]) + -w * e == 12 * d[i]) by (nonlinear_arith);
        lemma_factor(12, d[i]);
        lemma_same(s[i], t[i]);
    }
    assert(s =~= t);
}

/// Adding a constant and cubing loses nothing.
proof fn lemma_sbox(x: int, y: int, c: int)
    requires
        arith::felt(x),
        arith::felt(y),
        poseidon2::sbox(x, c) == poseidon2::sbox(y, c),
    ensures
        x == y,
{
    arith::lemma_red(x + c);
    arith::lemma_red(y + c);
    prime::cubing_is_injective(arith::fadd(x, c), arith::fadd(y, c));
    arith::lemma_red_sub(x + c, y + c);
    arith::lemma_red(0);
    lemma_same(x, y);
}

/// A layer of S-boxes loses nothing.
proof fn lemma_full_sbox(s: Seq<int>, t: Seq<int>, rc: Seq<u32>)
    requires
        poseidon2::is_state(s),
        poseidon2::is_state(t),
        poseidon2::full_sbox(s, rc) == poseidon2::full_sbox(t, rc),
    ensures
        s == t,
{
    assert forall|i: int| 0 <= i < 16 implies s[i] == t[i] by {
        assert(poseidon2::full_sbox(s, rc)[i] == poseidon2::sbox(s[i], rc[i] as int));
        assert(poseidon2::full_sbox(t, rc)[i] == poseidon2::sbox(t[i], rc[i] as int));
        lemma_sbox(s[i], t[i], rc[i] as int);
    }
    assert(s =~= t);
}

/// A single S-box loses nothing.
proof fn lemma_partial_sbox(s: Seq<int>, t: Seq<int>, c: int)
    requires
        poseidon2::is_state(s),
        poseidon2::is_state(t),
        poseidon2::partial_sbox(s, c) == poseidon2::partial_sbox(t, c),
    ensures
        s == t,
{
    let a = poseidon2::partial_sbox(s, c);
    let b = poseidon2::partial_sbox(t, c);
    assert forall|i: int| 0 <= i < 16 implies s[i] == t[i] by {
        assert(a[i] == b[i]);
        if i == 0 {
            lemma_sbox(s[0], t[0], c);
        }
    }
    assert(s =~= t);
}

/// S-boxes keep states states.
proof fn lemma_sboxes_keep_states(s: Seq<int>, rc: Seq<u32>, c: int)
    requires
        poseidon2::is_state(s),
    ensures
        poseidon2::is_state(poseidon2::full_sbox(s, rc)),
        poseidon2::is_state(poseidon2::partial_sbox(s, c)),
{
    assert forall|x: int, k: int| arith::felt(#[trigger] poseidon2::sbox(x, k)) by {
        let y = arith::fadd(x, k);
        arith::lemma_red(y * arith::fmul(y, y));
    }
}

/// No round loses anything.
pub proof fn rounds_are_injective(s: Seq<int>, t: Seq<int>, k: int)
    requires
        poseidon2::is_state(s),
        poseidon2::is_state(t),
        poseidon2::round(s, k) == poseidon2::round(t, k),
    ensures
        s == t,
{
    if k == 0 {
        mds_is_injective(s, t);
    } else if k <= INITIAL_ROUNDS {
        let rc = EXTERNAL_INITIAL@[k - 1]@;
        lemma_sboxes_keep_states(s, rc, 0);
        lemma_sboxes_keep_states(t, rc, 0);
        mds_is_injective(poseidon2::full_sbox(s, rc), poseidon2::full_sbox(t, rc));
        lemma_full_sbox(s, t, rc);
    } else if k <= INITIAL_ROUNDS + INTERNAL_ROUNDS {
        let c = INTERNAL@[k - 1 - INITIAL_ROUNDS] as int;
        lemma_sboxes_keep_states(s, Seq::empty(), c);
        lemma_sboxes_keep_states(t, Seq::empty(), c);
        internal_is_injective(poseidon2::partial_sbox(s, c), poseidon2::partial_sbox(t, c));
        lemma_partial_sbox(s, t, c);
    } else {
        let rc = EXTERNAL_FINAL@[k - 1 - INITIAL_ROUNDS - INTERNAL_ROUNDS]@;
        lemma_sboxes_keep_states(s, rc, 0);
        lemma_sboxes_keep_states(t, rc, 0);
        mds_is_injective(poseidon2::full_sbox(s, rc), poseidon2::full_sbox(t, rc));
        lemma_full_sbox(s, t, rc);
    }
}

/// No run of rounds loses anything.
pub proof fn runs_are_injective(s: Seq<int>, t: Seq<int>, n: nat)
    requires
        poseidon2::is_state(s),
        poseidon2::is_state(t),
        poseidon2::after(s, n) == poseidon2::after(t, n),
    ensures
        s == t,
    decreases n,
{
    if n > 0 {
        let k = (n - 1) as nat;
        poseidon2::lemma_after_is_state(s, k);
        poseidon2::lemma_after_is_state(t, k);
        rounds_are_injective(poseidon2::after(s, k), poseidon2::after(t, k), n - 1);
        runs_are_injective(s, t, k);
    }
}

/// The permutation is one: different states permute to different states.
pub proof fn the_permutation_is_injective(s: Seq<int>, t: Seq<int>)
    requires
        poseidon2::is_state(s),
        poseidon2::is_state(t),
        s != t,
    ensures
        poseidon2::permutation(s) != poseidon2::permutation(t),
{
    if poseidon2::permutation(s) == poseidon2::permutation(t) {
        runs_are_injective(s, t, poseidon2::round_count());
    }
}

/// Absorbing different elements into the transcript sponge leaves it in
/// different states, whatever their number.
pub proof fn absorbing_other_elements_moves_the_state(s: Seq<int>, x: Seq<int>, y: Seq<int>)
    requires
        poseidon2::is_state(s),
        arith::felts(x),
        arith::felts(y),
        x.len() <= 8,
        y.len() <= 8,
        x != y,
    ensures
        poseidon2::duplex(s, x) != poseidon2::duplex(s, y),
{
    poseidon2::absorbed_inputs_are_bound(s, x, y);
    poseidon2::lemma_duplex_is_state(s, x);
    poseidon2::lemma_duplex_is_state(s, y);
    the_permutation_is_injective(poseidon2::duplex_input(s, x), poseidon2::duplex_input(s, y));
}

} // verus!
