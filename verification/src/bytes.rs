//! How long scripts are, in bytes.
//!
//! Script is witness data, so one byte is one unit of weight. A size is the sum
//! of the sizes of the instructions: one byte for an opcode, and for a push what
//! the number or the string takes.

use crate::arith;
use crate::constants::{
    EXTERNAL_FINAL, EXTERNAL_INITIAL, INITIAL_ROUNDS, INTERNAL, INTERNAL_ROUNDS,
};
use crate::disprove;
use crate::ext4;
use crate::field;
use crate::layers;
use crate::merkle;
use crate::permutation;
use crate::poseidon2;
use crate::script::{self, Instr, Opcode};
use crate::vm;
use crate::winternitz;
use vstd::arithmetic::power2::*;
use vstd::prelude::*;

verus! {

// ---------------------------------------------------------------------------
// Sizes of pieces
// ---------------------------------------------------------------------------

/// Bytes a push of `n` takes, for the numbers that are operands.
pub open spec fn num_size(n: int) -> nat {
    let m = if n < 0 {
        -n
    } else {
        n
    };
    if -1 <= n <= 16 {
        1
    } else if m < 0x80 {
        2
    } else if m < 0x8000 {
        3
    } else if m < 0x800000 {
        4
    } else {
        5
    }
}

/// Bytes one instruction takes.
pub open spec fn weight(i: Instr) -> nat {
    script::encode(i).len()
}

/// No instructions take no bytes.
pub broadcast proof fn lemma_nil()
    ensures
        #[trigger] script::size(vm::nil()) == 0,
{
}

/// One more instruction.
pub broadcast proof fn lemma_push(p: Seq<Instr>, i: Instr)
    ensures
        #[trigger] script::size(p.push(i)) == script::size(p) + weight(i),
{
    assert(p.push(i).drop_last() =~= p);
}

/// One script after another.
pub broadcast proof fn lemma_concat(p: Seq<Instr>, q: Seq<Instr>)
    ensures
        #[trigger] script::size(p + q) == script::size(p) + script::size(q),
{
    script::lemma_assemble_concat(p, q);
}

/// An opcode is one byte.
pub broadcast proof fn lemma_op(op: Opcode)
    ensures
        #[trigger] weight(vm::o(op)) == 1,
{
}

/// A push of a number.
pub broadcast proof fn lemma_num(n: int)
    requires
        -0x80000000 < n < 0x80000000,
    ensures
        #[trigger] weight(vm::k(n)) == num_size(n),
{
    reveal_with_fuel(script::le_bytes, 5);
}

/// A push of a string.
pub broadcast proof fn lemma_data(d: Seq<u8>)
    ensures
        #[trigger] weight(Instr::Data(d)) == 1 + d.len(),
{
}

/// Sizes of pieces.
pub broadcast group group_size {
    lemma_nil,
    lemma_push,
    lemma_concat,
    lemma_op,
    lemma_num,
    lemma_data,
}

/// Copies of an opcode.
pub broadcast proof fn lemma_ops(n: nat, op: Opcode)
    ensures
        #[trigger] script::size(vm::ops(n, op)) == n,
    decreases n,
{
    if n == 0 {
        assert(vm::ops(n, op) =~= Seq::empty());
    } else {
        let m = (n - 1) as nat;
        lemma_ops(m, op);
        assert(vm::ops(n, op) =~= vm::ops(m, op).push(vm::o(op)));
        lemma_push(vm::ops(m, op), vm::o(op));
        lemma_op(op);
    }
}

/// A loop whose bodies all take `b` bytes.
pub proof fn lemma_flat(n: nat, f: spec_fn(int) -> Seq<Instr>, b: nat)
    requires
        forall|i: int| 0 <= i < n ==> script::size(#[trigger] f(i)) == b,
    ensures
        script::size(vm::flat(n, f)) == n * b,
{
    lemma_flat_at_most(n, f, b);
    lemma_flat_at_least(n, f, b);
}

/// A loop whose bodies all take at most `b` bytes.
pub proof fn lemma_flat_at_most(n: nat, f: spec_fn(int) -> Seq<Instr>, b: nat)
    requires
        forall|i: int| 0 <= i < n ==> script::size(#[trigger] f(i)) <= b,
    ensures
        script::size(vm::flat(n, f)) <= n * b,
    decreases n,
{
    if n > 0 {
        let m = (n - 1) as nat;
        lemma_flat_at_most(m, f, b);
        lemma_concat(vm::flat(m, f), f(n - 1));
        assert(n * b == m * b + b) by (nonlinear_arith)
            requires
                n == m + 1,
        ;
    }
}

/// A loop whose bodies all take at least `b` bytes.
pub proof fn lemma_flat_at_least(n: nat, f: spec_fn(int) -> Seq<Instr>, b: nat)
    requires
        forall|i: int| 0 <= i < n ==> script::size(#[trigger] f(i)) >= b,
    ensures
        script::size(vm::flat(n, f)) >= n * b,
    decreases n,
{
    if n == 0 {
        assert(n * b == 0) by (nonlinear_arith)
            requires
                n == 0,
        ;
    } else {
        let m = (n - 1) as nat;
        lemma_flat_at_least(m, f, b);
        lemma_concat(vm::flat(m, f), f(n - 1));
        assert(n * b == m * b + b) by (nonlinear_arith)
            requires
                n == m + 1,
        ;
    }
}

// ---------------------------------------------------------------------------
// The field
// ---------------------------------------------------------------------------

/// An addition, a subtraction and a doubling.
pub proof fn lemma_linear()
    ensures
        script::size(field::add_code()) == 18,
        script::size(field::sub_code()) == 12,
        script::size(field::double_code()) == 19,
{
    broadcast use group_size;

    reveal(field::adjust_canonical_code);
    reveal(field::to_twisted_code);
    reveal(field::add_code);
    reveal(field::sub_code);
    reveal(field::double_code);
}

/// The same with the modulus on the stack.
proof fn lemma_kept()
    ensures
        script::size(field::kept_add_code()) == 12,
        script::size(field::kept_sub_code()) == 9,
        script::size(field::kept_double_code()) == 13,
{
    broadcast use group_size;

    reveal(field::kept_adjust_code);
    reveal(field::kept_add_code);
    reveal(field::kept_sub_code);
    reveal(field::kept_double_code);
}

/// Bytes one digit takes.
spec fn digit_size(d: int) -> nat {
    if d == 1 {
        26
    } else if d == -1 {
        23
    } else {
        13
    }
}

/// Bytes the digits of `n` below the leading one take.
pub open spec fn expansion_size(n: nat) -> nat
    decreases n,
{
    if n <= 1 {
        0
    } else if n % 4 == 1 {
        26 + expansion_size(((n - 1) / 2) as nat)
    } else if n % 4 == 3 {
        23 + expansion_size(((n + 1) / 2) as nat)
    } else {
        13 + expansion_size(n / 2)
    }
}

/// Loops with the same bodies.
proof fn lemma_flat_same(n: nat, f: spec_fn(int) -> Seq<Instr>, g: spec_fn(int) -> Seq<Instr>)
    requires
        forall|i: int| 0 <= i < n ==> #[trigger] f(i) == g(i),
    ensures
        vm::flat(n, f) == vm::flat(n, g),
    decreases n,
{
    if n > 0 {
        lemma_flat_same((n - 1) as nat, f, g);
    }
}

/// The digits below the leading one.
proof fn lemma_expansion(n: nat)
    requires
        n > 0,
    ensures
        script::size(
            vm::flat(
                (field::naf_digits(n).len() - 1) as nat,
                field::digit_codes(field::naf_digits(n)),
            ),
        ) == expansion_size(n),
    decreases n,
{
    let d = field::naf_digits(n);
    field::naf_laws(n);
    if n == 1 {
        reveal_with_fuel(field::naf_digits, 2);
        assert(d.len() == 1);
    } else {
        let z: int = if n % 4 == 1 {
            1
        } else if n % 4 == 3 {
            -1
        } else {
            0
        };
        let m = ((n - z) / 2) as nat;
        let t = field::naf_digits(m);
        assert(d == seq![z as i8] + t);
        field::naf_laws(m);
        lemma_expansion(m);
        let k = (t.len() - 1) as nat;
        let f = field::digit_codes(d);
        let g = field::digit_codes(t);
        assert forall|i: int| 0 <= i < k implies #[trigger] f(i) == g(i) by {
            assert(d[d.len() - 2 - i] == t[t.len() - 2 - i]);
        }
        lemma_flat_same(k, f, g);
        assert(d[0] == z as i8);
        assert(f(k as int) == field::digit_code(z));
        assert(vm::flat(k + 1, f) == vm::flat(k, f) + f(k as int));
        lemma_concat(vm::flat(k, f), f(k as int));
        lemma_digit(z);
    }
}

proof fn lemma_digit(d: int)
    ensures
        script::size(field::digit_code(d)) == digit_size(d),
{
    broadcast use group_size;

    reveal(field::digit_code);
    lemma_kept();
}

/// Bytes a multiplication by a constant takes.
pub open spec fn constant_size(c: int) -> nat {
    let r = arith::red(c);
    if r == 0 {
        2
    } else if r == 1 {
        0
    } else {
        10 + expansion_size(r as nat)
    }
}

/// A multiplication by a constant takes ten bytes, and 13 a digit below the
/// leading one: 13 more for a 1 and ten more for a -1.
pub proof fn multiplication_by_a_constant_size(c: int)
    ensures
        script::size(field::mul_by_constant_code(c)) == constant_size(c),
{
    broadcast use group_size;

    reveal(field::mul_by_constant_code);
    arith::lemma_red(c);
    let r = arith::red(c);
    if r > 1 {
        lemma_expansion(r as nat);
    }
}

/// Splitting off a bit.
proof fn lemma_bit(i: nat)
    requires
        i <= 30,
    ensures
        script::size(field::bit_code(i)) == 9 + 2 * num_size(pow2(i) as int),
{
    broadcast use group_size;

    reveal(field::bit_code);
    lemma2_to64();
    if i < 30 {
        lemma_pow2_strictly_increases(i, 30);
    }
}

/// The bytes of the pushes of the first `n` of the powers `2^30`, `2^29` and down.
spec fn power_sizes(n: nat) -> nat
    decreases n,
{
    if n == 0 {
        0
    } else {
        power_sizes((n - 1) as nat) + num_size(pow2((31 - n) as nat) as int)
    }
}

/// Splitting off the highest bits.
proof fn lemma_bits(n: nat)
    requires
        n <= 31,
    ensures
        script::size(vm::flat(n, field::bit_codes(31))) == 9 * n + 2 * power_sizes(n),
    decreases n,
{
    if n > 0 {
        let m = (n - 1) as nat;
        lemma_bits(m);
        lemma_bit((30 - m) as nat);
        lemma_concat(vm::flat(m, field::bit_codes(31)), field::bit_codes(31)(m as int));
    }
}

/// All powers of two but the lowest.
proof fn lemma_power_sizes()
    ensures
        power_sizes(30) == 104,
{
    lemma2_to64();
    reveal_with_fuel(power_sizes, 31);
}

/// The pieces of a multiplication.
proof fn lemma_mul_pieces()
    ensures
        script::size(field::bits_to_altstack_code()) == 478,
        script::size(field::first_bit_code()) == 50,
        script::size(vm::flat(30, field::mul_bit_codes())) == 915,
{
    broadcast use group_size;

    reveal(field::bits_to_altstack_code);
    reveal(field::first_bit_code);
    reveal(field::mul_bit_code);
    lemma_linear();
    lemma_kept();
    lemma_bits(30);
    lemma_power_sizes();
    let f = field::mul_bit_codes();
    assert forall|i: int| 0 <= i < 29 implies script::size(#[trigger] f(i)) == 31 by {}
    lemma_flat(29, f, 31);
    assert(script::size(f(29)) == 16);
    assert(vm::flat(30, f) == vm::flat(29, f) + f(29));
}

/// A multiplication takes 1,446 bytes, and the S-box two of them.
pub proof fn multiplication_and_cube_sizes()
    ensures
        script::size(field::mul_code()) == 1446,
        script::size(field::cube_code()) == 2894,
{
    broadcast use group_size;

    reveal(field::mul_code);
    reveal(field::cube_code);
    lemma_mul_pieces();
}

// ---------------------------------------------------------------------------
// The permutation
// ---------------------------------------------------------------------------

/// Bytes a scaling takes. Small coefficients take additions only.
pub open spec fn scale_size(c: int) -> nat {
    if c == 0 {
        2
    } else if c == 1 {
        0
    } else if c == 2 {
        19
    } else if c == 3 || c == 4 {
        38
    } else {
        constant_size(c)
    }
}

/// A scaling.
proof fn lemma_scale(c: int)
    ensures
        script::size(permutation::scale_code(c)) == scale_size(c),
{
    broadcast use group_size;

    reveal(permutation::scale_code);
    lemma_linear();
    multiplication_by_a_constant_size(c);
}

/// Bytes the scaled inputs of an output take.
spec fn terms_size(row: Seq<int>, i: int, n: nat) -> nat
    decreases n,
{
    if n == 0 {
        0
    } else {
        let j = n - 1;
        let before = terms_size(row, i, j as nat);
        if row[j] == 0 {
            before
        } else if permutation::started(row, j as nat) {
            before + num_size((15 - j) + (i + 1)) + 1 + scale_size(row[j]) + 18
        } else {
            before + num_size((15 - j) + i) + 1 + scale_size(row[j])
        }
    }
}

/// The scaled inputs of an output.
proof fn lemma_terms(row: Seq<int>, i: int, n: nat)
    requires
        0 <= i < 16,
        n <= 16,
    ensures
        script::size(permutation::terms_code(row, i, n)) == terms_size(row, i, n),
    decreases n,
{
    broadcast use group_size;

    if n > 0 {
        lemma_terms(row, i, (n - 1) as nat);
        lemma_scale(row[n - 1]);
        lemma_linear();
    }
}

/// An output of a layer.
proof fn lemma_output(row: Seq<int>, i: int)
    requires
        0 <= i < 16,
        permutation::started(row, 16),
    ensures
        script::size(permutation::output_code(row, i)) == terms_size(row, i, 16),
{
    reveal(permutation::output_code);
    lemma_terms(row, i, 16);
}

/// Parking the outputs of a layer, dropping its inputs and taking the outputs back.
proof fn lemma_linear_layer(m: Seq<Seq<int>>)
    ensures
        script::size(permutation::linear_layer_code(m)) == script::size(
            vm::flat(16, permutation::output_codes(m)),
        ) + 40,
{
    broadcast use group_size;
    broadcast use lemma_ops;

    reveal(permutation::linear_layer_code);
}

/// A run of zeros in a row takes nothing.
proof fn lemma_zeros(row: Seq<int>, i: int, a: nat, b: nat)
    requires
        a <= b,
        forall|j: int| a <= j < b ==> #[trigger] row[j] == 0,
    ensures
        terms_size(row, i, b) == terms_size(row, i, a),
        permutation::started(row, b) == permutation::started(row, a),
    decreases b,
{
    if a < b {
        lemma_zeros(row, i, a, (b - 1) as nat);
        assert(row[b - 1] == 0);
    }
}

/// A row of the pass over the blocks.
proof fn lemma_block_row(i: int)
    requires
        0 <= i < 16,
    ensures
        permutation::started(layers::block_matrix()[i], 16),
        terms_size(layers::block_matrix()[i], i, 16) == (if i % 4 <= 1 {
            119nat
        } else if i % 4 == 2 {
            121
        } else {
            122
        }),
{
    let row = layers::block_matrix()[i];
    let b = (4 * (i / 4)) as nat;
    lemma_zeros(row, i, 0, b);
    assert(!permutation::started(row, 0));
    assert(row[b as int] == poseidon2::m4(i % 4, 0));
    assert(row[(b + 1) as int] == poseidon2::m4(i % 4, 1));
    assert(row[(b + 2) as int] == poseidon2::m4(i % 4, 2));
    assert(row[(b + 3) as int] == poseidon2::m4(i % 4, 3));
    assert(permutation::started(row, b + 1));
    assert(permutation::started(row, b + 2));
    assert(permutation::started(row, b + 3));
    assert(permutation::started(row, b + 4));
    reveal_with_fuel(terms_size, 5);
    assert(terms_size(row, i, b + 4) == (if i % 4 <= 1 {
        119nat
    } else if i % 4 == 2 {
        121
    } else {
        122
    }));
    lemma_zeros(row, i, b + 4, 16);
}

/// A row of the pass over the columns.
proof fn lemma_column_row(i: int)
    requires
        0 <= i < 16,
    ensures
        permutation::started(layers::column_matrix()[i], 16),
        terms_size(layers::column_matrix()[i], i, 16) == 81 + i / 4,
{
    let row = layers::column_matrix()[i];
    let r = (i % 4) as nat;
    assert(!permutation::started(row, 0));
    lemma_zeros(row, i, 0, r);
    lemma_zeros(row, i, r + 1, r + 4);
    lemma_zeros(row, i, r + 5, r + 8);
    lemma_zeros(row, i, r + 9, r + 12);
    lemma_zeros(row, i, r + 13, 16);
    assert(permutation::started(row, r + 1));
    assert(permutation::started(row, r + 5));
    assert(permutation::started(row, r + 9));
    assert(permutation::started(row, r + 13));
    let n = |j: int| num_size((15 - j) + (i + 1)) + 19 + scale_size(row[j]);
    assert(terms_size(row, i, r + 1) == num_size(15 - r + i) + 1 + scale_size(row[r as int]));
    assert(terms_size(row, i, r + 5) == terms_size(row, i, r + 1) + n((r + 4) as int));
    assert(terms_size(row, i, r + 9) == terms_size(row, i, r + 5) + n((r + 8) as int));
    assert(terms_size(row, i, r + 13) == terms_size(row, i, r + 9) + n((r + 12) as int));
}

/// The two passes of the external layer.
proof fn lemma_passes()
    ensures
        script::size(permutation::linear_layer_code(layers::block_matrix())) == 1964,
        script::size(permutation::linear_layer_code(layers::column_matrix())) == 1360,
{
    broadcast use group_size;

    let f = permutation::output_codes(layers::block_matrix());
    let g = permutation::output_codes(layers::column_matrix());
    assert forall|i: int| 0 <= i < 16 implies script::size(#[trigger] f(i)) == (if i % 4 <= 1 {
        119nat
    } else if i % 4 == 2 {
        121
    } else {
        122
    }) by {
        lemma_block_row(i);
        lemma_output(layers::block_matrix()[i], i);
    }
    assert forall|i: int| 0 <= i < 16 implies script::size(#[trigger] g(i)) == 81 + i / 4 by {
        lemma_column_row(i);
        lemma_output(layers::column_matrix()[i], i);
    }
    reveal_with_fuel(vm::flat, 17);
    assert(script::size(vm::flat(16, f)) == 1924);
    assert(script::size(vm::flat(16, g)) == 1320);
    lemma_linear_layer(layers::block_matrix());
    lemma_linear_layer(layers::column_matrix());
}

/// The external layer takes 3,324 bytes.
pub proof fn external_layer_size()
    ensures
        script::size(permutation::mds_light_code()) == 3324,
{
    broadcast use group_size;

    reveal(permutation::mds_light_code);
    lemma_passes();
}

/// An inverse power of two is a small multiple of another, taken from the
/// modulus: `127 * 2^24` is one less than it.
proof fn lemma_inverse(k: nat)
    requires
        1 <= k <= 24,
    ensures
        arith::inv_pow2(k) == arith::modulus() - 127 * pow2((24 - k) as nat),
    decreases k,
{
    lemma2_to64();
    if k == 1 {
        reveal_with_fuel(arith::fpow, 3);
        arith::lemma_red(1 * arith::half());
    } else {
        let j = (k - 1) as nat;
        lemma_inverse(j);
        lemma_pow2_unfold((24 - j) as nat);
        let q = pow2((24 - k) as nat) as int;
        let y = arith::modulus() - 127 * q;
        let x = arith::inv_pow2(j);
        assert((24 - j - 1) as nat == (24 - k) as nat);
        assert(x == 2 * y - arith::modulus());
        lemma_pow2_pos((24 - k) as nat);
        if k < 24 {
            lemma_pow2_strictly_increases((24 - k) as nat, 24);
        }
        assert(q <= pow2(23)) by {
            if k > 1 && 24 - k < 23 {
                lemma_pow2_strictly_increases((24 - k) as nat, 23);
            }
        }
        assert(x * arith::half() == (y - arith::half()) * arith::modulus() + y);
        vstd::arithmetic::div_mod::lemma_fundamental_div_mod_converse(
            x * arith::half(),
            arith::modulus(),
            y - arith::half(),
            y,
        );
    }
}

/// The factors of the internal layer.
spec fn factor(i: int) -> int {
    if i == 0 {
        0x7effffff
    } else if i == 1 {
        1
    } else if i == 2 {
        2
    } else if i == 3 {
        0x3f800001
    } else if i == 4 {
        3
    } else if i == 5 {
        4
    } else if i == 6 {
        0x3f800000
    } else if i == 7 {
        0x7efffffe
    } else if i == 8 {
        0x7efffffd
    } else if i == 9 {
        0x7e810001
    } else if i == 10 {
        0x6f200001
    } else if i == 11 {
        0x7effff82
    } else if i == 12 {
        0x7f0000
    } else if i == 13 {
        0xfe00000
    } else if i == 14 {
        0x7f00000
    } else {
        0x7f
    }
}

/// Bytes the scalings of the internal layer take.
spec fn factor_size(i: int) -> nat {
    if i == 0 {
        433
    } else if i == 1 {
        0
    } else if i == 2 {
        19
    } else if i == 3 {
        423
    } else if i == 4 {
        38
    } else if i == 5 {
        38
    } else if i == 6 {
        410
    } else if i == 7 {
        433
    } else if i == 8 {
        446
    } else if i == 9 {
        462
    } else if i == 10 {
        459
    } else if i == 11 {
        446
    } else if i == 12 {
        319
    } else if i == 13 {
        384
    } else if i == 14 {
        371
    } else {
        111
    }
}

proof fn lemma_factor(i: int)
    requires
        0 <= i < 16,
    ensures
        layers::share(i) == factor(i),
{
    lemma2_to64();
    lemma_inverse(1);
    lemma_inverse(3);
    lemma_inverse(4);
    lemma_inverse(8);
    lemma_inverse(24);
    arith::lemma_red(poseidon2::diagonal(i));
}

/// Trailing zeros of an expansion.
proof fn lemma_trailing_zeros(n: nat, k: nat)
    requires
        n > 0,
    ensures
        expansion_size(n * pow2(k)) == 13 * k + expansion_size(n),
    decreases k,
{
    lemma2_to64();
    lemma_pow2_pos(k);
    if k == 0 {
        assert(n * 1 == n);
    } else {
        let j = (k - 1) as nat;
        lemma_trailing_zeros(n, j);
        lemma_pow2_unfold(k);
        lemma_pow2_pos(j);
        let m = n * pow2(j);
        assert(n * pow2(k) == 2 * m && m > 0) by (nonlinear_arith)
            requires
                m == n * pow2(j),
                pow2(k) == 2 * pow2(j),
                n > 0,
                pow2(j) > 0,
        ;
        assert(expansion_size(2 * m) == 13 + expansion_size(m));
    }
}

/// The expansions of the factors that are 127 times a power of two, and of those
/// one or two beside them.
proof fn lemma_short_factors()
    ensures
        expansion_size(0x7f) == 101,
        expansion_size(0x7f0000) == 309,
        expansion_size(0x7f00000) == 361,
        expansion_size(0xfe00000) == 374,
        expansion_size(0x3f800000) == 400,
        expansion_size(0x3f800001) == 413,
        expansion_size(0x7effffff) == 423,
        expansion_size(0x7efffffe) == 423,
        expansion_size(0x7efffffd) == 436,
{
    lemma2_to64();
    lemma_trailing_zeros(1, 6);
    assert(expansion_size(0x7f) == 23 + expansion_size(0x40));
    lemma_trailing_zeros(0x7f, 16);
    lemma_trailing_zeros(0x7f, 20);
    lemma_trailing_zeros(0x7f, 21);
    lemma_trailing_zeros(0x7f, 22);
    lemma_trailing_zeros(0x7f, 23);
    assert(expansion_size(0x3f7fffff) == 23 + expansion_size(0x1fc00000));
    assert(expansion_size(0x1fbfffff) == 23 + expansion_size(0xfe00000));
    assert(expansion_size(0x3f7ffffe) == 13 + expansion_size(0x1fbfffff));
}

/// The expansions of the other factors.
proof fn lemma_long_factors()
    ensures
        expansion_size(0x7effff82) == 436,
        expansion_size(0x7e810001) == 452,
        expansion_size(0x6f200001) == 449,
{
    lemma2_to64();
    lemma_short_factors();
    assert(expansion_size(0xfdffff) == 23 + expansion_size(0x7f0000));
    lemma_trailing_zeros(0xfdffff, 5);
    assert(expansion_size(0x3f7fffc1) == 26 + expansion_size(0x1fbfffe0));
    lemma_trailing_zeros(1, 5);
    assert(expansion_size(63) == 23 + expansion_size(32));
    assert(expansion_size(126) == 13 + expansion_size(63));
    assert(expansion_size(0xfd) == 26 + expansion_size(126));
    lemma_trailing_zeros(0xfd, 6);
    assert(expansion_size(0x7e81) == 26 + expansion_size(0x3f40));
    lemma_trailing_zeros(0x7e81, 15);
    lemma_trailing_zeros(1, 2);
    assert(expansion_size(7) == 23 + expansion_size(4));
    lemma_trailing_zeros(7, 3);
    assert(expansion_size(111) == 23 + expansion_size(56));
    lemma_trailing_zeros(111, 2);
    assert(expansion_size(0x379) == 26 + expansion_size(444));
    lemma_trailing_zeros(0x379, 20);
}

proof fn lemma_factor_size(i: int)
    requires
        0 <= i < 16,
    ensures
        scale_size(factor(i)) == factor_size(i),
{
    lemma_short_factors();
    lemma_long_factors();
    arith::lemma_red(factor(i));
}

/// An output of the internal layer.
proof fn lemma_share(i: int)
    requires
        0 <= i < 16,
    ensures
        script::size(permutation::share_code(i)) == 22 + factor_size(i),
{
    broadcast use group_size;

    reveal(permutation::share_code);
    lemma_linear();
    lemma_factor(i);
    lemma_factor_size(i);
    lemma_scale(layers::share(i));
}

/// The sum over the state.
proof fn lemma_sum()
    ensures
        script::size(permutation::output_code(layers::ones(), 0)) == 302,
{
    reveal_with_fuel(terms_size, 17);
    reveal_with_fuel(permutation::started, 17);
    lemma_output(layers::ones(), 0);
}

/// The internal layer takes 5,487 bytes.
pub proof fn internal_layer_size()
    ensures
        script::size(permutation::internal_linear_code()) == 5487,
{
    broadcast use group_size;
    broadcast use lemma_ops;

    reveal(permutation::internal_linear_code);
    lemma_sum();
    let f = permutation::share_codes();
    assert forall|i: int| 0 <= i < 16 implies script::size(#[trigger] f(i)) == 22 + factor_size(
        i,
    ) by {
        lemma_share(i);
    }
    reveal_with_fuel(vm::flat, 17);
    assert(script::size(vm::flat(16, f)) == 5144);
}

/// An S-box. A round constant is a five-byte push.
proof fn lemma_sbox(c: int)
    requires
        0x800000 <= c < 0x80000000,
    ensures
        script::size(permutation::add_rc_and_sbox_code(c)) == 2917,
{
    broadcast use group_size;

    reveal(permutation::add_rc_and_sbox_code);
    lemma_linear();
    multiplication_and_cube_sizes();
}

/// A layer of S-boxes.
proof fn lemma_external_sbox_layer(rc: Seq<u32>)
    requires
        forall|j: int| 0 <= j < 16 ==> 0x800000 <= #[trigger] rc[j] < 0x80000000,
    ensures
        script::size(permutation::external_sbox_layer_code(rc)) == 46704,
{
    broadcast use group_size;
    broadcast use lemma_ops;

    reveal(permutation::external_sbox_layer_code);
    let f = permutation::park_sbox_codes(rc);
    assert forall|j: int| 0 <= j < 16 implies script::size(#[trigger] f(j)) == 2918 by {
        assert(0x800000 <= rc[15 - j] < 0x80000000);
        lemma_sbox(rc[15 - j] as int);
    }
    lemma_flat(16, f, 2918);
}

/// The single S-box of an internal round.
proof fn lemma_internal_sbox_layer(c: int)
    requires
        0x800000 <= c < 0x80000000,
    ensures
        script::size(permutation::internal_sbox_layer_code(c)) == 2947,
{
    broadcast use group_size;
    broadcast use lemma_ops;

    reveal(permutation::internal_sbox_layer_code);
    lemma_sbox(c);
}

/// Bytes round `k` takes.
pub open spec fn round_size(k: int) -> nat {
    if k == 0 {
        3324
    } else if INITIAL_ROUNDS < k <= INITIAL_ROUNDS + INTERNAL_ROUNDS {
        8434
    } else {
        50028
    }
}

/// The opening layer takes 3,324 bytes, an external round 50,028 and an internal
/// one 8,434.
pub proof fn round_sizes(k: int)
    requires
        0 <= k < poseidon2::round_count(),
    ensures
        script::size(permutation::round_code(k)) == round_size(k),
{
    broadcast use group_size;

    crate::constants::lemma_round_constants();
    external_layer_size();
    internal_layer_size();
    if 0 < k <= INITIAL_ROUNDS {
        let rc = EXTERNAL_INITIAL@[k - 1]@;
        assert forall|j: int| 0 <= j < 16 implies 0x800000 <= #[trigger] rc[j] < 0x80000000 by {
            assert(EXTERNAL_INITIAL@[k - 1]@[j] >= 0x800000);
        }
        lemma_external_sbox_layer(rc);
    } else if INITIAL_ROUNDS < k <= INITIAL_ROUNDS + INTERNAL_ROUNDS {
        lemma_internal_sbox_layer(INTERNAL@[k - 1 - INITIAL_ROUNDS] as int);
    } else if k > 0 {
        let t = k - 1 - INITIAL_ROUNDS - INTERNAL_ROUNDS;
        let rc = EXTERNAL_FINAL@[t]@;
        assert forall|j: int| 0 <= j < 16 implies 0x800000 <= #[trigger] rc[j] < 0x80000000 by {
            assert(EXTERNAL_FINAL@[t]@[j] >= 0x800000);
        }
        lemma_external_sbox_layer(rc);
    }
}

/// Bytes the first `n` rounds take.
pub open spec fn prefix_size(n: int) -> int {
    if n <= 0 {
        0
    } else if n <= 1 + INITIAL_ROUNDS {
        3324 + 50028 * (n - 1)
    } else if n <= 1 + INITIAL_ROUNDS + INTERNAL_ROUNDS {
        3324 + 50028 * INITIAL_ROUNDS + 8434 * (n - 1 - INITIAL_ROUNDS)
    } else {
        3324 + 50028 * (n - 1 - INTERNAL_ROUNDS) + 8434 * INTERNAL_ROUNDS
    }
}

/// A run of rounds.
pub proof fn lemma_run(first: int, len: nat)
    requires
        0 <= first,
        first + len <= poseidon2::round_count(),
    ensures
        script::size(vm::flat(len, disprove::chunk_round_codes(first))) == prefix_size(first + len)
            - prefix_size(first),
    decreases len,
{
    if len > 0 {
        let f = disprove::chunk_round_codes(first);
        let m = (len - 1) as nat;
        lemma_run(first, m);
        round_sizes(first + m);
        lemma_concat(vm::flat(m, f), f(m as int));
    }
}

/// The permutation takes 572,228 bytes, and the compression four more.
pub proof fn permutation_size()
    ensures
        script::size(permutation::permute_code()) == 572_228,
        script::size(permutation::compress_code()) == 572_232,
{
    reveal(permutation::permute_code);
    reveal(permutation::compress_code);
    lemma_flat_same(
        poseidon2::round_count(),
        permutation::round_codes(),
        disprove::chunk_round_codes(0),
    );
    lemma_run(0, poseidon2::round_count());
    lemma_concat(permutation::permute_code(), vm::ops(4, Opcode::Drop2));
    lemma_ops(4, Opcode::Drop2);
}

// ---------------------------------------------------------------------------
// The extension
// ---------------------------------------------------------------------------

/// Sums and differences in the extension.
pub proof fn lemma_ext_linear()
    ensures
        script::size(ext4::add_code()) == 88,
        script::size(ext4::sub_code()) == 68,
{
    broadcast use group_size;
    broadcast use lemma_ops;

    reveal(ext4::add_code);
    reveal(ext4::sub_code);
    lemma_linear();
    let a = field::add_code();
    let b = vm::nil().push(vm::o(Opcode::Swap)) + field::sub_code();
    let f = ext4::pairwise_codes(a);
    let g = ext4::pairwise_codes(b);
    assert forall|i: int| 0 <= i < 4 implies script::size(#[trigger] f(i)) == 21 by {}
    assert forall|i: int| 0 <= i < 4 implies script::size(#[trigger] g(i)) == 16 by {}
    lemma_flat(4, f, 21);
    lemma_flat(4, g, 16);
}

/// One coefficient of a product in the extension.
proof fn lemma_ext_coefficient(k: int)
    requires
        0 <= k < 4,
    ensures
        script::size(vm::flat(4, ext4::term_codes(k))) == 5854 + 38 * (3 - k),
{
    broadcast use group_size;

    lemma_linear();
    multiplication_and_cube_sizes();
    let f = ext4::term_codes(k);
    assert forall|i: int| 0 <= i < 4 implies script::size(#[trigger] f(i)) == 1450 + (if i > k {
        38nat
    } else {
        0
    }) + (if i > 0 {
        18nat
    } else {
        0
    }) by {
        reveal(ext4::term_code);
        reveal(ext4::mul_w_code);
    }
    reveal_with_fuel(vm::flat, 5);
}

/// A product in the extension takes 23,656 bytes.
pub proof fn extension_product_size()
    ensures
        script::size(ext4::mul_code()) == 23656,
{
    broadcast use group_size;
    broadcast use lemma_ops;

    reveal(ext4::mul_code);
    let g = ext4::product_codes();
    assert forall|k: int| 0 <= k < 4 implies script::size(#[trigger] g(k)) == 5854 + 38 * (3 - k) by {
        lemma_ext_coefficient(k);
    }
    reveal_with_fuel(vm::flat, 5);
}

/// Copies and the pushed one.
pub proof fn lemma_ext_moves(d: int)
    requires
        0 <= d <= 24,
    ensures
        script::size(ext4::copy_code(d)) == (if d <= 3 {
            8nat
        } else {
            12
        }),
        script::size(ext4::push_one_code()) == 4,
{
    broadcast use group_size;

    reveal(ext4::copy_code);
    reveal(ext4::push_one_code);
    let f = ext4::copy_pick_codes(d);
    let b: nat = if d <= 3 {
        2
    } else {
        3
    };
    assert forall|i: int| 0 <= i < 4 implies script::size(#[trigger] f(i)) == b by {}
    lemma_flat(4, f, b);
}

// ---------------------------------------------------------------------------
// Merkle paths
// ---------------------------------------------------------------------------

/// A level of a Merkle path takes a compression and twenty bytes of ordering.
pub proof fn merkle_level_size()
    ensures
        script::size(merkle::merkle_step_code()) == 572_252,
{
    broadcast use group_size;

    reveal(merkle::merkle_step_code);
    reveal(merkle::ordered_compress_code);
    reveal(merkle::swap_digests_code);
    reveal(vm::rotate_code);
    permutation_size();
    let f = vm::rotate_codes(15);
    assert forall|i: int| 0 <= i < 8 implies script::size(#[trigger] f(i)) == 2 by {}
    lemma_flat(8, f, 2);
}

/// A Merkle path takes as much for every level, and nothing else.
pub proof fn merkle_path_size(depth: nat)
    ensures
        script::size(merkle::merkle_path_code(depth)) == 572_252 * depth,
{
    reveal(merkle::merkle_path_code);
    merkle_level_size();
    let f = merkle::merkle_step_codes();
    assert forall|i: int| 0 <= i < depth implies script::size(#[trigger] f(i)) == 572_252 by {}
    lemma_flat(depth, f, 572_252);
}

// ---------------------------------------------------------------------------
// Commitments and the disprove predicate
// ---------------------------------------------------------------------------

/// One chain.
proof fn lemma_verify_digit(pk: Seq<u8>)
    requires
        pk.len() == 20,
    ensures
        script::size(winternitz::verify_digit_code(pk)) == 150,
{
    broadcast use group_size;

    reveal(winternitz::verify_digit_code);
    reveal(winternitz::walk_step_code);
    let f = winternitz::walk_step_codes();
    assert forall|i: int| 0 <= i < 15 implies script::size(#[trigger] f(i)) == 8 by {}
    lemma_flat(15, f, 8);
}

/// One element.
proof fn lemma_element()
    ensures
        script::size(winternitz::times16_code()) == 8,
        script::size(winternitz::element_code()) == 130,
{
    broadcast use group_size;

    reveal(winternitz::times16_code);
    reveal(winternitz::element_digit_code);
    reveal(winternitz::element_code);
    let f = winternitz::element_digit_codes();
    assert forall|i: int| 0 <= i < 8 implies script::size(#[trigger] f(i)) == 16 by {}
    lemma_flat(8, f, 16);
}

/// A signed state takes 21,931 bytes to open.
pub proof fn signature_size(pks: Seq<Seq<u8>>)
    requires
        pks.len() == 131,
        forall|i: int| 0 <= i < pks.len() ==> (#[trigger] pks[i]).len() == 20,
    ensures
        script::size(winternitz::verify_code(pks, 16)) == 21931,
{
    broadcast use group_size;

    reveal(winternitz::verify_code);
    reveal(winternitz::compare_sums_code);
    reveal_with_fuel(winternitz::digit_count, 4);
    assert(winternitz::digit_count(120 * 16) == 3);
    lemma_element();
    let chains = winternitz::chain_codes(pks);
    assert forall|i: int| 0 <= i < 131 implies script::size(#[trigger] chains(i)) == 151 by {
        assert(pks[i].len() == 20);
        lemma_verify_digit(pks[i]);
    }
    lemma_flat(131, chains, 151);
    let checks = winternitz::check_digit_codes();
    assert forall|i: int| 0 <= i < 3 implies script::size(#[trigger] checks(i)) == 10 by {}
    lemma_flat(3, checks, 10);
    let elements = winternitz::element_codes();
    assert forall|i: int| 0 <= i < 16 implies script::size(#[trigger] elements(i)) == 130 by {}
    lemma_flat(16, elements, 130);
    let reorder = winternitz::reorder_codes();
    assert forall|i: int| 0 <= i < 15 implies script::size(#[trigger] reorder(i)) == 2 by {}
    lemma_flat(15, reorder, 2);
}

/// Opening both signatures: two signatures, and the parked state.
pub proof fn lemma_open_states(pks_out: Seq<Seq<u8>>, pks_in: Seq<Seq<u8>>)
    ensures
        script::size(disprove::open_states_code(pks_out, pks_in)) == script::size(
            winternitz::verify_code(pks_in, 16),
        ) + script::size(winternitz::verify_code(pks_out, 16)) + 32,
{
    broadcast use group_size;
    broadcast use lemma_ops;

    reveal(disprove::open_states_code);
}

/// Comparing two states.
pub proof fn lemma_differs()
    ensures
        script::size(disprove::differs_code(16)) == 98,
{
    broadcast use group_size;

    reveal(disprove::differs_code);
    let f = disprove::compare_codes(16);
    assert forall|j: int| 0 <= j < 16 implies script::size(#[trigger] f(j)) == 4 by {}
    lemma_flat(16, f, 4);
    let g = disprove::fold_codes();
    assert forall|j: int| 0 <= j < 16 implies script::size(#[trigger] g(j)) == 2 by {}
    lemma_flat(16, g, 2);
}

} // verus!
