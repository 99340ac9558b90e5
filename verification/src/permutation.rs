//! The Poseidon2 permutation in Bitcoin Script.
//!
//! # Stack discipline
//!
//! The state is sixteen canonical field elements, `s[0]` deepest and `s[15]` on
//! top. Every routine here takes that layout and leaves it, so rounds compose by
//! concatenation.
//!
//! Two patterns do all the work.
//!
//! *The S-box layer* walks the state from the top down, rewriting each element
//! and parking it on the altstack. Sixteen pops then restore the original order,
//! because the altstack reverses twice.
//!
//! *The linear layers* never modify the state while reading it. Outputs are
//! accumulated above the untouched inputs, so input `j` always sits at a depth
//! this module can compute, `(15 - j) + outputs_pushed`, and no stack
//! choreography has to be worked out by hand. The inputs are dropped once all
//! sixteen outputs exist.
//!
//! The layers are taken in the form that reads the fewest inputs. The external
//! one is two sparse passes, in each of which an output reads four inputs; the
//! internal one is a single sum with sixteen scalings. [`mds_light_dense`] and
//! [`internal_linear_dense`] are the same layers as full matrices.
//!
//! The coefficients come from [`crate::reference`] by applying its layers to
//! basis vectors.

use crate::arith;
use crate::constants::{
    EXTERNAL_FINAL, EXTERNAL_INITIAL, INITIAL_ROUNDS, INTERNAL, INTERNAL_ROUNDS, ROUNDS, WIDTH,
};
use crate::field;
use crate::layers;
use crate::poseidon2;
use crate::reference;
use crate::script::{Instr, Opcode, Script};
use crate::vm::{self, Ctx, Item};
use vstd::prelude::*;

pub use self::poseidon2_compress as compress;
pub use self::poseidon2_permute as permute;

verus! {

/// Code that replaces the state on top of the stack by `f` of it.
pub open spec fn maps_state(p: Seq<Instr>, f: spec_fn(Seq<int>) -> Seq<int>) -> bool {
    forall|s: Seq<int>, c: Ctx, v: Seq<Item>, w: Seq<Item>|
        poseidon2::is_state(s) && c.live() ==> #[trigger] vm::run(p, vm::at(c, v + vm::nums(s), w))
            == Some(vm::at(c, v + vm::nums(f(s)), w))
}

/// The depth of input `j` with `pushed` items above the state.
pub open spec fn copy_input_code(j: int, pushed: int) -> Seq<Instr> {
    vm::pick_code((15 - j) + pushed)
}

/// Copy input `j` to the top, given that `pushed` outputs sit above the state.
fn copy_input(j: usize, pushed: usize) -> (r: Script)
    requires
        j < WIDTH,
        pushed <= WIDTH,
    ensures
        r.code() == copy_input_code(j as int, pushed as int),
{
    Script::new().num(((WIDTH - 1 - j) + pushed) as i64).op(Opcode::Pick)
}

/// The code of [`scale`].
#[verifier::opaque]
pub open spec fn scale_code(c: int) -> Seq<Instr> {
    if c == 0 {
        vm::nil().push(vm::o(Opcode::Drop)).push(vm::k(0))
    } else if c == 1 {
        vm::nil()
    } else if c == 2 {
        field::double_code()
    } else if c == 3 {
        vm::nil().push(vm::o(Opcode::Dup)) + field::double_code() + field::add_code()
    } else if c == 4 {
        field::double_code() + field::double_code()
    } else {
        field::mul_by_constant_code(c)
    }
}

proof fn lemma_scale(x: Ctx, v: Seq<Item>, w: Seq<Item>, a: int, c: int)
    requires
        x.live(),
        arith::felt(a),
    ensures
        vm::run(scale_code(c), vm::at(x, v.push(vm::num(a)), w)) == Some(
            vm::at(x, v.push(vm::num(arith::fmul(a, c))), w),
        ),
{
    reveal(scale_code);
    broadcast use vm::group_run;

    let d = arith::fadd(a, a);
    arith::lemma_red(a);
    arith::lemma_red(0);
    arith::lemma_red(a + a);
    assert(a * 0 == 0 && a * 1 == a && a * 2 == a + a && a * 3 == a + a + a && a * 4 == a + a + a
        + a);
    arith::lemma_red_add(a + a, a + a);
    arith::lemma_red_add(a, a + a);
    field::lemma_double(x, v, w, a);
    field::lemma_double(x, v, w, d);
    field::lemma_double(x, v.push(vm::num(a)), w, a);
    field::lemma_add(x, v, w, a, d);
    field::lemma_mul_by_constant(x, v, w, a, c);
}

/// Multiply the top element by a small coefficient using additions.
///
/// The external layer's coefficients are all tiny, and doubling costs a
/// fraction of [`field::mul_by_constant`], so the small cases are worth
/// special-casing.
fn scale(c: u32) -> (r: Script)
    ensures
        r.code() == scale_code(c as int),
        field::computes1(r.code(), |a: int| arith::fmul(a, c as int)),
{
    proof {
        assert forall|a: int, x: Ctx, v: Seq<Item>, w: Seq<Item>|
            arith::felt(a) && x.live() implies #[trigger] vm::run(
            scale_code(c as int),
            vm::at(x, v.push(vm::num(a)), w),
        ) == Some(vm::at(x, v.push(vm::num(arith::fmul(a, c as int))), w)) by {
            lemma_scale(x, v, w, a, c as int);
        }
        reveal(scale_code);
    }
    match c {
        0 => Script::new().op(Opcode::Drop).num(0),
        1 => Script::new(),
        2 => field::double(),
        3 => Script::new().op(Opcode::Dup).then_script(field::double()).then_script(
            crate::field::add(),
        ),
        4 => field::double().then_script(field::double()),
        _ => field::mul_by_constant(c),
    }
}

/// Whether any of the first `n` coefficients is not zero.
pub open spec fn started(row: Seq<int>, n: nat) -> bool
    decreases n,
{
    n > 0 && (row[n - 1] != 0 || started(row, (n - 1) as nat))
}

/// The code that sums the first `n` scaled inputs above `i` finished outputs.
pub open spec fn terms_code(row: Seq<int>, i: int, n: nat) -> Seq<Instr>
    decreases n,
{
    if n == 0 {
        vm::nil()
    } else {
        let j = n - 1;
        let before = terms_code(row, i, j as nat);
        if row[j] == 0 {
            before
        } else if started(row, j as nat) {
            before + copy_input_code(j, i + 1) + scale_code(row[j]) + field::add_code()
        } else {
            before + copy_input_code(j, i) + scale_code(row[j])
        }
    }
}

/// The code that pushes one output of a linear layer.
#[verifier::opaque]
pub open spec fn output_code(row: Seq<int>, i: int) -> Seq<Instr> {
    if started(row, 16) {
        terms_code(row, i, 16)
    } else {
        terms_code(row, i, 16).push(vm::k(0))
    }
}

/// The codes of the outputs in order.
pub open spec fn output_codes(m: Seq<Seq<int>>) -> spec_fn(int) -> Seq<Instr> {
    |i: int| output_code(m[i], i)
}

/// The code of a linear layer.
#[verifier::opaque]
pub open spec fn linear_layer_code(m: Seq<Seq<int>>) -> Seq<Instr> {
    vm::flat(16, output_codes(m)) + vm::ops(16, Opcode::ToAltStack) + vm::ops(8, Opcode::Drop2)
        + vm::ops(16, Opcode::FromAltStack)
}

proof fn lemma_terms(
    c: Ctx,
    v: Seq<Item>,
    w: Seq<Item>,
    s: Seq<int>,
    outs: Seq<Item>,
    row: Seq<int>,
    n: nat,
)
    requires
        c.live(),
        poseidon2::is_state(s),
        outs.len() <= 16,
        n <= 16,
    ensures
        !started(row, n) ==> arith::dot(row, s, n) == 0,
        vm::run(terms_code(row, outs.len() as int, n), vm::at(c, v + vm::nums(s) + outs, w))
            == Some(
            vm::at(
                c,
                if started(row, n) {
                    (v + vm::nums(s) + outs).push(vm::num(arith::red(arith::dot(row, s, n))))
                } else {
                    v + vm::nums(s) + outs
                },
                w,
            ),
        ),
    decreases n,
{
    broadcast use vm::group_run;

    if n > 0 {
        let j = n - 1;
        let base = v + vm::nums(s) + outs;
        let d = arith::dot(row, s, j as nat);
        let acc = arith::red(d);
        let t = arith::fmul(s[j], row[j]);
        lemma_terms(c, v, w, s, outs, row, j as nat);
        assert(row[j] * s[j] == s[j] * row[j]) by (nonlinear_arith);
        arith::lemma_red(d);
        arith::lemma_red(s[j] * row[j]);
        arith::lemma_red_add(d, s[j] * row[j]);
        if row[j] == 0 {
            assert(0 * s[j] == 0);
        } else if started(row, j as nat) {
            let top = base.push(vm::num(acc));
            assert(top[top.len() - 1 - ((15 - j) + outs.len() + 1)] == vm::num(s[j]));
            vm::lemma_pick(c, top, w, (15 - j) + outs.len() + 1);
            lemma_scale(c, top, w, s[j], row[j]);
            field::lemma_add(c, base, w, acc, t);
        } else {
            assert(base[base.len() - 1 - ((15 - j) + outs.len())] == vm::num(s[j]));
            vm::lemma_pick(c, base, w, (15 - j) + outs.len());
            lemma_scale(c, base, w, s[j], row[j]);
        }
    }
}

proof fn lemma_output(
    c: Ctx,
    v: Seq<Item>,
    w: Seq<Item>,
    s: Seq<int>,
    outs: Seq<Item>,
    row: Seq<int>,
)
    requires
        c.live(),
        poseidon2::is_state(s),
        outs.len() <= 16,
    ensures
        vm::run(output_code(row, outs.len() as int), vm::at(c, v + vm::nums(s) + outs, w)) == Some(
            vm::at(
                c,
                (v + vm::nums(s) + outs).push(vm::num(arith::red(arith::dot(row, s, 16)))),
                w,
            ),
        ),
{
    reveal(output_code);
    broadcast use vm::group_run;

    lemma_terms(c, v, w, s, outs, row, 16);
    arith::lemma_red(0);
}

/// What a linear layer does to a state.
proof fn lemma_linear_layer(c: Ctx, v: Seq<Item>, w: Seq<Item>, s: Seq<int>, m: Seq<Seq<int>>)
    requires
        c.live(),
        poseidon2::is_state(s),
        m.len() == 16,
    ensures
        vm::run(linear_layer_code(m), vm::at(c, v + vm::nums(s), w)) == Some(
            vm::at(c, v + vm::nums(arith::apply(m, s)), w),
        ),
{
    reveal(linear_layer_code);
    broadcast use vm::group_run;

    let out = arith::apply(m, s);
    let base = v + vm::nums(s);
    let st = |i: int| vm::at(c, base + vm::nums(out.take(i)), w);
    let f = output_codes(m);
    assert forall|i: int| 0 <= i < 16 implies #[trigger] vm::run(f(i), st(i)) == Some(st(i + 1)) by {
        let outs = vm::nums(out.take(i));
        lemma_output(c, v, w, s, outs, m[i]);
        assert((base + outs).push(vm::num(out[i])) =~= base + vm::nums(out.take(i + 1)));
    }
    vm::lemma_run_flat(16, f, st);
    assert(base + vm::nums(out.take(0)) =~= base);
    assert(out.take(16) =~= out);
    vm::lemma_to_alt(c, base, vm::nums(out), w);
    vm::lemma_drop2(c, v, vm::nums(s), w + vm::nums(out).reverse(), 8);
    vm::lemma_from_alt(c, v, vm::nums(out), w);
}

/// Apply a linear layer given as a matrix over the field.
///
/// Emits each output as a sum of scaled inputs, then removes the old state.
fn linear_layer(m: &[[u32; WIDTH]; WIDTH]) -> (r: Script)
    ensures
        r.code() == linear_layer_code(reference::matrix_ints(m@)),
        maps_state(r.code(), |s: Seq<int>| arith::apply(reference::matrix_ints(m@), s)),
{
    let ghost mat = reference::matrix_ints(m@);
    proof {
        assert forall|s: Seq<int>, c: Ctx, v: Seq<Item>, w: Seq<Item>|
            poseidon2::is_state(s) && c.live() implies #[trigger] vm::run(
            linear_layer_code(mat),
            vm::at(c, v + vm::nums(s), w),
        ) == Some(vm::at(c, v + vm::nums(arith::apply(mat, s)), w)) by {
            lemma_linear_layer(c, v, w, s, mat);
        }
        reveal(linear_layer_code);
    }
    let mut rows = Script::new();
    let mut i: usize = 0;
    while i < WIDTH
        invariant
            i <= WIDTH,
            mat == reference::matrix_ints(m@),
            rows.code() == vm::flat(i as nat, output_codes(mat)),
        decreases WIDTH - i,
    {
        // The state is untouched while outputs accumulate above it, so input j
        // sits at a computable depth. Above the state are the `i` finished
        // outputs, plus, for every term after the first, the running
        // accumulator. Each `add` folds the new term back in, so that
        // accumulator is one item however many terms have been summed.
        let ghost row = mat[i as int];
        let mut part = Script::new();
        let mut any = false;
        let mut j: usize = 0;
        while j < WIDTH
            invariant
                i < WIDTH,
                j <= WIDTH,
                mat == reference::matrix_ints(m@),
                row == mat[i as int],
                any == started(row, j as nat),
                part.code() == terms_code(row, i as int, j as nat),
            decreases WIDTH - j,
        {
            let c: u32 = m[i][j];
            assert(c == row[j as int]);
            if c != 0 {
                if any {
                    part = part.then_script(copy_input(j, i + 1)).then_script(
                        scale(c),
                    ).then_script(crate::field::add());
                } else {
                    part = part.then_script(copy_input(j, i)).then_script(scale(c));
                }
                any = true;
            }
            j = j + 1;
        }
        proof {
            reveal(output_code);
        }
        if !any {
            part = part.num(0);
        }
        rows = rows.then_script(part);
        i = i + 1;
    }
    // Stack: s[0..16] out[0..16]. Park the outputs, drop the inputs, restore.
    rows.then_script(vm::repeat(WIDTH, Opcode::ToAltStack)).then_script(
        vm::repeat(WIDTH / 2, Opcode::Drop2),
    ).then_script(vm::repeat(WIDTH, Opcode::FromAltStack))
}

/// The code of [`mds_light`]: a pass over the blocks, then one over the columns.
#[verifier::opaque]
pub open spec fn mds_light_code() -> Seq<Instr> {
    linear_layer_code(layers::block_matrix()) + linear_layer_code(layers::column_matrix())
}

/// What the external layer's script does to a state.
proof fn lemma_mds_light(c: Ctx, v: Seq<Item>, w: Seq<Item>, s: Seq<int>)
    requires
        c.live(),
        poseidon2::is_state(s),
    ensures
        vm::run(mds_light_code(), vm::at(c, v + vm::nums(s), w)) == Some(
            vm::at(c, v + vm::nums(poseidon2::mds(s)), w),
        ),
{
    reveal(mds_light_code);
    broadcast use vm::group_run;

    let t = arith::apply(layers::block_matrix(), s);
    assert forall|i: int| 0 <= i < 16 implies arith::felt(#[trigger] t[i]) by {
        arith::lemma_red(arith::dot(layers::block_matrix()[i], s, 16));
    }
    lemma_linear_layer(c, v, w, s, layers::block_matrix());
    lemma_linear_layer(c, v, w, t, layers::column_matrix());
    layers::the_external_layer_factors(s);
}

/// The first pass of the external layer. The blocks on the diagonal count twice
/// in the layer's matrix.
fn block_matrix() -> (m: [[u32; WIDTH]; WIDTH])
    ensures
        reference::matrix_ints(m@) == layers::block_matrix(),
{
    let full = reference::mds_light_matrix();
    let ghost goal = layers::block_matrix();
    let zero: [u32; WIDTH] = [0; WIDTH];
    let mut m: [[u32; WIDTH]; WIDTH] = [zero; WIDTH];
    let mut i: usize = 0;
    while i < WIDTH
        invariant
            i <= WIDTH,
            goal == layers::block_matrix(),
            reference::matrix_ints(full@) == poseidon2::mds_matrix(),
            forall|a: int| 0 <= a < i ==> arith::ints((#[trigger] m@[a])@) == goal[a],
        decreases WIDTH - i,
    {
        let mut row: [u32; WIDTH] = [0; WIDTH];
        let mut j: usize = 0;
        while j < WIDTH
            invariant
                i < WIDTH,
                j <= WIDTH,
                goal == layers::block_matrix(),
                reference::matrix_ints(full@) == poseidon2::mds_matrix(),
                forall|b: int| 0 <= b < j ==> #[trigger] row@[b] == goal[i as int][b],
            decreases WIDTH - j,
        {
            proof {
                assert(reference::matrix_ints(full@)[i as int][j as int] == full@[i as int]@[j as int]);
            }
            row[j] = if i / 4 == j / 4 {
                full[i][j] / 2
            } else {
                0
            };
            j = j + 1;
        }
        assert(arith::ints(row@) =~= goal[i as int]);
        m[i] = row;
        i = i + 1;
    }
    assert(reference::matrix_ints(m@) =~= goal);
    m
}

/// The second pass of the external layer.
fn column_matrix() -> (m: [[u32; WIDTH]; WIDTH])
    ensures
        reference::matrix_ints(m@) == layers::column_matrix(),
{
    let ghost goal = layers::column_matrix();
    let zero: [u32; WIDTH] = [0; WIDTH];
    let mut m: [[u32; WIDTH]; WIDTH] = [zero; WIDTH];
    let mut i: usize = 0;
    while i < WIDTH
        invariant
            i <= WIDTH,
            goal == layers::column_matrix(),
            forall|a: int| 0 <= a < i ==> arith::ints((#[trigger] m@[a])@) == goal[a],
        decreases WIDTH - i,
    {
        let mut row: [u32; WIDTH] = [0; WIDTH];
        let mut j: usize = 0;
        while j < WIDTH
            invariant
                i < WIDTH,
                j <= WIDTH,
                goal == layers::column_matrix(),
                forall|b: int| 0 <= b < j ==> #[trigger] row@[b] == goal[i as int][b],
            decreases WIDTH - j,
        {
            row[j] = if i == j {
                2
            } else if i % 4 == j % 4 {
                1
            } else {
                0
            };
            j = j + 1;
        }
        assert(arith::ints(row@) =~= goal[i as int]);
        m[i] = row;
        i = i + 1;
    }
    assert(reference::matrix_ints(m@) =~= goal);
    m
}

/// The external linear layer.
///
/// `M4` is block-diagonal, so the first pass reads four inputs an output; the
/// second adds the four outputs of a column to each of them.
pub fn mds_light() -> (r: Script)
    ensures
        r.code() == mds_light_code(),
        maps_state(r.code(), |s: Seq<int>| poseidon2::mds(s)),
{
    proof {
        assert forall|s: Seq<int>, c: Ctx, v: Seq<Item>, w: Seq<Item>|
            poseidon2::is_state(s) && c.live() implies #[trigger] vm::run(
            mds_light_code(),
            vm::at(c, v + vm::nums(s), w),
        ) == Some(vm::at(c, v + vm::nums(poseidon2::mds(s)), w)) by {
            lemma_mds_light(c, v, w, s);
        }
        reveal(mds_light_code);
    }
    linear_layer(&block_matrix()).then_script(linear_layer(&column_matrix()))
}

/// The code of [`mds_light_dense`].
pub open spec fn mds_light_dense_code() -> Seq<Instr> {
    linear_layer_code(poseidon2::mds_matrix())
}

/// The external linear layer as one dense matrix.
pub fn mds_light_dense() -> (r: Script)
    ensures
        r.code() == mds_light_dense_code(),
        maps_state(r.code(), |s: Seq<int>| poseidon2::mds(s)),
{
    linear_layer(&reference::mds_light_matrix())
}

/// The code that pushes output `i` of the internal layer: the element, scaled,
/// plus the sum, which lies under the outputs so far.
#[verifier::opaque]
pub open spec fn share_code(i: int) -> Seq<Instr> {
    copy_input_code(i, i + 1) + scale_code(layers::share(i)) + vm::pick_code(i + 1)
        + field::add_code()
}

/// The codes of the outputs in order.
pub open spec fn share_codes() -> spec_fn(int) -> Seq<Instr> {
    |i: int| share_code(i)
}

/// The code of [`internal_linear`].
#[verifier::opaque]
pub open spec fn internal_linear_code() -> Seq<Instr> {
    output_code(layers::ones(), 0) + vm::flat(16, share_codes()) + vm::ops(16, Opcode::ToAltStack)
        + vm::ops(8, Opcode::Drop2) + vm::ops(1, Opcode::Drop) + vm::ops(16, Opcode::FromAltStack)
}

proof fn lemma_share(
    c: Ctx,
    v: Seq<Item>,
    w: Seq<Item>,
    s: Seq<int>,
    sum: int,
    outs: Seq<Item>,
)
    requires
        c.live(),
        poseidon2::is_state(s),
        arith::felt(sum),
        outs.len() < 16,
    ensures
        vm::run(
            share_code(outs.len() as int),
            vm::at(c, (v + vm::nums(s)).push(vm::num(sum)) + outs, w),
        ) == Some(
            vm::at(
                c,
                ((v + vm::nums(s)).push(vm::num(sum)) + outs).push(
                    vm::num(
                        arith::fadd(
                            arith::fmul(
                                s[outs.len() as int],
                                layers::share(outs.len() as int),
                            ),
                            sum,
                        ),
                    ),
                ),
                w,
            ),
        ),
{
    reveal(share_code);
    broadcast use vm::group_run;

    let i = outs.len() as int;
    let base = (v + vm::nums(s)).push(vm::num(sum)) + outs;
    let x = arith::fmul(s[i], layers::share(i));
    let top = base.push(vm::num(x));
    arith::lemma_red(s[i] * layers::share(i));
    assert(base[base.len() - 1 - 16] == vm::num(s[i]));
    vm::lemma_pick(c, base, w, 16);
    lemma_scale(c, base, w, s[i], layers::share(i));
    assert(top[top.len() - 1 - (i + 1)] == vm::num(sum));
    vm::lemma_pick(c, top, w, i + 1);
    field::lemma_add(c, base, w, x, sum);
}

/// What the internal layer's script does to a state.
proof fn lemma_internal_linear(c: Ctx, v: Seq<Item>, w: Seq<Item>, s: Seq<int>)
    requires
        c.live(),
        poseidon2::is_state(s),
    ensures
        vm::run(internal_linear_code(), vm::at(c, v + vm::nums(s), w)) == Some(
            vm::at(c, v + vm::nums(poseidon2::internal(s)), w),
        ),
{
    reveal(internal_linear_code);
    broadcast use vm::group_run;

    let sum = arith::red(arith::dot(layers::ones(), s, 16));
    arith::lemma_red(arith::dot(layers::ones(), s, 16));
    let out = poseidon2::internal(s);
    let base = (v + vm::nums(s)).push(vm::num(sum));
    assert(v + vm::nums(s) + vm::nums(out.take(0)) =~= v + vm::nums(s));
    lemma_output(c, v, w, s, vm::nums(out.take(0)), layers::ones());
    let st = |i: int| vm::at(c, base + vm::nums(out.take(i)), w);
    let f = share_codes();
    assert forall|i: int| 0 <= i < 16 implies #[trigger] vm::run(f(i), st(i)) == Some(st(i + 1)) by {
        let outs = vm::nums(out.take(i));
        lemma_share(c, v, w, s, sum, outs);
        layers::the_internal_layer_is_a_sum_and_shares(s, i);
        assert((base + outs).push(vm::num(out[i])) =~= base + vm::nums(out.take(i + 1)));
    }
    vm::lemma_run_flat(16, f, st);
    assert(base + vm::nums(out.take(0)) =~= base);
    assert(out.take(16) =~= out);
    vm::lemma_to_alt(c, base, vm::nums(out), w);
    let rest = vm::nums(s).push(vm::num(sum));
    assert(base =~= v + rest);
    vm::lemma_drop_all(c, v, rest, w + vm::nums(out).reverse());
    vm::lemma_from_alt(c, v, vm::nums(out), w);
}

/// What the diagonal adds to the ones of the internal layer's matrix.
fn share(full: &[[u32; WIDTH]; WIDTH], i: usize) -> (r: u32)
    requires
        reference::matrix_ints(full@) == poseidon2::internal_matrix(),
        i < WIDTH,
    ensures
        r == layers::share(i as int),
{
    let x: u32 = full[i][i];
    proof {
        let v = poseidon2::diagonal(i as int);
        assert(reference::matrix_ints(full@)[i as int][i as int] == x);
        arith::lemma_red(1 + v);
        arith::lemma_red(x - 1);
        arith::lemma_red_sub(1 + v, 1);
    }
    if x == 0 {
        field::P - 1
    } else {
        x - 1
    }
}

/// The internal linear layer: one sum over the state, then each element scaled by
/// its entry of the diagonal and the sum added.
pub fn internal_linear() -> (r: Script)
    ensures
        r.code() == internal_linear_code(),
        maps_state(r.code(), |s: Seq<int>| poseidon2::internal(s)),
{
    let full = reference::internal_matrix();
    let mut sum = Script::new();
    let mut j: usize = 0;
    while j < WIDTH
        invariant
            j <= WIDTH,
            started(layers::ones(), j as nat) == (j > 0),
            sum.code() == terms_code(layers::ones(), 0, j as nat),
        decreases WIDTH - j,
    {
        sum = if j == 0 {
            sum.then_script(copy_input(j, 0)).then_script(scale(1))
        } else {
            sum.then_script(copy_input(j, 1)).then_script(scale(1)).then_script(crate::field::add())
        };
        j = j + 1;
    }
    proof {
        reveal(output_code);
    }
    // Stack: s[0..16] sum. Outputs accumulate above the sum, so s[i] always sits
    // sixteen down.
    let mut shares = Script::new();
    let mut i: usize = 0;
    while i < WIDTH
        invariant
            i <= WIDTH,
            reference::matrix_ints(full@) == poseidon2::internal_matrix(),
            shares.code() == vm::flat(i as nat, share_codes()),
        decreases WIDTH - i,
    {
        proof {
            reveal(share_code);
        }
        let part = copy_input(i, i + 1).then_script(scale(share(&full, i))).then_script(
            Script::new().num((i + 1) as i64).op(Opcode::Pick),
        ).then_script(crate::field::add());
        shares = shares.then_script(part);
        i = i + 1;
    }
    proof {
        assert forall|s: Seq<int>, c: Ctx, v: Seq<Item>, w: Seq<Item>|
            poseidon2::is_state(s) && c.live() implies #[trigger] vm::run(
            internal_linear_code(),
            vm::at(c, v + vm::nums(s), w),
        ) == Some(vm::at(c, v + vm::nums(poseidon2::internal(s)), w)) by {
            lemma_internal_linear(c, v, w, s);
        }
        reveal(internal_linear_code);
    }
    // Stack: s[0..16] sum out[0..16]. Park the outputs, drop the rest, restore.
    sum.then_script(shares).then_script(vm::repeat(WIDTH, Opcode::ToAltStack)).then_script(
        vm::repeat(WIDTH / 2, Opcode::Drop2),
    ).then_script(vm::repeat(1, Opcode::Drop)).then_script(
        vm::repeat(WIDTH, Opcode::FromAltStack),
    )
}

/// The code of [`internal_linear_dense`].
pub open spec fn internal_linear_dense_code() -> Seq<Instr> {
    linear_layer_code(poseidon2::internal_matrix())
}

/// The internal linear layer as one dense matrix.
pub fn internal_linear_dense() -> (r: Script)
    ensures
        r.code() == internal_linear_dense_code(),
        maps_state(r.code(), |s: Seq<int>| poseidon2::internal(s)),
{
    linear_layer(&reference::internal_matrix())
}

/// The structured layers equal the dense ones: on every state each pair leaves
/// the same stacks.
pub proof fn structured_layers_equal_dense(c: Ctx, v: Seq<Item>, w: Seq<Item>, s: Seq<int>)
    requires
        c.live(),
        poseidon2::is_state(s),
    ensures
        vm::run(mds_light_code(), vm::at(c, v + vm::nums(s), w)) == vm::run(
            mds_light_dense_code(),
            vm::at(c, v + vm::nums(s), w),
        ),
        vm::run(internal_linear_code(), vm::at(c, v + vm::nums(s), w)) == vm::run(
            internal_linear_dense_code(),
            vm::at(c, v + vm::nums(s), w),
        ),
{
    lemma_mds_light(c, v, w, s);
    lemma_internal_linear(c, v, w, s);
    lemma_linear_layer(c, v, w, s, poseidon2::mds_matrix());
    lemma_linear_layer(c, v, w, s, poseidon2::internal_matrix());
}

/// The code of [`add_rc_and_sbox`].
#[verifier::opaque]
pub open spec fn add_rc_and_sbox_code(c: int) -> Seq<Instr> {
    (if c != 0 {
        vm::nil().push(vm::k(c)) + field::add_code()
    } else {
        vm::nil()
    }) + field::cube_code()
}

proof fn lemma_add_rc_and_sbox(x: Ctx, v: Seq<Item>, w: Seq<Item>, a: int, c: int)
    requires
        x.live(),
        arith::felt(a),
        arith::felt(c),
    ensures
        vm::run(add_rc_and_sbox_code(c), vm::at(x, v.push(vm::num(a)), w)) == Some(
            vm::at(x, v.push(vm::num(poseidon2::sbox(a, c))), w),
        ),
{
    reveal(add_rc_and_sbox_code);
    broadcast use vm::group_run;

    arith::lemma_red(a);
    arith::lemma_red(a + c);
    field::lemma_add(x, v, w, a, c);
    field::lemma_cube(x, v, w, arith::fadd(a, c));
}

/// Add a round constant to the top element and cube it.
fn add_rc_and_sbox(c: u32) -> (r: Script)
    requires
        c < field::P,
    ensures
        r.code() == add_rc_and_sbox_code(c as int),
        field::computes1(r.code(), |a: int| poseidon2::sbox(a, c as int)),
{
    proof {
        assert forall|a: int, x: Ctx, v: Seq<Item>, w: Seq<Item>|
            arith::felt(a) && x.live() implies #[trigger] vm::run(
            add_rc_and_sbox_code(c as int),
            vm::at(x, v.push(vm::num(a)), w),
        ) == Some(vm::at(x, v.push(vm::num(poseidon2::sbox(a, c as int))), w)) by {
            lemma_add_rc_and_sbox(x, v, w, a, c as int);
        }
        reveal(add_rc_and_sbox_code);
    }
    let constant = if c != 0 {
        Script::new().num(c as i64).then_script(crate::field::add())
    } else {
        Script::new()
    };
    constant.then_script(field::cube())
}

/// The code for one element of an external S-box layer.
pub open spec fn park_sbox_codes(rc: Seq<u32>) -> spec_fn(int) -> Seq<Instr> {
    |j: int| add_rc_and_sbox_code(rc[15 - j] as int).push(vm::o(Opcode::ToAltStack))
}

/// The code of [`external_sbox_layer`].
#[verifier::opaque]
pub open spec fn external_sbox_layer_code(rc: Seq<u32>) -> Seq<Instr> {
    vm::flat(16, park_sbox_codes(rc)) + vm::ops(16, Opcode::FromAltStack)
}

proof fn lemma_external_sbox_layer(c: Ctx, v: Seq<Item>, w: Seq<Item>, s: Seq<int>, rc: Seq<u32>)
    requires
        c.live(),
        poseidon2::is_state(s),
        rc.len() == 16,
        reference::canonical(rc),
    ensures
        vm::run(external_sbox_layer_code(rc), vm::at(c, v + vm::nums(s), w)) == Some(
            vm::at(c, v + vm::nums(poseidon2::full_sbox(s, rc)), w),
        ),
{
    reveal(external_sbox_layer_code);
    broadcast use vm::group_run;

    let out = poseidon2::full_sbox(s, rc);
    let st = |j: int|
        vm::at(c, v + vm::nums(s.take(16 - j)), w + vm::nums(out.skip(16 - j)).reverse());
    let f = park_sbox_codes(rc);
    assert forall|j: int| 0 <= j < 16 implies #[trigger] vm::run(f(j), st(j)) == Some(st(j + 1)) by {
        let i = 15 - j;
        let v1 = v + vm::nums(s.take(i));
        let w1 = w + vm::nums(out.skip(i + 1)).reverse();
        assert(v + vm::nums(s.take(i + 1)) =~= v1.push(vm::num(s[i])));
        lemma_add_rc_and_sbox(c, v1, w1, s[i], rc[i] as int);
        assert(w1.push(vm::num(out[i])) =~= w + vm::nums(out.skip(i)).reverse());
    }
    vm::lemma_run_flat(16, f, st);
    assert(s.take(16) =~= s);
    assert(w + vm::nums(out.skip(16)).reverse() =~= w);
    assert(v + vm::nums(s.take(0)) =~= v);
    assert(out.skip(0) =~= out);
    vm::lemma_from_alt(c, v, vm::nums(out), w);
}

/// A full external round's S-box layer: add constants and cube all sixteen.
fn external_sbox_layer(rc: &[u32; WIDTH]) -> (r: Script)
    requires
        reference::canonical(rc@),
    ensures
        r.code() == external_sbox_layer_code(rc@),
        maps_state(r.code(), |s: Seq<int>| poseidon2::full_sbox(s, rc@)),
{
    proof {
        assert forall|s: Seq<int>, c: Ctx, v: Seq<Item>, w: Seq<Item>|
            poseidon2::is_state(s) && c.live() implies #[trigger] vm::run(
            external_sbox_layer_code(rc@),
            vm::at(c, v + vm::nums(s), w),
        ) == Some(vm::at(c, v + vm::nums(poseidon2::full_sbox(s, rc@)), w)) by {
            lemma_external_sbox_layer(c, v, w, s, rc@);
        }
        reveal(external_sbox_layer_code);
    }
    let mut r = Script::new();
    let mut j: usize = 0;
    // s[15] is on top, so walk the constants backwards.
    while j < WIDTH
        invariant
            j <= WIDTH,
            reference::canonical(rc@),
            r.code() == vm::flat(j as nat, park_sbox_codes(rc@)),
        decreases WIDTH - j,
    {
        r = r.then_script(add_rc_and_sbox(rc[WIDTH - 1 - j]).op(Opcode::ToAltStack));
        j = j + 1;
    }
    r.then_script(vm::repeat(WIDTH, Opcode::FromAltStack))
}

/// The code of [`internal_sbox_layer`].
#[verifier::opaque]
pub open spec fn internal_sbox_layer_code(c: int) -> Seq<Instr> {
    vm::ops(15, Opcode::ToAltStack) + add_rc_and_sbox_code(c) + vm::ops(15, Opcode::FromAltStack)
}

proof fn lemma_internal_sbox_layer(x: Ctx, v: Seq<Item>, w: Seq<Item>, s: Seq<int>, c: int)
    requires
        x.live(),
        poseidon2::is_state(s),
        arith::felt(c),
    ensures
        vm::run(internal_sbox_layer_code(c), vm::at(x, v + vm::nums(s), w)) == Some(
            vm::at(x, v + vm::nums(poseidon2::partial_sbox(s, c)), w),
        ),
{
    reveal(internal_sbox_layer_code);
    broadcast use vm::group_run;

    let rest = vm::nums(s.skip(1));
    let y = poseidon2::sbox(s[0], c);
    assert(v + vm::nums(s) =~= v.push(vm::num(s[0])) + rest);
    vm::lemma_to_alt(x, v.push(vm::num(s[0])), rest, w);
    lemma_add_rc_and_sbox(x, v, w + rest.reverse(), s[0], c);
    vm::lemma_from_alt(x, v.push(vm::num(y)), rest, w);
    assert(v.push(vm::num(y)) + rest =~= v + vm::nums(poseidon2::partial_sbox(s, c)));
}

/// The partial round's S-box layer, which touches `s[0]` only.
fn internal_sbox_layer(c: u32) -> (r: Script)
    requires
        c < field::P,
    ensures
        r.code() == internal_sbox_layer_code(c as int),
        maps_state(r.code(), |s: Seq<int>| poseidon2::partial_sbox(s, c as int)),
{
    proof {
        assert forall|s: Seq<int>, x: Ctx, v: Seq<Item>, w: Seq<Item>|
            poseidon2::is_state(s) && x.live() implies #[trigger] vm::run(
            internal_sbox_layer_code(c as int),
            vm::at(x, v + vm::nums(s), w),
        ) == Some(vm::at(x, v + vm::nums(poseidon2::partial_sbox(s, c as int)), w)) by {
            lemma_internal_sbox_layer(x, v, w, s, c as int);
        }
        reveal(internal_sbox_layer_code);
    }
    // Bury the top fifteen, act on s[0], then bring them back.
    vm::repeat(WIDTH - 1, Opcode::ToAltStack).then_script(add_rc_and_sbox(c)).then_script(
        vm::repeat(WIDTH - 1, Opcode::FromAltStack),
    )
}

/// The code of round `k` of the permutation.
pub open spec fn round_code(k: int) -> Seq<Instr> {
    if k == 0 {
        mds_light_code()
    } else if k <= INITIAL_ROUNDS {
        external_sbox_layer_code(EXTERNAL_INITIAL@[k - 1]@) + mds_light_code()
    } else if k <= INITIAL_ROUNDS + INTERNAL_ROUNDS {
        internal_sbox_layer_code(INTERNAL@[k - 1 - INITIAL_ROUNDS] as int) + internal_linear_code()
    } else {
        external_sbox_layer_code(EXTERNAL_FINAL@[k - 1 - INITIAL_ROUNDS - INTERNAL_ROUNDS]@) + mds_light_code()
    }
}

/// The codes of the rounds in order.
pub open spec fn round_codes() -> spec_fn(int) -> Seq<Instr> {
    |k: int| round_code(k)
}

/// The code of [`poseidon2_permute`].
#[verifier::opaque]
pub open spec fn permute_code() -> Seq<Instr> {
    vm::flat(poseidon2::round_count(), round_codes())
}

/// What one round's script does to a state.
pub proof fn lemma_round(c: Ctx, v: Seq<Item>, w: Seq<Item>, s: Seq<int>, k: int)
    requires
        c.live(),
        poseidon2::is_state(s),
        0 <= k < poseidon2::round_count(),
    ensures
        vm::run(round_code(k), vm::at(c, v + vm::nums(s), w)) == Some(
            vm::at(c, v + vm::nums(poseidon2::round(s, k)), w),
        ),
{
    broadcast use vm::group_run;

    crate::constants::lemma_round_constants();
    if k == 0 {
        lemma_mds_light(c, v, w, s);
    } else if k <= INITIAL_ROUNDS {
        let t = poseidon2::full_sbox(s, EXTERNAL_INITIAL@[k - 1]@);
        lemma_sbox_is_state(s, EXTERNAL_INITIAL@[k - 1]@, 0);
        lemma_external_sbox_layer(c, v, w, s, EXTERNAL_INITIAL@[k - 1]@);
        lemma_mds_light(c, v, w, t);
    } else if k <= INITIAL_ROUNDS + INTERNAL_ROUNDS {
        let t = poseidon2::partial_sbox(s, INTERNAL@[k - 1 - INITIAL_ROUNDS] as int);
        lemma_sbox_is_state(s, EXTERNAL_INITIAL@[0]@, INTERNAL@[k - 1 - INITIAL_ROUNDS] as int);
        lemma_internal_sbox_layer(c, v, w, s, INTERNAL@[k - 1 - INITIAL_ROUNDS] as int);
        lemma_internal_linear(c, v, w, t);
    } else {
        let t = poseidon2::full_sbox(s, EXTERNAL_FINAL@[k - 1 - INITIAL_ROUNDS - INTERNAL_ROUNDS]@);
        lemma_sbox_is_state(s, EXTERNAL_FINAL@[k - 1 - INITIAL_ROUNDS - INTERNAL_ROUNDS]@, 0);
        lemma_external_sbox_layer(c, v, w, s, EXTERNAL_FINAL@[k - 1 - INITIAL_ROUNDS - INTERNAL_ROUNDS]@);
        lemma_mds_light(c, v, w, t);
    }
}

proof fn lemma_sbox_is_state(s: Seq<int>, rc: Seq<u32>, c: int)
    requires
        poseidon2::is_state(s),
    ensures
        poseidon2::is_state(poseidon2::full_sbox(s, rc)),
        poseidon2::is_state(poseidon2::partial_sbox(s, c)),
{
    assert forall|x: int| arith::felt(#[trigger] arith::fcube(x)) by {
        arith::lemma_red(x * arith::fmul(x, x));
    }
}

/// What the permutation's script does to a state.
pub proof fn lemma_permute(c: Ctx, v: Seq<Item>, w: Seq<Item>, s: Seq<int>)
    requires
        c.live(),
        poseidon2::is_state(s),
    ensures
        vm::run(permute_code(), vm::at(c, v + vm::nums(s), w)) == Some(
            vm::at(c, v + vm::nums(poseidon2::permutation(s)), w),
        ),
{
    reveal(permute_code);
    let st = |k: int| vm::at(c, v + vm::nums(poseidon2::after(s, k as nat)), w);
    let f = round_codes();
    assert forall|k: int| 0 <= k < poseidon2::round_count() implies #[trigger] vm::run(f(k), st(k)) == Some(st(k + 1)) by {
        poseidon2::lemma_after_is_state(s, k as nat);
        lemma_round(c, v, w, poseidon2::after(s, k as nat), k);
    }
    vm::lemma_run_flat(poseidon2::round_count(), f, st);
}

/// The script of round `k`.
fn round(k: usize) -> (r: Script)
    requires
        k < ROUNDS,
    ensures
        r.code() == round_code(k as int),
{
    proof {
        crate::constants::lemma_round_constants();
    }
    if k == 0 {
        mds_light()
    } else if k <= INITIAL_ROUNDS {
        external_sbox_layer(&EXTERNAL_INITIAL[k - 1]).then_script(mds_light())
    } else if k <= INITIAL_ROUNDS + INTERNAL_ROUNDS {
        internal_sbox_layer(INTERNAL[k - 1 - INITIAL_ROUNDS]).then_script(internal_linear())
    } else {
        external_sbox_layer(&EXTERNAL_FINAL[k - 1 - INITIAL_ROUNDS - INTERNAL_ROUNDS]).then_script(mds_light())
    }
}

/// The permutation cut into its rounds: the opening linear layer, then the
/// initial external, the internal and the terminal external rounds.
pub fn rounds() -> (r: Vec<Script>)
    ensures
        r@.len() == poseidon2::round_count(),
        forall|k: int| 0 <= k < r@.len() ==> (#[trigger] r@[k]).code() == round_code(k),
        forall|k: int|
            0 <= k < r@.len() ==> maps_state(
                (#[trigger] r@[k]).code(),
                |s: Seq<int>| poseidon2::round(s, k),
            ),
{
    let mut r: Vec<Script> = Vec::new();
    let mut k: usize = 0;
    while k < ROUNDS
        invariant
            k <= ROUNDS,
            r@.len() == k,
            forall|t: int| 0 <= t < k ==> (#[trigger] r@[t]).code() == round_code(t),
        decreases ROUNDS - k,
    {
        r.push(round(k));
        k = k + 1;
    }
    proof {
        assert forall|k: int| 0 <= k < poseidon2::round_count() implies maps_state(
            (#[trigger] r@[k]).code(),
            |s: Seq<int>| poseidon2::round(s, k),
        ) by {
            assert forall|s: Seq<int>, c: Ctx, v: Seq<Item>, w: Seq<Item>|
                poseidon2::is_state(s) && c.live() implies #[trigger] vm::run(
                r@[k].code(),
                vm::at(c, v + vm::nums(s), w),
            ) == Some(vm::at(c, v + vm::nums(poseidon2::round(s, k)), w)) by {
                lemma_round(c, v, w, s, k);
            }
        }
    }
    r
}

/// The scripts of the rounds, one after the other, are the permutation's script.
pub proof fn rounds_compose_to_the_permutation()
    ensures
        permute_code() == vm::flat(poseidon2::round_count(), |k: int| round_code(k)),
{
    reveal(permute_code);
    assert(round_codes() =~= |k: int| round_code(k));
}

/// The Poseidon2 permutation.
///
/// Input: sixteen canonical KoalaBear elements, `s[0]` deepest.
/// Output: the permuted state, same layout.
pub fn poseidon2_permute() -> (r: Script)
    ensures
        r.code() == permute_code(),
        maps_state(r.code(), |s: Seq<int>| poseidon2::permutation(s)),
{
    proof {
        assert forall|s: Seq<int>, c: Ctx, v: Seq<Item>, w: Seq<Item>|
            poseidon2::is_state(s) && c.live() implies #[trigger] vm::run(
            permute_code(),
            vm::at(c, v + vm::nums(s), w),
        ) == Some(vm::at(c, v + vm::nums(poseidon2::permutation(s)), w)) by {
            lemma_permute(c, v, w, s);
        }
        reveal(permute_code);
    }
    let mut r = Script::new();
    let mut k: usize = 0;
    while k < ROUNDS
        invariant
            k <= ROUNDS,
            r.code() == vm::flat(k as nat, round_codes()),
        decreases ROUNDS - k,
    {
        r = r.then_script(round(k));
        k = k + 1;
    }
    r
}

/// The code of [`poseidon2_compress`].
#[verifier::opaque]
pub open spec fn compress_code() -> Seq<Instr> {
    permute_code() + vm::ops(4, Opcode::Drop2)
}

/// What the compression's script does to two digests.
pub proof fn lemma_compress(
    c: Ctx,
    v: Seq<Item>,
    w: Seq<Item>,
    left: Seq<int>,
    right: Seq<int>,
)
    requires
        c.live(),
        poseidon2::is_digest(left),
        poseidon2::is_digest(right),
    ensures
        vm::run(compress_code(), vm::at(c, v + vm::nums(left) + vm::nums(right), w)) == Some(
            vm::at(c, v + vm::nums(poseidon2::compression(left, right)), w),
        ),
{
    reveal(compress_code);
    broadcast use vm::group_run;

    poseidon2::lemma_compression_is_digest(left, right);
    let s = left + right;
    let t = poseidon2::permutation(s);
    poseidon2::lemma_permutation_is_state(s);
    assert(v + vm::nums(left) + vm::nums(right) =~= v + vm::nums(s));
    lemma_permute(c, v, w, s);
    assert(v + vm::nums(t) =~= v + vm::nums(t.take(8)) + vm::nums(t.skip(8)));
    vm::lemma_drop2(c, v + vm::nums(t.take(8)), vm::nums(t.skip(8)), w, 4);
}

/// Compress two eight-element digests into one, the Merkle step.
///
/// Input: `left[0..8] right[0..8]`, sixteen elements, which is already the
/// permutation's state: there is no concatenation to perform, only a state to
/// permute. Output: the first eight elements of the result.
pub fn poseidon2_compress() -> (r: Script)
    ensures
        r.code() == compress_code(),
        forall|left: Seq<int>, right: Seq<int>, c: Ctx, v: Seq<Item>, w: Seq<Item>|
            poseidon2::is_digest(left) && poseidon2::is_digest(right) && c.live()
                ==> #[trigger] vm::run(
                r.code(),
                vm::at(c, v + vm::nums(left) + vm::nums(right), w),
            ) == Some(vm::at(c, v + vm::nums(poseidon2::compression(left, right)), w)),
{
    proof {
        assert forall|left: Seq<int>, right: Seq<int>, c: Ctx, v: Seq<Item>, w: Seq<Item>|
            poseidon2::is_digest(left) && poseidon2::is_digest(right)
                && c.live() implies #[trigger] vm::run(
            compress_code(),
            vm::at(c, v + vm::nums(left) + vm::nums(right), w),
        ) == Some(vm::at(c, v + vm::nums(poseidon2::compression(left, right)), w)) by {
            lemma_compress(c, v, w, left, right);
        }
        reveal(compress_code);
    }
    // Keep s[0..8], drop s[8..16].
    poseidon2_permute().then_script(vm::repeat(WIDTH / 2 / 2, Opcode::Drop2))
}

} // verus!
