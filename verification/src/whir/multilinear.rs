//! Multilinear evaluation in Bitcoin Script, over the quartic extension.
//!
//! WHIR's verifier finishes by evaluating the final polynomial at the sumcheck
//! randomness, and evaluates each query answer the same way. That randomness is
//! an extension element, so every value is four slots wide.

use crate::ext::{self, Ext};
use crate::ext4;
use crate::script::{Instr, Script};
use crate::vm::{self, Ctx, Item};
use crate::whir::algebra;
use vstd::arithmetic::power2::*;
use vstd::bits::*;
use vstd::prelude::*;

verus! {

/// The code that folds pair `j` of `m` evaluations.
#[verifier::opaque]
pub open spec fn fold_pair_code(m: int, j: int) -> Seq<Instr> {
    ext4::copy_code(m - 1 - j) + ext4::copy_code(m + 1 - j) + ext4::sub_code() + ext4::copy_code(
        j + 1,
    ) + ext4::mul_code() + ext4::copy_code(m + 1 - j) + ext4::add_code()
}

/// The code that folds each pair.
pub open spec fn fold_pair_codes(m: int) -> spec_fn(int) -> Seq<Instr> {
    |j: int| fold_pair_code(m, j)
}

/// The code of [`fold_variable`].
#[verifier::opaque]
pub open spec fn fold_variable_code(m: nat) -> Seq<Instr> {
    ext4::from_altstack_code() + vm::flat(m / 2, fold_pair_codes(m as int)) + vm::flat(
        m / 2,
        ext4::park_codes(),
    ) + ext4::drop_n_code(1) + ext4::drop_n_code(m) + vm::flat(m / 2, ext4::fetch_codes())
}

proof fn lemma_fold_pair(
    c: Ctx,
    v: Seq<Item>,
    w: Seq<Item>,
    e: Seq<Ext>,
    x: Ext,
    outs: Seq<Ext>,
)
    requires
        c.live(),
        ext::all_ok(e),
        x.ok(),
        2 * outs.len() + 1 < e.len(),
        4 * (e.len() + 1) + 3 < 0x80000000,
    ensures
        vm::run(
            fold_pair_code(e.len() as int, outs.len() as int),
            vm::at(c, ext4::puts(v, e.push(x) + outs), w),
        ) == Some(
            vm::at(
                c,
                ext4::puts(
                    v,
                    (e.push(x) + outs).push(
                        algebra::fold(e, x)[outs.len() as int],
                    ),
                ),
                w,
            ),
        ),
{
    reveal(fold_pair_code);
    broadcast use ext::group_ok;

    let m = e.len() as int;
    let j = outs.len() as int;
    let s = e.push(x) + outs;
    let a = e[2 * j];
    let b = e[2 * j + 1];
    let d = ext::esub(b, a);
    let p = ext::emul(d, x);
    ext4::run_copy(c, v, w, s, m - 1 - j);
    let s1 = s.push(b);
    ext4::run_copy(c, v, w, s1, m + 1 - j);
    let s2 = s1.push(a);
    ext4::run_sub(c, v, w, s2);
    vm::lemma_push_drop_last(s1, a);
    vm::lemma_push_drop_last(s, b);
    let s3 = s.push(d);
    ext4::run_copy(c, v, w, s3, j + 1);
    let s4 = s3.push(x);
    ext4::run_mul(c, v, w, s4);
    vm::lemma_push_drop_last(s3, x);
    vm::lemma_push_drop_last(s, d);
    let s5 = s.push(p);
    ext4::run_copy(c, v, w, s5, m + 1 - j);
    let s6 = s5.push(a);
    ext4::run_add(c, v, w, s6);
    vm::lemma_push_drop_last(s5, a);
    vm::lemma_push_drop_last(s, p);
    ext::emul_commutes(d, x);
    ext::eadd_laws(p, a, a);
    broadcast use vm::lemma_run_concat;

}

/// What [`fold_variable`] does.
proof fn lemma_fold_variable(c: Ctx, v: Seq<Item>, w: Seq<Item>, e: Seq<Ext>, x: Ext)
    requires
        c.live(),
        ext::all_ok(e),
        x.ok(),
        e.len() % 2 == 0,
        4 * (e.len() + 1) + 3 < 0x80000000,
    ensures
        vm::run(
            fold_variable_code(e.len()),
            vm::at(c, ext4::puts(v, e), ext4::park(w, x)),
        ) == Some(vm::at(c, ext4::puts(v, algebra::fold(e, x)), w)),
{
    reveal(fold_variable_code);
    let m = e.len();
    let h = (m / 2) as nat;
    let out = algebra::fold(e, x);
    let base = e.push(x);
    ext4::run_from_altstack(c, v, w, e, x);
    let f = fold_pair_codes(m as int);
    let st = |j: int| vm::at(c, ext4::puts(v, base + out.take(j)), w);
    assert forall|j: int| 0 <= j < h implies #[trigger] vm::run(f(j), st(j)) == Some(st(j + 1)) by {
        lemma_fold_pair(c, v, w, e, x, out.take(j));
        assert((base + out.take(j)).push(out[j]) =~= base + out.take(j + 1));
    }
    vm::lemma_run_flat(h, f, st);
    assert(base + out.take(0) =~= base);
    assert(out.take(h as int) =~= out);
    ext4::lemma_puts_concat(v, base, out);
    ext4::lemma_park_block(c, ext4::puts(v, base), w, out);
    let w1 = ext4::parks(w, out.reverse());
    ext4::lemma_drop_top(c, v, w1, base, 1);
    assert(base.take(m as int) =~= e);
    ext4::lemma_drop_n(c, v, w1, e);
    ext4::lemma_fetch_block(c, v, w, out);
    broadcast use vm::lemma_run_concat;

}

/// Fold one variable: `m` extension evaluations become `m/2`.
///
/// Expects the challenge on top of the altstack and the `m` evaluations on the
/// stack, `e[0]` deepest. Outputs are built above the untouched inputs, so each
/// operand's depth is a function of the push count.
fn fold_variable(m: usize) -> (r: Script)
    requires
        m >= 2,
        m % 2 == 0,
        4 * (m + 1) + 3 < 0x80000000,
    ensures
        r.code() == fold_variable_code(m as nat),
        forall|e: Seq<Ext>, x: Ext, c: Ctx, v: Seq<Item>, w: Seq<Item>|
            ext::all_ok(e) && x.ok() && e.len() == m && c.live() ==> #[trigger] vm::run(
                r.code(),
                vm::at(c, ext4::puts(v, e), ext4::park(w, x)),
            ) == Some(vm::at(c, ext4::puts(v, algebra::fold(e, x)), w)),
{
    proof {
        assert forall|e: Seq<Ext>, x: Ext, c: Ctx, v: Seq<Item>, w: Seq<Item>|
            ext::all_ok(e) && x.ok() && e.len() == m && c.live() implies #[trigger] vm::run(
            fold_variable_code(m as nat),
            vm::at(c, ext4::puts(v, e), ext4::park(w, x)),
        ) == Some(vm::at(c, ext4::puts(v, algebra::fold(e, x)), w)) by {
            lemma_fold_variable(c, v, w, e, x);
        }
        reveal(fold_variable_code);
    }
    let sub = crate::ext4::sub();
    let mul = crate::ext4::mul();
    let add = crate::ext4::add();
    let mut pairs = Script::new();
    let mut j: usize = 0;
    while j < m / 2
        invariant
            j <= m / 2,
            4 * (m + 1) + 3 < 0x80000000,
            sub.code() == ext4::sub_code(),
            mul.code() == ext4::mul_code(),
            add.code() == ext4::add_code(),
            pairs.code() == vm::flat(j as nat, fold_pair_codes(m as int)),
        decreases m / 2 - j,
    {
        proof {
            reveal(fold_pair_code);
        }
        // e[2j+1] - e[2j], times x, which is j+1 elements down at that moment,
        // plus e[2j].
        let pair = ext4::copy(m - 1 - j).then_script(ext4::copy(m + 1 - j)).with(
            &sub,
        ).then_script(ext4::copy(j + 1)).with(&mul).then_script(ext4::copy(m + 1 - j)).with(&add);
        pairs = pairs.then_script(pair);
        j = j + 1;
    }
    // Park the m/2 outputs, drop x and the m inputs, restore.
    ext4::from_altstack().then_script(pairs).then_script(ext4::park_block(m / 2)).then_script(
        ext4::drop_n(1),
    ).then_script(ext4::drop_n(m)).then_script(ext4::fetch_block(m / 2))
}

/// The folds of an evaluation, the last variable first.
pub open spec fn fold_codes(n: nat) -> spec_fn(int) -> Seq<Instr> {
    |i: int| fold_variable_code(pow2((n - i) as nat))
}

/// The code of [`eval_multilinear`].
#[verifier::opaque]
pub open spec fn eval_multilinear_code(n: nat) -> Seq<Instr> {
    vm::flat(n, fold_codes(n))
}

/// The evaluations left after folding the last `k` variables.
pub open spec fn folded(e: Seq<Ext>, p: Seq<Ext>, k: nat) -> Seq<Ext>
    decreases k,
{
    if k == 0 {
        e
    } else {
        algebra::fold(folded(e, p, (k - 1) as nat), p[p.len() - k])
    }
}

proof fn lemma_folded(e: Seq<Ext>, p: Seq<Ext>, k: nat)
    requires
        ext::all_ok(e),
        e.len() == pow2(p.len()),
        k <= p.len(),
    ensures
        ext::all_ok(folded(e, p, k)),
        folded(e, p, k).len() == pow2((p.len() - k) as nat),
        algebra::multilinear(folded(e, p, k), p.take(p.len() - k)) == algebra::multilinear(e, p),
    decreases k,
{
    if k == 0 {
        assert(p.take(p.len() as int) =~= p);
    } else {
        lemma_folded(e, p, (k - 1) as nat);
        let t = folded(e, p, (k - 1) as nat);
        let q = p.take(p.len() - k + 1);
        lemma_pow2_unfold((p.len() - k + 1) as nat);
        algebra::lemma_fold_ok(t, p[p.len() - k]);
        assert(q.drop_last() =~= p.take(p.len() - k));
        assert(q.last() == p[p.len() - k]);
        assert((p.len() - (k - 1)) as nat == (p.len() - k + 1) as nat);
    }
}

/// What [`eval_multilinear`] does.
pub proof fn lemma_eval_multilinear(
    c: Ctx,
    v: Seq<Item>,
    w: Seq<Item>,
    e: Seq<Ext>,
    p: Seq<Ext>,
)
    requires
        c.live(),
        ext::all_ok(e),
        ext::all_ok(p),
        p.len() <= 28,
        e.len() == pow2(p.len()),
    ensures
        vm::run(
            eval_multilinear_code(p.len()),
            vm::at(c, ext4::puts(v, e), ext4::parks(w, p)),
        ) == Some(vm::at(c, ext4::put(v, algebra::multilinear(e, p)), w)),
{
    reveal(eval_multilinear_code);
    let n = p.len();
    let f = fold_codes(n);
    let st = |i: int|
        vm::at(c, ext4::puts(v, folded(e, p, i as nat)), ext4::parks(w, p.take(n - i)));
    lemma2_to64();
    assert forall|i: int| 0 <= i < n implies #[trigger] vm::run(f(i), st(i)) == Some(st(i + 1)) by {
        let t = folded(e, p, i as nat);
        let x = p[n - 1 - i];
        lemma_folded(e, p, i as nat);
        lemma_pow2_unfold((n - i) as nat);
        if n - i < 28 {
            lemma_pow2_strictly_increases((n - i) as nat, 28);
        }
        assert(p.take(n - i) =~= p.take(n - i - 1).push(x));
        ext4::lemma_parks_push(w, p.take(n - i - 1), x);
        assert(x.ok());
        lemma_fold_variable(c, v, ext4::parks(w, p.take(n - i - 1)), t, x);
    }
    vm::lemma_run_flat(n, f, st);
    assert(p.take(n as int) =~= p);
    assert(p.take(0) =~= Seq::<Ext>::empty());
    lemma_folded(e, p, n);
    let last = folded(e, p, n);
    assert(last =~= Seq::<Ext>::empty().push(last[0]));
    ext4::lemma_puts_push(v, Seq::<Ext>::empty(), last[0]);
}

/// Evaluate a multilinear polynomial given its `2^n` extension evaluations.
///
/// Stack: the `2^n` evaluations, `e[0]` deepest. Altstack: the point, pushed so
/// the *last* variable pops first: the last variable pairs adjacent entries.
///
/// A pick depth is a script number of at most four bytes, which bounds `n`.
pub fn eval_multilinear(n: usize) -> (r: Script)
    requires
        n <= 28,
    ensures
        r.code() == eval_multilinear_code(n as nat),
        forall|e: Seq<Ext>, p: Seq<Ext>, c: Ctx, v: Seq<Item>, w: Seq<Item>|
            ext::all_ok(e) && ext::all_ok(p) && p.len() == n && e.len() == pow2(n as nat)
                && c.live() ==> #[trigger] vm::run(
                r.code(),
                vm::at(c, ext4::puts(v, e), ext4::parks(w, p)),
            ) == Some(vm::at(c, ext4::put(v, algebra::multilinear(e, p)), w)),
{
    proof {
        assert forall|e: Seq<Ext>, p: Seq<Ext>, c: Ctx, v: Seq<Item>, w: Seq<Item>|
            ext::all_ok(e) && ext::all_ok(p) && p.len() == n && e.len() == pow2(n as nat)
                && c.live() implies #[trigger] vm::run(
            eval_multilinear_code(n as nat),
            vm::at(c, ext4::puts(v, e), ext4::parks(w, p)),
        ) == Some(vm::at(c, ext4::put(v, algebra::multilinear(e, p)), w)) by {
            lemma_eval_multilinear(c, v, w, e, p);
        }
        reveal(eval_multilinear_code);
        lemma2_to64();
    }
    let mut r = Script::new();
    let mut i: usize = 0;
    while i < n
        invariant
            i <= n <= 28,
            r.code() == vm::flat(i as nat, fold_codes(n as nat)),
        decreases n - i,
    {
        r = r.then_script(fold_variable(cube_size(n - i)));
        proof {
            lemma_pow2_unfold((n - i) as nat);
        }
        i = i + 1;
    }
    r
}

/// The number of corners of the `n`-dimensional boolean cube.
pub(crate) fn cube_size(n: usize) -> (r: usize)
    requires
        n <= 28,
    ensures
        r == pow2(n as nat),
        r <= 0x10000000,
        n > 0 ==> r >= 2 && r % 2 == 0,
{
    proof {
        lemma2_to64();
        if n < 28 {
            lemma_pow2_strictly_increases(n as nat, 28);
        }
        if n > 0 {
            lemma_pow2_unfold(n as nat);
            lemma_pow2_pos((n - 1) as nat);
        }
        lemma_u32_shl_is_mul(1, n as u32);
    }
    (1u32 << (n as u32)) as usize
}

} // verus!
