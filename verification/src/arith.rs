//! The KoalaBear field as a mathematical object: integers modulo
//! `2^31 - 2^24 + 1`, each represented by its canonical residue.

use vstd::arithmetic::div_mod::*;
use vstd::arithmetic::power2::*;
use vstd::prelude::*;

verus! {

/// The KoalaBear prime.
pub open spec fn modulus() -> int {
    0x7f000001
}

/// Whether an integer is a canonical field element.
pub open spec fn felt(a: int) -> bool {
    0 <= a < modulus()
}

/// Whether all entries are canonical field elements.
pub open spec fn felts(s: Seq<int>) -> bool {
    forall|i: int| 0 <= i < s.len() ==> felt(#[trigger] s[i])
}

/// Reduction to the canonical residue.
pub open spec fn red(a: int) -> int {
    a % modulus()
}

/// Addition in the field.
pub open spec fn fadd(a: int, b: int) -> int {
    red(a + b)
}

/// Subtraction in the field.
pub open spec fn fsub(a: int, b: int) -> int {
    red(a - b)
}

/// Multiplication in the field.
pub open spec fn fmul(a: int, b: int) -> int {
    red(a * b)
}

/// The cube of a field element.
pub open spec fn fcube(a: int) -> int {
    fmul(a, fmul(a, a))
}

/// Powers in the field.
pub open spec fn fpow(a: int, n: nat) -> int
    decreases n,
{
    if n == 0 {
        1
    } else {
        fmul(fpow(a, (n - 1) as nat), a)
    }
}

/// Reduction lands in the canonical range and fixes what is already there.
pub proof fn lemma_red(a: int)
    ensures
        felt(red(a)),
        felt(a) ==> red(a) == a,
        -modulus() <= a < 0 ==> red(a) == a + modulus(),
        modulus() <= a < 2 * modulus() ==> red(a) == a - modulus(),
{
    if -modulus() <= a < 0 {
        lemma_fundamental_div_mod_converse(a, modulus(), -1, a + modulus());
    }
    if modulus() <= a < 2 * modulus() {
        lemma_fundamental_div_mod_converse(a, modulus(), 1, a - modulus());
    }
    if felt(a) {
        lemma_fundamental_div_mod_converse(a, modulus(), 0, a);
    }
}

/// Reducing an operand first does not change a sum.
pub proof fn lemma_red_add(a: int, b: int)
    ensures
        red(red(a) + b) == red(a + b),
        red(a + red(b)) == red(a + b),
        red(red(a) + red(b)) == red(a + b),
{
    lemma_add_mod_noop(a, b, modulus());
    lemma_add_mod_noop(red(a), b, modulus());
    lemma_add_mod_noop(a, red(b), modulus());
    lemma_red(red(a));
    lemma_red(red(b));
    lemma_red(a);
    lemma_red(b);
}

/// Reducing an operand first does not change a difference.
pub proof fn lemma_red_sub(a: int, b: int)
    ensures
        red(red(a) - b) == red(a - b),
        red(a - red(b)) == red(a - b),
        red(red(a) - red(b)) == red(a - b),
{
    lemma_sub_mod_noop(a, b, modulus());
    lemma_sub_mod_noop(red(a), b, modulus());
    lemma_sub_mod_noop(a, red(b), modulus());
    lemma_red(red(a));
    lemma_red(red(b));
    lemma_red(a);
    lemma_red(b);
}

/// Reducing an operand first does not change a product.
pub proof fn lemma_red_mul(a: int, b: int)
    ensures
        red(red(a) * b) == red(a * b),
        red(a * red(b)) == red(a * b),
        red(red(a) * red(b)) == red(a * b),
{
    lemma_mul_mod_noop(a, b, modulus());
    lemma_mul_mod_noop_left(a, b, modulus());
    lemma_mul_mod_noop_left(b, red(a), modulus());
    lemma_mul_mod_noop_left(b, a, modulus());
    assert(red(a) * b == b * red(a)) by (nonlinear_arith);
    assert(red(a) * red(b) == red(b) * red(a)) by (nonlinear_arith);
    assert(a * b == b * a) by (nonlinear_arith);
    assert(a * red(b) == red(b) * a) by (nonlinear_arith);
}

/// Addition and multiplication are commutative and associative, and
/// multiplication distributes over addition.
pub proof fn field_laws(a: int, b: int, c: int)
    ensures
        fadd(a, b) == fadd(b, a),
        fmul(a, b) == fmul(b, a),
        fadd(fadd(a, b), c) == fadd(a, fadd(b, c)),
        fmul(fmul(a, b), c) == fmul(a, fmul(b, c)),
        fmul(a, fadd(b, c)) == fadd(fmul(a, b), fmul(a, c)),
        fmul(a, fsub(b, c)) == fsub(fmul(a, b), fmul(a, c)),
{
    assert(a * b == b * a) by (nonlinear_arith);
    lemma_red_add(a + b, c);
    lemma_red_add(a, b + c);
    lemma_red_mul(a * b, c);
    lemma_red_mul(a, b * c);
    assert(a * b * c == a * (b * c)) by (nonlinear_arith);
    lemma_red_mul(a, b + c);
    lemma_red_mul(a, b - c);
    lemma_red_add(a * b, a * c);
    lemma_red_sub(a * b, a * c);
    assert(a * (b + c) == a * b + a * c) by (nonlinear_arith);
    assert(a * (b - c) == a * b - a * c) by (nonlinear_arith);
}

/// Zero and one are the identities, and zero annihilates.
pub proof fn field_identities(a: int)
    requires
        felt(a),
    ensures
        fadd(a, 0) == a,
        fsub(a, 0) == a,
        fadd(a, fsub(0, a)) == 0,
        fmul(a, 1) == a,
        fmul(a, 0) == 0,
        fmul(1, a) == a,
        fmul(0, a) == 0,
{
    lemma_red(a);
    lemma_red_add(a, 0 - a);
    lemma_red(0);
    assert(a * 1 == a && a * 0 == 0 && 1 * a == a && 0 * a == 0);
}

/// Powers multiply by adding exponents.
pub proof fn lemma_fpow_add(a: int, m: nat, n: nat)
    ensures
        fpow(a, m + n) == fmul(fpow(a, m), fpow(a, n)),
        felt(fpow(a, n)),
    decreases n,
{
    lemma_fpow_felt(a, m);
    lemma_fpow_felt(a, n);
    if n == 0 {
        field_identities(fpow(a, m));
    } else {
        let k = (n - 1) as nat;
        lemma_fpow_add(a, m, k);
        field_laws(fpow(a, m), fpow(a, k), a);
        assert((m + n - 1) as nat == m + k);
    }
}

/// Powers are canonical.
pub proof fn lemma_fpow_felt(a: int, n: nat)
    ensures
        felt(fpow(a, n)),
{
    if n > 0 {
        lemma_red(fpow(a, (n - 1) as nat) * a);
    }
}

/// The inverse of two.
pub open spec fn half() -> int {
    0x3f800001
}

/// The inverse of `2^k`.
pub open spec fn inv_pow2(k: nat) -> int {
    fpow(half(), k)
}

/// [`inv_pow2`] inverts the powers of two.
pub proof fn inv_pow2_inverts(k: nat)
    ensures
        felt(inv_pow2(k)),
        fmul(inv_pow2(k), pow2(k) as int) == 1,
    decreases k,
{
    lemma_fpow_felt(half(), k);
    lemma2_to64();
    if k > 0 {
        let j = (k - 1) as nat;
        inv_pow2_inverts(j);
        lemma_pow2_unfold(k);
        let x = inv_pow2(j);
        let t = pow2(j) as int;
        lemma_red_mul(x * half(), 2 * t);
        assert(x * half() * (2 * t) == (x * t) * 0x7f000002) by (nonlinear_arith)
            requires
                half() == 0x3f800001,
        ;
        lemma_red_mul(x * t, 0x7f000002);
        assert(red(0x7f000002) == 1);
    }
}

/// A sequence of machine words as mathematical integers.
pub open spec fn ints(s: Seq<u32>) -> Seq<int> {
    Seq::new(s.len(), |i: int| s[i] as int)
}

/// The inner product of the first `n` entries, not reduced.
pub open spec fn dot(row: Seq<int>, s: Seq<int>, n: nat) -> int
    decreases n,
{
    if n == 0 {
        0
    } else {
        dot(row, s, (n - 1) as nat) + row[n - 1] * s[n - 1]
    }
}

/// A matrix applied to a vector, in the field.
pub open spec fn apply(m: Seq<Seq<int>>, s: Seq<int>) -> Seq<int> {
    Seq::new(m.len(), |i: int| red(dot(m[i], s, s.len())))
}

} // verus!
