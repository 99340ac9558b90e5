//! The modulus is prime, and what follows from that: a product of nonzero
//! elements is not zero, every nonzero element has an inverse, and cubing, which
//! is the S-box of the permutation, loses nothing.

use crate::arith;
use vstd::arithmetic::div_mod::*;
use vstd::arithmetic::power::*;
use vstd::arithmetic::power2::*;
use vstd::prelude::*;
use vstd::set_lib::*;

verus! {

// ---------------------------------------------------------------------------
// The modulus is prime
// ---------------------------------------------------------------------------
//
// An element of order 2^24 in the integers modulo the modulus has that order
// modulo every divisor as well, so every divisor but one is at least 2^24. The
// product of two such divisors is already too large.

/// An element of order `2^24`.
spec fn root() -> int {
    0x6ac49f88
}

/// Repeated squaring.
proof fn lemma_square_step(k: nat, x: int, y: int)
    requires
        pow(root(), pow2(k)) % arith::modulus() == x,
        (x * x) % arith::modulus() == y,
    ensures
        pow(root(), pow2(k + 1)) % arith::modulus() == y,
{
    let z = pow(root(), pow2(k));
    lemma_pow2_unfold(k + 1);
    lemma_pow_adds(root(), pow2(k), pow2(k));
    lemma_mul_mod_noop(z, z, arith::modulus());
}

/// Half the order leads to minus one.
proof fn lemma_root()
    ensures
        pow(root(), pow2(23)) % arith::modulus() == arith::modulus() - 1,
{
    lemma2_to64();
    lemma_pow1(root());
    lemma_square_step(0, 0x6ac49f88, 0x68e7dd49);
    lemma_square_step(1, 0x68e7dd49, 0x205d63c3);
    lemma_square_step(2, 0x205d63c3, 0x484ef19b);
    lemma_square_step(3, 0x484ef19b, 0x514ddcad);
    lemma_square_step(4, 0x514ddcad, 0x143ef899);
    lemma_square_step(5, 0x143ef899, 0x6c4a8a45);
    lemma_square_step(6, 0x6c4a8a45, 0x163bd499);
    lemma_square_step(7, 0x163bd499, 0x6e2f4d7a);
    lemma_square_step(8, 0x6e2f4d7a, 0x45a60e61);
    lemma_square_step(9, 0x45a60e61, 0x3e687d4d);
    lemma_square_step(10, 0x3e687d4d, 0x303964b2);
    lemma_square_step(11, 0x303964b2, 0x768fc6fa);
    lemma_square_step(12, 0x768fc6fa, 0x7744959c);
    lemma_square_step(13, 0x7744959c, 0x334d48c7);
    lemma_square_step(14, 0x334d48c7, 0x27ad539b);
    lemma_square_step(15, 0x27ad539b, 0x17668b8a);
    lemma_square_step(16, 0x17668b8a, 0x29b75a80);
    lemma_square_step(17, 0x29b75a80, 0x5c4a5b99);
    lemma_square_step(18, 0x5c4a5b99, 0xa28f031);
    lemma_square_step(19, 0xa28f031, 0x8dbd69c);
    lemma_square_step(20, 0x8dbd69c, 0x6832fe4a);
    lemma_square_step(21, 0x6832fe4a, 0x7e010002);
    lemma_square_step(22, 0x7e010002, 0x7f000000);
}

/// Odd powers of minus one.
proof fn lemma_minus_one(x: int, m: nat, r: int)
    requires
        1 < r,
        x % r == r - 1,
        m % 2 == 1,
    ensures
        pow(x, m) % r == r - 1,
    decreases m,
{
    if m == 1 {
        lemma_pow1(x);
    } else {
        let k = (m - 2) as nat;
        lemma_minus_one(x, k, r);
        lemma_pow_adds(x, 2, k);
        lemma_pow1(x);
        lemma_pow_adds(x, 1, 1);
        lemma_mul_mod_noop(x, x, r);
        assert((r - 1) * (r - 1) == r * (r - 2) + 1) by (nonlinear_arith);
        lemma_fundamental_div_mod_converse((r - 1) * (r - 1), r, r - 2, 1);
        lemma_mul_mod_noop(x * x, pow(x, k), r);
        lemma_small_mod((r - 1) as nat, r as nat);
    }
}

/// A number below `2^(k+1)` has a multiple that is `2^k` times an odd number.
proof fn lemma_odd_multiple(d: nat, k: nat) -> (r: (nat, nat))
    requires
        0 < d < pow2(k + 1),
    ensures
        d * r.0 == pow2(k) * r.1,
        r.1 % 2 == 1,
    decreases k,
{
    lemma_pow2_unfold(k + 1);
    if d % 2 == 1 {
        assert(d * pow2(k) == pow2(k) * d) by (nonlinear_arith);
        (pow2(k), d)
    } else {
        lemma2_to64();
        assert(k > 0);
        let j = (k - 1) as nat;
        let h = d / 2;
        let (u, m) = lemma_odd_multiple(h, j);
        lemma_pow2_unfold(k);
        assert(d * u == 2 * (h * u)) by (nonlinear_arith)
            requires
                d == 2 * h,
        ;
        assert(pow2(k) * m == 2 * (pow2(j) * m)) by (nonlinear_arith)
            requires
                pow2(k) == 2 * pow2(j),
        ;
        (u, m)
    }
}

/// What is minus one modulo the modulus is so modulo its divisors.
proof fn lemma_minus_one_below(x: int, r: int)
    requires
        1 < r,
        arith::modulus() % r == 0,
        x % arith::modulus() == arith::modulus() - 1,
    ensures
        x % r == r - 1,
{
    let p = arith::modulus();
    let q = x / p;
    let s = p / r;
    lemma_fundamental_div_mod(x, p);
    lemma_fundamental_div_mod(p, r);
    assert(x == r * (s * q + s - 1) + (r - 1)) by (nonlinear_arith)
        requires
            x == p * q + (p - 1),
            p == r * s,
    ;
    lemma_fundamental_div_mod_converse(x, r, s * q + s - 1, r - 1);
}

/// No power below the order is one, modulo any divisor.
proof fn lemma_order(d: nat, r: int)
    requires
        1 < r,
        arith::modulus() % r == 0,
        0 < d < pow2(24),
    ensures
        pow(root(), d) % r != 1,
{
    lemma_root();
    let x = pow(root(), pow2(23));
    let y = pow(root(), d);
    lemma_minus_one_below(x, r);
    let (u, m) = lemma_odd_multiple(d, 23);
    lemma_pow_multiplies(root(), d, u);
    lemma_pow_multiplies(root(), pow2(23), m);
    lemma_minus_one(x, m, r);
    if y % r == 1 {
        lemma_pow_mod_noop(y, u, r);
        lemma1_pow(u);
        lemma_small_mod(1, r as nat);
        assert(r == 2);
    }
}

/// The powers below the order are distinct, modulo any divisor.
proof fn lemma_distinct(i: nat, j: nat, r: int)
    requires
        1 < r,
        arith::modulus() % r == 0,
        i < j < pow2(24),
    ensures
        pow(root(), i) % r != pow(root(), j) % r,
{
    lemma_root();
    let x = pow(root(), pow2(23));
    lemma_minus_one_below(x, r);
    lemma_pow2_unfold(24);
    let n = pow2(24);
    // The order leads to one.
    let one = pow(root(), n);
    lemma_pow_adds(root(), pow2(23), pow2(23));
    lemma_mul_mod_noop(x, x, r);
    assert((r - 1) * (r - 1) == r * (r - 2) + 1) by (nonlinear_arith);
    lemma_fundamental_div_mod_converse((r - 1) * (r - 1), r, r - 2, 1);
    assert(one % r == 1);
    // So the two powers can be divided by the smaller one.
    let d = (j - i) as nat;
    let z = pow(root(), (n - i) as nat);
    let y = pow(root(), d);
    lemma_pow_adds(root(), i, (n - i) as nat);
    lemma_pow_adds(root(), j, (n - i) as nat);
    lemma_pow_adds(root(), n, d);
    assert(j + (n - i) as nat == n + d);
    lemma_mul_mod_noop(pow(root(), i), z, r);
    lemma_mul_mod_noop(pow(root(), j), z, r);
    lemma_mul_mod_noop(one, y, r);
    lemma_mod_twice(y, r);
    lemma_order(d, r);
}

/// A divisor other than one is at least the order.
proof fn lemma_divisor_is_large(r: int)
    requires
        1 < r,
        arith::modulus() % r == 0,
    ensures
        r >= 0x1000000,
{
    lemma2_to64();
    let s = Seq::new(0x1000000, |i: int| pow(root(), i as nat) % r);
    assert(s.no_duplicates()) by {
        assert forall|i: int, j: int| 0 <= i < s.len() && 0 <= j < s.len() && i != j implies s[i]
            != s[j] by {
            if i < j {
                lemma_distinct(i as nat, j as nat, r);
            } else {
                lemma_distinct(j as nat, i as nat, r);
            }
        }
    }
    s.unique_seq_to_set();
    assert(s.to_set().subset_of(set_int_range(0, r))) by {
        assert forall|y: int| s.to_set().contains(y) implies set_int_range(0, r).contains(y) by {
            let i = choose|i: int| 0 <= i < s.len() && s[i] == y;
            lemma_mod_bound(pow(root(), i as nat), r);
        }
    }
    lemma_int_range(0, r);
    lemma_len_subset(s.to_set(), set_int_range(0, r));
}

/// The modulus is prime: nothing strictly between one and it divides it.
pub proof fn modulus_is_prime(r: int)
    requires
        1 < r < arith::modulus(),
    ensures
        arith::modulus() % r != 0,
{
    let p = arith::modulus();
    if p % r == 0 {
        let s = p / r;
        lemma_fundamental_div_mod(p, r);
        lemma_divisor_is_large(r);
        assert(s > 1) by (nonlinear_arith)
            requires
                p == r * s,
                1 < r < p,
        ;
        assert(r * s == s * r + 0) by (nonlinear_arith);
        lemma_fundamental_div_mod_converse(p, s, r, 0);
        lemma_divisor_is_large(s);
        assert(r * s >= 0x1000000 * 0x1000000) by (nonlinear_arith)
            requires
                r >= 0x1000000,
                s >= 0x1000000,
        ;
    }
}

// ---------------------------------------------------------------------------
// Products and inverses
// ---------------------------------------------------------------------------

/// A product of nonzero elements is not zero.
pub proof fn no_zero_divisors(u: int, v: int)
    requires
        0 < u < arith::modulus(),
        0 < v < arith::modulus(),
    ensures
        arith::fmul(u, v) != 0,
    decreases u,
{
    let p = arith::modulus();
    if u == 1 {
        arith::field_identities(v);
    } else {
        // The remainder of the modulus by u is smaller, and its product with v
        // is zero wherever that of u is.
        modulus_is_prime(u);
        let q = p / u;
        let t = p % u;
        lemma_fundamental_div_mod(p, u);
        lemma_mod_bound(p, u);
        no_zero_divisors(t, v);
        assert(t * v == p * v - q * (u * v)) by (nonlinear_arith)
            requires
                p == u * q + t,
        ;
        arith::lemma_red_sub(p * v, q * (u * v));
        arith::lemma_red_mul(q, u * v);
        lemma_mod_multiples_basic(v, p);
        assert(p * v == v * p) by (nonlinear_arith);
        assert(q * 0 == 0);
        arith::lemma_red(0);
    }
}

/// What multiplies to the same product with a nonzero element is the same.
pub proof fn cancellation(u: int, a: int, b: int)
    requires
        arith::felt(u),
        u != 0,
        arith::felt(a),
        arith::felt(b),
        arith::fmul(u, a) == arith::fmul(u, b),
    ensures
        a == b,
{
    let d = arith::fsub(a, b);
    arith::field_laws(u, a, b);
    arith::lemma_red(a - b);
    arith::lemma_red(0);
    if d != 0 {
        no_zero_divisors(u, d);
    }
}

/// An inverse of a nonzero element.
proof fn lemma_inverse(b: int) -> (c: int)
    requires
        0 < b < arith::modulus(),
    ensures
        arith::felt(c),
        arith::fmul(b, c) == 1,
    decreases b,
{
    let p = arith::modulus();
    arith::lemma_red(1);
    if b == 1 {
        1
    } else {
        modulus_is_prime(b);
        let q = p / b;
        let t = p % b;
        lemma_fundamental_div_mod(p, b);
        lemma_mod_bound(p, b);
        let e = lemma_inverse(t);
        let c = arith::red(-q * e);
        arith::lemma_red(-q * e);
        arith::lemma_red_mul(b, -q * e);
        assert(b * (-q * e) == t * e - p * e) by (nonlinear_arith)
            requires
                p == b * q + t,
        ;
        arith::lemma_red_sub(t * e, p * e);
        lemma_mod_multiples_basic(e, p);
        assert(p * e == e * p) by (nonlinear_arith);
        c
    }
}

/// Every nonzero element has exactly one inverse, and zero has none.
pub proof fn inverses_exist_and_are_unique(b: int)
    requires
        arith::felt(b),
    ensures
        b != 0 ==> exists|c: int| arith::felt(c) && #[trigger] arith::fmul(b, c) == 1,
        forall|c: int, d: int|
            arith::felt(c) && arith::felt(d) && #[trigger] arith::fmul(b, c) == 1
                && #[trigger] arith::fmul(b, d) == 1 ==> c == d,
        b == 0 ==> forall|c: int| arith::felt(c) ==> #[trigger] arith::fmul(b, c) != 1,
{
    if b == 0 {
        assert forall|c: int| arith::felt(c) implies #[trigger] arith::fmul(b, c) != 1 by {
            arith::field_identities(c);
        }
    } else {
        let c = lemma_inverse(b);
        assert(arith::felt(c) && arith::fmul(b, c) == 1);
        assert forall|c: int, d: int|
            arith::felt(c) && arith::felt(d) && #[trigger] arith::fmul(b, c) == 1
                && #[trigger] arith::fmul(b, d) == 1 implies c == d by {
            cancellation(b, c, d);
        }
    }
}

// ---------------------------------------------------------------------------
// Cubing
// ---------------------------------------------------------------------------
//
// Multiplication by a cube root of unity other than one would sort the nonzero
// elements into triples, and their number is no multiple of three.

/// Whether multiplying by `c` stays within a set.
spec fn stays_within(t: Set<int>, c: int) -> bool {
    forall|x: int| #[trigger] t.contains(x) ==> t.contains(arith::fmul(c, x))
}

/// A set of nonzero elements that multiplication by a nontrivial cube root of
/// unity stays within falls into triples.
proof fn lemma_triples(t: Set<int>, c: int)
    requires
        t.finite(),
        forall|x: int| #[trigger] t.contains(x) ==> 0 < x < arith::modulus(),
        stays_within(t, c),
        arith::felt(c),
        c != 1,
        arith::fmul(c, arith::fmul(c, c)) == 1,
    ensures
        t.len() % 3 == 0,
    decreases t.len(),
{
    if t.len() > 0 {
        let x = t.choose();
        let y = arith::fmul(c, x);
        let z = arith::fmul(c, y);
        assert(t.contains(x));
        assert(t.contains(y));
        assert(t.contains(z));
        lemma_triple(x, c);
        let rest = t.remove(x).remove(y).remove(z);
        assert(rest.len() == t.len() - 3);
        assert forall|u: int| #[trigger] rest.contains(u) implies rest.contains(
            arith::fmul(c, u),
        ) by {
            assert(t.contains(u));
            let v = arith::fmul(c, u);
            assert(t.contains(v));
            if v == x {
                cancellation(c, u, z);
            }
            if v == y {
                cancellation(c, u, x);
            }
            if v == z {
                cancellation(c, u, y);
            }
        }
        lemma_triples(rest, c);
    }
}

/// The triple of a nonzero element.
proof fn lemma_triple(x: int, c: int)
    requires
        0 < x < arith::modulus(),
        arith::felt(c),
        c != 1,
        arith::fmul(c, arith::fmul(c, c)) == 1,
    ensures
        c != 0,
        arith::fmul(c, arith::fmul(c, arith::fmul(c, x))) == x,
        arith::fmul(c, x) != x,
        arith::fmul(c, arith::fmul(c, x)) != x,
        arith::fmul(c, arith::fmul(c, x)) != arith::fmul(c, x),
{
    let cc = arith::fmul(c, c);
    let y = arith::fmul(c, x);
    let z = arith::fmul(c, y);
    arith::lemma_red(c * c);
    arith::lemma_red(c * x);
    arith::lemma_red(c * y);
    arith::field_identities(0);
    arith::field_identities(c);
    arith::field_identities(x);
    arith::field_laws(c, c, x);
    arith::field_laws(c, cc, x);
    arith::field_laws(x, c, 1);
    arith::field_laws(x, cc, 1);
    if y == x {
        cancellation(x, c, 1);
    }
    if z == x {
        cancellation(x, cc, 1);
    }
    if z == y {
        cancellation(c, y, x);
        cancellation(x, c, 1);
    }
}

/// One is the only cube root of one.
pub proof fn only_one_is_a_cube_root_of_one(c: int)
    requires
        arith::felt(c),
        arith::fcube(c) == 1,
    ensures
        c == 1,
{
    if c != 1 {
        lemma_triple(1, c);
        let t = set_int_range(1, arith::modulus());
        lemma_int_range(1, arith::modulus());
        assert forall|x: int| #[trigger] t.contains(x) implies t.contains(arith::fmul(c, x)) by {
            no_zero_divisors(c, x);
            arith::lemma_red(c * x);
        }
        lemma_triples(t, c);
    }
}

/// Cubing loses nothing: elements with the same cube are the same.
pub proof fn cubing_is_injective(a: int, b: int)
    requires
        arith::felt(a),
        arith::felt(b),
        arith::fcube(a) == arith::fcube(b),
    ensures
        a == b,
{
    arith::field_identities(0);
    arith::lemma_red(a * a);
    arith::lemma_red(b * b);
    if b == 0 {
        if a != 0 {
            no_zero_divisors(a, a);
            no_zero_divisors(a, arith::fmul(a, a));
        }
    } else {
        let e = lemma_inverse(b);
        let c = arith::fmul(a, e);
        arith::lemma_red(a * e);
        lemma_cube_of_product(a, e);
        lemma_cube_of_product(b, e);
        arith::field_identities(1);
        only_one_is_a_cube_root_of_one(c);
        // a = a (e b) = (a e) b = b
        arith::field_laws(a, e, b);
        arith::field_laws(b, e, 1);
        arith::field_identities(a);
        arith::field_identities(b);
    }
}

/// The cube of a product.
proof fn lemma_cube_of_product(a: int, b: int)
    ensures
        arith::fcube(arith::fmul(a, b)) == arith::fmul(arith::fcube(a), arith::fcube(b)),
{
    let m = a * b;
    arith::lemma_red_mul(m, m);
    arith::lemma_red_mul(m, m * m);
    arith::lemma_red_mul(a, a * a);
    arith::lemma_red_mul(b, b * b);
    arith::lemma_red_mul(a * (a * a), b * (b * b));
    assert(m * (m * m) == a * (a * a) * (b * (b * b))) by (nonlinear_arith)
        requires
            m == a * b,
    ;
}

} // verus!
