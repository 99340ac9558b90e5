//! A plain Poseidon2 over KoalaBear.
//!
//! This is what the scripts are checked against, and it is also what the script
//! generator reads its linear layers from: both layers are linear, so
//! [`mds_light_matrix`] and [`internal_matrix`] recover them by applying the
//! functions below to basis vectors. There is one definition of each layer, not
//! two.
//!
//! Everything is canonical `u32`, never Montgomery.

use crate::arith;
use crate::constants::{
    EXTERNAL_FINAL, EXTERNAL_INITIAL, FINAL_ROUNDS, INITIAL_ROUNDS, INTERNAL, INTERNAL_ROUNDS, P,
    WIDTH,
};
use crate::layers;
use crate::poseidon2;
use vstd::prelude::*;

pub mod ext4;

verus! {

/// Addition. Operands are meant to be canonical; larger ones are reduced once,
/// and the result is then cut to thirty-two bits.
pub fn add(a: u32, b: u32) -> (r: u32)
    ensures
        r as int == (if a + b >= P {
            a + b - P
        } else {
            a + b
        }) % 0x1_0000_0000,
        a < P && b < P ==> r == arith::fadd(a as int, b as int),
{
    let s: u64 = a as u64 + b as u64;
    let t: u64 = if s >= P as u64 {
        s - P as u64
    } else {
        s
    };
    assert(t as u32 == t % 0x1_0000_0000) by (bit_vector);
    proof {
        arith::lemma_red(a + b);
    }
    #[verifier::truncate]
    (t as u32)
}

/// Subtraction. Canonical operands give the canonical difference.
pub fn sub(a: u32, b: u32) -> (r: u32)
    requires
        a >= b || a + P <= u32::MAX && b <= a + P,
    ensures
        r == (if a >= b {
            a - b
        } else {
            a + P - b
        }),
        a < P && b < P ==> r == arith::fsub(a as int, b as int),
{
    proof {
        arith::lemma_red(a - b);
    }
    if a >= b {
        a - b
    } else {
        a + P - b
    }
}

/// Multiplication. The result is canonical whatever the operands.
pub fn mul(a: u32, b: u32) -> (r: u32)
    ensures
        r == arith::fmul(a as int, b as int),
        r < P,
{
    assert(0 <= a * b <= 0xffff_ffff * 0xffff_ffff) by (nonlinear_arith)
        requires
            0 <= a <= 0xffff_ffff,
            0 <= b <= 0xffff_ffff,
    ;
    ((a as u64 * b as u64) % P as u64) as u32
}

/// Doubling, as [`add`] does it.
pub fn double(a: u32) -> (r: u32)
    ensures
        r as int == (if a + a >= P {
            a + a - P
        } else {
            a + a
        }) % 0x1_0000_0000,
        a < P ==> r == arith::fadd(a as int, a as int),
{
    self::add(a, a)
}

/// `a / 2^k`, i.e. `a * (2^k)^-1`. With `k == 0` the operand comes back as it is.
pub fn div_2exp(a: u32, k: u32) -> (r: u32)
    ensures
        k == 0 ==> r == a,
        k > 0 ==> r == arith::fmul(a as int, arith::inv_pow2(k as nat)),
        a < P ==> r == arith::fmul(a as int, arith::inv_pow2(k as nat)),
{
    let half: u32 = ((P as u64 + 1) / 2) as u32;
    let mut acc: u32 = a;
    let mut i: u32 = 0;
    proof {
        arith::lemma_red(a as int);
        assert(a as int * 1 == a);
    }
    while i < k
        invariant
            i <= k,
            half == arith::half(),
            i == 0 ==> acc == a,
            arith::red(acc as int) == arith::fmul(a as int, arith::inv_pow2(i as nat)),
            i > 0 ==> acc < P,
            a < P ==> acc < P,
        decreases k - i,
    {
        proof {
            let x = arith::inv_pow2(i as nat);
            arith::lemma_red_mul(acc as int, arith::half());
            arith::lemma_red_mul(a * x, arith::half());
            arith::lemma_red_mul(a as int, x * arith::half());
            assert(a * x * arith::half() == a * (x * arith::half())) by (nonlinear_arith);
            arith::lemma_red(acc * arith::half());
            arith::lemma_red(arith::fmul(acc as int, arith::half()));
        }
        acc = self::mul(acc, half);
        i = i + 1;
    }
    proof {
        arith::lemma_red(acc as int);
    }
    acc
}

/// The S-box, `x^3`.
pub fn sbox(x: u32) -> (r: u32)
    ensures
        r == arith::fcube(x as int),
        r < P,
{
    proof {
        assert(arith::fmul(x as int, x as int) * x == x * arith::fmul(x as int, x as int))
            by (nonlinear_arith);
    }
    self::mul(self::mul(x, x), x)
}

/// Whether all words are canonical.
pub open spec fn canonical(s: Seq<u32>) -> bool {
    forall|i: int| 0 <= i < s.len() ==> #[trigger] s[i] < P
}

/// The sums the block is computed through, each canonical.
proof fn lemma_mix(a: int, b: int, c: int, d: int)
    ensures
        ({
            let t01 = arith::fadd(a, b);
            let t23 = arith::fadd(c, d);
            let t0123 = arith::fadd(t01, t23);
            let t01123 = arith::fadd(t0123, b);
            let t01233 = arith::fadd(t0123, d);
            &&& arith::felt(t01) && arith::felt(t23) && arith::felt(t0123)
            &&& arith::felt(t01123) && arith::felt(t01233)
            &&& arith::felt(arith::fadd(a, a)) && arith::felt(arith::fadd(c, c))
            &&& arith::fadd(t01123, t01) == arith::red(layers::mix(0, a, b, c, d))
            &&& arith::fadd(t01123, arith::fadd(c, c)) == arith::red(layers::mix(1, a, b, c, d))
            &&& arith::fadd(t01233, t23) == arith::red(layers::mix(2, a, b, c, d))
            &&& arith::fadd(t01233, arith::fadd(a, a)) == arith::red(layers::mix(3, a, b, c, d))
        }),
{
    arith::lemma_red(a + b);
    arith::lemma_red(c + d);
    arith::lemma_red_add(a + b, c + d);
    arith::lemma_red(a + b + (c + d));
    arith::lemma_red_add(a + b + (c + d), b);
    arith::lemma_red_add(a + b + (c + d), d);
    arith::lemma_red(a + b + (c + d) + b);
    arith::lemma_red(a + b + (c + d) + d);
    arith::lemma_red(a + a);
    arith::lemma_red(c + c);
    arith::lemma_red_add(a + b + (c + d) + d, a + a);
    arith::lemma_red_add(a + b + (c + d) + b, c + c);
    arith::lemma_red_add(a + b + (c + d) + b, a + b);
    arith::lemma_red_add(a + b + (c + d) + d, c + d);
}

/// The four-by-four MDS block.
fn apply_mat4(x: &mut [u32; 4])
    requires
        canonical(old(x)@),
    ensures
        canonical(final(x)@),
        forall|i: int|
            0 <= i < 4 ==> #[trigger] final(x)@[i] == arith::red(
                layers::mix(
                    i,
                    old(x)@[0] as int,
                    old(x)@[1] as int,
                    old(x)@[2] as int,
                    old(x)@[3] as int,
                ),
            ),
{
    proof {
        lemma_mix(x@[0] as int, x@[1] as int, x@[2] as int, x@[3] as int);
    }
    let t01 = self::add(x[0], x[1]);
    let t23 = self::add(x[2], x[3]);
    let t0123 = self::add(t01, t23);
    let t01123 = self::add(t0123, x[1]);
    let t01233 = self::add(t0123, x[3]);
    let y3 = self::add(t01233, double(x[0]));
    let y1 = self::add(t01123, double(x[2]));
    let y0 = self::add(t01123, t01);
    let y2 = self::add(t01233, t23);
    x[3] = y3;
    x[1] = y1;
    x[0] = y0;
    x[2] = y2;
    proof {
        arith::lemma_red(layers::mix(0, old(x)@[0] as int, old(x)@[1] as int, old(x)@[2] as int, old(x)@[3] as int));
        arith::lemma_red(layers::mix(1, old(x)@[0] as int, old(x)@[1] as int, old(x)@[2] as int, old(x)@[3] as int));
        arith::lemma_red(layers::mix(2, old(x)@[0] as int, old(x)@[1] as int, old(x)@[2] as int, old(x)@[3] as int));
        arith::lemma_red(layers::mix(3, old(x)@[0] as int, old(x)@[1] as int, old(x)@[2] as int, old(x)@[3] as int));
    }
}

/// Where the four outputs of a block lie.
proof fn lemma_block_index(j: int)
    requires
        j % 4 == 0,
    ensures
        forall|t: int| #![trigger (j + t) / 4] 0 <= t < 4 ==> (j + t) / 4 * 4 == j && (j + t) % 4 == t,
{
}

/// The external linear layer: the four-by-four block on each chunk, then the
/// four column sums added in.
pub fn mds_light(state: &mut [u32; WIDTH])
    requires
        canonical(old(state)@),
    ensures
        canonical(final(state)@),
        arith::ints(final(state)@) == poseidon2::mds(arith::ints(old(state)@)),
{
    let ghost s = arith::ints(state@);
    let mut j: usize = 0;
    while j < WIDTH
        invariant
            j <= WIDTH,
            j % 4 == 0,
            s.len() == 16,
            canonical(state@),
            forall|i: int| 0 <= i < j ==> #[trigger] state@[i] == arith::red(layers::block(s, i)),
            forall|i: int| j <= i < WIDTH ==> #[trigger] state@[i] == s[i],
        decreases WIDTH - j,
    {
        let mut c: [u32; 4] = [state[j], state[j + 1], state[j + 2], state[j + 3]];
        apply_mat4(&mut c);
        state[j] = c[0];
        state[j + 1] = c[1];
        state[j + 2] = c[2];
        state[j + 3] = c[3];
        proof {
            lemma_block_index(j as int);
        }
        j = j + 4;
    }
    let mut sums: [u32; 4] = [0, 0, 0, 0];
    let mut k: usize = 0;
    while k < 4
        invariant
            k <= 4,
            canonical(state@),
            canonical(sums@),
            forall|i: int| 0 <= i < WIDTH ==> #[trigger] state@[i] == arith::red(layers::block(s, i)),
            forall|i: int| 0 <= i < k ==> #[trigger] sums@[i] == arith::red(layers::column(s, i)),
            forall|i: int| k <= i < 4 ==> #[trigger] sums@[i] == 0,
        decreases 4 - k,
    {
        let a = self::add(sums[k], state[k]);
        proof {
            let b0 = layers::block(s, k as int);
            let b1 = layers::block(s, k + 4);
            let b2 = layers::block(s, k + 8);
            let b3 = layers::block(s, k + 12);
            arith::lemma_red(state@[k as int] as int);
            arith::lemma_red_add(b0, b1);
            arith::lemma_red_add(b0 + b1, b2);
            arith::lemma_red_add(b0 + b1 + b2, b3);
            arith::lemma_red(b0 + b1);
            arith::lemma_red(b0 + b1 + b2);
            arith::lemma_red(b0 + b1 + b2 + b3);
        }
        let b = self::add(a, state[k + 4]);
        let c = self::add(b, state[k + 8]);
        let d = self::add(c, state[k + 12]);
        sums[k] = d;
        k = k + 1;
    }
    let mut i: usize = 0;
    while i < WIDTH
        invariant
            i <= WIDTH,
            canonical(state@),
            canonical(sums@),
            forall|t: int| 0 <= t < 4 ==> #[trigger] sums@[t] == arith::red(layers::column(s, t)),
            forall|t: int|
                0 <= t < i ==> #[trigger] state@[t] == arith::red(
                    arith::dot(poseidon2::mds_matrix()[t], s, 16),
                ),
            forall|t: int| i <= t < WIDTH ==> #[trigger] state@[t] == arith::red(layers::block(s, t)),
        decreases WIDTH - i,
    {
        let e = self::add(state[i], sums[i % 4]);
        proof {
            arith::lemma_red_add(layers::block(s, i as int), layers::column(s, i as int % 4));
            arith::lemma_red(layers::block(s, i as int) + layers::column(s, i as int % 4));
            layers::lemma_mds_row(s, i as int);
        }
        state[i] = e;
        i = i + 1;
    }
    assert(arith::ints(state@) =~= poseidon2::mds(s));
}

/// Twice, three times and four times an element by additions.
proof fn lemma_multiples(x: int)
    ensures
        arith::fadd(x, x) == arith::red(2 * x),
        arith::fadd(arith::fadd(x, x), x) == arith::red(3 * x),
        arith::fadd(arith::fadd(x, x), arith::fadd(x, x)) == arith::red(4 * x),
{
    assert(x + x == 2 * x);
    arith::lemma_red_add(2 * x, x);
    arith::lemma_red_add(2 * x, 2 * x);
}

/// A reduced term added to a sum and taken from it.
proof fn lemma_shifts(t: int, v: int)
    ensures
        arith::felt(arith::red(v)),
        arith::fadd(arith::red(t), arith::red(v)) == arith::red(t + v),
        arith::fadd(arith::red(v), arith::red(t)) == arith::red(t + v),
        arith::fsub(arith::red(t), arith::red(v)) == arith::red(t - v),
{
    arith::lemma_red(v);
    arith::lemma_red_add(t, v);
    arith::lemma_red_add(v, t);
    arith::lemma_red_sub(t, v);
}

/// The shapes the outputs of the internal layer are computed in.
proof fn lemma_internal_terms(t: int, x: int, k: nat)
    ensures
        arith::felt(arith::fadd(x, x)),
        arith::felt(arith::fadd(arith::fadd(x, x), x)),
        arith::felt(arith::fadd(arith::fadd(x, x), arith::fadd(x, x))),
        arith::felt(arith::fmul(x, arith::inv_pow2(k))),
        arith::fadd(x, arith::red(t)) == arith::red(t + 1 * x),
        arith::fadd(arith::fadd(x, x), arith::red(t)) == arith::red(t + 2 * x),
        arith::fadd(arith::red(t), arith::fadd(arith::fadd(x, x), x)) == arith::red(t + 3 * x),
        arith::fsub(arith::red(t), arith::fadd(arith::fadd(x, x), x)) == arith::red(t + -3 * x),
        arith::fadd(arith::red(t), arith::fadd(arith::fadd(x, x), arith::fadd(x, x))) == arith::red(
            t + 4 * x,
        ),
        arith::fsub(arith::red(t), arith::fadd(arith::fadd(x, x), arith::fadd(x, x))) == arith::red(
            t + -4 * x,
        ),
        arith::fadd(arith::fmul(x, arith::inv_pow2(k)), arith::red(t)) == arith::red(
            t + arith::inv_pow2(k) * x,
        ),
        arith::fsub(arith::red(t), arith::fmul(x, arith::inv_pow2(k))) == arith::red(
            t + -arith::inv_pow2(k) * x,
        ),
{
    let h = arith::inv_pow2(k);
    lemma_multiples(x);
    lemma_shifts(t, 2 * x);
    lemma_shifts(t, 3 * x);
    lemma_shifts(t, 4 * x);
    lemma_shifts(t, x * h);
    arith::lemma_red_add(x, t);
    assert(x * h == h * x) by (nonlinear_arith);
    assert(-h * x == -(h * x)) by (nonlinear_arith);
}

/// The internal linear layer at width 16.
///
/// `new[i] = full_sum + V[i] * old[i]` with
/// `V = [-2, 1, 2, 1/2, 3, 4, -1/2, -3, -4, 1/2^8, 1/8, 1/2^24, -1/2^8, -1/8, -1/16, -1/2^24]`.
/// `state[0]` is handled as `part_sum - state[0]`, which is the same thing.
#[verifier::spinoff_prover]
#[verifier::rlimit(60)]
pub fn internal_linear(state: &mut [u32; WIDTH])
    requires
        canonical(old(state)@),
    ensures
        canonical(final(state)@),
        arith::ints(final(state)@) == poseidon2::internal(arith::ints(old(state)@)),
{
    let ghost z = arith::ints(state@);
    let mut part_sum: u32 = 0;
    let mut i: usize = 1;
    proof {
        arith::lemma_red(0);
        reveal_with_fuel(layers::total, 2);
    }
    while i < WIDTH
        invariant
            1 <= i <= WIDTH,
            canonical(state@),
            z == arith::ints(state@),
            part_sum < P,
            part_sum == arith::red(layers::total(z, i as nat) - z[0]),
        decreases WIDTH - i,
    {
        proof {
            arith::lemma_red_add(layers::total(z, i as nat) - z[0], z[i as int]);
            arith::lemma_red(layers::total(z, (i + 1) as nat) - z[0]);
        }
        part_sum = self::add(part_sum, state[i]);
        i = i + 1;
    }
    let full_sum = self::add(part_sum, state[0]);
    let ghost t = layers::total(z, 16);
    proof {
        arith::lemma_red_add(t - z[0], z[0]);
        arith::lemma_red_sub(t - z[0], z[0]);
        arith::lemma_red(t);
        lemma_outputs(z);
    }
    let s: [u32; 16] = *state;
    assert(forall|k: int| 0 <= k < 16 ==> #[trigger] s@[k] == z[k]);
    let y0 = self::sub(part_sum, s[0]);
    let y1 = self::add(s[1], full_sum);
    let y2 = self::add(double(s[2]), full_sum);
    let y3 = self::add(div_2exp(s[3], 1), full_sum);
    let y4 = self::add(full_sum, self::add(double(s[4]), s[4]));
    let y5 = self::add(full_sum, double(double(s[5])));
    let y6 = self::sub(full_sum, div_2exp(s[6], 1));
    let y7 = self::sub(full_sum, self::add(double(s[7]), s[7]));
    let y8 = self::sub(full_sum, double(double(s[8])));
    let y9 = self::add(div_2exp(s[9], 8), full_sum);
    let y10 = self::add(div_2exp(s[10], 3), full_sum);
    let y11 = self::add(div_2exp(s[11], 24), full_sum);
    let y12 = self::sub(full_sum, div_2exp(s[12], 8));
    let y13 = self::sub(full_sum, div_2exp(s[13], 3));
    let y14 = self::sub(full_sum, div_2exp(s[14], 4));
    let y15 = self::sub(full_sum, div_2exp(s[15], 24));
    state[0] = y0;
    state[1] = y1;
    state[2] = y2;
    state[3] = y3;
    state[4] = y4;
    state[5] = y5;
    state[6] = y6;
    state[7] = y7;
    state[8] = y8;
    state[9] = y9;
    state[10] = y10;
    state[11] = y11;
    state[12] = y12;
    state[13] = y13;
    state[14] = y14;
    state[15] = y15;
    proof {
        let d = state@;
        assert(d[0] == arith::red(arith::dot(poseidon2::internal_matrix()[0], z, 16)));
        assert(d[1] == arith::red(arith::dot(poseidon2::internal_matrix()[1], z, 16)));
        assert(d[2] == arith::red(arith::dot(poseidon2::internal_matrix()[2], z, 16)));
        assert(d[3] == arith::red(arith::dot(poseidon2::internal_matrix()[3], z, 16)));
        assert(d[4] == arith::red(arith::dot(poseidon2::internal_matrix()[4], z, 16)));
        assert(d[5] == arith::red(arith::dot(poseidon2::internal_matrix()[5], z, 16)));
        assert(d[6] == arith::red(arith::dot(poseidon2::internal_matrix()[6], z, 16)));
        assert(d[7] == arith::red(arith::dot(poseidon2::internal_matrix()[7], z, 16)));
        assert(d[8] == arith::red(arith::dot(poseidon2::internal_matrix()[8], z, 16)));
        assert(d[9] == arith::red(arith::dot(poseidon2::internal_matrix()[9], z, 16)));
        assert(d[10] == arith::red(arith::dot(poseidon2::internal_matrix()[10], z, 16)));
        assert(d[11] == arith::red(arith::dot(poseidon2::internal_matrix()[11], z, 16)));
        assert(d[12] == arith::red(arith::dot(poseidon2::internal_matrix()[12], z, 16)));
        assert(d[13] == arith::red(arith::dot(poseidon2::internal_matrix()[13], z, 16)));
        assert(d[14] == arith::red(arith::dot(poseidon2::internal_matrix()[14], z, 16)));
        assert(d[15] == arith::red(arith::dot(poseidon2::internal_matrix()[15], z, 16)));
        assert forall|k: int| 0 <= k < 16 implies #[trigger] d[k] == arith::red(
            arith::dot(poseidon2::internal_matrix()[k], z, 16),
        ) && d[k] < P by {
            arith::lemma_red(arith::dot(poseidon2::internal_matrix()[k], z, 16));
        }
        assert(arith::ints(d) =~= poseidon2::internal(z));
    }
}

/// What each output of the internal layer comes to.
proof fn lemma_outputs(z: Seq<int>)
    ensures
        forall|i: int|
            0 <= i < 16 ==> arith::red(
                arith::dot(#[trigger] poseidon2::internal_matrix()[i], z, 16),
            ) == arith::red(layers::total(z, 16) + poseidon2::diagonal(i) * z[i]),
        forall|x: int, k: nat|
            #![trigger arith::fmul(x, arith::inv_pow2(k))]
            arith::felt(arith::fmul(x, arith::inv_pow2(k))) && arith::fadd(
                arith::fmul(x, arith::inv_pow2(k)),
                arith::red(layers::total(z, 16)),
            ) == arith::red(layers::total(z, 16) + arith::inv_pow2(k) * x) && arith::fsub(
                arith::red(layers::total(z, 16)),
                arith::fmul(x, arith::inv_pow2(k)),
            ) == arith::red(layers::total(z, 16) + -arith::inv_pow2(k) * x),
        forall|x: int|
            #![trigger arith::fadd(x, x)]
            arith::felt(arith::fadd(x, x)) && arith::felt(arith::fadd(arith::fadd(x, x), x))
                && arith::fadd(arith::fadd(x, x), arith::red(layers::total(z, 16))) == arith::red(
                layers::total(z, 16) + 2 * x,
            ) && arith::fadd(arith::red(layers::total(z, 16)), arith::fadd(arith::fadd(x, x), x))
                == arith::red(layers::total(z, 16) + 3 * x) && arith::fsub(
                arith::red(layers::total(z, 16)),
                arith::fadd(arith::fadd(x, x), x),
            ) == arith::red(layers::total(z, 16) + -3 * x),
        forall|x: int|
            #![trigger arith::fadd(arith::fadd(x, x), arith::fadd(x, x))]
            arith::felt(arith::fadd(arith::fadd(x, x), arith::fadd(x, x))) && arith::fadd(
                arith::red(layers::total(z, 16)),
                arith::fadd(arith::fadd(x, x), arith::fadd(x, x)),
            ) == arith::red(layers::total(z, 16) + 4 * x) && arith::fsub(
                arith::red(layers::total(z, 16)),
                arith::fadd(arith::fadd(x, x), arith::fadd(x, x)),
            ) == arith::red(layers::total(z, 16) + -4 * x),
        arith::fadd(z[1], arith::red(layers::total(z, 16))) == arith::red(layers::total(z, 16) + 1 * z[1]),
{
    let t = layers::total(z, 16);
    assert forall|i: int| 0 <= i < 16 implies arith::red(
        arith::dot(#[trigger] poseidon2::internal_matrix()[i], z, 16),
    ) == arith::red(t + poseidon2::diagonal(i) * z[i]) by {
        layers::lemma_internal_row(z, i);
    }
    assert forall|x: int, k: nat|
        #![trigger arith::fmul(x, arith::inv_pow2(k))]
        arith::felt(arith::fmul(x, arith::inv_pow2(k))) && arith::fadd(
            arith::fmul(x, arith::inv_pow2(k)),
            arith::red(t),
        ) == arith::red(t + arith::inv_pow2(k) * x) && arith::fsub(
            arith::red(t),
            arith::fmul(x, arith::inv_pow2(k)),
        ) == arith::red(t + -arith::inv_pow2(k) * x) by {
        lemma_internal_terms(t, x, k);
    }
    assert forall|x: int|
        #![trigger arith::fadd(x, x)]
        arith::felt(arith::fadd(x, x)) && arith::felt(arith::fadd(arith::fadd(x, x), x))
            && arith::fadd(arith::fadd(x, x), arith::red(t)) == arith::red(t + 2 * x)
            && arith::fadd(arith::red(t), arith::fadd(arith::fadd(x, x), x)) == arith::red(
            t + 3 * x,
        ) && arith::fsub(arith::red(t), arith::fadd(arith::fadd(x, x), x)) == arith::red(
            t + -3 * x,
        ) by {
        lemma_internal_terms(t, x, 0);
    }
    assert forall|x: int|
        #![trigger arith::fadd(arith::fadd(x, x), arith::fadd(x, x))]
        arith::felt(arith::fadd(arith::fadd(x, x), arith::fadd(x, x))) && arith::fadd(
            arith::red(t),
            arith::fadd(arith::fadd(x, x), arith::fadd(x, x)),
        ) == arith::red(t + 4 * x) && arith::fsub(
            arith::red(t),
            arith::fadd(arith::fadd(x, x), arith::fadd(x, x)),
        ) == arith::red(t + -4 * x) by {
        lemma_internal_terms(t, x, 0);
    }
    lemma_internal_terms(t, z[1], 0);
}

/// A full S-box layer: add the constants and cube all sixteen.
fn full_sbox(state: &mut [u32; WIDTH], rc: &[u32; WIDTH])
    requires
        canonical(old(state)@),
        canonical(rc@),
    ensures
        canonical(final(state)@),
        arith::ints(final(state)@) == poseidon2::full_sbox(arith::ints(old(state)@), rc@),
{
    let ghost z = state@;
    let mut i: usize = 0;
    while i < WIDTH
        invariant
            i <= WIDTH,
            canonical(z),
            canonical(rc@),
            canonical(state@),
            forall|t: int|
                0 <= t < i ==> #[trigger] state@[t] == poseidon2::sbox(z[t] as int, rc@[t] as int),
            forall|t: int| i <= t < WIDTH ==> #[trigger] state@[t] == z[t],
        decreases WIDTH - i,
    {
        let e = sbox(self::add(state[i], rc[i]));
        state[i] = e;
        i = i + 1;
    }
    assert(arith::ints(state@) =~= poseidon2::full_sbox(arith::ints(z), rc@));
}

/// The full permutation.
pub fn permute(state: &mut [u32; WIDTH])
    requires
        canonical(old(state)@),
    ensures
        canonical(final(state)@),
        arith::ints(final(state)@) == poseidon2::permutation(arith::ints(old(state)@)),
{
    let ghost z = arith::ints(state@);
    proof {
        crate::constants::lemma_round_constants();
        reveal_with_fuel(poseidon2::after, 2);
    }
    mds_light(state);
    assert(arith::ints(state@) == poseidon2::after(z, 1));
    let mut i: usize = 0;
    while i < INITIAL_ROUNDS
        invariant
            i <= INITIAL_ROUNDS,
            canonical(state@),
            arith::ints(state@) == poseidon2::after(z, (1 + i) as nat),
        decreases INITIAL_ROUNDS - i,
    {
        proof {
            crate::constants::lemma_round_constants();
        }
        full_sbox(state, &EXTERNAL_INITIAL[i]);
        mds_light(state);
        i = i + 1;
    }
    let mut i: usize = 0;
    while i < INTERNAL_ROUNDS
        invariant
            i <= INTERNAL_ROUNDS,
            canonical(state@),
            arith::ints(state@) == poseidon2::after(z, (1 + INITIAL_ROUNDS + i) as nat),
        decreases INTERNAL_ROUNDS - i,
    {
        proof {
            crate::constants::lemma_round_constants();
        }
        let ghost before = arith::ints(state@);
        let e = sbox(self::add(state[0], INTERNAL[i]));
        state[0] = e;
        assert(arith::ints(state@) =~= poseidon2::partial_sbox(before, INTERNAL@[i as int] as int));
        internal_linear(state);
        i = i + 1;
    }
    let mut i: usize = 0;
    while i < FINAL_ROUNDS
        invariant
            i <= FINAL_ROUNDS,
            canonical(state@),
            arith::ints(state@) == poseidon2::after(
                z,
                (1 + INITIAL_ROUNDS + INTERNAL_ROUNDS + i) as nat,
            ),
        decreases FINAL_ROUNDS - i,
    {
        proof {
            crate::constants::lemma_round_constants();
        }
        full_sbox(state, &EXTERNAL_FINAL[i]);
        mds_light(state);
        i = i + 1;
    }
}

/// The two linear layers.
#[derive(Clone, Copy, Debug, PartialEq, Eq, Structural)]
enum Layer {
    External,
    Internal,
}

/// The matrix of a layer.
spec fn layer_matrix(layer: Layer) -> Seq<Seq<int>> {
    match layer {
        Layer::External => poseidon2::mds_matrix(),
        Layer::Internal => poseidon2::internal_matrix(),
    }
}

/// A matrix of words as a matrix of integers.
pub open spec fn matrix_ints(m: Seq<[u32; WIDTH]>) -> Seq<Seq<int>> {
    Seq::new(m.len(), |i: int| arith::ints(m[i]@))
}

/// The inner product with a basis vector picks one entry.
proof fn lemma_dot_basis(row: Seq<int>, s: Seq<int>, n: nat, j: int)
    requires
        forall|t: int| 0 <= t < n ==> #[trigger] s[t] == (if t == j {
            1int
        } else {
            0
        }),
    ensures
        arith::dot(row, s, n) == (if 0 <= j < n {
            row[j]
        } else {
            0
        }),
    decreases n,
{
    if n > 0 {
        lemma_dot_basis(row, s, (n - 1) as nat, j);
        assert(s[n - 1] == 0 || s[n - 1] == 1);
        assert(row[n - 1] * 0 == 0);
        assert(row[n - 1] * 1 == row[n - 1]);
    }
}

/// A layer applied to a basis vector yields a column of its matrix.
proof fn lemma_layer_basis(layer: Layer, s: Seq<int>, i: int, j: int)
    requires
        s.len() == 16,
        0 <= i < 16,
        0 <= j < 16,
        forall|t: int| 0 <= t < 16 ==> #[trigger] s[t] == (if t == j {
            1int
        } else {
            0
        }),
    ensures
        arith::apply(layer_matrix(layer), s)[i] == layer_matrix(layer)[i][j],
{
    let m = layer_matrix(layer);
    lemma_dot_basis(m[i], s, 16, j);
    arith::lemma_red(1 + poseidon2::diagonal(i));
    arith::lemma_red(m[i][j]);
}

/// Recover a linear layer's matrix by applying it to basis vectors.
///
/// `out[i][j]` is the coefficient of input `j` in output `i`.
fn matrix_of(layer: Layer) -> (m: [[u32; WIDTH]; WIDTH])
    ensures
        matrix_ints(m@) == layer_matrix(layer),
{
    let zero: [u32; WIDTH] = [0; WIDTH];
    let mut m: [[u32; WIDTH]; WIDTH] = [zero; WIDTH];
    let mut j: usize = 0;
    while j < WIDTH
        invariant
            j <= WIDTH,
            zero@ =~= Seq::new(16, |t: int| 0u32),
            forall|a: int, b: int|
                0 <= a < WIDTH && 0 <= b < j ==> #[trigger] m@[a]@[b] == layer_matrix(layer)[a][b],
        decreases WIDTH - j,
    {
        let mut basis: [u32; WIDTH] = zero;
        basis[j] = 1;
        let ghost e = arith::ints(basis@);
        match layer {
            Layer::External => mds_light(&mut basis),
            Layer::Internal => internal_linear(&mut basis),
        }
        assert(arith::ints(basis@) == arith::apply(layer_matrix(layer), e));
        let mut i: usize = 0;
        while i < WIDTH
            invariant
                i <= WIDTH,
                j < WIDTH,
                e.len() == 16,
                arith::ints(basis@) == arith::apply(layer_matrix(layer), e),
                forall|t: int| 0 <= t < 16 ==> #[trigger] e[t] == (if t == j {
                    1int
                } else {
                    0
                }),
                forall|a: int, b: int|
                    0 <= a < WIDTH && 0 <= b < j ==> #[trigger] m@[a]@[b] == layer_matrix(
                        layer,
                    )[a][b],
                forall|a: int|
                    0 <= a < i ==> #[trigger] m@[a]@[j as int] == layer_matrix(layer)[a][j as int],
            decreases WIDTH - i,
        {
            proof {
                lemma_layer_basis(layer, e, i as int, j as int);
                assert(arith::ints(basis@)[i as int] == basis@[i as int]);
            }
            let mut row: [u32; WIDTH] = m[i];
            row[j] = basis[i];
            m[i] = row;
            i = i + 1;
        }
        j = j + 1;
    }
    proof {
        assert forall|a: int| 0 <= a < 16 implies #[trigger] matrix_ints(m@)[a] == layer_matrix(
            layer,
        )[a] by {
            assert(arith::ints(m@[a]@) =~= layer_matrix(layer)[a]);
        }
        assert(matrix_ints(m@) =~= layer_matrix(layer));
    }
    m
}

/// The external linear layer as a matrix.
pub fn mds_light_matrix() -> (m: [[u32; WIDTH]; WIDTH])
    ensures
        matrix_ints(m@) == poseidon2::mds_matrix(),
{
    matrix_of(Layer::External)
}

/// The internal linear layer as a matrix.
pub fn internal_matrix() -> (m: [[u32; WIDTH]; WIDTH])
    ensures
        matrix_ints(m@) == poseidon2::internal_matrix(),
{
    matrix_of(Layer::Internal)
}

/// Compress two digests into one.
pub fn compress(left: &[u32; 8], right: &[u32; 8]) -> (r: [u32; 8])
    requires
        canonical(left@),
        canonical(right@),
    ensures
        canonical(r@),
        arith::ints(r@) == poseidon2::compression(arith::ints(left@), arith::ints(right@)),
{
    let mut s: [u32; WIDTH] = [
        left[0],
        left[1],
        left[2],
        left[3],
        left[4],
        left[5],
        left[6],
        left[7],
        right[0],
        right[1],
        right[2],
        right[3],
        right[4],
        right[5],
        right[6],
        right[7],
    ];
    assert(s@ =~= left@ + right@);
    assert(arith::ints(s@) =~= arith::ints(left@) + arith::ints(right@));
    permute(&mut s);
    let r: [u32; 8] = [s[0], s[1], s[2], s[3], s[4], s[5], s[6], s[7]];
    assert(arith::ints(r@) =~= arith::ints(s@).take(8));
    r
}

/// Hash a row into a leaf digest with the padding-free sponge.
pub fn hash_row(row: &[u32]) -> (r: [u32; 8])
    requires
        canonical(row@),
    ensures
        canonical(r@),
        arith::ints(r@) == poseidon2::row_digest(arith::ints(row@)),
{
    let mut s: [u32; WIDTH] = [0; WIDTH];
    let ghost z = arith::ints(row@);
    let ghost mut c: nat = 0;
    let mut start: usize = 0;
    assert(arith::ints(s@) =~= poseidon2::sponge(z, 0));
    while start < row.len()
        invariant
            start == (if 8 * c <= row@.len() {
                8 * c as int
            } else {
                row@.len() as int
            }),
            c <= poseidon2::chunk_count(row@.len()),
            z == arith::ints(row@),
            canonical(row@),
            canonical(s@),
            arith::ints(s@) == poseidon2::sponge(z, c),
        decreases row.len() - start,
    {
        let take: usize = if row.len() - start < 8 {
            row.len() - start
        } else {
            8
        };
        let ghost before = arith::ints(s@);
        let ghost piece = poseidon2::chunk(z, c as int);
        let mut i: usize = 0;
        while i < take
            invariant
                i <= take <= 8,
                start + take <= row@.len(),
                start + take <= usize::MAX,
                canonical(row@),
                canonical(s@),
                z == arith::ints(row@),
                before.len() == 16,
                piece.len() == take,
                forall|t: int| 0 <= t < take ==> #[trigger] piece[t] == z[start + t],
                forall|t: int| 0 <= t < i ==> #[trigger] s@[t] == piece[t],
                forall|t: int| i <= t < 16 ==> #[trigger] s@[t] == before[t],
            decreases take - i,
        {
            assert(row@[start + i] == z[start + i]);
            assert(piece[i as int] == z[start + i]);
            s[i] = row[start + i];
            i = i + 1;
        }
        assert(arith::ints(s@) =~= poseidon2::overwrite(before, piece));
        permute(&mut s);
        start = start + take;
        proof {
            c = c + 1;
        }
    }
    assert(c == poseidon2::chunk_count(row@.len()));
    let r: [u32; 8] = [s[0], s[1], s[2], s[3], s[4], s[5], s[6], s[7]];
    assert(arith::ints(r@) =~= arith::ints(s@).take(8));
    r
}

/// The digests of a path as integer sequences.
pub open spec fn digests(s: Seq<[u32; 8]>) -> Seq<Seq<int>> {
    Seq::new(s.len(), |i: int| arith::ints(s[i]@))
}

/// The root a leaf and a path lead to; `bits[i]` says that the running digest
/// is the right child at level `i`.
pub fn merkle_root(leaf: [u32; 8], siblings: &[[u32; 8]], bits: &[bool]) -> (r: [u32; 8])
    requires
        canonical(leaf@),
        siblings@.len() == bits@.len(),
        forall|i: int| 0 <= i < siblings@.len() ==> canonical((#[trigger] siblings@[i])@),
    ensures
        canonical(r@),
        arith::ints(r@) == poseidon2::path_digest(
            arith::ints(leaf@),
            digests(siblings@),
            bits@,
            siblings@.len(),
        ),
{
    let mut d: [u32; 8] = leaf;
    let mut i: usize = 0;
    while i < siblings.len()
        invariant
            i <= siblings@.len() == bits@.len(),
            canonical(d@),
            forall|t: int| 0 <= t < siblings@.len() ==> canonical((#[trigger] siblings@[t])@),
            arith::ints(d@) == poseidon2::path_digest(
                arith::ints(leaf@),
                digests(siblings@),
                bits@,
                i as nat,
            ),
        decreases siblings.len() - i,
    {
        assert(canonical(siblings@[i as int]@));
        d = if bits[i] {
            compress(&siblings[i], &d)
        } else {
            compress(&d, &siblings[i])
        };
        i = i + 1;
    }
    d
}

} // verus!
