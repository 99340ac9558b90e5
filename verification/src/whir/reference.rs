//! The round in plain Rust, on the values themselves.

use crate::arith;
use crate::constants::P;
use crate::ext::{self, Ext};
use crate::poseidon2;
use crate::reference as f;
use crate::reference::ext4;
use crate::whir::algebra::{self, Constraint, Group};
use crate::whir::challenger;
use crate::whir::sumcheck;
use vstd::arithmetic::power2::*;
use vstd::bits::*;
use vstd::prelude::*;
use vstd::slice::slice_subrange;

verus! {

/// The extension element `1`.
pub const EF_ONE: [u32; 4] = [1, 0, 0, 0];

/// The extension element `0`.
const EF_ZERO: [u32; 4] = [0, 0, 0, 0];

/// Sponge rate.
pub const RATE: usize = 8;

/// Whether all words of all elements are canonical.
pub open spec fn all_canonical(s: Seq<[u32; 4]>) -> bool {
    forall|i: int| 0 <= i < s.len() ==> f::canonical(#[trigger] s[i]@)
}

/// The elements a sequence of words stands for.
pub open spec fn elements(s: Seq<[u32; 4]>) -> Seq<Ext> {
    Seq::new(s.len(), |i: int| ext4::of(s[i]@))
}

proof fn lemma_constants()
    ensures
        f::canonical(EF_ONE@),
        ext4::of(EF_ONE@) == ext::eone(),
        f::canonical(EF_ZERO@),
        ext4::of(EF_ZERO@) == ext::ezero(),
{
}

// ---------------------------------------------------------------------------
// Sumcheck
// ---------------------------------------------------------------------------

/// The weights at `r`: `[1 - r, r, r*(r - 1)]`.
pub fn lagrange_weights_01inf(r: [u32; 4]) -> (w: [[u32; 4]; 3])
    requires
        f::canonical(r@),
    ensures
        all_canonical(w@),
        elements(w@) == seq![
            ext::esub(ext::eone(), ext4::of(r@)),
            ext4::of(r@),
            ext::emul(ext4::of(r@), ext::esub(ext4::of(r@), ext::eone())),
        ],
{
    proof {
        lemma_constants();
    }
    let w = [
        crate::reference::ext4::sub(EF_ONE, r),
        r,
        crate::reference::ext4::mul(r, crate::reference::ext4::sub(r, EF_ONE)),
    ];
    assert(elements(w@) =~= seq![
        ext::esub(ext::eone(), ext4::of(r@)),
        ext4::of(r@),
        ext::emul(ext4::of(r@), ext::esub(ext4::of(r@), ext::eone())),
    ]);
    w
}

/// `e0*w0 + e1*w1 + e_inf*w_inf`, with the weights at `r`.
pub fn extrapolate_01inf(
    e0: [u32; 4],
    e1: [u32; 4],
    e_inf: [u32; 4],
    r: [u32; 4],
) -> (h: [u32; 4])
    requires
        f::canonical(e0@),
        f::canonical(e1@),
        f::canonical(e_inf@),
        f::canonical(r@),
    ensures
        f::canonical(h@),
        ext4::of(h@) == algebra::extrapolate(
            ext4::of(e0@),
            ext4::of(e1@),
            ext4::of(e_inf@),
            ext4::of(r@),
        ),
{
    let w = lagrange_weights_01inf(r);
    proof {
        let want = elements(w@);
        assert(ext4::of(w@[0]@) == want[0]);
        assert(ext4::of(w@[1]@) == want[1]);
        assert(ext4::of(w@[2]@) == want[2]);
    }
    crate::reference::ext4::add(
        crate::reference::ext4::add(
            crate::reference::ext4::mul(e0, w[0]),
            crate::reference::ext4::mul(e1, w[1]),
        ),
        crate::reference::ext4::mul(e_inf, w[2]),
    )
}

/// One round: `h(1)` comes from the sumcheck constraint, and the new claim is
/// `h(r)`.
pub fn sumcheck_round(
    claim: [u32; 4],
    c0: [u32; 4],
    c_inf: [u32; 4],
    r: [u32; 4],
) -> (h: [u32; 4])
    requires
        f::canonical(claim@),
        f::canonical(c0@),
        f::canonical(c_inf@),
        f::canonical(r@),
    ensures
        f::canonical(h@),
        ext4::of(h@) == algebra::next_claim(
            ext4::of(claim@),
            ext4::of(c0@),
            ext4::of(c_inf@),
            ext4::of(r@),
        ),
{
    extrapolate_01inf(c0, crate::reference::ext4::sub(claim, c0), c_inf, r)
}

/// One round with its challenge derived from the transcript: the sent
/// evaluations are absorbed, and the challenge is the first extension element of
/// the rate. Returns the new claim and the challenge.
pub fn sumcheck_round_fs(
    state: &mut [u32; 16],
    claim: [u32; 4],
    c0: [u32; 4],
    c_inf: [u32; 4],
) -> (r: ([u32; 4], [u32; 4]))
    requires
        f::canonical(old(state)@),
        f::canonical(claim@),
        f::canonical(c0@),
        f::canonical(c_inf@),
    ensures
        f::canonical(final(state)@),
        arith::ints(final(state)@) == sumcheck::round_state(
            arith::ints(old(state)@),
            ext4::of(c0@),
            ext4::of(c_inf@),
        ),
        f::canonical(r.0@),
        ext4::of(r.0@) == sumcheck::round_claim(
            ext4::of(claim@),
            arith::ints(old(state)@),
            ext4::of(c0@),
            ext4::of(c_inf@),
        ),
        f::canonical(r.1@),
        ext4::of(r.1@) == sumcheck::round_challenge(
            arith::ints(old(state)@),
            ext4::of(c0@),
            ext4::of(c_inf@),
        ),
{
    let inputs = [c0[0], c0[1], c0[2], c0[3], c_inf[0], c_inf[1], c_inf[2], c_inf[3]];
    proof {
        let sent = sumcheck::sent(ext4::of(c0@), ext4::of(c_inf@));
        assert(arith::ints(inputs@) =~= sent);
    }
    duplexing(state, &inputs);
    let r = [state[0], state[1], state[2], state[3]];
    assert(ext4::of(r@) == challenger::challenge(arith::ints(state@), 0));
    (sumcheck_round(claim, c0, c_inf, r), r)
}

// ---------------------------------------------------------------------------
// Multilinear evaluation
// ---------------------------------------------------------------------------

/// Evaluate a multilinear polynomial.
///
/// `evals` holds `2^n` values indexed big-endian by the point variables, so the
/// *last* variable pairs adjacent entries and folding runs backwards to
/// `point[0]`. Each step is `e[2j] + x*(e[2j+1] - e[2j])`.
pub fn eval_multilinear(evals: &[[u32; 4]], point: &[[u32; 4]]) -> (r: [u32; 4])
    requires
        all_canonical(evals@),
        all_canonical(point@),
        evals@.len() == pow2(point@.len()),
    ensures
        f::canonical(r@),
        ext4::of(r@) == algebra::multilinear(elements(evals@), elements(point@)),
{
    let mut cur: Vec<[u32; 4]> = Vec::new();
    let mut i: usize = 0;
    while i < evals.len()
        invariant
            i <= evals@.len(),
            cur@ == evals@.take(i as int),
        decreases evals@.len() - i,
    {
        cur.push(evals[i]);
        i = i + 1;
        assert(cur@ =~= evals@.take(i as int));
    }
    assert(cur@ =~= evals@);
    let ghost want = algebra::multilinear(elements(evals@), elements(point@));
    let mut k: usize = point.len();
    assert(point@.take(k as int) =~= point@);
    while k > 0
        invariant
            k <= point@.len(),
            all_canonical(point@),
            all_canonical(cur@),
            cur@.len() == pow2(k as nat),
            want == algebra::multilinear(elements(cur@), elements(point@.take(k as int))),
        decreases k,
    {
        let ghost now = elements(cur@);
        let ghost p = elements(point@.take(k as int));
        k = k - 1;
        let x = point[k];
        let ghost fx = ext4::of(x@);
        proof {
            assert(f::canonical(point@[k as int]@));
            lemma_pow2_unfold((k + 1) as nat);
            assert(p.last() == fx);
            assert(p.drop_last() =~= elements(point@.take(k as int)));
        }
        let mut next: Vec<[u32; 4]> = Vec::new();
        let mut j: usize = 0;
        let len: usize = cur.len();
        let half: usize = len / 2;
        while j < half
            invariant
                j <= half,
                len == cur@.len(),
                half == len / 2,
                all_canonical(cur@),
                f::canonical(x@),
                fx == ext4::of(x@),
                now == elements(cur@),
                all_canonical(next@),
                next@.len() == j,
                forall|t: int|
                    0 <= t < j ==> ext4::of((#[trigger] next@[t])@) == algebra::fold(now, fx)[t],
            decreases half - j,
        {
            let a = cur[2 * j];
            let b = cur[2 * j + 1];
            assert(f::canonical(cur@[2 * j]@) && f::canonical(cur@[2 * j + 1]@));
            assert(now[2 * j] == ext4::of(a@) && now[2 * j + 1] == ext4::of(b@));
            next.push(
                crate::reference::ext4::add(
                    a,
                    crate::reference::ext4::mul(x, crate::reference::ext4::sub(b, a)),
                ),
            );
            j = j + 1;
        }
        assert(elements(next@) =~= algebra::fold(now, fx));
        cur = next;
    }
    proof {
        lemma2_to64();
        assert(f::canonical(cur@[0]@));
        assert(elements(point@.take(0)).len() == 0);
    }
    cur[0]
}

// ---------------------------------------------------------------------------
// The transcript sponge
// ---------------------------------------------------------------------------

/// The duplex step of the transcript sponge.
///
/// Overwrite the leading `k` rate slots, zero the rest of the rate, bind `k`
/// into the first capacity element so that length and zero-padding cannot
/// collide, then permute. `k == 0` is a squeeze: permute only.
pub fn duplexing(state: &mut [u32; 16], inputs: &[u32])
    requires
        f::canonical(old(state)@),
        f::canonical(inputs@),
        inputs@.len() <= RATE,
    ensures
        f::canonical(final(state)@),
        arith::ints(final(state)@) == poseidon2::duplex(
            arith::ints(old(state)@),
            arith::ints(inputs@),
        ),
{
    let k = inputs.len();
    let ghost s = state@;
    let mut i: usize = 0;
    while i < k
        invariant
            i <= k == inputs@.len() <= RATE,
            f::canonical(s),
            f::canonical(inputs@),
            state@.len() == 16 == s.len(),
            f::canonical(state@),
            forall|t: int| 0 <= t < i ==> #[trigger] state@[t] == inputs@[t],
            forall|t: int| i <= t < 16 ==> #[trigger] state@[t] == s[t],
        decreases k - i,
    {
        state[i] = inputs[i];
        i = i + 1;
    }
    if k > 0 {
        while i < RATE
            invariant
                k <= i <= RATE,
                k == inputs@.len(),
                state@.len() == 16 == s.len(),
                f::canonical(state@),
                forall|t: int| 0 <= t < k ==> #[trigger] state@[t] == inputs@[t],
                forall|t: int| k <= t < i ==> #[trigger] state@[t] == 0,
                forall|t: int| i <= t < 16 ==> #[trigger] state@[t] == s[t],
            decreases RATE - i,
        {
            state[i] = 0;
            i = i + 1;
        }
        let tag: u32 = k as u32;
        assert(state@[8] == s[8]);
        proof {
            arith::lemma_red(s[8] + k);
        }
        state[RATE] = crate::reference::add(state[RATE], tag);
    }
    assert(arith::ints(state@) =~= poseidon2::duplex_input(arith::ints(s), arith::ints(inputs@)));
    f::permute(state);
}

/// The squeezed values: the rate after a duplexing.
pub fn squeeze(state: &mut [u32; 16]) -> (r: [u32; 8])
    requires
        f::canonical(old(state)@),
    ensures
        f::canonical(final(state)@),
        arith::ints(final(state)@) == poseidon2::permutation(arith::ints(old(state)@)),
        r@ == final(state)@.take(8),
{
    let none: [u32; 0] = [];
    duplexing(state, &none);
    let r = [state[0], state[1], state[2], state[3], state[4], state[5], state[6], state[7]];
    assert(r@ =~= state@.take(8));
    r
}

/// Take a squeezed field element and keep its low `bits` bits.
pub fn sample_bits(rate_element: u32, bits: usize) -> (r: u32)
    requires
        pow2(bits as nat) < P,
    ensures
        r == rate_element as nat % pow2(bits as nat),
{
    proof {
        lemma2_to64();
        if bits > 30 {
            if bits > 31 {
                lemma_pow2_strictly_increases(31, bits as nat);
            }
            assert(false);
        }
        if bits < 30 {
            lemma_pow2_strictly_increases(bits as nat, 30);
        }
        lemma_u32_low_bits_mask_is_mod(rate_element, bits as nat);
        lemma_u32_shl_is_mul(1, bits as u32);
        lemma_pow2_pos(bits as nat);
    }
    rate_element & ((1u32 << (bits as u32)) - 1)
}

// ---------------------------------------------------------------------------
// Constraints
// ---------------------------------------------------------------------------

/// `base + sum_i gamma^(i+1) y_i`, by powers.
pub fn combine_answers(base: [u32; 4], gamma: [u32; 4], answers: &[[u32; 4]]) -> (r: [u32; 4])
    requires
        f::canonical(base@),
        f::canonical(gamma@),
        all_canonical(answers@),
    ensures
        f::canonical(r@),
        ext4::of(r@) == algebra::next_target(
            ext4::of(base@),
            ext4::of(gamma@),
            elements(answers@),
        ),
{
    let ghost b = ext4::of(base@);
    let ghost g = ext4::of(gamma@);
    let ghost y = elements(answers@);
    proof {
        ext4::lemma_of_ok(base@);
        ext4::lemma_of_ok(gamma@);
        ext::ext_identities(b);
        ext::ext_identities(g);
        reveal_with_fuel(ext::epow, 2);
    }
    let mut acc = base;
    let mut power = gamma;
    let mut i: usize = 0;
    assert(y.take(0).len() == 0);
    while i < answers.len()
        invariant
            i <= answers@.len(),
            all_canonical(answers@),
            y == elements(answers@),
            f::canonical(gamma@),
            g == ext4::of(gamma@),
            f::canonical(acc@),
            ext4::of(acc@) == ext::eadd(b, algebra::shifted_power_sum(g, y.take(i as int))),
            f::canonical(power@),
            ext4::of(power@) == ext::epow(g, (i + 1) as nat),
        decreases answers@.len() - i,
    {
        proof {
            let now = y.take(i + 1);
            assert(f::canonical(answers@[i as int]@));
            assert(now.drop_last() =~= y.take(i as int));
            assert(now.last() == ext4::of(answers@[i as int]@));
            ext::eadd_laws(
                b,
                algebra::shifted_power_sum(g, y.take(i as int)),
                ext::emul(ext::epow(g, (i + 1) as nat), now.last()),
            );
        }
        acc = crate::reference::ext4::add(
            acc,
            crate::reference::ext4::mul(power, answers[i]),
        );
        power = crate::reference::ext4::mul(power, gamma);
        i = i + 1;
    }
    assert(y.take(y.len() as int) =~= y);
    acc
}

/// `eq(z, r)`, as `prod_i (z_i r_i + (1 - z_i)(1 - r_i))`.
pub fn eq_eval(z: &[[u32; 4]], r: &[[u32; 4]]) -> (e: [u32; 4])
    requires
        all_canonical(z@),
        all_canonical(r@),
        z@.len() == r@.len(),
    ensures
        f::canonical(e@),
        ext4::of(e@) == algebra::eq_poly(elements(z@), elements(r@)),
{
    let ghost a = elements(z@);
    let ghost b = elements(r@);
    proof {
        lemma_constants();
    }
    let mut acc = EF_ONE;
    let mut i: usize = z.len();
    while i > 0
        invariant
            i <= z@.len() == r@.len(),
            all_canonical(z@),
            all_canonical(r@),
            a == elements(z@),
            b == elements(r@),
            f::canonical(EF_ONE@),
            ext4::of(EF_ONE@) == ext::eone(),
            f::canonical(acc@),
            ext4::of(acc@) == algebra::eq_poly(a.skip(i as int), b.skip(i as int)),
        decreases i,
    {
        i = i - 1;
        let (x, y): ([u32; 4], [u32; 4]) = (z[i], r[i]);
        proof {
            assert(f::canonical(z@[i as int]@) && f::canonical(r@[i as int]@));
            assert(a.skip(i as int).skip(1) =~= a.skip(i + 1));
            assert(b.skip(i as int).skip(1) =~= b.skip(i + 1));
            algebra::eq_factor_is_symmetric(ext4::of(x@), ext4::of(y@));
        }
        let agree = crate::reference::ext4::add(
            crate::reference::ext4::mul(x, y),
            crate::reference::ext4::mul(
                crate::reference::ext4::sub(EF_ONE, x),
                crate::reference::ext4::sub(EF_ONE, y),
            ),
        );
        acc = crate::reference::ext4::mul(acc, agree);
    }
    assert(a.skip(0) =~= a && b.skip(0) =~= b);
    acc
}

/// The square-power vector `[u^(2^(m-1)), ..., u^4, u^2, u]`.
pub fn expand_univariate(u: [u32; 4], m: usize) -> (r: Vec<[u32; 4]>)
    requires
        f::canonical(u@),
    ensures
        all_canonical(r@),
        elements(r@) == algebra::expand(ext4::of(u@), m as nat),
{
    let ghost x = ext4::of(u@);
    let mut powers: Vec<[u32; 4]> = Vec::new();
    let mut cur = u;
    let mut i: usize = 0;
    while i < m
        invariant
            i <= m,
            f::canonical(cur@),
            ext4::of(cur@) == algebra::square_power(x, i as nat),
            powers@.len() == i,
            all_canonical(powers@),
            forall|t: int|
                0 <= t < i ==> ext4::of((#[trigger] powers@[t])@) == algebra::square_power(
                    x,
                    t as nat,
                ),
        decreases m - i,
    {
        powers.push(cur);
        cur = crate::reference::ext4::mul(cur, cur);
        i = i + 1;
    }
    let mut r: Vec<[u32; 4]> = Vec::new();
    let mut j: usize = 0;
    while j < m
        invariant
            j <= m == powers@.len(),
            all_canonical(powers@),
            forall|t: int|
                0 <= t < m ==> ext4::of((#[trigger] powers@[t])@) == algebra::square_power(
                    x,
                    t as nat,
                ),
            r@.len() == j,
            all_canonical(r@),
            forall|t: int|
                0 <= t < j ==> ext4::of((#[trigger] r@[t])@) == algebra::square_power(
                    x,
                    (m - 1 - t) as nat,
                ),
        decreases m - j,
    {
        assert(f::canonical(powers@[m - 1 - j]@));
        r.push(powers[m - 1 - j]);
        j = j + 1;
    }
    assert(elements(r@) =~= algebra::expand(x, m as nat));
    r
}

/// The constraints that weights and points stand for.
pub open spec fn constraints(s: Seq<([u32; 4], Vec<[u32; 4]>)>) -> Seq<Constraint> {
    Seq::new(s.len(), |i: int| Constraint { weight: ext4::of(s[i].0@), point: elements(s[i].1@) })
}

/// Whether all weights and points are canonical, with points of at most `n`
/// coordinates.
pub open spec fn constraints_canonical(s: Seq<([u32; 4], Vec<[u32; 4]>)>, n: nat) -> bool {
    forall|i: int|
        0 <= i < s.len() ==> f::canonical((#[trigger] s[i]).0@) && all_canonical(s[i].1@)
            && s[i].1@.len() <= n
}

/// The constraints of all groups, in order.
pub open spec fn group_constraints(gs: Seq<Vec<([u32; 4], Vec<[u32; 4]>)>>) -> Seq<Constraint>
    decreases gs.len(),
{
    if gs.len() == 0 {
        Seq::empty()
    } else {
        group_constraints(gs.drop_last()) + constraints(gs.last()@)
    }
}

/// `sum_j w_j f(z_j)`, for the multilinear polynomial with the given
/// evaluations.
pub fn closing_sum(evals: &[[u32; 4]], points: &[([u32; 4], Vec<[u32; 4]>)]) -> (r: [u32; 4])
    requires
        all_canonical(evals@),
        constraints_canonical(points@, usize::MAX as nat),
        forall|i: int|
            0 <= i < points@.len() ==> evals@.len() == pow2((#[trigger] points@[i]).1@.len()),
    ensures
        f::canonical(r@),
        ext4::of(r@) == algebra::closing_sum(elements(evals@), constraints(points@)),
{
    let ghost e = elements(evals@);
    let ghost cs = constraints(points@);
    proof {
        lemma_constants();
    }
    let mut acc = EF_ZERO;
    let mut i: usize = 0;
    assert(cs.take(0).len() == 0);
    while i < points.len()
        invariant
            i <= points@.len(),
            all_canonical(evals@),
            constraints_canonical(points@, usize::MAX as nat),
            forall|i: int|
                0 <= i < points@.len() ==> evals@.len() == pow2((#[trigger] points@[i]).1@.len()),
            e == elements(evals@),
            cs == constraints(points@),
            f::canonical(acc@),
            ext4::of(acc@) == algebra::closing_sum(e, cs.take(i as int)),
        decreases points@.len() - i,
    {
        let (weight, point) = &points[i];
        proof {
            let now = cs.take(i + 1);
            assert(f::canonical(points@[i as int].0@));
            assert(now.drop_last() =~= cs.take(i as int));
            assert(now.last() == cs[i as int]);
        }
        acc = crate::reference::ext4::add(
            acc,
            crate::reference::ext4::mul(eval_multilinear(evals, point.as_slice()), *weight),
        );
        i = i + 1;
    }
    assert(cs.take(cs.len() as int) =~= cs);
    acc
}

/// `sum_j w_j eq(z_j, r)` over all groups, each constraint reading its own suffix
/// of the folding randomness.
pub fn constraint_eval(r: &[[u32; 4]], groups: &[Vec<([u32; 4], Vec<[u32; 4]>)>]) -> (w: [u32; 4])
    requires
        all_canonical(r@),
        forall|g: int|
            0 <= g < groups@.len() ==> constraints_canonical(
                (#[trigger] groups@[g])@,
                r@.len(),
            ),
    ensures
        f::canonical(w@),
        ext4::of(w@) == algebra::constraint_sum(group_constraints(groups@), elements(r@)),
{
    let ghost x = elements(r@);
    proof {
        lemma_constants();
    }
    let mut acc = EF_ZERO;
    let mut g: usize = 0;
    assert(group_constraints(groups@.take(0)).len() == 0);
    while g < groups.len()
        invariant
            g <= groups@.len(),
            all_canonical(r@),
            forall|g: int|
                0 <= g < groups@.len() ==> constraints_canonical(
                    (#[trigger] groups@[g])@,
                    r@.len(),
                ),
            x == elements(r@),
            f::canonical(acc@),
            ext4::of(acc@) == algebra::constraint_sum(
                group_constraints(groups@.take(g as int)),
                x,
            ),
        decreases groups@.len() - g,
    {
        let group = &groups[g];
        let ghost before = group_constraints(groups@.take(g as int));
        let ghost cs = constraints(group@);
        assert(constraints_canonical(groups@[g as int]@, r@.len()));
        let mut i: usize = 0;
        assert(before + cs.take(0) =~= before);
        while i < group.len()
            invariant
                i <= group@.len(),
                all_canonical(r@),
                constraints_canonical(group@, r@.len()),
                x == elements(r@),
                cs == constraints(group@),
                f::canonical(acc@),
                ext4::of(acc@) == algebra::constraint_sum(before + cs.take(i as int), x),
            decreases group@.len() - i,
        {
            let (weight, point) = &group[i];
            let n = point.len();
            let local = slice_subrange(r, r.len() - n, r.len());
            proof {
                let now = before + cs.take(i + 1);
                assert(f::canonical(group@[i as int].0@));
                assert(now.drop_last() =~= before + cs.take(i as int));
                assert(now.last() == cs[i as int]);
                assert(elements(local@) =~= algebra::suffix(x, n as nat));
                assert(all_canonical(local@)) by {
                    assert forall|t: int| 0 <= t < local@.len() implies f::canonical(
                        #[trigger] local@[t]@,
                    ) by {
                        assert(f::canonical(r@[r@.len() - n + t]@));
                    }
                }
            }
            acc = crate::reference::ext4::add(
                acc,
                crate::reference::ext4::mul(eq_eval(point.as_slice(), local), *weight),
            );
            i = i + 1;
        }
        proof {
            let now = groups@.take(g + 1);
            assert(now.drop_last() =~= groups@.take(g as int));
            assert(cs.take(cs.len() as int) =~= cs);
        }
        g = g + 1;
    }
    assert(groups@.take(groups@.len() as int) =~= groups@);
    acc
}

/// The batched groups that challenges, scalars and arities stand for.
pub open spec fn batched(s: Seq<([u32; 4], Vec<[u32; 4]>, usize)>) -> Seq<Group> {
    Seq::new(
        s.len(),
        |i: int|
            Group {
                chi: ext4::of(s[i].0@),
                scalars: elements(s[i].1@),
                arity: s[i].2 as nat,
            },
    )
}

/// `sum_g sum_j chi_g^j eq(expand(u_gj), r)`: each constraint's point is the
/// expansion of its scalar, its weight a power of its group's challenge.
pub fn constraint_eval_batched(
    r: &[[u32; 4]],
    groups: &[([u32; 4], Vec<[u32; 4]>, usize)],
) -> (w: [u32; 4])
    requires
        all_canonical(r@),
        forall|g: int|
            0 <= g < groups@.len() ==> f::canonical((#[trigger] groups@[g]).0@) && all_canonical(
                groups@[g].1@,
            ) && groups@[g].2 <= r@.len(),
    ensures
        f::canonical(w@),
        ext4::of(w@) == algebra::group_sum(batched(groups@), elements(r@)),
{
    let ghost x = elements(r@);
    let ghost gs = batched(groups@);
    proof {
        lemma_constants();
    }
    let mut acc = EF_ZERO;
    let mut g: usize = 0;
    assert(gs.take(0).len() == 0);
    while g < groups.len()
        invariant
            g <= groups@.len(),
            all_canonical(r@),
            forall|g: int|
                0 <= g < groups@.len() ==> f::canonical((#[trigger] groups@[g]).0@)
                    && all_canonical(groups@[g].1@) && groups@[g].2 <= r@.len(),
            x == elements(r@),
            gs == batched(groups@),
            f::canonical(acc@),
            ext4::of(acc@) == algebra::group_sum(gs.take(g as int), x),
        decreases groups@.len() - g,
    {
        let (chi, scalars, arity) = &groups[g];
        proof {
            let now = gs.take(g + 1);
            assert(f::canonical(groups@[g as int].0@));
            assert(now.drop_last() =~= gs.take(g as int));
            assert(now.last() == gs[g as int]);
        }
        acc = crate::reference::ext4::add(
            acc,
            batched_sum(r, *chi, scalars.as_slice(), *arity),
        );
        g = g + 1;
    }
    assert(gs.take(gs.len() as int) =~= gs);
    acc
}

/// The sum of one batched group.
fn batched_sum(r: &[[u32; 4]], chi: [u32; 4], scalars: &[[u32; 4]], arity: usize) -> (s: [u32; 4])
    requires
        all_canonical(r@),
        f::canonical(chi@),
        all_canonical(scalars@),
        arity <= r@.len(),
    ensures
        f::canonical(s@),
        ext4::of(s@) == (Group {
            chi: ext4::of(chi@),
            scalars: elements(scalars@),
            arity: arity as nat,
        }).sum(elements(r@)),
{
    let ghost x = elements(r@);
    let ghost g = Group {
        chi: ext4::of(chi@),
        scalars: elements(scalars@),
        arity: arity as nat,
    };
    let ghost y = g.values(x);
    let local = slice_subrange(r, r.len() - arity, r.len());
    proof {
        lemma_constants();
        assert(elements(local@) =~= algebra::suffix(x, arity as nat));
        assert(all_canonical(local@)) by {
            assert forall|t: int| 0 <= t < local@.len() implies f::canonical(
                #[trigger] local@[t]@,
            ) by {
                assert(f::canonical(r@[r@.len() - arity + t]@));
            }
        }
    }
    let mut acc = EF_ZERO;
    let mut power = EF_ONE;
    let mut j: usize = 0;
    assert(y.take(0).len() == 0);
    while j < scalars.len()
        invariant
            j <= scalars@.len(),
            all_canonical(scalars@),
            f::canonical(chi@),
            all_canonical(local@),
            elements(local@) == algebra::suffix(x, arity as nat),
            local@.len() == arity,
            g.chi == ext4::of(chi@),
            g.scalars == elements(scalars@),
            g.arity == arity,
            y == g.values(x),
            f::canonical(acc@),
            ext4::of(acc@) == algebra::power_sum(g.chi, y.take(j as int)),
            f::canonical(power@),
            ext4::of(power@) == ext::epow(g.chi, j as nat),
        decreases scalars@.len() - j,
    {
        let point = expand_univariate(scalars[j], arity);
        proof {
            let now = y.take(j + 1);
            assert(f::canonical(scalars@[j as int]@));
            assert(now.drop_last() =~= y.take(j as int));
            assert(now.last() == y[j as int]);
            assert(elements(point@).len() == arity);
        }
        acc = crate::reference::ext4::add(
            acc,
            crate::reference::ext4::mul(power, eq_eval(point.as_slice(), local)),
        );
        power = crate::reference::ext4::mul(power, chi);
        j = j + 1;
    }
    assert(y.take(y.len() as int) =~= y);
    acc
}

} // verus!
