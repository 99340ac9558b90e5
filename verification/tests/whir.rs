//! The extension field and the WHIR verifier: scripts run on a small
//! interpreter, against plain arithmetic.

use bitcoin::hashes::hash160;
use bitcoin_stark_verifier::constants::P;
use bitcoin_stark_verifier::merkle::DIGEST;
use bitcoin_stark_verifier::reference as pf;
use bitcoin_stark_verifier::script::{Opcode, Script};
use bitcoin_stark_verifier::whir::protocol::{self, Config, Round};
use bitcoin_stark_verifier::whir::{challenger, constraint, multilinear, reference, sponge, sumcheck};
use bitcoin_stark_verifier::{ext4, field, merkle, permutation};
use rand::{Rng, SeedableRng};
use rand_chacha::ChaCha20Rng;

/// What running a script left behind: the stack, and the most items the two
/// stacks ever held together.
struct Done {
    stack: Vec<Vec<u8>>,
    #[allow(dead_code)]
    peak: usize,
}

/// The value of a script number of any length.
fn decode(v: &[u8]) -> i64 {
    if v.is_empty() {
        return 0;
    }
    let mut n: i64 = 0;
    for (i, b) in v.iter().enumerate() {
        n |= (*b as i64) << (8 * i);
    }
    if v[v.len() - 1] & 0x80 != 0 {
        n &= !(0x80i64 << (8 * (v.len() - 1)));
        return -n;
    }
    n
}

/// The minimal script number.
fn encode(n: i64) -> Vec<u8> {
    let mut out: Vec<u8> = Vec::new();
    let mut m = n.unsigned_abs();
    while m > 0 {
        out.push((m & 0xff) as u8);
        m >>= 8;
    }
    if let Some(last) = out.last().copied() {
        let sign: u8 = if n < 0 { 0x80 } else { 0 };
        if last & 0x80 != 0 {
            out.push(sign);
        } else {
            let k = out.len() - 1;
            out[k] |= sign;
        }
    }
    out
}

fn h160(x: &[u8]) -> [u8; 20] {
    let h = <hash160::Hash as bitcoin::hashes::Hash>::hash(x);
    bitcoin::hashes::Hash::to_byte_array(h)
}

fn truthy(v: &[u8]) -> bool {
    v.iter().enumerate().any(|(i, b)| *b != 0 && !(i == v.len() - 1 && *b == 0x80))
}

fn pop(stack: &mut Vec<Vec<u8>>) -> Result<Vec<u8>, String> {
    stack.pop().ok_or_else(|| "stack underflow".to_string())
}

/// A numeric operand: at most four bytes, minimally encoded.
fn pop_num(stack: &mut Vec<Vec<u8>>) -> Result<i64, String> {
    let v = pop(stack)?;
    if v.len() > 4 {
        return Err("numeric operand too long".to_string());
    }
    let n = decode(&v);
    if encode(n) != v {
        return Err("numeric operand not minimal".to_string());
    }
    Ok(n)
}

/// The position of the item `depth` below the top.
fn below(stack: &[Vec<u8>], depth: i64) -> Result<usize, String> {
    if depth < 0 || depth >= stack.len() as i64 {
        return Err(format!("depth {depth} outside the stack"));
    }
    Ok(stack.len() - 1 - depth as usize)
}

/// Run tapscript bytes on empty stacks.
fn execute_bytes(code: &[u8]) -> Result<Done, String> {
    let mut stack: Vec<Vec<u8>> = Vec::new();
    let mut alt: Vec<Vec<u8>> = Vec::new();
    let mut conds: Vec<bool> = Vec::new();
    let mut peak = 0usize;
    let mut at = 0usize;
    while at < code.len() {
        let op = code[at];
        at += 1;
        let live = conds.iter().all(|c| *c);
        if op <= 0x4b {
            let end = at + op as usize;
            if end > code.len() {
                return Err("push past the end".to_string());
            }
            if live {
                stack.push(code[at..end].to_vec());
                peak = peak.max(stack.len() + alt.len());
            }
            at = end;
            continue;
        }
        if (0x63..=0x68).contains(&op) {
            match op {
                0x63 | 0x64 => {
                    let mut taken = false;
                    if live {
                        let v = pop(&mut stack)?;
                        if !(v.is_empty() || v == [1]) {
                            return Err("condition not minimal".to_string());
                        }
                        taken = truthy(&v) == (op == 0x63);
                    }
                    conds.push(taken);
                }
                0x67 => {
                    let c = conds.pop().ok_or("unbalanced else")?;
                    conds.push(!c);
                }
                0x68 => {
                    conds.pop().ok_or("unbalanced endif")?;
                }
                _ => return Err(format!("unexpected opcode {op:#x}")),
            }
            continue;
        }
        if !live {
            continue;
        }
        match op {
            0x4f => stack.push(encode(-1)),
            0x51..=0x60 => stack.push(encode(op as i64 - 0x50)),
            0x6b => {
                let v = pop(&mut stack)?;
                alt.push(v);
            }
            0x6c => {
                let v = alt.pop().ok_or("altstack underflow")?;
                stack.push(v);
            }
            0x6d => {
                pop(&mut stack)?;
                pop(&mut stack)?;
            }
            0x75 => {
                pop(&mut stack)?;
            }
            0x76 => {
                let i = below(&stack, 0)?;
                stack.push(stack[i].clone());
            }
            0x78 => {
                let i = below(&stack, 1)?;
                stack.push(stack[i].clone());
            }
            0x79 => {
                let d = pop_num(&mut stack)?;
                let i = below(&stack, d)?;
                stack.push(stack[i].clone());
            }
            0x7a => {
                let d = pop_num(&mut stack)?;
                let i = below(&stack, d)?;
                let v = stack.remove(i);
                stack.push(v);
            }
            0x7b => {
                let i = below(&stack, 2)?;
                let v = stack.remove(i);
                stack.push(v);
            }
            0x7c => {
                let i = below(&stack, 1)?;
                stack.swap(i, i + 1);
            }
            0x7d => {
                let i = below(&stack, 1)?;
                let v = stack[i + 1].clone();
                stack.insert(i, v);
            }
            0x87 | 0x88 => {
                let b = pop(&mut stack)?;
                let a = pop(&mut stack)?;
                if op == 0x87 {
                    stack.push(encode((a == b) as i64));
                } else if a != b {
                    return Err("equalverify".to_string());
                }
            }
            0x8c => {
                let a = pop_num(&mut stack)?;
                stack.push(encode(a - 1));
            }
            0x91 => {
                let a = pop_num(&mut stack)?;
                stack.push(encode((a == 0) as i64));
            }
            0x92 => {
                let a = pop_num(&mut stack)?;
                stack.push(encode((a != 0) as i64));
            }
            0x93 | 0x94 | 0x9a | 0x9c | 0x9f | 0xa2 => {
                let b = pop_num(&mut stack)?;
                let a = pop_num(&mut stack)?;
                stack.push(encode(match op {
                    0x93 => a + b,
                    0x94 => a - b,
                    0x9a => (a != 0 && b != 0) as i64,
                    0x9c => (a == b) as i64,
                    0x9f => (a < b) as i64,
                    _ => (a >= b) as i64,
                }));
            }
            0xa9 => {
                let v = pop(&mut stack)?;
                stack.push(h160(&v).to_vec());
            }
            _ => return Err(format!("unexpected opcode {op:#x}")),
        }
        peak = peak.max(stack.len() + alt.len());
    }
    if !conds.is_empty() {
        return Err("unbalanced if".to_string());
    }
    Ok(Done { stack, peak })
}

fn execute(s: Script) -> Result<Done, String> {
    execute_bytes(s.into_script_buf().as_bytes())
}

/// Run a script and return the final stack, bottom first, as field elements.
fn run(s: Script) -> Vec<u32> {
    let done = execute(s).unwrap_or_else(|e| panic!("script failed: {e}"));
    done.stack
        .iter()
        .map(|v| {
            let n = decode(v);
            assert!(n >= 0, "negative value left on the stack: {n}");
            n as u32
        })
        .collect()
}

/// Push values, the last on top.
fn push(xs: &[u32]) -> Script {
    let mut s = Script::new();
    for x in xs {
        s = s.num(*x as i64);
    }
    s
}

/// Move `n` items to the altstack, one by one.
#[allow(dead_code)]
fn to_alt(n: usize) -> Script {
    let mut s = Script::new();
    for _ in 0..n {
        s = s.op(Opcode::ToAltStack);
    }
    s
}

const ZERO: [u32; 4] = [0, 0, 0, 0];
const ONE: [u32; 4] = reference::EF_ONE;

fn rand_f(rng: &mut ChaCha20Rng) -> u32 {
    rng.random_range(0..P)
}

fn rand_ef(rng: &mut ChaCha20Rng) -> [u32; 4] {
    core::array::from_fn(|_| rand_f(rng))
}

fn rand_efs(n: usize, rng: &mut ChaCha20Rng) -> Vec<[u32; 4]> {
    (0..n).map(|_| rand_ef(rng)).collect()
}

fn rand_state(rng: &mut ChaCha20Rng) -> [u32; 16] {
    core::array::from_fn(|_| rand_f(rng))
}

/// Push extension elements, the last on top.
fn push_efs(xs: &[[u32; 4]]) -> Script {
    let mut s = Script::new();
    for x in xs {
        s = s.then_script(push(x));
    }
    s
}

/// Park extension elements in order, so the last pops first.
fn park_efs(xs: &[[u32; 4]]) -> Script {
    let mut s = Script::new();
    for x in xs {
        s = s.then_script(push(x)).then_script(to_alt(4));
    }
    s
}

/// Load the altstack so that `items` pops in the order given.
fn push_altstack(items: &[u32]) -> Script {
    let mut s = Script::new();
    for x in items.iter().rev() {
        s = s.num(*x as i64).op(Opcode::ToAltStack);
    }
    s
}

// ---------------------------------------------------------------------------
// The extension field
// ---------------------------------------------------------------------------

#[test]
fn script_matches_reference() {
    let mut rng = ChaCha20Rng::seed_from_u64(102);
    for _ in 0..8 {
        let a = rand_ef(&mut rng);
        let b = rand_ef(&mut rng);
        let operands = push_efs(&[a, b]);
        assert_eq!(run(operands.clone().then_script(ext4::add())), pf::ext4::add(a, b).to_vec(), "add");
        assert_eq!(run(operands.clone().then_script(ext4::sub())), pf::ext4::sub(a, b).to_vec(), "sub");
        assert_eq!(run(operands.then_script(ext4::mul())), pf::ext4::mul(a, b).to_vec(), "mul");
    }
}

/// The field laws, which catch a wrong non-residue that random vectors may not.
#[test]
fn extension_field_laws() {
    let one = [1u32, 0, 0, 0];
    let x = [5u32, 7, 11, 13];
    assert_eq!(pf::ext4::mul(x, one), x, "one is the identity");
    // X^4 = W: multiplying X by X^3 must give the constant W.
    let xx = [0u32, 1, 0, 0];
    let x3 = [0u32, 0, 0, 1];
    assert_eq!(pf::ext4::mul(xx, x3), [pf::ext4::W, 0, 0, 0], "X^4 = W");
    assert_eq!(run(push_efs(&[xx, x3]).then_script(ext4::mul())), vec![pf::ext4::W, 0, 0, 0]);
}

/// The extension is a commutative ring.
#[test]
fn extension_arithmetic_obeys_the_ring_laws() {
    let mut rng = ChaCha20Rng::seed_from_u64(103);
    for _ in 0..10 {
        let (a, b, c) = (rand_ef(&mut rng), rand_ef(&mut rng), rand_ef(&mut rng));
        let (add, sub, mul) = (pf::ext4::add, pf::ext4::sub, pf::ext4::mul);
        assert_eq!(mul(a, b), mul(b, a));
        assert_eq!(mul(mul(a, b), c), mul(a, mul(b, c)));
        assert_eq!(mul(a, add(b, c)), add(mul(a, b), mul(a, c)));
        assert_eq!(mul(a, sub(b, c)), sub(mul(a, b), mul(a, c)));
        assert_eq!(add(sub(a, b), b), a);
        assert_eq!(sub(a, a), ZERO);
        assert_eq!(mul(a, ZERO), ZERO);
    }
}

/// The extension is a field: no product of nonzero elements is zero.
#[test]
fn the_extension_has_no_zero_divisors() {
    let small: Vec<[u32; 4]> = (1..256u32).map(|b| core::array::from_fn(|i| (b >> (2 * i)) & 3)).collect();
    for a in small.iter() {
        for b in small.iter() {
            assert_ne!(pf::ext4::mul(*a, *b), ZERO, "{a:?} times {b:?}");
        }
    }
}

#[test]
fn report_ext4_sizes() {
    println!("\n  ext4 add   {:>8} bytes", ext4::add().len());
    println!("  ext4 sub   {:>8} bytes", ext4::sub().len());
    println!(
        "  ext4 mul   {:>8} bytes  ({:.1}x a base mul)",
        ext4::mul().len(),
        ext4::mul().len() as f64 / field::mul().len() as f64
    );
    println!("  base mul   {:>8} bytes\n", field::mul().len());
}

/// Copying, parking and constants leave what lies below untouched.
#[test]
fn extension_elements_move_in_order() {
    let (a, b) = ([1u32, 2, 3, 4], [5u32, 6, 7, 8]);
    assert_eq!(run(push_efs(&[a, b]).then_script(ext4::copy(1))), vec![1, 2, 3, 4, 5, 6, 7, 8, 1, 2, 3, 4]);
    assert_eq!(run(push_efs(&[a, b]).then_script(ext4::copy(0))), vec![1, 2, 3, 4, 5, 6, 7, 8, 5, 6, 7, 8]);
    assert_eq!(run(push_efs(&[a]).then_script(ext4::push_one())), vec![1, 2, 3, 4, 1, 0, 0, 0]);
    assert_eq!(run(push_efs(&[a]).then_script(ext4::push_zero())), vec![1, 2, 3, 4, 0, 0, 0, 0]);
    assert_eq!(run(push_efs(&[a, b]).then_script(ext4::drop_n(1))), vec![1, 2, 3, 4]);
    let there_and_back = push_efs(&[a, b]).then_script(ext4::to_altstack()).then_script(ext4::from_altstack());
    assert_eq!(run(there_and_back), vec![1, 2, 3, 4, 5, 6, 7, 8]);
}

// ---------------------------------------------------------------------------
// The sponge and the challenger
// ---------------------------------------------------------------------------

#[test]
fn absorb_matches_reference() {
    let mut rng = ChaCha20Rng::seed_from_u64(81);
    for k in 0..=sponge::RATE {
        for _ in 0..2 {
            let st = rand_state(&mut rng);
            let inputs: Vec<u32> = (0..k).map(|_| rand_f(&mut rng)).collect();
            let mut want = st;
            reference::duplexing(&mut want, &inputs);
            let got = run(push(&st).then_script(push(&inputs)).then_script(sponge::absorb(k)));
            assert_eq!(got, want.to_vec(), "k = {k}");
        }
    }
}

#[test]
fn squeeze_matches_reference() {
    let mut rng = ChaCha20Rng::seed_from_u64(82);
    let st = rand_state(&mut rng);
    let mut want = st;
    let rate = reference::squeeze(&mut want);
    assert_eq!(rate.to_vec(), want[..8].to_vec());
    assert_eq!(run(push(&st).then_script(sponge::squeeze())), want.to_vec());
}

/// The padding rule is the point. Absorbing `[a]` must not equal absorbing
/// `[a, 0]`, or a prover could pass off one transcript as another.
#[test]
fn short_absorb_does_not_collide_with_zero_padding() {
    let st = [7u32; 16];

    let mut one = st;
    reference::duplexing(&mut one, &[12345]);
    let mut two = st;
    reference::duplexing(&mut two, &[12345, 0]);
    assert_ne!(one, two, "length tag missing: padding collides");

    // And the script agrees with the reference on both.
    let got1 = run(push(&st).num(12345).then_script(sponge::absorb(1)));
    let got2 = run(push(&st).num(12345).num(0).then_script(sponge::absorb(2)));
    assert_eq!(got1, one.to_vec());
    assert_eq!(got2, two.to_vec());
    assert_ne!(got1, got2);
}

/// Absorbing other elements leaves the sponge in another state, in whichever place
/// they differ.
#[test]
fn every_absorbed_element_moves_the_state() {
    let st = [5u32; 16];
    let mut want = st;
    reference::duplexing(&mut want, &[1, 2, 3, 4, 5, 6, 7, 8]);
    for i in 0..8 {
        let mut x = [1u32, 2, 3, 4, 5, 6, 7, 8];
        x[i] = 100;
        let mut other = st;
        reference::duplexing(&mut other, &x);
        assert_ne!(other, want, "element {i}");
    }
}

/// Absorbing then squeezing must chain: the state carries between calls.
#[test]
fn absorb_then_squeeze_chains() {
    let st = [3u32; 16];
    let mut want = st;
    reference::duplexing(&mut want, &[11, 22, 33]);
    let _ = reference::squeeze(&mut want);
    let got = run(
        push(&st).then_script(push(&[11, 22, 33])).then_script(sponge::absorb(3)).then_script(sponge::squeeze()),
    );
    assert_eq!(got, want.to_vec());
}

/// A challenge drawn after a real absorb-and-squeeze, not from a made-up state.
#[test]
fn sample_and_sample_bits_match_reference() {
    let mut rng = ChaCha20Rng::seed_from_u64(91);
    for _ in 0..3 {
        let st = rand_state(&mut rng);
        let inputs: Vec<u32> = (0..4).map(|_| rand_f(&mut rng)).collect();

        let mut state = st;
        reference::duplexing(&mut state, &inputs);
        let rate = reference::squeeze(&mut state);

        let prelude = push(&st)
            .then_script(push(&inputs))
            .then_script(sponge::absorb(4))
            .then_script(sponge::squeeze());

        for j in [0usize, 3, 7] {
            let got = run(prelude.clone().then_script(challenger::sample(j)));
            assert_eq!(*got.last().unwrap(), rate[j], "sample({j})");
        }
        for (j, bits) in [(0usize, 8usize), (2, 16), (5, 21)] {
            let got = run(prelude.clone().then_script(challenger::sample_bits(j, bits)));
            assert_eq!(
                *got.last().unwrap(),
                reference::sample_bits(rate[j], bits),
                "sample_bits({j}, {bits})"
            );
        }
    }
}

/// A query index must land in the domain.
#[test]
fn sampled_indices_are_in_range() {
    let mut rng = ChaCha20Rng::seed_from_u64(92);
    let bits = 21usize;
    for _ in 0..4 {
        let st = rand_state(&mut rng);
        let got = run(push(&st).then_script(sponge::squeeze()).then_script(challenger::sample_bits(1, bits)));
        let idx = *got.last().unwrap();
        assert!((idx as u64) < (1u64 << bits), "index {idx} outside 2^{bits}");
    }
}

/// The extension challenge, which is what sets the security level.
#[test]
fn sample_ef_reads_four_consecutive_rate_slots() {
    let mut rng = ChaCha20Rng::seed_from_u64(93);
    for _ in 0..4 {
        let st = rand_state(&mut rng);
        let mut state = st;
        let rate = reference::squeeze(&mut state);

        for j in 0..challenger::EF_PER_SQUEEZE {
            let got = run(push(&st).then_script(sponge::squeeze()).then_script(challenger::sample_ef(j)));
            let coeffs = &got[got.len() - 4..];
            let want = &rate[4 * j..4 * j + 4];
            assert_eq!(coeffs, want, "sample_ef({j}) coefficient order");
        }
    }
}

/// Two distinct challenges per squeeze, and they must differ.
#[test]
fn a_squeeze_yields_two_distinct_ef_challenges() {
    let st: [u32; 16] = core::array::from_fn(|i| 1000 + i as u32);
    let a = run(push(&st).then_script(sponge::squeeze()).then_script(challenger::sample_ef(0)));
    let b = run(push(&st).then_script(sponge::squeeze()).then_script(challenger::sample_ef(1)));
    assert_eq!(challenger::EF_PER_SQUEEZE, 2);
    assert_ne!(a[a.len() - 4..], b[b.len() - 4..], "both challenges are the same element");
}

/// Items above the state do not move what is read.
#[test]
fn sampling_reaches_past_what_sits_above() {
    let st: [u32; 16] = core::array::from_fn(|i| 100 + i as u32);
    for j in 0..8usize {
        for under in 0..4usize {
            let above = vec![9u32; under];
            let got = run(push(&st).then_script(push(&above)).then_script(challenger::sample_at(j, under)));
            assert_eq!(*got.last().unwrap(), st[j], "slot {j} under {under}");
            assert_eq!(got.len(), 16 + under + 1);
        }
    }
}

#[test]
fn low_bits_are_a_remainder() {
    assert_eq!(reference::sample_bits(0b1011_0110, 3), 0b110);
    assert_eq!(reference::sample_bits(P - 1, 30), (P - 1) % (1 << 30));
    assert_eq!(reference::sample_bits(12345, 0), 0);
}

// ---------------------------------------------------------------------------
// Sumcheck
// ---------------------------------------------------------------------------

#[test]
fn lagrange_weights_match_plonky3_identities() {
    assert_eq!(reference::lagrange_weights_01inf(ZERO), [ONE, ZERO, ZERO]);
    assert_eq!(reference::lagrange_weights_01inf(ONE), [ZERO, ONE, ZERO]);
    // h(r) reproduces the sent evaluations at r = 0 and r = 1.
    let (c0, c1, cinf) = ([1u32, 2, 3, 4], [5u32, 6, 7, 8], [9u32, 10, 11, 12]);
    assert_eq!(reference::extrapolate_01inf(c0, c1, cinf, ZERO), c0);
    assert_eq!(reference::extrapolate_01inf(c0, c1, cinf, ONE), c1);
}

#[test]
fn round_matches_reference() {
    let mut rng = ChaCha20Rng::seed_from_u64(61);
    for _ in 0..10 {
        let (claim, c0, c_inf, r) =
            (rand_ef(&mut rng), rand_ef(&mut rng), rand_ef(&mut rng), rand_ef(&mut rng));
        let want = reference::sumcheck_round(claim, c0, c_inf, r);
        let got = run(push_efs(&[claim, c0, c_inf, r]).then_script(sumcheck::sumcheck_round()));
        assert_eq!(got, want.to_vec());
    }
}

/// The sumcheck constraint itself: at `r = 0` the new claim is `h(0)`, and at
/// `r = 1` it is `claim - h(0)`. A round that got the weights backwards passes
/// random tests far less often than it passes these.
#[test]
fn round_respects_the_sumcheck_constraint() {
    let claim = [999_983u32, 17, 29, 41];
    let c0 = [12_345u32, 3, 5, 7];
    let c_inf = [777_777u32, 11, 13, 19];
    let head = push_efs(&[claim, c0, c_inf]);
    assert_eq!(
        run(head.clone().then_script(push(&ZERO)).then_script(sumcheck::sumcheck_round())),
        c0.to_vec(),
        "r = 0 must give h(0)"
    );
    assert_eq!(
        run(head.then_script(push(&ONE)).then_script(sumcheck::sumcheck_round())),
        pf::ext4::sub(claim, c0).to_vec(),
        "r = 1 must give claim - h(0)"
    );
}

#[test]
fn rounds_compose() {
    let mut rng = ChaCha20Rng::seed_from_u64(62);
    let n = 3usize;
    let claim = rand_ef(&mut rng);
    let tri: Vec<([u32; 4], [u32; 4], [u32; 4])> =
        (0..n).map(|_| (rand_ef(&mut rng), rand_ef(&mut rng), rand_ef(&mut rng))).collect();

    let mut want = claim;
    for &(c0, c_inf, r) in tri.iter() {
        want = reference::sumcheck_round(want, c0, c_inf, r);
    }

    // Round one pops first, so it is pushed to the altstack last.
    let mut s = push(&claim);
    for &(c0, c_inf, r) in tri.iter().rev() {
        for x in [r, c_inf, c0] {
            s = s.then_script(push(&x)).then_script(ext4::to_altstack());
        }
    }
    assert_eq!(run(s.then_script(sumcheck::sumcheck_rounds(n))), want.to_vec());
}

/// Where WHIR's advantage actually comes from.
#[test]
fn round_vs_merkle() {
    let round = sumcheck::sumcheck_round().len();
    let level = merkle::merkle_step().len();
    println!("\n  WHIR sumcheck round      {:>10} bytes", round);
    println!("  one Merkle level         {:>10} bytes", level);
    println!("  ratio                    {:>10.0}x", level as f64 / round as f64);
    println!("\n  No inversion in a round, so it is cheaper than a STIR fold.");
    println!("  But both are noise next to the path: WHIR wins on Bitcoin by");
    println!("  needing fewer queries, not by cheaper arithmetic.\n");
}

/// Multilinear evaluation, which WHIR uses for the final check and for each
/// query answer. The fold order is: last variable first.
#[test]
fn multilinear_matches_reference() {
    let mut rng = ChaCha20Rng::seed_from_u64(71);
    for n in 1..=3usize {
        let evals: Vec<[u32; 4]> = rand_efs(1 << n, &mut rng);
        let point: Vec<[u32; 4]> = rand_efs(n, &mut rng);
        let want = reference::eval_multilinear(&evals, &point);
        // The last variable folds first, so it is pushed last.
        let got = run(
            push_efs(&evals).then_script(park_efs(&point)).then_script(multilinear::eval_multilinear(n)),
        );
        assert_eq!(got, want.to_vec(), "n = {n}");
    }
}

/// A multilinear polynomial agrees with its own evaluation table on the cube.
/// This catches a reversed variable order, which random points hide.
#[test]
fn multilinear_agrees_on_the_boolean_cube() {
    let n = 3usize;
    let evals: Vec<[u32; 4]> = (0..8u32).map(|i| [1000 + i * 7, i, 2 * i, 3 * i]).collect();
    for idx in 0..8usize {
        // Big-endian: bit i of idx is variable i.
        let point: Vec<[u32; 4]> =
            (0..n).map(|i| if (idx >> (n - 1 - i)) & 1 == 1 { ONE } else { ZERO }).collect();
        assert_eq!(reference::eval_multilinear(&evals, &point), evals[idx], "ref at {idx}");
        let got = run(
            push_efs(&evals).then_script(park_efs(&point)).then_script(multilinear::eval_multilinear(n)),
        );
        assert_eq!(got, evals[idx].to_vec(), "script at {idx}");
    }
}

/// A polynomial in no variables is its one evaluation.
#[test]
fn a_constant_polynomial_is_its_evaluation() {
    let e = [[4u32, 3, 2, 1]];
    assert_eq!(reference::eval_multilinear(&e, &[]), e[0]);
    assert_eq!(run(push_efs(&e).then_script(multilinear::eval_multilinear(0))), e[0].to_vec());
}

/// What the WHIR-specific parts cost, against the hash they sit next to.
#[test]
fn whir_component_sizes() {
    let round = sumcheck::sumcheck_round().len();
    let level = merkle::merkle_step().len();
    println!("\n  WHIR sumcheck round          {:>10} bytes", round);
    for n in [1usize, 2, 3, 4] {
        println!("  multilinear eval, {n} vars     {:>10} bytes", multilinear::eval_multilinear(n).len());
    }
    println!("  one Merkle level             {:>10} bytes", level);
    println!("  sample_bits (21-bit index)   {:>10} bytes", challenger::sample_bits(0, 21).len());
    println!("  sponge absorb (rate 8)       {:>10} bytes", sponge::absorb(8).len());
    println!("  sponge squeeze               {:>10} bytes", sponge::squeeze().len());
    println!("\n  The sponge is a permutation, so it costs like one.\n");
}

/// The costs a folding schedule is argued from.
#[test]
fn measured_costs() {
    assert_eq!(ext4::mul().len(), 23_656);
    assert_eq!(sumcheck::sumcheck_round().len(), 95_100);
    assert_eq!(multilinear::eval_multilinear(5).len(), 740_010);
    let one = constraint::closing_check(1, 4).len();
    let ten = constraint::closing_check(10, 4).len();
    assert_eq!((ten - one) / 9, 381_988);
}

/// The script derives its own challenge, and lands where the reference does.
///
/// `r` is squeezed from the sponge after the round's evaluations have been
/// absorbed, and the reference squeezes it the same way, so agreement means
/// agreement about the *transcript*.
#[test]
fn fs_round_derives_its_challenge_and_matches_the_reference() {
    let mut rng = ChaCha20Rng::seed_from_u64(11);
    let round = sumcheck::sumcheck_round_fs();
    for _ in 0..8 {
        let state0 = rand_state(&mut rng);
        let claim = rand_ef(&mut rng);
        let c0 = rand_ef(&mut rng);
        let c_inf = rand_ef(&mut rng);

        let mut state = state0;
        let (want_claim, r) = reference::sumcheck_round_fs(&mut state, claim, c0, c_inf);
        // The challenge must be a real function of what was absorbed, not a
        // constant the test could have chosen.
        assert_ne!(r, [0, 0, 0, 0], "challenge is degenerate");
        assert_eq!(want_claim, reference::sumcheck_round(claim, c0, c_inf, r));

        let got = run(
            push(&claim).then_script(push(&state0)).then_script(push_efs(&[c0, c_inf])).with(&round),
        );

        // Stack is claim'(4) then state'(16), bottom to top.
        assert_eq!(got.len(), 4 + 16, "unexpected stack shape");
        assert_eq!(&got[0..4], &want_claim, "claim disagrees with the reference");
        assert_eq!(&got[4..20], &state, "sponge state disagrees with the reference");
    }
}

/// Perturbing an evaluation moves the challenge, and so moves the claim.
#[test]
fn fs_round_challenge_responds_to_the_evaluations() {
    let mut rng = ChaCha20Rng::seed_from_u64(12);
    let state0 = rand_state(&mut rng);
    let claim = rand_ef(&mut rng);
    let c0 = rand_ef(&mut rng);
    let c_inf = rand_ef(&mut rng);

    let mut a = state0;
    let (claim_a, r_a) = reference::sumcheck_round_fs(&mut a, claim, c0, c_inf);

    // Flip one coefficient of c0 and nothing else.
    let mut c0_bad = c0;
    c0_bad[0] = pf::add(c0_bad[0], 1);
    let mut b = state0;
    let (claim_b, r_b) = reference::sumcheck_round_fs(&mut b, claim, c0_bad, c_inf);

    assert_ne!(r_a, r_b, "challenge did not move with the transcript");
    assert_ne!(claim_a, claim_b, "claim did not move with the challenge");

    // And the script agrees that the tampered transcript lands somewhere else.
    let got = run(
        push(&claim)
            .then_script(push(&state0))
            .then_script(push_efs(&[c0_bad, c_inf]))
            .then_script(sumcheck::sumcheck_round_fs()),
    );
    assert_eq!(&got[0..4], &claim_b);
    assert_ne!(&got[0..4], &claim_a);
}

/// Rounds compose: the invariant out of one is the invariant into the next.
#[test]
fn fs_rounds_chain() {
    let mut rng = ChaCha20Rng::seed_from_u64(13);
    const N: usize = 3;
    let state0 = rand_state(&mut rng);
    let claim0 = rand_ef(&mut rng);
    let evals: Vec<([u32; 4], [u32; 4])> = (0..N).map(|_| (rand_ef(&mut rng), rand_ef(&mut rng))).collect();

    let mut state = state0;
    let mut claim = claim0;
    let mut challenges: Vec<u32> = Vec::new();
    for &(c0, c_inf) in evals.iter() {
        let (next, r) = reference::sumcheck_round_fs(&mut state, claim, c0, c_inf);
        claim = next;
        challenges.extend_from_slice(&r);
    }

    // Altstack is LIFO, so push the rounds in reverse and, within a round,
    // c_inf before c0.
    let mut head = Script::new();
    for &(c0, c_inf) in evals.iter().rev() {
        head = head.then_script(park_efs(&[c_inf, c0]));
    }
    let head = head.then_script(push(&claim0)).then_script(push(&state0));

    let got = run(head.clone().then_script(sumcheck::sumcheck_rounds_fs(N)));
    assert_eq!(got.len(), 4 + 16);
    assert_eq!(&got[0..4], &claim, "chained claim disagrees with the reference");
    assert_eq!(&got[4..20], &state, "chained state disagrees with the reference");

    // The keeping form leaves the challenges underneath, the first deepest.
    let got = run(head.then_script(sumcheck::sumcheck_rounds_fs_keep(N)));
    assert_eq!(got.len(), 4 * N + 4 + 16);
    assert_eq!(&got[..4 * N], challenges.as_slice(), "a challenge was not kept");
    assert_eq!(&got[4 * N..4 * N + 4], &claim);
    assert_eq!(&got[4 * N + 4..], &state);
}

// ---------------------------------------------------------------------------
// Batching answers into the next target
// ---------------------------------------------------------------------------

fn combine(base: [u32; 4], gamma: [u32; 4], answers: &[[u32; 4]]) -> Vec<u32> {
    run(
        park_efs(answers)
            .then_script(push_efs(&[base, gamma]))
            .then_script(constraint::combine_answers(answers.len() - 1)),
    )
}

#[test]
fn combine_matches_the_reference() {
    let mut rng = ChaCha20Rng::seed_from_u64(41);
    // t = 0 is the out-of-domain answer alone; the rest add shift answers.
    for t in 0..6usize {
        let base = rand_ef(&mut rng);
        let gamma = rand_ef(&mut rng);
        let answers: Vec<[u32; 4]> = rand_efs(t + 1, &mut rng);
        let want = reference::combine_answers(base, gamma, &answers);
        let got = combine(base, gamma, &answers);
        assert_eq!(got.len(), 4, "t = {t}: expected a single EF element");
        assert_eq!(got, want.to_vec(), "t = {t}: Horner disagrees with the sum");
    }
}

/// The exponents are right, not merely consistent.
///
/// Both implementations could share an off-by-one in the power of `gamma` and
/// still agree. Pinning `t = 1` against the expression written out by hand,
/// `base + gamma*y0 + gamma^2*y1`, catches that.
#[test]
fn combine_uses_the_stated_powers() {
    let mut rng = ChaCha20Rng::seed_from_u64(42);
    let base = rand_ef(&mut rng);
    let gamma = rand_ef(&mut rng);
    let y0 = rand_ef(&mut rng);
    let y1 = rand_ef(&mut rng);

    let g2 = pf::ext4::mul(gamma, gamma);
    let by_hand =
        pf::ext4::add(base, pf::ext4::add(pf::ext4::mul(gamma, y0), pf::ext4::mul(g2, y1)));

    assert_eq!(combine(base, gamma, &[y0, y1]), by_hand.to_vec(), "gamma is raised to the wrong power somewhere");
}

/// Every answer reaches the target.
#[test]
fn every_answer_reaches_the_target() {
    let mut rng = ChaCha20Rng::seed_from_u64(43);
    let t = 4usize;
    let base = rand_ef(&mut rng);
    let gamma = rand_ef(&mut rng);
    let answers: Vec<[u32; 4]> = rand_efs(t + 1, &mut rng);
    let want = combine(base, gamma, &answers);

    for i in 0..=t {
        for c in 0..4 {
            let mut bad = answers.clone();
            bad[i][c] = pf::add(bad[i][c], 1);
            assert_ne!(combine(base, gamma, &bad), want, "answer {i} coefficient {c} did not affect sigma'");
        }
    }
}

/// Changing one answer moves the target by its power of the challenge times the
/// change.
#[test]
fn an_answer_moves_the_target_by_its_power() {
    let mut rng = ChaCha20Rng::seed_from_u64(57);
    let (base, gamma, z) = (rand_ef(&mut rng), rand_ef(&mut rng), rand_ef(&mut rng));
    let answers = rand_efs(4, &mut rng);
    let before = reference::combine_answers(base, gamma, &answers);
    let mut power = ONE;
    for i in 0..answers.len() {
        power = pf::ext4::mul(power, gamma);
        let mut changed = answers.clone();
        changed[i] = z;
        let change = pf::ext4::mul(power, pf::ext4::sub(z, answers[i]));
        assert_eq!(
            reference::combine_answers(base, gamma, &changed),
            pf::ext4::add(before, change),
            "answer {i}"
        );
    }
}

/// A different batching challenge gives a different target.
#[test]
fn the_batching_challenge_matters() {
    let mut rng = ChaCha20Rng::seed_from_u64(44);
    let t = 3usize;
    let base = rand_ef(&mut rng);
    let answers: Vec<[u32; 4]> = rand_efs(t + 1, &mut rng);

    let g = rand_ef(&mut rng);
    let mut g2 = g;
    g2[0] = pf::add(g2[0], 1);
    assert_ne!(combine(base, g, &answers), combine(base, g2, &answers), "sigma' is independent of gamma");
}

// ---------------------------------------------------------------------------
// The closing check
// ---------------------------------------------------------------------------

/// Load one point: the weight first, then coordinates so the last variable pops
/// first.
fn point_to_altstack(w: [u32; 4], z: &[[u32; 4]]) -> Script {
    park_efs(&[w]).then_script(park_efs(z))
}

/// Load points so the first pops first.
fn points_to_altstack(pts: &[([u32; 4], Vec<[u32; 4]>)]) -> Script {
    let mut s = Script::new();
    for (w, z) in pts.iter().rev() {
        s = s.then_script(point_to_altstack(*w, z));
    }
    s
}

fn rand_points(n_points: usize, n_vars: usize, rng: &mut ChaCha20Rng) -> Vec<([u32; 4], Vec<[u32; 4]>)> {
    (0..n_points).map(|_| (rand_ef(rng), rand_efs(n_vars, rng))).collect()
}

fn closing_script(
    sigma: [u32; 4],
    evals: &[[u32; 4]],
    pts: &[([u32; 4], Vec<[u32; 4]>)],
    check: &Script,
) -> Script {
    points_to_altstack(pts).then_script(push(&sigma)).then_script(push_efs(evals)).with(check).num(1)
}

#[test]
fn closing_check_accepts_the_accumulated_sum() {
    let mut rng = ChaCha20Rng::seed_from_u64(45);
    for (n_vars, n_points) in [(1usize, 1usize), (2, 3), (3, 5), (4, 2)] {
        let evals: Vec<[u32; 4]> = rand_efs(1 << n_vars, &mut rng);
        let pts = rand_points(n_points, n_vars, &mut rng);
        let sigma = reference::closing_sum(&evals, &pts);
        let check = constraint::closing_check(n_points, n_vars);
        let got = run(closing_script(sigma, &evals, &pts, &check));
        assert_eq!(got, vec![1], "{n_vars} vars, {n_points} points");
    }
}

/// Wrong target, wrong weight, wrong point, wrong polynomial: all rejected.
#[test]
fn closing_check_rejects_every_perturbation() {
    let mut rng = ChaCha20Rng::seed_from_u64(46);
    let (n_vars, n_points) = (3usize, 4usize);
    let evals: Vec<[u32; 4]> = rand_efs(1 << n_vars, &mut rng);
    let pts = rand_points(n_points, n_vars, &mut rng);
    let sigma = reference::closing_sum(&evals, &pts);
    let check = constraint::closing_check(n_points, n_vars);

    let rejects = |s: Script, why: &str| {
        assert!(execute(s).is_err(), "{why}: accepted");
    };

    for c in 0..4 {
        let mut bad = sigma;
        bad[c] = pf::add(bad[c], 1);
        rejects(closing_script(bad, &evals, &pts, &check), &format!("sigma coefficient {c}"));
    }
    for j in 0..n_points {
        let mut bad = pts.clone();
        bad[j].0[0] = pf::add(bad[j].0[0], 1);
        rejects(closing_script(sigma, &evals, &bad, &check), &format!("weight {j}"));

        let mut bad = pts.clone();
        bad[j].1[0][0] = pf::add(bad[j].1[0][0], 1);
        rejects(closing_script(sigma, &evals, &bad, &check), &format!("point {j}"));
    }
    for i in 0..evals.len() {
        let mut bad = evals.clone();
        bad[i][0] = pf::add(bad[i][0], 1);
        rejects(closing_script(sigma, &bad, &pts, &check), &format!("final polynomial coeff {i}"));
    }
}

/// What the closing check costs, so the folding schedule can be argued about.
#[test]
fn report_closing_check_size() {
    println!("\n  closing check: n_points x eval_multilinear(n_vars)");
    println!("  ------------------------------------------------");
    for n_vars in [2usize, 3, 4, 5] {
        let one = constraint::closing_check(1, n_vars).len();
        let ten = constraint::closing_check(10, n_vars).len();
        println!(
            "  n_vars = {n_vars}:  1 point {one:>10} B   10 points {ten:>11} B   per point {:>10} B",
            (ten - one) / 9
        );
    }
    println!();
}

// ---------------------------------------------------------------------------
// The equality polynomial, and the accumulated constraint polynomial
// ---------------------------------------------------------------------------

#[test]
fn eq_eval_matches_the_reference() {
    let mut rng = ChaCha20Rng::seed_from_u64(47);
    for n in 1..6usize {
        let z: Vec<[u32; 4]> = rand_efs(n, &mut rng);
        let r: Vec<[u32; 4]> = rand_efs(n, &mut rng);
        let want = reference::eq_eval(&z, &r);

        let got = run(park_efs(&z).then_script(push_efs(&r)).then_script(constraint::eq_eval(n)));
        // The challenge is preserved beneath the result.
        assert_eq!(got.len(), 4 * (n + 1), "n = {n}: eq_eval disturbed the challenge");
        assert_eq!(&got[4 * n..], want.as_slice(), "n = {n}: eq disagrees with the product");
        assert_eq!(&got[..4 * n], r.concat().as_slice(), "n = {n}: the challenge moved");
    }
}

/// On the boolean cube `eq` is one where the points agree and zero elsewhere.
#[test]
fn eq_is_equality_on_the_boolean_cube() {
    let corner = |b: usize| -> Vec<[u32; 4]> {
        (0..3).map(|i| if (b >> i) & 1 == 1 { ONE } else { ZERO }).collect()
    };
    for a in 0..8usize {
        for b in 0..8usize {
            let want = if a == b { ONE } else { ZERO };
            assert_eq!(reference::eq_eval(&corner(a), &corner(b)), want, "{a} against {b}");
        }
    }
}

/// `eq` factorises across a split, which is why threading needs no per-round work.
#[test]
fn eq_factorises_across_a_split() {
    let mut rng = ChaCha20Rng::seed_from_u64(49);
    for (k, m) in [(1usize, 2usize), (2, 3), (3, 1)] {
        let z: Vec<[u32; 4]> = rand_efs(k + m, &mut rng);
        let r: Vec<[u32; 4]> = rand_efs(k + m, &mut rng);
        assert_eq!(
            reference::eq_eval(&z, &r),
            pf::ext4::mul(reference::eq_eval(&z[..k], &r[..k]), reference::eq_eval(&z[k..], &r[k..])),
            "eq does not factorise at {k} | {m}"
        );
    }
}

/// Summing evaluations against `eq` over the cube is evaluation.
#[test]
fn summing_against_eq_evaluates() {
    let mut rng = ChaCha20Rng::seed_from_u64(54);
    let evals = rand_efs(8, &mut rng);
    let z = rand_efs(3, &mut rng);
    let mut sum = ZERO;
    for b in 0..8usize {
        let corner: Vec<[u32; 4]> = (0..3).map(|i| if (b >> (2 - i)) & 1 == 1 { ONE } else { ZERO }).collect();
        sum = pf::ext4::add(sum, pf::ext4::mul(evals[b], reference::eq_eval(&z, &corner)));
    }
    assert_eq!(sum, reference::eval_multilinear(&evals, &z));
}

/// Load every group so the script pops weight then coordinates, group by group.
fn groups_to_altstack(groups: &[Vec<([u32; 4], Vec<[u32; 4]>)>]) -> Script {
    let mut flat: Vec<([u32; 4], Vec<[u32; 4]>)> = Vec::new();
    for g in groups {
        flat.extend(g.iter().cloned());
    }
    points_to_altstack(&flat)
}

fn rand_groups(shape: &[(usize, usize)], rng: &mut ChaCha20Rng) -> Vec<Vec<([u32; 4], Vec<[u32; 4]>)>> {
    shape.iter().map(|&(n_points, n_vars)| rand_points(n_points, n_vars, rng)).collect()
}

/// A point of every arity reads its own suffix of the same randomness.
#[test]
fn constraint_eval_matches_the_reference() {
    let mut rng = ChaCha20Rng::seed_from_u64(50);
    let total = 5usize;
    let r: Vec<[u32; 4]> = rand_efs(total, &mut rng);

    // One group per round, arities shrinking the way the rounds do, and one out
    // of order, because nothing requires them to be sorted.
    let shape = [(2usize, 5usize), (3, 3), (1, 4), (2, 1)];
    let groups = rand_groups(&shape, &mut rng);
    let want = reference::constraint_eval(&r, &groups);

    let got = run(
        groups_to_altstack(&groups)
            .then_script(push_efs(&r))
            .then_script(constraint::constraint_eval(total, &shape)),
    );
    assert_eq!(got.len(), 4, "constraint_eval left the randomness behind");
    assert_eq!(got, want.to_vec(), "the accumulated weight disagrees");
}

/// One group sharing an arity leaves the challenge in place.
#[test]
fn weights_at_keeps_the_challenge() {
    let mut rng = ChaCha20Rng::seed_from_u64(55);
    let r = rand_efs(3, &mut rng);
    let groups = rand_groups(&[(2, 3)], &mut rng);
    let want = reference::constraint_eval(&r, &groups);
    let got = run(groups_to_altstack(&groups).then_script(push_efs(&r)).then_script(constraint::weights_at(2, 3)));
    assert_eq!(&got[..12], r.concat().as_slice(), "the challenge moved");
    assert_eq!(&got[12..], want.as_slice());
}

/// Every carried point and weight reaches the accumulated weight.
#[test]
fn every_constraint_reaches_the_weight() {
    let mut rng = ChaCha20Rng::seed_from_u64(51);
    let total = 4usize;
    let r: Vec<[u32; 4]> = rand_efs(total, &mut rng);
    let shape = [(2usize, 4usize), (2, 2)];
    let groups = rand_groups(&shape, &mut rng);

    let script = constraint::constraint_eval(total, &shape);
    let eval = |gs: &[Vec<([u32; 4], Vec<[u32; 4]>)>]| {
        run(groups_to_altstack(gs).then_script(push_efs(&r)).with(&script))
    };
    let want = eval(&groups);

    for gi in 0..groups.len() {
        for pi in 0..groups[gi].len() {
            let mut bad = groups.to_vec();
            bad[gi][pi].0[0] = pf::add(bad[gi][pi].0[0], 1);
            assert_ne!(eval(&bad), want, "group {gi} point {pi}: the weight was ignored");

            for c in 0..groups[gi][pi].1.len() {
                let mut bad = groups.to_vec();
                bad[gi][pi].1[c][0] = pf::add(bad[gi][pi].1[c][0], 1);
                assert_ne!(eval(&bad), want, "group {gi} point {pi} coord {c}: ignored");
            }
        }
    }
}

/// The randomness a constraint reads is the *suffix*, not the prefix.
#[test]
fn a_short_constraint_reads_the_end_of_the_randomness() {
    let mut rng = ChaCha20Rng::seed_from_u64(52);
    let total = 4usize;
    let r: Vec<[u32; 4]> = rand_efs(total, &mut rng);
    // One constraint over two variables: it must see r[2] and r[3] only.
    let shape = [(1usize, 2usize)];
    let groups = vec![vec![(rand_ef(&mut rng), vec![rand_ef(&mut rng), rand_ef(&mut rng)])]];

    let script = constraint::constraint_eval(total, &shape);
    let eval = |r: &[[u32; 4]]| run(groups_to_altstack(&groups).then_script(push_efs(r)).with(&script));
    let want = eval(&r);

    for i in 0..total {
        let mut bad = r.clone();
        bad[i][0] = pf::add(bad[i][0], 1);
        if i < total - 2 {
            assert_eq!(eval(&bad), want, "r[{i}] is outside the suffix but changed the result");
        } else {
            assert_ne!(eval(&bad), want, "r[{i}] is in the suffix but was ignored");
        }
    }
    // And the reference agrees about which coordinates matter.
    assert_eq!(reference::constraint_eval(&r, &groups).to_vec(), want);
}

/// What threading costs, so it can be compared with the queries it constrains.
#[test]
fn report_constraint_eval_size() {
    println!("\n  eq_eval(n): the accumulated weight, per constraint");
    println!("  ------------------------------------------------");
    for n in [1usize, 2, 4, 8, 16] {
        println!("  n_vars = {n:>2}:  eq_eval {:>9} B", constraint::eq_eval(n).len());
    }
    let one = constraint::constraint_eval(8, &[(1, 8)]).len();
    let ten = constraint::constraint_eval(8, &[(10, 8)]).len();
    println!(
        "  constraint_eval, 8 vars: 1 point {one} B, 10 points {ten} B, per point {} B",
        (ten - one) / 9
    );
    println!();
}

/// Isolate `constraint_eval_at` with values above the randomness.
#[test]
fn constraint_eval_at_steps_over_what_sits_above() {
    let mut rng = ChaCha20Rng::seed_from_u64(60);
    let total = 4usize;
    let r: Vec<[u32; 4]> = rand_efs(total, &mut rng);
    let shape = [(1usize, 4usize)];
    let groups = vec![vec![(rand_ef(&mut rng), rand_efs(4, &mut rng))]];
    let want = reference::constraint_eval(&r, &groups);

    for under in 0..3usize {
        let above: Vec<[u32; 4]> = rand_efs(under, &mut rng);
        let got = run(
            groups_to_altstack(&groups)
                .then_script(push_efs(&r))
                .then_script(push_efs(&above))
                .then_script(constraint::constraint_eval_at(total, &shape, under)),
        );
        assert_eq!(got.len(), 4 * (under + 1), "under = {under}: wrong stack shape");
        assert_eq!(
            &got[..4 * under],
            above.concat().as_slice(),
            "under = {under}: the values above the randomness were disturbed"
        );
        assert_eq!(&got[4 * under..], want.as_slice(), "under = {under}: wrong weight");
    }
}

// ---------------------------------------------------------------------------
// Deriving the constraints instead of being handed them
// ---------------------------------------------------------------------------

/// Groups with the first on top: the challenge, then the scalars with the last
/// popped first.
fn batched_groups_to_altstack(groups: &[([u32; 4], Vec<[u32; 4]>, usize)]) -> Script {
    let mut s = Script::new();
    for (chi, scalars, _) in groups.iter().rev() {
        s = s.then_script(park_efs(scalars)).then_script(park_efs(&[*chi]));
    }
    s
}

fn rand_batched(
    shape: &[(usize, usize)],
    rng: &mut ChaCha20Rng,
) -> Vec<([u32; 4], Vec<[u32; 4]>, usize)> {
    shape.iter().map(|&(n, arity)| (rand_ef(rng), rand_efs(n, rng), arity)).collect()
}

#[test]
fn batched_matches_the_reference() {
    let mut rng = ChaCha20Rng::seed_from_u64(61);
    let total = 6usize;
    let r: Vec<[u32; 4]> = rand_efs(total, &mut rng);

    // Rounds shrinking the way a schedule does, and one out of order.
    let shape = [(3usize, 6usize), (2, 4), (4, 5), (1, 1)];
    let groups = rand_batched(&shape, &mut rng);
    let want = reference::constraint_eval_batched(&r, &groups);

    let got = run(
        batched_groups_to_altstack(&groups)
            .then_script(push_efs(&r))
            .then_script(constraint::constraint_eval_batched(total, &shape)),
    );
    assert_eq!(got.len(), 4, "the randomness was not consumed");
    assert_eq!(got, want.to_vec(), "the derived weight disagrees with the reference");
}

/// The powers start at one, unlike those of the `sigma'` update, which start at
/// the challenge itself.
#[test]
fn batched_weights_start_at_one() {
    let mut rng = ChaCha20Rng::seed_from_u64(62);
    let arity = 3usize;
    let r: Vec<[u32; 4]> = rand_efs(arity, &mut rng);
    let chi = rand_ef(&mut rng);
    let u0 = rand_ef(&mut rng);
    let u1 = rand_ef(&mut rng);

    let e0 = reference::eq_eval(&reference::expand_univariate(u0, arity), &r);
    let e1 = reference::eq_eval(&reference::expand_univariate(u1, arity), &r);
    // e0 * chi^0 + e1 * chi^1, written out.
    let by_hand = pf::ext4::add(e0, pf::ext4::mul(chi, e1));

    let got = run(
        batched_groups_to_altstack(&[(chi, vec![u0, u1], arity)])
            .then_script(push_efs(&r))
            .then_script(constraint::constraint_eval_batched(arity, &[(2, arity)])),
    );
    assert_eq!(got, by_hand.to_vec(), "the first weight is not one");
}

/// Every scalar and every challenge reaches the accumulated weight.
#[test]
fn every_derived_constraint_reaches_the_weight() {
    let mut rng = ChaCha20Rng::seed_from_u64(63);
    let total = 4usize;
    let r: Vec<[u32; 4]> = rand_efs(total, &mut rng);
    let shape = [(2usize, 4usize), (3, 2)];
    let groups = rand_batched(&shape, &mut rng);

    let script = constraint::constraint_eval_batched(total, &shape);
    let eval = |gs: &[([u32; 4], Vec<[u32; 4]>, usize)]| {
        run(batched_groups_to_altstack(gs).then_script(push_efs(&r)).with(&script))
    };
    let want = eval(&groups);

    for gi in 0..groups.len() {
        let mut bad = groups.to_vec();
        bad[gi].0[0] = pf::add(bad[gi].0[0], 1);
        // A single-constraint group is weighted by chi^0 only, so its challenge
        // genuinely does not matter.
        if groups[gi].1.len() > 1 {
            assert_ne!(eval(&bad), want, "group {gi}: the batching challenge was ignored");
        }
        for j in 0..groups[gi].1.len() {
            let mut bad = groups.to_vec();
            bad[gi].1[j][0] = pf::add(bad[gi].1[j][0], 1);
            assert_ne!(eval(&bad), want, "group {gi} scalar {j}: ignored");
        }
    }
}

/// What deriving the constraints costs, against being handed them.
#[test]
fn report_batched_size() {
    println!("\n  constraint_eval, supplied pairs vs derived from scalars");
    println!("  ------------------------------------------------------");
    for arity in [4usize, 8, 16] {
        let supplied = constraint::constraint_eval(arity, &[(10, arity)]).len();
        let derived = constraint::constraint_eval_batched(arity, &[(10, arity)]).len();
        println!(
            "  arity {arity:>2}, 10 constraints:  supplied {supplied:>10} B   derived {derived:>10} B   \
             ({:+.1}%)",
            100.0 * (derived as f64 - supplied as f64) / supplied as f64
        );
    }
    println!();
}

/// The expansion reaches the altstack in the order `eq_eval` pops coordinates.
#[test]
fn expansion_feeds_the_equality_polynomial() {
    let mut rng = ChaCha20Rng::seed_from_u64(56);
    for m in 1..5usize {
        let u = rand_ef(&mut rng);
        let point = reference::expand_univariate(u, m);
        assert_eq!(point.len(), m);
        assert_eq!(point[m - 1], u, "the last coordinate is the scalar itself");
        for i in 0..m - 1 {
            assert_eq!(point[i], pf::ext4::mul(point[i + 1], point[i + 1]), "coordinate {i} is a square");
        }
        let r = rand_efs(m, &mut rng);
        let got = run(
            push(&u)
                .then_script(constraint::expand_univariate(m))
                .then_script(push_efs(&r))
                .then_script(constraint::eq_eval(m)),
        );
        assert_eq!(&got[4 * m..], reference::eq_eval(&point, &r).as_slice(), "m = {m}");
    }
}

/// At an expanded point a multilinear monomial is a power of the scalar.
#[test]
fn monomials_at_an_expansion_are_powers() {
    let u = [3u32, 1, 4, 1];
    let m = 4usize;
    let point = reference::expand_univariate(u, m);
    let mut power = ONE;
    for b in 0..1usize << m {
        let mut monomial = ONE;
        for i in 0..m {
            if (b >> (m - 1 - i)) & 1 == 1 {
                monomial = pf::ext4::mul(monomial, point[i]);
            }
        }
        assert_eq!(monomial, power, "exponent {b}");
        power = pf::ext4::mul(power, u);
    }
}

// ---------------------------------------------------------------------------
// The closing identity
// ---------------------------------------------------------------------------

/// `claimed == weight * f(r)` over the quartic extension, and nothing else.
#[test]
fn final_check_accepts_only_the_right_value() {
    let mut rng = ChaCha20Rng::seed_from_u64(21);
    let check = protocol::final_check();
    let spend = |claimed: [u32; 4], weight: [u32; 4], f_at_r: [u32; 4]| {
        execute(push_efs(&[claimed, weight, f_at_r]).with(&check).num(1))
    };
    for _ in 0..8 {
        let weight = rand_ef(&mut rng);
        let f_at_r = rand_ef(&mut rng);
        let claimed = pf::ext4::mul(weight, f_at_r);

        assert!(spend(claimed, weight, f_at_r).is_ok());

        // Every coefficient is load-bearing: perturbing any one must abort.
        for i in 0..4 {
            let mut bad = claimed;
            bad[i] = pf::add(bad[i], 1);
            assert!(spend(bad, weight, f_at_r).is_err(), "claimed coefficient {i} was perturbed: the script accepted");
        }

        // And the weight is not decorative.
        let mut bad_w = weight;
        bad_w[0] = pf::add(bad_w[0], 1);
        assert!(spend(claimed, bad_w, f_at_r).is_err(), "the batching weight was perturbed: the script accepted");
    }
}

// ---------------------------------------------------------------------------
// The transcript spine
// ---------------------------------------------------------------------------

/// A small instance, chosen so the whole transcript fits in a test.
fn small() -> Config {
    Config {
        initial_folding_factor: 2,
        rounds: vec![Round { folding_factor: 2, num_queries: 3, log_domain_size: 6, ood_samples: 1 }],
        final_round: Round { folding_factor: 2, num_queries: 3, log_domain_size: 4, ood_samples: 1 },
        final_sumcheck_rounds: 1,
        final_poly_vars: 2,
    }
}

/// The coordinates of folding randomness a schedule produces: one per sumcheck
/// round.
fn total_folding_vars(cfg: &Config) -> usize {
    cfg.initial_folding_factor
        + cfg.rounds.iter().map(|r| r.folding_factor).sum::<usize>()
        + cfg.final_sumcheck_rounds
}

/// The transcript that `verify` consumes, and the randomness, claim and state it
/// should reach.
struct Spine {
    items: Vec<u32>,
    randomness: Vec<u32>,
    claim: [u32; 4],
    state: [u32; 16],
}

impl Spine {
    fn sumcheck(&mut self, n: usize, rng: &mut ChaCha20Rng) {
        for _ in 0..n {
            let (c0, c_inf) = (rand_ef(rng), rand_ef(rng));
            self.items.extend_from_slice(&c0);
            self.items.extend_from_slice(&c_inf);
            let (next, r) = reference::sumcheck_round_fs(&mut self.state, self.claim, c0, c_inf);
            self.claim = next;
            self.randomness.extend_from_slice(&r);
        }
    }

    fn absorb(&mut self, n: usize, rng: &mut ChaCha20Rng) {
        let vals: Vec<u32> = (0..n).map(|_| rand_f(rng)).collect();
        self.items.extend_from_slice(&vals);
        for block in vals.chunks(reference::RATE) {
            reference::duplexing(&mut self.state, block);
        }
    }
}

fn build_spine(cfg: &Config, rng: &mut ChaCha20Rng, state0: [u32; 16], claim0: [u32; 4]) -> Spine {
    let mut s = Spine { items: Vec::new(), randomness: Vec::new(), claim: claim0, state: state0 };
    s.sumcheck(cfg.initial_folding_factor, rng);
    for r in cfg.rounds.iter() {
        s.absorb(DIGEST, rng);
        // The point is sampled from the rate the previous absorb produced, and
        // only then is the answer absorbed.
        for _ in 0..r.ood_samples {
            s.absorb(4, rng);
        }
        s.sumcheck(r.folding_factor, rng);
    }
    s.absorb(4 << cfg.final_poly_vars, rng);
    s.sumcheck(cfg.final_sumcheck_rounds, rng);
    s
}

fn spine_script(items: &[u32], claim0: &[u32; 4], state0: &[u32; 16], verify: &Script) -> Script {
    push_altstack(items).then_script(push(claim0)).then_script(push(state0)).with(verify)
}

/// The spine executes, and lands where the reference does.
#[test]
fn transcript_spine_executes_and_matches_the_reference() {
    let mut rng = ChaCha20Rng::seed_from_u64(22);
    let cfg = small();
    let state0 = rand_state(&mut rng);
    let claim0 = rand_ef(&mut rng);
    let want = build_spine(&cfg, &mut rng, state0, claim0);

    let got = run(spine_script(&want.items, &claim0, &state0, &protocol::verify(&cfg)));

    let m = total_folding_vars(&cfg);
    assert_eq!(got.len(), 4 * m + 4 + 16, "unexpected stack shape");
    assert_eq!(&got[..4 * m], want.randomness.as_slice(), "randomness disagrees with the reference");
    assert_eq!(&got[4 * m..4 * m + 4], &want.claim, "claim disagrees with the reference");
    assert_eq!(&got[4 * m + 4..], &want.state, "sponge state disagrees with the reference");
}

/// Changing one byte of the transcript changes the claim the spine reaches.
#[test]
fn transcript_spine_is_sensitive_to_every_absorbed_value() {
    let mut rng = ChaCha20Rng::seed_from_u64(23);
    let cfg = small();
    let state0 = rand_state(&mut rng);
    let claim0 = rand_ef(&mut rng);
    let want = build_spine(&cfg, &mut rng, state0, claim0);
    let verify = protocol::verify(&cfg);

    // Probe a spread of positions rather than all of them; the transcript is
    // long and each run executes a full schedule of permutations.
    let probes = [0usize, 7, want.items.len() / 2, want.items.len() - 1];
    for &i in probes.iter() {
        let mut items = want.items.clone();
        items[i] = pf::add(items[i], 1);

        let got = run(spine_script(&items, &claim0, &state0, &verify));
        let m = total_folding_vars(&cfg);
        assert_ne!(
            &got[4 * m..4 * m + 4],
            &want.claim,
            "perturbing transcript position {i} left the claim unchanged"
        );
    }
}

/// The count matches what the spine actually emits, for the part it covers.
#[test]
fn permutation_count_agrees_with_the_emitted_spine() {
    let cfg = small();
    let one = permutation::permute().len();
    let spine_perms = protocol::verify(&cfg).len() / one;

    let sumcheck_rounds = cfg.initial_folding_factor
        + cfg.rounds.iter().map(|r| r.folding_factor).sum::<usize>()
        + cfg.final_sumcheck_rounds;
    let absorbs: usize = cfg
        .rounds
        .iter()
        .map(|r| DIGEST.div_ceil(reference::RATE) + r.ood_samples)
        .sum::<usize>()
        + (4usize << cfg.final_poly_vars).div_ceil(reference::RATE);

    assert_eq!(
        spine_perms,
        sumcheck_rounds + absorbs,
        "the spine emits a different number of permutations than predicted"
    );
}

/// The bytes of the permutation occur in the spine once for each sumcheck round,
/// commitment, answer and block of the final polynomial.
#[test]
fn the_spine_holds_its_permutations() {
    let cfg = small();
    let one = permutation::permute().into_script_buf().to_bytes();
    let spine = protocol::verify(&cfg).into_script_buf().to_bytes();
    let mut found = 0;
    let mut at = 0;
    while at + one.len() <= spine.len() {
        if spine[at..at + one.len()] == one[..] {
            found += 1;
            at += one.len();
        } else {
            at += 1;
        }
    }
    // Two sumcheck rounds, then a commitment, an answer and two more, then two
    // blocks of the final polynomial and the last round.
    assert_eq!(found, 2 + (1 + 1 + 2) + 2 + 1);
}

/// A realistic instance: a 2^20 trace, rate 1/2, folding factor 4, ~20 queries.
fn example() -> Config {
    let mut rounds = Vec::new();
    let mut log_domain = 21usize;
    for _ in 0..4 {
        rounds.push(Round { folding_factor: 4, num_queries: 20, log_domain_size: log_domain, ood_samples: 2 });
        log_domain -= 4;
    }
    Config {
        initial_folding_factor: 4,
        rounds,
        final_round: Round { folding_factor: 4, num_queries: 20, log_domain_size: log_domain, ood_samples: 2 },
        final_sumcheck_rounds: 4,
        final_poly_vars: 4,
    }
}

#[test]
fn report_verifier_size() {
    let cfg = example();
    let perms = protocol::permutation_count(&cfg);
    let one = permutation::permute().len();

    const BLOCK: usize = 4_000_000;

    let merkle: usize = cfg.rounds.iter().map(|r| r.num_queries * r.log_domain_size).sum::<usize>()
        + cfg.final_round.num_queries * cfg.final_round.log_domain_size;

    println!("\n  WHIR verifier for a 2^20 trace, 20 queries, folding factor 4");
    println!("  -----------------------------------------------------------");
    println!("  permutations                 {perms:>12}");
    println!("    of which Merkle paths      {merkle:>12}");
    println!("    of which transcript        {:>12}", perms - merkle);
    println!("  bytes                        {:>12}", perms * one);
    println!("  blocks                       {:>12.1}", (perms * one) as f64 / BLOCK as f64);
    println!("\n  transcript share             {:>11.1}%", 100.0 * (perms - merkle) as f64 / perms as f64);
    println!();
    assert_eq!(merkle, 1300);
    assert_eq!(perms - merkle, 44);
}

/// Eight query indices ride one squeeze; the ninth costs another permutation.
#[test]
fn query_indices_come_eight_per_squeeze() {
    let with = |queries: usize| {
        let mut cfg = small();
        cfg.rounds[0].num_queries = queries;
        cfg.rounds[0].log_domain_size = 0;
        protocol::permutation_count(&cfg)
    };
    assert_eq!(protocol::queries_per_squeeze(), 8);
    assert_eq!(with(0), with(8));
    assert_eq!(with(9), with(8) + 1);
    assert_eq!(with(16), with(9));
    assert_eq!(with(17), with(16) + 1);
}

// ---------------------------------------------------------------------------
// Query openings
// ---------------------------------------------------------------------------

/// The index comes from the transcript: an opening is accepted at the sampled
/// position and nowhere else, and the sponge state stays where it was.
#[test]
fn a_query_opens_at_the_sampled_index_only() {
    let mut rng = ChaCha20Rng::seed_from_u64(24);
    let (depth, width) = (3usize, 5usize);
    let state = rand_state(&mut rng);
    let row: Vec<u32> = (0..width).map(|_| rand_f(&mut rng)).collect();
    let sibs: Vec<[u32; 8]> = (0..depth).map(|_| core::array::from_fn(|_| rand_f(&mut rng))).collect();
    let leaf = pf::hash_row(&row);
    for slot in [0usize, 1, 7] {
        let open = protocol::open_query(slot, depth, width);
        let sampled = state[slot] as usize % (1 << depth);
        for index in 0..1usize << depth {
            let bits: Vec<bool> = (0..depth).map(|i| (index >> i) & 1 == 1).collect();
            let root = pf::merkle_root(leaf, &sibs, &bits);
            let mut s = push(&state).then_script(push(&root));
            for sib in sibs.iter().rev() {
                s = s.then_script(push(sib));
            }
            let outcome = execute(s.then_script(push(&row)).with(&open));
            if index == sampled {
                let left: Vec<u32> = outcome.unwrap().stack.iter().map(|v| decode(v) as u32).collect();
                assert_eq!(left, state.to_vec(), "slot {slot}: the state moved");
            } else {
                assert!(outcome.is_err(), "slot {slot}: an opening at {index} was accepted for {sampled}");
            }
        }
    }
}
