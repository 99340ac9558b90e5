//! The field, the permutation and Merkle paths: scripts run on a small
//! interpreter, against plain arithmetic.

use bitcoin::hashes::hash160;
use bitcoin_stark_verifier::constants::{P, WIDTH};
use bitcoin_stark_verifier::merkle::DIGEST;
use bitcoin_stark_verifier::script::{Opcode, Script};
use bitcoin_stark_verifier::{disprove, field, merkle, permutation, reference};
use rand::{Rng, SeedableRng};
use rand_chacha::ChaCha20Rng;

/// What running a script left behind: the stack, and the most items the two
/// stacks ever held together.
struct Done {
    stack: Vec<Vec<u8>>,
    #[allow(dead_code)]
    peak: usize,
}

/// The value of a script number of any length.
fn decode(v: &[u8]) -> i64 {
    if v.is_empty() {
        return 0;
    }
    let mut n: i64 = 0;
    for (i, b) in v.iter().enumerate() {
        n |= (*b as i64) << (8 * i);
    }
    if v[v.len() - 1] & 0x80 != 0 {
        n &= !(0x80i64 << (8 * (v.len() - 1)));
        return -n;
    }
    n
}

/// The minimal script number.
fn encode(n: i64) -> Vec<u8> {
    let mut out: Vec<u8> = Vec::new();
    let mut m = n.unsigned_abs();
    while m > 0 {
        out.push((m & 0xff) as u8);
        m >>= 8;
    }
    if let Some(last) = out.last().copied() {
        let sign: u8 = if n < 0 { 0x80 } else { 0 };
        if last & 0x80 != 0 {
            out.push(sign);
        } else {
            let k = out.len() - 1;
            out[k] |= sign;
        }
    }
    out
}

fn h160(x: &[u8]) -> [u8; 20] {
    let h = <hash160::Hash as bitcoin::hashes::Hash>::hash(x);
    bitcoin::hashes::Hash::to_byte_array(h)
}

fn truthy(v: &[u8]) -> bool {
    v.iter().enumerate().any(|(i, b)| *b != 0 && !(i == v.len() - 1 && *b == 0x80))
}

fn pop(stack: &mut Vec<Vec<u8>>) -> Result<Vec<u8>, String> {
    stack.pop().ok_or_else(|| "stack underflow".to_string())
}

/// A numeric operand: at most four bytes, minimally encoded.
fn pop_num(stack: &mut Vec<Vec<u8>>) -> Result<i64, String> {
    let v = pop(stack)?;
    if v.len() > 4 {
        return Err("numeric operand too long".to_string());
    }
    let n = decode(&v);
    if encode(n) != v {
        return Err("numeric operand not minimal".to_string());
    }
    Ok(n)
}

/// The position of the item `depth` below the top.
fn below(stack: &[Vec<u8>], depth: i64) -> Result<usize, String> {
    if depth < 0 || depth >= stack.len() as i64 {
        return Err(format!("depth {depth} outside the stack"));
    }
    Ok(stack.len() - 1 - depth as usize)
}

/// Run tapscript bytes on empty stacks.
fn execute_bytes(code: &[u8]) -> Result<Done, String> {
    let mut stack: Vec<Vec<u8>> = Vec::new();
    let mut alt: Vec<Vec<u8>> = Vec::new();
    let mut conds: Vec<bool> = Vec::new();
    let mut peak = 0usize;
    let mut at = 0usize;
    while at < code.len() {
        let op = code[at];
        at += 1;
        let live = conds.iter().all(|c| *c);
        if op <= 0x4b {
            let end = at + op as usize;
            if end > code.len() {
                return Err("push past the end".to_string());
            }
            if live {
                stack.push(code[at..end].to_vec());
                peak = peak.max(stack.len() + alt.len());
            }
            at = end;
            continue;
        }
        if (0x63..=0x68).contains(&op) {
            match op {
                0x63 | 0x64 => {
                    let mut taken = false;
                    if live {
                        let v = pop(&mut stack)?;
                        if !(v.is_empty() || v == [1]) {
                            return Err("condition not minimal".to_string());
                        }
                        taken = truthy(&v) == (op == 0x63);
                    }
                    conds.push(taken);
                }
                0x67 => {
                    let c = conds.pop().ok_or("unbalanced else")?;
                    conds.push(!c);
                }
                0x68 => {
                    conds.pop().ok_or("unbalanced endif")?;
                }
                _ => return Err(format!("unexpected opcode {op:#x}")),
            }
            continue;
        }
        if !live {
            continue;
        }
        match op {
            0x4f => stack.push(encode(-1)),
            0x51..=0x60 => stack.push(encode(op as i64 - 0x50)),
            0x6b => {
                let v = pop(&mut stack)?;
                alt.push(v);
            }
            0x6c => {
                let v = alt.pop().ok_or("altstack underflow")?;
                stack.push(v);
            }
            0x6d => {
                pop(&mut stack)?;
                pop(&mut stack)?;
            }
            0x75 => {
                pop(&mut stack)?;
            }
            0x76 => {
                let i = below(&stack, 0)?;
                stack.push(stack[i].clone());
            }
            0x78 => {
                let i = below(&stack, 1)?;
                stack.push(stack[i].clone());
            }
            0x79 => {
                let d = pop_num(&mut stack)?;
                let i = below(&stack, d)?;
                stack.push(stack[i].clone());
            }
            0x7a => {
                let d = pop_num(&mut stack)?;
                let i = below(&stack, d)?;
                let v = stack.remove(i);
                stack.push(v);
            }
            0x7b => {
                let i = below(&stack, 2)?;
                let v = stack.remove(i);
                stack.push(v);
            }
            0x7c => {
                let i = below(&stack, 1)?;
                stack.swap(i, i + 1);
            }
            0x7d => {
                let i = below(&stack, 1)?;
                let v = stack[i + 1].clone();
                stack.insert(i, v);
            }
            0x87 | 0x88 => {
                let b = pop(&mut stack)?;
                let a = pop(&mut stack)?;
                if op == 0x87 {
                    stack.push(encode((a == b) as i64));
                } else if a != b {
                    return Err("equalverify".to_string());
                }
            }
            0x8c => {
                let a = pop_num(&mut stack)?;
                stack.push(encode(a - 1));
            }
            0x91 => {
                let a = pop_num(&mut stack)?;
                stack.push(encode((a == 0) as i64));
            }
            0x92 => {
                let a = pop_num(&mut stack)?;
                stack.push(encode((a != 0) as i64));
            }
            0x93 | 0x94 | 0x9a | 0x9c | 0x9f | 0xa2 => {
                let b = pop_num(&mut stack)?;
                let a = pop_num(&mut stack)?;
                stack.push(encode(match op {
                    0x93 => a + b,
                    0x94 => a - b,
                    0x9a => (a != 0 && b != 0) as i64,
                    0x9c => (a == b) as i64,
                    0x9f => (a < b) as i64,
                    _ => (a >= b) as i64,
                }));
            }
            0xa9 => {
                let v = pop(&mut stack)?;
                stack.push(h160(&v).to_vec());
            }
            _ => return Err(format!("unexpected opcode {op:#x}")),
        }
        peak = peak.max(stack.len() + alt.len());
    }
    if !conds.is_empty() {
        return Err("unbalanced if".to_string());
    }
    Ok(Done { stack, peak })
}

fn execute(s: Script) -> Result<Done, String> {
    execute_bytes(s.into_script_buf().as_bytes())
}

/// Run a script and return the final stack, bottom first, as field elements.
fn run(s: Script) -> Vec<u32> {
    let done = execute(s).unwrap_or_else(|e| panic!("script failed: {e}"));
    done.stack
        .iter()
        .map(|v| {
            let n = decode(v);
            assert!(n >= 0, "negative value left on the stack: {n}");
            n as u32
        })
        .collect()
}

/// Push values, the last on top.
fn push(xs: &[u32]) -> Script {
    let mut s = Script::new();
    for x in xs {
        s = s.num(*x as i64);
    }
    s
}

/// Move `n` items to the altstack, one by one.
#[allow(dead_code)]
fn to_alt(n: usize) -> Script {
    let mut s = Script::new();
    for _ in 0..n {
        s = s.op(Opcode::ToAltStack);
    }
    s
}

fn rand_fe(rng: &mut ChaCha20Rng) -> u32 {
    rng.random_range(0..P)
}

fn rand_state(rng: &mut ChaCha20Rng) -> [u32; WIDTH] {
    core::array::from_fn(|_| rand_fe(rng))
}

// ---------------------------------------------------------------------------
// The field
// ---------------------------------------------------------------------------

#[test]
fn permutation_field_add_sub_double() {
    let mut rng = ChaCha20Rng::seed_from_u64(0);
    for _ in 0..40 {
        let (a, b) = (rand_fe(&mut rng), rand_fe(&mut rng));
        assert_eq!(run(push(&[a, b]).then_script(field::add())), vec![reference::add(a, b)], "add({a},{b})");
        assert_eq!(run(push(&[a, b]).then_script(field::sub())), vec![reference::sub(a, b)], "sub({a},{b})");
        assert_eq!(run(push(&[a]).then_script(field::double())), vec![reference::double(a)], "double({a})");
    }
}

#[test]
fn permutation_field_mul_and_cube() {
    let mut rng = ChaCha20Rng::seed_from_u64(1);
    for _ in 0..12 {
        let (a, b) = (rand_fe(&mut rng), rand_fe(&mut rng));
        assert_eq!(run(push(&[a, b]).then_script(field::mul())), vec![reference::mul(a, b)], "mul({a},{b})");
        assert_eq!(
            run(push(&[a]).then_script(field::mul_by_constant(b))),
            vec![reference::mul(a, b)],
            "mul_by_constant({a},{b})"
        );
        assert_eq!(run(push(&[a]).then_script(field::cube())), vec![reference::sbox(a)], "cube({a})");
    }
}

#[test]
fn permutation_field_edge_cases() {
    for a in [0u32, 1, 2, P - 1, P - 2] {
        for b in [0u32, 1, 2, P - 1, P - 2] {
            assert_eq!(run(push(&[a, b]).then_script(field::add())), vec![reference::add(a, b)], "add({a},{b})");
            assert_eq!(run(push(&[a, b]).then_script(field::mul())), vec![reference::mul(a, b)], "mul({a},{b})");
        }
    }
}

/// Doubling and halving undo each other, and negation is its own inverse.
#[test]
fn halving_a_double_gives_it_back() {
    for a in [0u32, 1, 2, 12345, P / 2, P - 2, P - 1] {
        let there_and_back = push(&[a]).then_script(field::double()).then_script(field::halve());
        assert_eq!(run(there_and_back), vec![a]);
        let other_way = push(&[a]).then_script(field::halve()).then_script(field::double());
        assert_eq!(run(other_way), vec![a]);
        assert_eq!(run(push(&[a]).then_script(field::neg())), vec![reference::sub(0, a)]);
        assert_eq!(run(push(&[a]).then_script(field::neg()).then_script(field::neg())), vec![a]);
    }
}

/// Multiplying by constants whose signed digits run through every pattern.
#[test]
fn constants_of_every_shape_multiply() {
    for c in [0u32, 1, 2, 3, 5, 7, 8, 11, 0x5555_5555, 0x2aaa_aaaa, P - 1, P, P + 1, u32::MAX] {
        for a in [0u32, 1, 12345, P - 1] {
            assert_eq!(
                run(push(&[a]).then_script(field::mul_by_constant(c))),
                vec![reference::mul(a, c)],
                "{a} times {c}"
            );
        }
    }
}

/// The twisted form is the element less the modulus.
#[test]
fn the_twisted_form_is_negative() {
    let done = execute(push(&[5]).then_script(field::to_twisted())).unwrap();
    assert_eq!(decode(&done.stack[0]), 5 - P as i64);
}

fn mod_pow(b: u32, e: u32) -> u32 {
    let mut acc = 1u32;
    let mut b = b % P;
    let mut e = e;
    while e > 0 {
        if e & 1 == 1 {
            acc = reference::mul(acc, b);
        }
        b = reference::mul(b, b);
        e >>= 1;
    }
    acc
}

/// The operations a verifier needs beyond the hash, and which look at first
/// glance as though they want a disabled opcode. None of them do.
#[test]
fn verifier_primitives_need_no_disabled_opcode() {
    let mut rng = ChaCha20Rng::seed_from_u64(41);

    // Inversion, hinted and checked.
    for _ in 0..6 {
        let x = rng.random_range(1..P);
        let inv = mod_pow(x, P - 2);
        assert_eq!(reference::mul(x, inv), 1, "test's own inverse is wrong");
        assert_eq!(run(push(&[x, inv]).then_script(field::inverse_hinted())), vec![inv]);
        assert!(execute(push(&[x, reference::add(inv, 1)]).then_script(field::inverse_hinted())).is_err());
    }

    // A challenge reduced to a query index, without OP_MOD.
    for _ in 0..6 {
        let c = rng.random_range(0..P);
        let bits = 12usize;
        let want = c & ((1 << bits) - 1);
        // Bits pop least-significant first, so weight them as they come.
        let mut s = push(&[c]).then_script(field::low_bits_to_altstack(bits)).num(0);
        for j in 0..bits {
            s = s.op(Opcode::FromAltStack).op(Opcode::If).num(1i64 << j).op(Opcode::Add).op(Opcode::EndIf);
        }
        let got = run(s);
        assert_eq!(got.len(), 1, "index {c}");
        assert_eq!(got[0], want, "low {bits} bits of {c}");
    }

    // A power of the domain generator at a run-time exponent.
    for _ in 0..4 {
        let e = rng.random_range(0..(1u32 << 10));
        let want = mod_pow(3, e);
        assert_eq!(run(push(&[e]).then_script(field::pow_const_base(3, 10))), vec![want]);
    }
    // Zero has no inverse.
    for hint in [0u32, 1, 2, P - 1] {
        assert!(execute(push(&[0, hint]).then_script(field::inverse_hinted())).is_err());
    }
}

#[test]
fn field_ops_agree() {
    let mut rng = ChaCha20Rng::seed_from_u64(21);
    for _ in 0..8 {
        let (a, b) = (rand_fe(&mut rng), rand_fe(&mut rng));
        assert_eq!(run(push(&[a, b]).then_script(field::add())), vec![reference::add(a, b)]);
        assert_eq!(run(push(&[a, b]).then_script(field::sub())), vec![reference::sub(a, b)]);
        assert_eq!(run(push(&[a, b]).then_script(field::mul())), vec![reference::mul(a, b)]);
        assert_eq!(run(push(&[a]).then_script(field::cube())), vec![reference::sbox(a)]);
    }
}

// ---------------------------------------------------------------------------
// The permutation
// ---------------------------------------------------------------------------

#[test]
fn permutation_linear_layers_match_reference() {
    let mut rng = ChaCha20Rng::seed_from_u64(2);
    for _ in 0..4 {
        let st = rand_state(&mut rng);

        let mut want = st;
        reference::mds_light(&mut want);
        assert_eq!(run(push(&st).then_script(permutation::mds_light())), want.to_vec(), "mds_light");

        let mut want = st;
        reference::internal_linear(&mut want);
        assert_eq!(run(push(&st).then_script(permutation::internal_linear())), want.to_vec(), "internal_linear");
    }
}

/// The structured linear layers leave what the full matrices leave.
#[test]
fn structured_layers_equal_dense() {
    let mut rng = ChaCha20Rng::seed_from_u64(11);
    for _ in 0..4 {
        let st = rand_state(&mut rng);
        assert_eq!(
            run(push(&st).then_script(permutation::mds_light())),
            run(push(&st).then_script(permutation::mds_light_dense())),
            "external"
        );
        assert_eq!(
            run(push(&st).then_script(permutation::internal_linear())),
            run(push(&st).then_script(permutation::internal_linear_dense())),
            "internal"
        );
    }
    assert!(permutation::mds_light().len() < permutation::mds_light_dense().len());
    assert!(permutation::internal_linear().len() < permutation::internal_linear_dense().len());
}

/// The layers at the edges of the field: zero, one and the largest element, on
/// one position and on all.
#[test]
fn layers_at_the_edges_of_the_field() {
    let mut states: Vec<[u32; WIDTH]> = vec![[0; WIDTH], [1; WIDTH], [P - 1; WIDTH]];
    for i in 0..WIDTH {
        for x in [1, P - 1] {
            let mut st = [0u32; WIDTH];
            st[i] = x;
            states.push(st);
        }
    }
    for st in states {
        let mut want = st;
        reference::mds_light(&mut want);
        assert_eq!(run(push(&st).then_script(permutation::mds_light())), want.to_vec(), "{st:?}");
        let mut want = st;
        reference::internal_linear(&mut want);
        assert_eq!(run(push(&st).then_script(permutation::internal_linear())), want.to_vec(), "{st:?}");
    }
}

#[test]
fn linear_layers_agree() {
    let mut rng = ChaCha20Rng::seed_from_u64(22);
    let st = rand_state(&mut rng);

    let mut want = st;
    reference::mds_light(&mut want);
    assert_eq!(run(push(&st).then_script(permutation::mds_light())), want.to_vec());

    let mut want = st;
    reference::internal_linear(&mut want);
    assert_eq!(run(push(&st).then_script(permutation::internal_linear())), want.to_vec());
}

#[test]
fn permutation_permutation_matches_reference() {
    let mut rng = ChaCha20Rng::seed_from_u64(3);
    for _ in 0..2 {
        let st = rand_state(&mut rng);
        let mut want = st;
        reference::permute(&mut want);
        assert_eq!(run(push(&st).then_script(permutation::permute())), want.to_vec());
        assert_eq!(run(push(&st).then_script(permutation::poseidon2_permute())), want.to_vec());
    }
}

/// The whole permutation, with the consensus cap on the two stacks.
#[test]
fn permutation_agrees_and_fits_the_stack() {
    let mut rng = ChaCha20Rng::seed_from_u64(23);
    let st = rand_state(&mut rng);
    let mut want = st;
    reference::permute(&mut want);

    let got = execute(push(&st).then_script(permutation::permute())).unwrap();
    let values: Vec<u32> = got.stack.iter().map(|v| decode(v) as u32).collect();
    assert_eq!(values, want.to_vec());

    // 1000 is the consensus cap on stack plus altstack.
    assert!(got.peak <= 1000, "peak stack {} exceeds the 1000-item limit", got.peak);
    assert_eq!(got.peak, 50);
    println!("\n  peak stack + altstack: {} items (limit 1000)\n", got.peak);
}

/// The all-zero input, which is where a missing round constant would show.
#[test]
fn permutation_on_zero_agrees() {
    let mut want = [0u32; WIDTH];
    reference::permute(&mut want);
    assert_eq!(run(push(&[0; WIDTH]).then_script(permutation::permute())), want.to_vec());
}

/// The reason the crate exists: no disabled opcode, and in particular no
/// `OP_CAT`. If this fails the design claim is void.
#[test]
fn permutation_uses_no_disabled_opcode() {
    let s = permutation::permute().into_script_buf();
    // OP_CAT, OP_SUBSTR, OP_LEFT, OP_RIGHT, OP_INVERT, OP_AND, OP_OR, OP_XOR,
    // OP_2MUL, OP_2DIV, OP_MUL, OP_DIV, OP_MOD, OP_LSHIFT, OP_RSHIFT.
    const DISABLED: [u8; 15] = [
        0x7e, 0x7f, 0x80, 0x81, 0x83, 0x84, 0x85, 0x86, 0x8d, 0x8e, 0x95, 0x96, 0x97, 0x98, 0x99,
    ];
    let mut seen = 0usize;
    for ins in s.instructions() {
        if let bitcoin::blockdata::script::Instruction::Op(op) = ins.unwrap() {
            seen += 1;
            assert!(!DISABLED.contains(&op.to_u8()), "disabled opcode in the permutation: {op}");
        }
    }
    assert!(seen > 0);
}

/// The number the whole exercise is for.
#[test]
fn permutation_report_size() {
    let perm = permutation::permute();
    let compress = permutation::compress();
    let mul = field::mul();
    let mul_c = field::mul_by_constant(0x12345678);
    let cube = field::cube();
    let mds = permutation::mds_light();
    let internal = permutation::internal_linear();

    // Witness data is one weight unit per byte in a taproot spend; the script
    // sits in the witness, so bytes and weight units coincide here.
    println!("\n  bytes (= witness weight units)");
    println!("  ------------------------------");
    println!("  field mul (runtime)      {:>10}", mul.len());
    println!("  field mul by constant    {:>10}", mul_c.len());
    println!("  field cube (S-box)       {:>10}", cube.len());
    println!("  external linear layer    {:>10}", mds.len());
    println!("  internal linear layer    {:>10}", internal.len());
    println!("  POSEIDON2 PERMUTATION    {:>10}", perm.len());
    println!("  Merkle compression       {:>10}", compress.len());
    println!(
        "\n  MAX_STANDARD_TX_WEIGHT is 400000; one permutation is {:.2}x that",
        perm.len() as f64 / 400_000.0
    );
    println!(
        "  MAX_BLOCK_WEIGHT is 4000000; one permutation is {:.4}x that\n",
        perm.len() as f64 / 4_000_000.0
    );
    assert_eq!(mul.len(), 1446);
    assert_eq!(mul_c.len(), 489);
    assert_eq!(cube.len(), 2894);
    assert_eq!(mds.len(), 3324);
    assert_eq!(internal.len(), 5487);
    assert_eq!(perm.len(), 572_228);
    assert_eq!(compress.len(), 572_232);
}

/// The per-round scripts must chain to the whole permutation.
#[test]
fn rounds_compose_to_the_permutation() {
    let mut rng = ChaCha20Rng::seed_from_u64(51);
    let st = rand_state(&mut rng);
    let mut want = st;
    reference::permute(&mut want);

    let rounds = permutation::rounds();
    let mut s = push(&st);
    for r in rounds.iter() {
        s = s.then_script(r.clone());
    }
    assert_eq!(run(s), want.to_vec(), "chained rounds differ from permute()");
    assert_eq!(rounds.len(), disprove::rounds_per_permutation());
}

/// Every round must fit a standard transaction, or the disprove pattern has no
/// atomic step to fall back on.
#[test]
fn every_round_fits_a_standard_transaction() {
    const STD_TX: usize = 400_000;
    let rounds = permutation::rounds();
    let sizes: Vec<usize> = rounds.iter().map(|r| r.len()).collect();
    let (min, max) = (sizes.iter().min().unwrap(), sizes.iter().max().unwrap());
    let total: usize = sizes.iter().sum();

    println!("\n  {} independently checkable rounds", rounds.len());
    println!("  smallest round        {:>10} bytes", min);
    println!(
        "  largest round         {:>10} bytes  ({:.1}% of a standard tx)",
        max,
        100.0 * *max as f64 / STD_TX as f64
    );
    println!("  all rounds together   {:>10} bytes", total);
    println!("  one permutation       {:>10} bytes\n", permutation::permute().len());

    assert!(*max < STD_TX, "a round at {max} bytes exceeds MAX_STANDARD_TX_WEIGHT");
}

/// Two digests in, the first eight elements of the permuted pair out.
#[test]
fn compression_matches_reference() {
    let mut rng = ChaCha20Rng::seed_from_u64(4);
    let st = rand_state(&mut rng);
    let left: [u32; 8] = core::array::from_fn(|i| st[i]);
    let right: [u32; 8] = core::array::from_fn(|i| st[8 + i]);
    let want = reference::compress(&left, &right);
    assert_eq!(run(push(&st).then_script(permutation::compress())), want.to_vec());
    assert_ne!(reference::compress(&right, &left), want, "the order of the children matters");
}

// ---------------------------------------------------------------------------
// Rows and paths
// ---------------------------------------------------------------------------

/// `hash_row` matches the reference across chunk boundaries.
///
/// The boundaries are where a padding-free sponge differs from a duplex: a
/// partial final chunk leaves the rest of the state alone rather than zeroing it
/// and mixing in a length. Sizes either side of the rate pin that down.
#[test]
fn hash_row_matches_the_reference() {
    let mut rng = ChaCha20Rng::seed_from_u64(31);
    for n in [1usize, 2, 4, 7, 8, 9, 15, 16, 17] {
        let row: Vec<u32> = (0..n).map(|_| rng.random_range(0..P)).collect();
        let want = reference::hash_row(&row);
        let got = run(push(&row).then_script(merkle::hash_row(n)));
        assert_eq!(got.len(), DIGEST, "row of {n}: wrong digest width");
        assert_eq!(got, want.to_vec(), "row of {n}: digest disagrees with the reference");
    }
}

/// Every element of the row reaches the digest.
#[test]
fn hash_row_depends_on_every_element() {
    let mut rng = ChaCha20Rng::seed_from_u64(32);
    let n = 12;
    let row: Vec<u32> = (0..n).map(|_| rng.random_range(0..P)).collect();
    let hash = merkle::hash_row(n);
    let base = run(push(&row).with(&hash));
    for i in 0..n {
        let mut bad = row.clone();
        bad[i] = reference::add(bad[i], 1);
        assert_ne!(run(push(&bad).with(&hash)), base, "element {i} did not affect the digest");
    }
}

/// Root, siblings deepest-last and leaf on the stack, directions on the
/// altstack, the first level's on top.
fn opening(root: &[u32], sibs: &[[u32; DIGEST]], tail: Script, bits: &[bool]) -> Script {
    let mut s = push(root);
    for sib in sibs.iter().rev() {
        s = s.then_script(push(sib));
    }
    s = s.then_script(tail);
    for b in bits.iter().rev() {
        s = s.num(*b as i64).op(Opcode::ToAltStack);
    }
    s.then_script(merkle::merkle_verify_from_altstack(sibs.len()))
}

/// Hashing a row and walking the path compose, which is how a query opening is
/// actually put together.
#[test]
fn hash_row_feeds_the_path() {
    let mut rng = ChaCha20Rng::seed_from_u64(33);
    let depth = 4usize;
    let width = 6usize;

    let row: Vec<u32> = (0..width).map(|_| rng.random_range(0..P)).collect();
    let leaf = reference::hash_row(&row);
    let sibs: Vec<[u32; 8]> = (0..depth).map(|_| core::array::from_fn(|_| rng.random_range(0..P))).collect();
    let bits: Vec<bool> = (0..depth).map(|i| (i % 2) == 0).collect();
    let root = reference::merkle_root(leaf, &sibs, &bits);

    // Row in, root checked, nothing left: the opening is one unit.
    let ok = opening(&root, &sibs, push(&row).then_script(merkle::hash_row(width)), &bits).num(1);
    assert_eq!(run(ok), vec![1], "a valid opening was rejected");

    // Substituting a different row for the same leaf is exactly what the hash is
    // here to stop.
    let mut other = row.clone();
    other[0] = reference::add(other[0], 1);
    let bad = opening(&root, &sibs, push(&other).then_script(merkle::hash_row(width)), &bits).num(1);
    assert!(execute(bad).is_err(), "a substituted row was accepted");
}

/// A path on the main stack, the first level nearest the leaf.
fn path(sibs: &[[u32; DIGEST]], bits: &[bool], leaf: &[u32]) -> Script {
    let mut s = Script::new();
    for i in (0..sibs.len()).rev() {
        s = s.then_script(push(&sibs[i])).num(bits[i] as i64);
    }
    s.then_script(push(leaf))
}

#[test]
fn merkle_path_matches_reference() {
    let mut rng = ChaCha20Rng::seed_from_u64(31);
    let mut fe = || rng.random_range(0..P);

    for depth in [1usize, 2, 3] {
        let leaf: [u32; DIGEST] = core::array::from_fn(|_| fe());
        let siblings: Vec<[u32; DIGEST]> = (0..depth).map(|_| core::array::from_fn(|_| fe())).collect();
        let bits: Vec<bool> = (0..depth).map(|i| i % 2 == 1).collect();
        let want = reference::merkle_root(leaf, &siblings, &bits);

        // Bottom to top: deepest sibling and bit first, leaf last.
        let got = run(path(&siblings, &bits, &leaf).then_script(merkle::merkle_path(depth)));
        assert_eq!(got, want.to_vec(), "depth {depth}");

        // The checking form accepts that root and no other.
        let verify = merkle::merkle_verify(depth);
        let ok = push(&want).then_script(path(&siblings, &bits, &leaf)).with(&verify).num(1);
        assert_eq!(run(ok), vec![1], "depth {depth}: the right root was rejected");
        for i in 0..DIGEST {
            let mut wrong = want;
            wrong[i] = reference::add(wrong[i], 1);
            let bad = push(&wrong).then_script(path(&siblings, &bits, &leaf)).with(&verify).num(1);
            assert!(execute(bad).is_err(), "depth {depth}: a wrong element {i} of the root was accepted");
        }
    }
}

/// What a query costs, and whether fewer queries is the lever that matters.
#[test]
fn query_cost_model() {
    let perm = permutation::permute().len();
    let step = merkle::merkle_step().len();
    let per_level = step; // one compression plus a little ordering

    const STD_TX: usize = 400_000;
    const BLOCK: usize = 4_000_000;

    println!("\n  one Poseidon2 permutation      {:>12} bytes", perm);
    println!("  one Merkle level (step)        {:>12} bytes", per_level);
    println!("  ordering overhead per level    {:>12} bytes", step - perm);
    assert_eq!(step - perm, 24);

    // A 2^20 trace over a rate-1/2 code gives a depth-21 commitment.
    let depth = 21usize;
    let path = merkle::merkle_path(depth).len();
    println!("\n  path at depth {depth}                {:>12} bytes = {:.1} blocks", path, path as f64 / BLOCK as f64);
    assert_eq!(path, depth * step);

    println!("\n  scheme      queries   total bytes    standard txs      blocks");
    println!("  ---------------------------------------------------------------");
    for (name, queries) in [("FRI", 100usize), ("STIR", 30), ("WHIR", 20)] {
        let total = path * queries;
        println!(
            "  {:<10} {:>7} {:>13} {:>15.0} {:>11.0}",
            name,
            queries,
            total,
            total as f64 / STD_TX as f64,
            total as f64 / BLOCK as f64
        );
    }
    println!("\n  A byte hash under OP_CAT would make one level ~2 bytes,");
    println!("  so the same depth-{depth} path would be ~{} bytes.\n", depth * 2);
}

/// A level of a Merkle path is a permutation and 24 bytes of ordering.
#[test]
fn merkle_sizes() {
    assert_eq!(merkle::merkle_step().len(), 572_252);
    assert_eq!(merkle::merkle_path(21).len(), 12_017_292);
}

/// A round costs its S-boxes and one linear layer.
#[test]
fn round_sizes() {
    let sizes: Vec<usize> = permutation::rounds().iter().map(|r| r.len()).collect();
    assert_eq!(sizes.len(), 29);
    for (k, size) in sizes.iter().enumerate() {
        let want = match k {
            0 => 3_324,
            5..=24 => 8_434,
            _ => 50_028,
        };
        assert_eq!(*size, want, "round {k}");
    }
}

/// Sizes of the verifier operations that are not the hash.
#[test]
fn primitive_sizes() {
    println!("\n  inverse (hinted, one mul)      {:>10} bytes", field::inverse_hinted().len());
    println!("  challenge -> 21-bit index      {:>10} bytes", field::low_bits_to_altstack(21).len());
    println!("  g^i, 21-bit exponent           {:>10} bytes", field::pow_const_base(3, 21).len());
    println!("  one Poseidon2 permutation      {:>10} bytes", permutation::permute().len());
    println!("\n  For contrast, inversion by exponentiation would be about");
    println!("  sixty multiplications: {} bytes.\n", 60 * field::mul().len());
}

/// The binding a query opening depends on: the recomputed root must equal the
/// committed one, and the directions come from the transcript rather than the
/// spender. Without both, a prover opens whatever leaf it likes.
#[test]
fn merkle_opening_is_bound() {
    let mut rng = ChaCha20Rng::seed_from_u64(33);
    let mut fe = || rng.random_range(0..P);

    let depth = 3usize;
    let leaf: [u32; DIGEST] = core::array::from_fn(|_| fe());
    let siblings: Vec<[u32; DIGEST]> = (0..depth).map(|_| core::array::from_fn(|_| fe())).collect();
    let bits: Vec<bool> = vec![true, false, true];
    let root = reference::merkle_root(leaf, &siblings, &bits);

    let ok = execute(opening(&root, &siblings, push(&leaf), &bits));
    assert!(ok.is_ok(), "a correct opening was rejected");

    let mut wrong_root = root;
    wrong_root[0] = reference::add(wrong_root[0], 1);
    assert!(
        execute(opening(&wrong_root, &siblings, push(&leaf), &bits)).is_err(),
        "an opening against the wrong root was accepted"
    );

    let wrong_bits = vec![false, false, true];
    assert!(
        execute(opening(&root, &siblings, push(&leaf), &wrong_bits)).is_err(),
        "an opening at the wrong index was accepted"
    );
}
