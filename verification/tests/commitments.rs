//! Commitments and the disprove predicate.
//!
//! The predicate is valid exactly when the prover lied, and it has its own way
//! of being vacuous: one that is always true lets anyone take the bond, and one
//! that is always false makes the bond unclaimable. Both cases are run. The
//! commitment layer is what stops a prover opening a step two ways.

use bitcoin::hashes::hash160;
use bitcoin_stark_verifier::constants::{P, WIDTH};
use bitcoin_stark_verifier::script::{Opcode, Script};
use bitcoin_stark_verifier::winternitz::{self, DIGITS_PER_ELEMENT, W};
use bitcoin_stark_verifier::{disprove, permutation, reference};
use rand::{Rng, SeedableRng};
use rand_chacha::ChaCha20Rng;

/// What running a script left behind: the stack, and the most items the two
/// stacks ever held together.
struct Done {
    stack: Vec<Vec<u8>>,
    #[allow(dead_code)]
    peak: usize,
}

/// The value of a script number of any length.
fn decode(v: &[u8]) -> i64 {
    if v.is_empty() {
        return 0;
    }
    let mut n: i64 = 0;
    for (i, b) in v.iter().enumerate() {
        n |= (*b as i64) << (8 * i);
    }
    if v[v.len() - 1] & 0x80 != 0 {
        n &= !(0x80i64 << (8 * (v.len() - 1)));
        return -n;
    }
    n
}

/// The minimal script number.
fn encode(n: i64) -> Vec<u8> {
    let mut out: Vec<u8> = Vec::new();
    let mut m = n.unsigned_abs();
    while m > 0 {
        out.push((m & 0xff) as u8);
        m >>= 8;
    }
    if let Some(last) = out.last().copied() {
        let sign: u8 = if n < 0 { 0x80 } else { 0 };
        if last & 0x80 != 0 {
            out.push(sign);
        } else {
            let k = out.len() - 1;
            out[k] |= sign;
        }
    }
    out
}

fn h160(x: &[u8]) -> [u8; 20] {
    let h = <hash160::Hash as bitcoin::hashes::Hash>::hash(x);
    bitcoin::hashes::Hash::to_byte_array(h)
}

fn truthy(v: &[u8]) -> bool {
    v.iter().enumerate().any(|(i, b)| *b != 0 && !(i == v.len() - 1 && *b == 0x80))
}

fn pop(stack: &mut Vec<Vec<u8>>) -> Result<Vec<u8>, String> {
    stack.pop().ok_or_else(|| "stack underflow".to_string())
}

/// A numeric operand: at most four bytes, minimally encoded.
fn pop_num(stack: &mut Vec<Vec<u8>>) -> Result<i64, String> {
    let v = pop(stack)?;
    if v.len() > 4 {
        return Err("numeric operand too long".to_string());
    }
    let n = decode(&v);
    if encode(n) != v {
        return Err("numeric operand not minimal".to_string());
    }
    Ok(n)
}

/// The position of the item `depth` below the top.
fn below(stack: &[Vec<u8>], depth: i64) -> Result<usize, String> {
    if depth < 0 || depth >= stack.len() as i64 {
        return Err(format!("depth {depth} outside the stack"));
    }
    Ok(stack.len() - 1 - depth as usize)
}

/// Run tapscript bytes on empty stacks.
fn execute_bytes(code: &[u8]) -> Result<Done, String> {
    let mut stack: Vec<Vec<u8>> = Vec::new();
    let mut alt: Vec<Vec<u8>> = Vec::new();
    let mut conds: Vec<bool> = Vec::new();
    let mut peak = 0usize;
    let mut at = 0usize;
    while at < code.len() {
        let op = code[at];
        at += 1;
        let live = conds.iter().all(|c| *c);
        if op <= 0x4b {
            let end = at + op as usize;
            if end > code.len() {
                return Err("push past the end".to_string());
            }
            if live {
                stack.push(code[at..end].to_vec());
                peak = peak.max(stack.len() + alt.len());
            }
            at = end;
            continue;
        }
        if (0x63..=0x68).contains(&op) {
            match op {
                0x63 | 0x64 => {
                    let mut taken = false;
                    if live {
                        let v = pop(&mut stack)?;
                        if !(v.is_empty() || v == [1]) {
                            return Err("condition not minimal".to_string());
                        }
                        taken = truthy(&v) == (op == 0x63);
                    }
                    conds.push(taken);
                }
                0x67 => {
                    let c = conds.pop().ok_or("unbalanced else")?;
                    conds.push(!c);
                }
                0x68 => {
                    conds.pop().ok_or("unbalanced endif")?;
                }
                _ => return Err(format!("unexpected opcode {op:#x}")),
            }
            continue;
        }
        if !live {
            continue;
        }
        match op {
            0x4f => stack.push(encode(-1)),
            0x51..=0x60 => stack.push(encode(op as i64 - 0x50)),
            0x6b => {
                let v = pop(&mut stack)?;
                alt.push(v);
            }
            0x6c => {
                let v = alt.pop().ok_or("altstack underflow")?;
                stack.push(v);
            }
            0x6d => {
                pop(&mut stack)?;
                pop(&mut stack)?;
            }
            0x75 => {
                pop(&mut stack)?;
            }
            0x76 => {
                let i = below(&stack, 0)?;
                stack.push(stack[i].clone());
            }
            0x78 => {
                let i = below(&stack, 1)?;
                stack.push(stack[i].clone());
            }
            0x79 => {
                let d = pop_num(&mut stack)?;
                let i = below(&stack, d)?;
                stack.push(stack[i].clone());
            }
            0x7a => {
                let d = pop_num(&mut stack)?;
                let i = below(&stack, d)?;
                let v = stack.remove(i);
                stack.push(v);
            }
            0x7b => {
                let i = below(&stack, 2)?;
                let v = stack.remove(i);
                stack.push(v);
            }
            0x7c => {
                let i = below(&stack, 1)?;
                stack.swap(i, i + 1);
            }
            0x7d => {
                let i = below(&stack, 1)?;
                let v = stack[i + 1].clone();
                stack.insert(i, v);
            }
            0x87 | 0x88 => {
                let b = pop(&mut stack)?;
                let a = pop(&mut stack)?;
                if op == 0x87 {
                    stack.push(encode((a == b) as i64));
                } else if a != b {
                    return Err("equalverify".to_string());
                }
            }
            0x8c => {
                let a = pop_num(&mut stack)?;
                stack.push(encode(a - 1));
            }
            0x91 => {
                let a = pop_num(&mut stack)?;
                stack.push(encode((a == 0) as i64));
            }
            0x92 => {
                let a = pop_num(&mut stack)?;
                stack.push(encode((a != 0) as i64));
            }
            0x93 | 0x94 | 0x9a | 0x9c | 0x9f | 0xa2 => {
                let b = pop_num(&mut stack)?;
                let a = pop_num(&mut stack)?;
                stack.push(encode(match op {
                    0x93 => a + b,
                    0x94 => a - b,
                    0x9a => (a != 0 && b != 0) as i64,
                    0x9c => (a == b) as i64,
                    0x9f => (a < b) as i64,
                    _ => (a >= b) as i64,
                }));
            }
            0xa9 => {
                let v = pop(&mut stack)?;
                stack.push(h160(&v).to_vec());
            }
            _ => return Err(format!("unexpected opcode {op:#x}")),
        }
        peak = peak.max(stack.len() + alt.len());
    }
    if !conds.is_empty() {
        return Err("unbalanced if".to_string());
    }
    Ok(Done { stack, peak })
}

fn execute(s: Script) -> Result<Done, String> {
    execute_bytes(s.into_script_buf().as_bytes())
}

/// Run a script and return the final stack, bottom first, as field elements.
fn run(s: Script) -> Vec<u32> {
    let done = execute(s).unwrap_or_else(|e| panic!("script failed: {e}"));
    done.stack
        .iter()
        .map(|v| {
            let n = decode(v);
            assert!(n >= 0, "negative value left on the stack: {n}");
            n as u32
        })
        .collect()
}

/// Push values, the last on top.
fn push(xs: &[u32]) -> Script {
    let mut s = Script::new();
    for x in xs {
        s = s.num(*x as i64);
    }
    s
}

/// Move `n` items to the altstack, one by one.
#[allow(dead_code)]
fn to_alt(n: usize) -> Script {
    let mut s = Script::new();
    for _ in 0..n {
        s = s.op(Opcode::ToAltStack);
    }
    s
}

fn rand_state(rng: &mut ChaCha20Rng) -> [u32; WIDTH] {
    core::array::from_fn(|_| rng.random_range(0..P))
}

/// A one-time key: one chain per digit, plus the checksum chains.
struct Key {
    secrets: Vec<[u8; 20]>,
    pks: Vec<[u8; 20]>,
}

fn keygen(n_elements: usize, rng: &mut ChaCha20Rng) -> Key {
    let n = winternitz::chains(n_elements * DIGITS_PER_ELEMENT);
    let secrets: Vec<[u8; 20]> = (0..n).map(|_| rng.random::<[u8; 20]>()).collect();
    // The public key is the far end of the chain: the hash applied W-1 times.
    let pks = secrets.iter().map(|sk| chain(sk, W - 1)).collect();
    Key { secrets, pks }
}

/// The hash applied `d` times: the signature for digit `d`.
fn chain(sk: &[u8; 20], d: usize) -> [u8; 20] {
    (0..d).fold(*sk, |acc, _| h160(&acc))
}

/// Message digits, least significant first, then the checksum digits.
fn digits(elements: &[u32]) -> Vec<u32> {
    let mut ds: Vec<u32> = Vec::new();
    for &x in elements {
        ds.extend_from_slice(&winternitz::digits_of(x));
    }
    let sum: u32 = ds.iter().sum();
    let check = (ds.len() * (W - 1)) as u32 - sum;
    let n_check = winternitz::checksum_digits(ds.len());
    for j in 0..n_check {
        ds.push((check >> (winternitz::LOG_W * j)) & (W as u32 - 1));
    }
    ds
}

/// The witness for given digits: chain 0 on top, so pairs are pushed in reverse.
fn sign_digits(key: &Key, ds: &[u32]) -> Script {
    assert_eq!(ds.len(), key.secrets.len());
    let mut s = Script::new();
    for (i, d) in ds.iter().enumerate().rev() {
        s = s.data(chain(&key.secrets[i], *d as usize).to_vec()).num(*d as i64);
    }
    s
}

fn sign(key: &Key, elements: &[u32]) -> Script {
    sign_digits(key, &digits(elements))
}

fn rand_elements(n: usize, rng: &mut ChaCha20Rng) -> Vec<u32> {
    (0..n).map(|_| rng.random_range(0..P)).collect()
}

// ---------------------------------------------------------------------------
// Commitments
// ---------------------------------------------------------------------------

#[test]
fn a_signature_opens_to_the_committed_state() {
    let mut rng = ChaCha20Rng::seed_from_u64(80);
    for n in [1usize, 4, WIDTH] {
        let key = keygen(n, &mut rng);
        let msg = rand_elements(n, &mut rng);
        let got = run(sign(&key, &msg).then_script(winternitz::verify(&key.pks, n)));
        assert_eq!(got, msg, "n = {n}: the recovered state is not the signed one");
    }
}

/// The property the whole layer exists for: a state nobody signed does not open.
#[test]
fn a_state_nobody_signed_does_not_open() {
    let mut rng = ChaCha20Rng::seed_from_u64(81);
    let n = 2usize;
    let key = keygen(n, &mut rng);
    let msg = rand_elements(n, &mut rng);

    let run_with =
        |ds: Vec<u32>| execute(sign_digits(&key, &ds).then_script(winternitz::verify(&key.pks, n)));

    // Changing a message digit without touching the checksum: the sum no longer
    // matches, which is the arithmetic the checksum exists to enforce.
    for i in [0usize, 3, 7, 8, 15] {
        let mut ds = digits(&msg);
        ds[i] = (ds[i] + 1) % W as u32;
        assert!(run_with(ds).is_err(), "digit {i} changed, checksum untouched: accepted");
    }

    // A consistently re-signed message *does* verify, and that is correct: it is
    // a valid signature over a different state, which only the key holder can
    // make.
    let mut other = msg.clone();
    other[0] ^= 1;
    assert!(run_with(digits(&other)).is_ok(), "a consistently re-signed message should verify");
}

/// Raising a digit with only the public keys is what a forger can actually try.
///
/// A signature for a *larger* digit is further along the chain, so raising one
/// is free to anyone holding the signature. Lowering the checksum to match
/// cannot be done without going backwards along a chain.
#[test]
fn a_forger_cannot_raise_a_digit() {
    let mut rng = ChaCha20Rng::seed_from_u64(82);
    let n = 2usize;
    let key = keygen(n, &mut rng);
    let msg = rand_elements(n, &mut rng);
    let honest = digits(&msg);
    let message_digits = n * DIGITS_PER_ELEMENT;

    // Pick a message digit the forger can raise, and raise it.
    let target =
        (0..message_digits).find(|&i| honest[i] + 1 < W as u32).expect("some digit is raisable");
    let mut forged = honest.clone();
    forged[target] += 1;

    // The checksum must fall by one. The forger can only move *forward* along a
    // chain from what it holds, so every checksum digit it can produce is at
    // least the honest one.
    let mut raised = honest[message_digits..].to_vec();
    raised[0] = (raised[0] + 1).min(W as u32 - 1);
    for attempt in [honest[message_digits..].to_vec(), raised] {
        let mut ds = forged.clone();
        ds.truncate(message_digits);
        ds.extend_from_slice(&attempt);
        let s = sign_digits(&key, &ds).then_script(winternitz::verify(&key.pks, n));
        assert!(execute(s).is_err(), "a forger raised a message digit and the signature still verified");
    }
}

#[test]
fn report_commitment_size() {
    let one = permutation::permute().len();
    let state = winternitz::verify_len(WIDTH);
    let step = disprove::largest_round();
    println!("\n  committing one state");
    println!("  --------------------");
    println!("  chains per state             {:>10}", winternitz::state_chains());
    println!("  verification                 {:>10} B", state);
    println!("  a committed step (2 states)  {:>10} B", 2 * state + step);
    println!("  as a share of a standard tx  {:>9.1}%", 100.0 * (2 * state + step) as f64 / 400_000.0);
    println!(
        "  the round alone              {:>10} B  ({:.1}%)",
        step,
        100.0 * step as f64 / (2.0 * state as f64 + step as f64)
    );
    println!("  one permutation, for scale   {:>10} B\n", one);
    assert_eq!(winternitz::state_chains(), 131);
}

/// A wrong digit pushed beside a right signature does not open either, whatever
/// the digit, and neither does one outside the range.
#[test]
fn a_digit_is_bound_to_its_signature() {
    let mut rng = ChaCha20Rng::seed_from_u64(83);
    let key = keygen(1, &mut rng);
    let honest = digits(&[0x1234_5678]);
    let verify = winternitz::verify(&key.pks, 1);
    let witness = |claimed: i64| {
        let mut s = Script::new();
        for (i, d) in honest.iter().enumerate().rev() {
            let shown = if i == 0 { claimed } else { *d as i64 };
            s = s.data(chain(&key.secrets[i], *d as usize).to_vec()).num(shown);
        }
        s.with(&verify)
    };
    assert_eq!(run(witness(honest[0] as i64)), vec![0x1234_5678]);
    for d in [-1i64, 0, 1, 2, 7, 15, 16, 17, 1000] {
        if d != honest[0] as i64 {
            assert!(execute(witness(d)).is_err(), "digit {d} was accepted for {}", honest[0]);
        }
    }
}

#[test]
fn digits_are_hexadecimal_and_least_significant_first() {
    assert_eq!(winternitz::digits_of(0x1234_5678), [8, 7, 6, 5, 4, 3, 2, 1]);
    assert_eq!(winternitz::digits_of(0), [0; 8]);
    assert_eq!(winternitz::digits_of(P - 1), [0, 0, 0, 0, 0, 0, 15, 7]);
    // Eight digits sum to at most 120, which takes two more.
    assert_eq!(winternitz::checksum_digits(8), 2);
    assert_eq!(winternitz::checksum_digits(128), 3);
    assert_eq!(winternitz::chains(8), 10);
    assert_eq!(winternitz::chains(128), 131);
}

/// The size of a verification depends on the number of elements and not on the
/// keys.
#[test]
fn commitment_size_does_not_depend_on_the_keys() {
    let mut rng = ChaCha20Rng::seed_from_u64(84);
    for n in [1usize, 3, WIDTH] {
        let a = keygen(n, &mut rng);
        let b = keygen(n, &mut rng);
        let len = winternitz::verify_len(n);
        assert_eq!(winternitz::verify(&a.pks, n).len(), len);
        assert_eq!(winternitz::verify(&b.pks, n).len(), len);
    }
}

/// No two messages' digits dominate each other once the checksum is there: some
/// digit goes down wherever one goes up.
#[test]
fn some_digit_always_goes_down() {
    let mut rng = ChaCha20Rng::seed_from_u64(85);
    let mut messages: Vec<Vec<u32>> = (0..20).map(|_| rand_elements(1, &mut rng)).collect();
    messages.push(vec![0]);
    messages.push(vec![1]);
    messages.push(vec![P - 1]);
    for a in messages.iter() {
        for b in messages.iter() {
            if a != b {
                let (x, y) = (digits(a), digits(b));
                assert!((0..x.len()).any(|i| x[i] > y[i]), "{a:?} is dominated by {b:?}");
            }
        }
    }
}

// ---------------------------------------------------------------------------
// Disproving
// ---------------------------------------------------------------------------

#[test]
fn differs_is_the_negation_of_equality() {
    let mut rng = ChaCha20Rng::seed_from_u64(70);
    for n in [1usize, 4, 16] {
        let a: Vec<u32> = (0..n).map(|_| rng.random_range(0..P)).collect();
        let same = run(push(&a).then_script(push(&a)).then_script(disprove::differs(n)));
        assert_eq!(same, vec![0], "n = {n}: equal vectors reported as differing");

        // Every position on its own has to be enough.
        for i in 0..n {
            let mut b = a.clone();
            b[i] = reference::add(b[i], 1);
            let got = run(push(&a).then_script(push(&b)).then_script(disprove::differs(n)));
            assert_eq!(got, vec![1], "n = {n}: a difference at {i} went unnoticed");
        }
    }
}

/// The honest output of rounds `first .. first + len`.
fn honest_output(state: &[u32], first: usize, len: usize) -> Vec<u32> {
    let mut s = push(state);
    for r in permutation::rounds().into_iter().skip(first).take(len) {
        s = s.then_script(r);
    }
    run(s)
}

/// The honest step is *not* disprovable, and every wrong one is.
///
/// The first half is the half that matters. A predicate that fires on an honest
/// step is not a weak disprove, it is a way to take a bond from someone who did
/// nothing wrong.
#[test]
fn a_round_is_disprovable_exactly_when_it_is_wrong() {
    let mut rng = ChaCha20Rng::seed_from_u64(71);
    let n_rounds = disprove::rounds_per_permutation();

    for i in [0usize, 1, n_rounds / 2, n_rounds - 1] {
        let state = rand_state(&mut rng);
        let honest = honest_output(&state, i, 1);
        assert_eq!(honest.len(), WIDTH);

        let got = run(push(&honest).then_script(push(&state)).then_script(disprove::round(i)));
        assert_eq!(got, vec![0], "round {i}: an honest step was disprovable");

        for j in [0usize, WIDTH / 2, WIDTH - 1] {
            let mut lie = honest.clone();
            lie[j] = reference::add(lie[j], 1);
            let got = run(push(&lie).then_script(push(&state)).then_script(disprove::round(i)));
            assert_eq!(got, vec![1], "round {i}: a lie about element {j} was not disprovable");
        }
    }
}

/// What a step costs, and what that means for the chunk count.
///
/// Two limits: 400 000 weight units for a transaction a node will relay, and
/// 4 000 000 for a block. Script is witness data, so one byte is one unit.
#[test]
fn report_step_size() {
    const STANDARD_TX_WU: usize = 400_000;
    let n_rounds = disprove::rounds_per_permutation();
    let one = permutation::permute().len();
    let largest = disprove::largest_round();

    println!("\n  a step is one permutation round");
    println!("  -------------------------------");
    println!("  rounds per permutation       {n_rounds:>12}");
    println!("  one permutation              {one:>12} B");
    println!("  largest disprove step        {largest:>12} B");
    println!("  as a share of a standard tx  {:>11.1}%", 100.0 * largest as f64 / STANDARD_TX_WU as f64);
    println!("  steps that fit in one        {:>12}", STANDARD_TX_WU / largest);
    println!();

    assert!(
        largest < STANDARD_TX_WU,
        "a disprove step is {largest} B, past the {STANDARD_TX_WU} weight units a node will relay: \
         the chunking has to go finer than one permutation round"
    );
    let sizes: Vec<usize> = (0..n_rounds).map(|i| disprove::round(i).len()).collect();
    assert_eq!(sizes.iter().max(), Some(&largest), "the largest step is not the largest");
}

/// The complete predicate: honest is not disprovable, wrong is, unsigned aborts.
///
/// The third case is the one the commitment layer exists for. Without it a
/// spender picks whatever pair of states makes the predicate fire.
#[test]
fn a_committed_round_is_disprovable_exactly_when_the_prover_lied() {
    let mut rng = ChaCha20Rng::seed_from_u64(90);
    let i = disprove::rounds_per_permutation() / 2;
    let state = rand_state(&mut rng);
    let honest = honest_output(&state, i, 1);

    let key_in = keygen(WIDTH, &mut rng);
    let key_out = keygen(WIDTH, &mut rng);
    let predicate = disprove::round_committed(i, &key_out.pks, &key_in.pks);
    let spend = |out: &[u32], out_key: &Key| {
        sign(out_key, out).then_script(sign(&key_in, &state)).with(&predicate)
    };

    // Two signatures and two items more are the most the stacks ever hold.
    let done = execute(spend(&honest, &key_out)).unwrap();
    assert!(done.peak <= 4 * winternitz::state_chains() + 2, "peak of {} items", done.peak);

    // The prover signed the honest output: nothing to disprove.
    assert_eq!(run(spend(&honest, &key_out)), vec![0], "an honest committed step was disprovable");

    // The prover signed a wrong output: the bond is claimable.
    let mut lie = honest.clone();
    lie[3] = reference::add(lie[3], 1);
    assert_eq!(run(spend(&lie, &key_out)), vec![1], "a signed lie was not disprovable");

    // A state nobody signed: the spend does not even run to a verdict.
    let other = keygen(WIDTH, &mut rng);
    assert!(
        execute(spend(&lie, &other)).is_err(),
        "a state signed with the wrong key was accepted -- the predicate is unbound"
    );
}

/// What a committed step costs, which is what a chunk is measured by.
#[test]
fn report_committed_step_size() {
    const STANDARD_TX_WU: usize = 400_000;
    let bare = disprove::largest_round();
    let committed = disprove::largest_committed_round();
    println!("\n  a step, bare and committed");
    println!("  --------------------------");
    println!("  round alone                  {bare:>10} B");
    println!("  with both states signed      {committed:>10} B");
    println!(
        "  the commitment layer         {:>10} B  ({:.0}% of the step)",
        committed - bare,
        100.0 * (committed - bare) as f64 / committed as f64
    );
    println!("  as a share of a standard tx  {:>9.1}%", 100.0 * committed as f64 / STANDARD_TX_WU as f64);
    println!("  committed steps per tx       {:>10}", STANDARD_TX_WU / committed);
    println!("  witness items                {:>10}  (limit 1000)", 4 * winternitz::state_chains());
    println!();
    assert!(committed < STANDARD_TX_WU, "a committed step does not relay");
    assert!(4 * winternitz::state_chains() < 1000, "two signatures do not fit the stack limit");
}

/// A committed step is a bare step, two signatures, and the state parked and
/// restored between them.
#[test]
fn a_committed_step_adds_two_signatures() {
    let bare = disprove::largest_round();
    assert_eq!(winternitz::verify_len(WIDTH), 21_931);
    assert_eq!(disprove::largest_committed_round(), bare + 2 * winternitz::verify_len(WIDTH) + 2 * WIDTH);
    assert_eq!(bare, 50_126);
    assert_eq!(disprove::largest_committed_round(), 94_020);
    assert_eq!(disprove::differs(WIDTH).len(), 98);
}

/// A length fits a budget exactly when its largest chunk does.
#[test]
fn the_longest_chunk_is_the_last_that_fits() {
    let n = disprove::rounds_per_permutation();
    assert_eq!(disprove::max_chunk_len(0), 0);
    assert_eq!(disprove::max_chunk_len(400_000), 22);
    let mut last = 0;
    for budget in [disprove::largest_chunk(1) - 1, disprove::largest_chunk(1), 400_000] {
        let longest = disprove::max_chunk_len(budget);
        assert!(last <= longest && longest <= n);
        last = longest;
        for len in [1usize, 2, longest, longest + 1] {
            if 1 <= len && len <= n {
                assert_eq!(disprove::largest_chunk(len) <= budget, len <= longest, "{len} rounds in {budget}");
            }
        }
    }
}

/// A chunk of several rounds, committed only at its ends.
#[test]
fn a_committed_chunk_is_disprovable_exactly_when_the_prover_lied() {
    let mut rng = ChaCha20Rng::seed_from_u64(91);
    let len = disprove::max_chunk_len(400_000);
    assert!(len >= 2, "a chunk of one round is no better than a step");
    let first = 1usize;

    let state = rand_state(&mut rng);
    let honest = honest_output(&state, first, len);
    assert_eq!(honest.len(), WIDTH);

    let key_in = keygen(WIDTH, &mut rng);
    let key_out = keygen(WIDTH, &mut rng);
    let predicate = disprove::chunk_committed(first, len, &key_out.pks, &key_in.pks);
    let spend = |out: &[u32], out_key: &Key| {
        sign(out_key, out).then_script(sign(&key_in, &state)).with(&predicate)
    };

    assert_eq!(run(spend(&honest, &key_out)), vec![0], "an honest chunk was disprovable");

    let mut lie = honest.clone();
    lie[9] = reference::add(lie[9], 1);
    assert_eq!(run(spend(&lie, &key_out)), vec![1], "a signed lie was not disprovable");

    let other = keygen(WIDTH, &mut rng);
    assert!(execute(spend(&lie, &other)).is_err(), "a state signed with the wrong key was accepted");
}

/// What chunking buys, which is setup rather than on-chain cost.
#[test]
fn report_chunk_length() {
    const STANDARD_TX_WU: usize = 400_000;
    let len = disprove::max_chunk_len(STANDARD_TX_WU);
    let per_perm = disprove::rounds_per_permutation();

    println!("\n  how long a chunk can be");
    println!("  -----------------------");
    println!("  len   bytes      of a standard tx   commitments per permutation");
    for l in [1usize, 2, 4, len, len + 1] {
        if l == 0 || l > per_perm {
            continue;
        }
        let b = disprove::largest_chunk(l);
        let fits = if b <= STANDARD_TX_WU { "" } else { "   (does not relay)" };
        println!(
            "  {l:>3} {b:>10} B {:>15.1}% {:>25}{fits}",
            100.0 * b as f64 / STANDARD_TX_WU as f64,
            per_perm.div_ceil(l),
        );
    }
    println!(
        "\n  longest chunk that relays: {len} rounds, so {} commitments per\n  \
         permutation rather than {per_perm} -- a {:.1}x cut in setup.\n",
        per_perm.div_ceil(len),
        per_perm as f64 / per_perm.div_ceil(len) as f64,
    );
    for l in 1..len {
        assert!(disprove::largest_chunk(l) < disprove::largest_chunk(l + 1));
    }
    assert_eq!(disprove::largest_chunk(1), disprove::largest_committed_round());
    assert!(disprove::largest_chunk(len) <= STANDARD_TX_WU);
    assert!(disprove::largest_chunk(len + 1) > STANDARD_TX_WU);
}
