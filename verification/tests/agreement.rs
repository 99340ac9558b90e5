//! Agreement with Plonky3: the plain arithmetic against its field, its
//! permutation and its challenger, and the scripts against real proofs of its
//! WHIR prover.

use bitcoin::hashes::hash160;
use bitcoin_stark_verifier::constants::{P, WIDTH};
use bitcoin_stark_verifier::merkle::{self, DIGEST};
use bitcoin_stark_verifier::reference as pf;
use bitcoin_stark_verifier::script::{Opcode, Script};
use bitcoin_stark_verifier::whir::{constraint, multilinear, protocol, reference, sumcheck};
use p3_challenger::{CanObserve, CanSample, CanSampleBits, DuplexChallenger};
use p3_commit::{Mmcs, MultilinearPcs};
use p3_dft::Radix2DFTSmallBatch;
use p3_field::extension::BinomialExtensionField;
use p3_field::{BasedVectorSpace, Field, PrimeCharacteristicRing, PrimeField32};
use p3_koala_bear::{default_koalabear_poseidon2_16, KoalaBear, Poseidon2KoalaBear};
use p3_matrix::dense::RowMajorMatrix;
use p3_merkle_tree::MerkleTreeMmcs;
use p3_multilinear_util::point::Point;
use p3_sumcheck::layout::{Layout, PrefixProver, Table};
use p3_sumcheck::{OpeningBatch, OpeningProtocol, TableShape, TableSpec};
use p3_symmetric::{
    CryptographicHasher, PaddingFreeSponge, Permutation, PseudoCompressionFunction,
    TruncatedPermutation,
};
use p3_whir::fiat_shamir::domain_separator::DomainSeparator;
use p3_whir::parameters::{FoldingFactor, ProtocolParameters, SecurityAssumption, WhirConfig};
use p3_whir::pcs::proof::{PcsProof, QueryOpenings};
use p3_whir::pcs::prover::WhirProver;
use rand::{Rng, SeedableRng};
use rand_chacha::ChaCha20Rng;

/// What running a script left behind: the stack, and the most items the two
/// stacks ever held together.
struct Done {
    stack: Vec<Vec<u8>>,
    #[allow(dead_code)]
    peak: usize,
}

/// The value of a script number of any length.
fn decode(v: &[u8]) -> i64 {
    if v.is_empty() {
        return 0;
    }
    let mut n: i64 = 0;
    for (i, b) in v.iter().enumerate() {
        n |= (*b as i64) << (8 * i);
    }
    if v[v.len() - 1] & 0x80 != 0 {
        n &= !(0x80i64 << (8 * (v.len() - 1)));
        return -n;
    }
    n
}

/// The minimal script number.
fn encode(n: i64) -> Vec<u8> {
    let mut out: Vec<u8> = Vec::new();
    let mut m = n.unsigned_abs();
    while m > 0 {
        out.push((m & 0xff) as u8);
        m >>= 8;
    }
    if let Some(last) = out.last().copied() {
        let sign: u8 = if n < 0 { 0x80 } else { 0 };
        if last & 0x80 != 0 {
            out.push(sign);
        } else {
            let k = out.len() - 1;
            out[k] |= sign;
        }
    }
    out
}

fn h160(x: &[u8]) -> [u8; 20] {
    let h = <hash160::Hash as bitcoin::hashes::Hash>::hash(x);
    bitcoin::hashes::Hash::to_byte_array(h)
}

fn truthy(v: &[u8]) -> bool {
    v.iter().enumerate().any(|(i, b)| *b != 0 && !(i == v.len() - 1 && *b == 0x80))
}

fn pop(stack: &mut Vec<Vec<u8>>) -> Result<Vec<u8>, String> {
    stack.pop().ok_or_else(|| "stack underflow".to_string())
}

/// A numeric operand: at most four bytes, minimally encoded.
fn pop_num(stack: &mut Vec<Vec<u8>>) -> Result<i64, String> {
    let v = pop(stack)?;
    if v.len() > 4 {
        return Err("numeric operand too long".to_string());
    }
    let n = decode(&v);
    if encode(n) != v {
        return Err("numeric operand not minimal".to_string());
    }
    Ok(n)
}

/// The position of the item `depth` below the top.
fn below(stack: &[Vec<u8>], depth: i64) -> Result<usize, String> {
    if depth < 0 || depth >= stack.len() as i64 {
        return Err(format!("depth {depth} outside the stack"));
    }
    Ok(stack.len() - 1 - depth as usize)
}

/// Run tapscript bytes on empty stacks.
fn execute_bytes(code: &[u8]) -> Result<Done, String> {
    let mut stack: Vec<Vec<u8>> = Vec::new();
    let mut alt: Vec<Vec<u8>> = Vec::new();
    let mut conds: Vec<bool> = Vec::new();
    let mut peak = 0usize;
    let mut at = 0usize;
    while at < code.len() {
        let op = code[at];
        at += 1;
        let live = conds.iter().all(|c| *c);
        if op <= 0x4b {
            let end = at + op as usize;
            if end > code.len() {
                return Err("push past the end".to_string());
            }
            if live {
                stack.push(code[at..end].to_vec());
                peak = peak.max(stack.len() + alt.len());
            }
            at = end;
            continue;
        }
        if (0x63..=0x68).contains(&op) {
            match op {
                0x63 | 0x64 => {
                    let mut taken = false;
                    if live {
                        let v = pop(&mut stack)?;
                        if !(v.is_empty() || v == [1]) {
                            return Err("condition not minimal".to_string());
                        }
                        taken = truthy(&v) == (op == 0x63);
                    }
                    conds.push(taken);
                }
                0x67 => {
                    let c = conds.pop().ok_or("unbalanced else")?;
                    conds.push(!c);
                }
                0x68 => {
                    conds.pop().ok_or("unbalanced endif")?;
                }
                _ => return Err(format!("unexpected opcode {op:#x}")),
            }
            continue;
        }
        if !live {
            continue;
        }
        match op {
            0x4f => stack.push(encode(-1)),
            0x51..=0x60 => stack.push(encode(op as i64 - 0x50)),
            0x6b => {
                let v = pop(&mut stack)?;
                alt.push(v);
            }
            0x6c => {
                let v = alt.pop().ok_or("altstack underflow")?;
                stack.push(v);
            }
            0x6d => {
                pop(&mut stack)?;
                pop(&mut stack)?;
            }
            0x75 => {
                pop(&mut stack)?;
            }
            0x76 => {
                let i = below(&stack, 0)?;
                stack.push(stack[i].clone());
            }
            0x78 => {
                let i = below(&stack, 1)?;
                stack.push(stack[i].clone());
            }
            0x79 => {
                let d = pop_num(&mut stack)?;
                let i = below(&stack, d)?;
                stack.push(stack[i].clone());
            }
            0x7a => {
                let d = pop_num(&mut stack)?;
                let i = below(&stack, d)?;
                let v = stack.remove(i);
                stack.push(v);
            }
            0x7b => {
                let i = below(&stack, 2)?;
                let v = stack.remove(i);
                stack.push(v);
            }
            0x7c => {
                let i = below(&stack, 1)?;
                stack.swap(i, i + 1);
            }
            0x7d => {
                let i = below(&stack, 1)?;
                let v = stack[i + 1].clone();
                stack.insert(i, v);
            }
            0x87 | 0x88 => {
                let b = pop(&mut stack)?;
                let a = pop(&mut stack)?;
                if op == 0x87 {
                    stack.push(encode((a == b) as i64));
                } else if a != b {
                    return Err("equalverify".to_string());
                }
            }
            0x8c => {
                let a = pop_num(&mut stack)?;
                stack.push(encode(a - 1));
            }
            0x91 => {
                let a = pop_num(&mut stack)?;
                stack.push(encode((a == 0) as i64));
            }
            0x92 => {
                let a = pop_num(&mut stack)?;
                stack.push(encode((a != 0) as i64));
            }
            0x93 | 0x94 | 0x9a | 0x9c | 0x9f | 0xa2 => {
                let b = pop_num(&mut stack)?;
                let a = pop_num(&mut stack)?;
                stack.push(encode(match op {
                    0x93 => a + b,
                    0x94 => a - b,
                    0x9a => (a != 0 && b != 0) as i64,
                    0x9c => (a == b) as i64,
                    0x9f => (a < b) as i64,
                    _ => (a >= b) as i64,
                }));
            }
            0xa9 => {
                let v = pop(&mut stack)?;
                stack.push(h160(&v).to_vec());
            }
            _ => return Err(format!("unexpected opcode {op:#x}")),
        }
        peak = peak.max(stack.len() + alt.len());
    }
    if !conds.is_empty() {
        return Err("unbalanced if".to_string());
    }
    Ok(Done { stack, peak })
}

fn execute(s: Script) -> Result<Done, String> {
    execute_bytes(s.into_script_buf().as_bytes())
}

/// Run a script and return the final stack, bottom first, as field elements.
fn run(s: Script) -> Vec<u32> {
    let done = execute(s).unwrap_or_else(|e| panic!("script failed: {e}"));
    done.stack
        .iter()
        .map(|v| {
            let n = decode(v);
            assert!(n >= 0, "negative value left on the stack: {n}");
            n as u32
        })
        .collect()
}

/// Push values, the last on top.
fn push(xs: &[u32]) -> Script {
    let mut s = Script::new();
    for x in xs {
        s = s.num(*x as i64);
    }
    s
}

/// Move `n` items to the altstack, one by one.
#[allow(dead_code)]
fn to_alt(n: usize) -> Script {
    let mut s = Script::new();
    for _ in 0..n {
        s = s.op(Opcode::ToAltStack);
    }
    s
}

type F = KoalaBear;
type EF = BinomialExtensionField<F, 4>;
type Perm = Poseidon2KoalaBear<16>;
type MyHash = PaddingFreeSponge<Perm, 16, 8, 8>;
type MyCompress = TruncatedPermutation<Perm, 2, 8, 16>;
type MyChallenger = DuplexChallenger<F, Perm, 16, 8>;
type PackedF = <F as Field>::Packing;
type MyMmcs = MerkleTreeMmcs<PackedF, PackedF, MyHash, MyCompress, 2, 8>;
type MyDft = Radix2DFTSmallBatch<F>;
type Prover = PrefixProver<F, EF>;
type Pcs = WhirProver<EF, F, MyDft, MyMmcs, MyChallenger, Prover>;
type Commit = <MyMmcs as Mmcs<F>>::Commitment;

fn ef(a: [u32; 4]) -> EF {
    EF::from_basis_coefficients_fn(|i| F::new(a[i]))
}

/// An extension element as its four canonical coefficients.
fn coeffs(x: EF) -> [u32; 4] {
    let c: &[F] = x.as_basis_coefficients_slice();
    core::array::from_fn(|i| c[i].as_canonical_u32())
}

fn digest(d: &[F; DIGEST]) -> [u32; DIGEST] {
    core::array::from_fn(|i| d[i].as_canonical_u32())
}

fn rand_ef(rng: &mut ChaCha20Rng) -> [u32; 4] {
    core::array::from_fn(|_| rng.random_range(0..P))
}

fn rand_efs(n: usize, rng: &mut ChaCha20Rng) -> Vec<[u32; 4]> {
    (0..n).map(|_| rand_ef(rng)).collect()
}

fn push_efs(xs: &[[u32; 4]]) -> Script {
    let mut s = Script::new();
    for x in xs {
        s = s.then_script(push(x));
    }
    s
}

fn park_efs(xs: &[[u32; 4]]) -> Script {
    let mut s = Script::new();
    for x in xs {
        s = s.then_script(push(x)).then_script(to_alt(4));
    }
    s
}

// ---------------------------------------------------------------------------
// The field and the permutation
// ---------------------------------------------------------------------------

/// The reference must agree with `BinomialExtensionField<KoalaBear, 4>`.
#[test]
fn ext4_reference_matches_plonky3() {
    let mut rng = ChaCha20Rng::seed_from_u64(101);
    for _ in 0..20 {
        let a = rand_ef(&mut rng);
        let b = rand_ef(&mut rng);
        assert_eq!(pf::ext4::mul(a, b), coeffs(ef(a) * ef(b)), "mul");
        assert_eq!(pf::ext4::add(a, b), coeffs(ef(a) + ef(b)), "add");
        assert_eq!(pf::ext4::sub(a, b), coeffs(ef(a) - ef(b)), "sub");
    }
    assert_eq!(pf::ext4::W, 3, "W must match BinomialExtensionData<4>");
}

#[test]
fn plonky3_agreement_reference_matches_plonky3() {
    let perm = default_koalabear_poseidon2_16();
    let mut rng = ChaCha20Rng::seed_from_u64(7);

    for _ in 0..8 {
        let raw: [u32; WIDTH] = core::array::from_fn(|_| rng.random_range(0..P));

        let mut theirs: [KoalaBear; WIDTH] = core::array::from_fn(|i| KoalaBear::new(raw[i]));
        perm.permute_mut(&mut theirs);
        let theirs: Vec<u32> = theirs.iter().map(|x| x.as_canonical_u32()).collect();

        let mut ours = raw;
        pf::permute(&mut ours);

        assert_eq!(ours.to_vec(), theirs, "reference diverged from Plonky3");
    }
}

/// The all-zero input is the case most likely to hide a missing round constant.
#[test]
fn reference_matches_plonky3_on_zero() {
    let perm = default_koalabear_poseidon2_16();
    let mut theirs = [KoalaBear::ZERO; WIDTH];
    perm.permute_mut(&mut theirs);
    let theirs: Vec<u32> = theirs.iter().map(|x| x.as_canonical_u32()).collect();

    let mut ours = [0u32; WIDTH];
    pf::permute(&mut ours);

    assert_eq!(ours.to_vec(), theirs);
}

/// Row digests are the padding-free sponge's, on either side of a chunk.
#[test]
fn row_digests_match_plonky3() {
    let h = MyHash::new(default_koalabear_poseidon2_16());
    let mut rng = ChaCha20Rng::seed_from_u64(8);
    for n in [1usize, 7, 8, 9, 16, 20] {
        let row: Vec<u32> = (0..n).map(|_| rng.random_range(0..P)).collect();
        let theirs: [F; DIGEST] = h.hash_iter(row.iter().map(|x| F::new(*x)));
        assert_eq!(pf::hash_row(&row), digest(&theirs), "row of {n}");
    }
}

/// The duplex step and what is read from the rate are the challenger's.
///
/// The challenger hands rate elements out from the back, so they are compared
/// with the rate reversed.
#[test]
fn the_duplex_matches_plonky3() {
    let mut rng = ChaCha20Rng::seed_from_u64(9);
    for k in 1..=8usize {
        let inputs: Vec<u32> = (0..k).map(|_| rng.random_range(0..P)).collect();
        let mut theirs = MyChallenger::new(default_koalabear_poseidon2_16());
        for x in inputs.iter() {
            theirs.observe(F::new(*x));
        }
        let mut state = [0u32; WIDTH];
        reference::duplexing(&mut state, &inputs);
        for j in 0..8usize {
            let sampled: F = theirs.sample();
            assert_eq!(sampled.as_canonical_u32(), state[7 - j], "{k} inputs, element {j}");
        }
        // The next index needs another permutation, and is its low bits.
        let rate = reference::squeeze(&mut state);
        assert_eq!(theirs.sample_bits(21) as u32, reference::sample_bits(rate[7], 21), "{k} inputs");
    }
}

// ---------------------------------------------------------------------------
// The equality polynomial and the expansion
// ---------------------------------------------------------------------------

/// The script uses `1 + 2*z*r - z - r` and the reference uses
/// `z*r + (1-z)*(1-r)`; `Point::eval_eq` says what both should be.
#[test]
fn eq_eval_matches_plonky3() {
    let mut rng = ChaCha20Rng::seed_from_u64(48);
    for n in 1..6usize {
        let z = rand_efs(n, &mut rng);
        let r = rand_efs(n, &mut rng);

        let zp: Vec<EF> = z.iter().map(|c| ef(*c)).collect();
        let rp: Vec<EF> = r.iter().map(|c| ef(*c)).collect();
        let want = coeffs(Point::eval_eq::<EF>(&zp, &rp));

        assert_eq!(reference::eq_eval(&z, &r), want, "n = {n}: reference disagrees with Plonky3");

        let got = run(park_efs(&z).then_script(push_efs(&r)).then_script(constraint::eq_eval(n)));
        assert_eq!(&got[4 * n..], want.as_slice(), "n = {n}: script disagrees with Plonky3");
    }
}

/// The order matters twice over: it has to be Plonky3's, and it has to reach the
/// altstack in the order `eq_eval` pops coordinates.
#[test]
fn expand_univariate_matches_plonky3() {
    let mut rng = ChaCha20Rng::seed_from_u64(53);
    for m in 1..6usize {
        let u = rand_ef(&mut rng);
        let want: Vec<[u32; 4]> = Point::expand_from_univariate(ef(u), m).into_iter().map(coeffs).collect();
        assert_eq!(reference::expand_univariate(u, m), want, "m = {m}: reference expansion");

        // The script leaves the point on the altstack, so read it back through
        // the routine that consumes it.
        let r = rand_efs(m, &mut rng);
        let got = run(
            push(&u)
                .then_script(constraint::expand_univariate(m))
                .then_script(push_efs(&r))
                .then_script(constraint::eq_eval(m)),
        );
        assert_eq!(
            &got[4 * m..],
            reference::eq_eval(&want, &r).as_slice(),
            "m = {m}: the expansion reached eq_eval in the wrong order"
        );
    }
}

// ---------------------------------------------------------------------------
// Real proofs
// ---------------------------------------------------------------------------

fn new_challenger() -> MyChallenger {
    MyChallenger::new(default_koalabear_poseidon2_16())
}

/// The default instance: the scripts implement its round constants.
fn new_mmcs() -> MyMmcs {
    let perm = default_koalabear_poseidon2_16();
    MyMmcs::new(MyHash::new(perm.clone()), MyCompress::new(perm), 0)
}

fn round_log_inv_rates(num_variables: usize, ff: &FoldingFactor) -> Vec<usize> {
    let schedule = ff.compute_folding_schedule(num_variables).expect("valid schedule");
    let mut rates = Vec::with_capacity(schedule.len() - 1);
    let mut rate = 1;
    for &folding in schedule.iter().take(schedule.len() - 1) {
        rate += folding - 1;
        rates.push(rate);
    }
    rates
}

/// Produce a real WHIR proof over KoalaBear with Plonky3's prover, and verify it
/// with Plonky3's own verifier before any script sees it.
fn prove(security_level: usize, rate_log: usize) -> (Commit, PcsProof<F, EF, MyMmcs>) {
    let folding_factor = FoldingFactor::Constant(2);
    let folding = folding_factor.at_round(0);

    let (width, num_vars) = (2usize, 6usize);
    let specs = vec![TableSpec::new(
        TableShape::new(num_vars, width),
        vec![OpeningBatch::new(vec![0], vec![])],
    )];
    let mut rng = ChaCha20Rng::seed_from_u64(7);
    let values: Vec<F> = (0..width << num_vars).map(|_| F::new(rng.random_range(0..P))).collect();
    let tables: Vec<Table<F>> = vec![Table::new(RowMajorMatrix::new(values, 1 << num_vars))];
    let witness = <Prover as Layout<F, EF>>::new_witness(tables, folding);
    let protocol = OpeningProtocol::new(specs).pad_to_min_num_variables(folding);
    let num_variables = witness.num_variables();

    let params = ProtocolParameters {
        security_level,
        pow_bits: 0,
        round_log_inv_rates: round_log_inv_rates(num_variables, &folding_factor),
        folding_factor,
        soundness_type: SecurityAssumption::CapacityBound,
        starting_log_inv_rate: rate_log,
    };
    let config = WhirConfig::new(num_variables, params).expect("config");
    let pcs = Pcs::new(config, MyDft::default(), new_mmcs());

    let mut ch = new_challenger();
    let mut ds = DomainSeparator::new(vec![]);
    pcs.add_domain_separator::<8>(&mut ds);
    ds.observe_domain_separator(&mut ch);
    let (commitment, prover_data) =
        <Pcs as MultilinearPcs<EF, MyChallenger>>::commit(&pcs, witness, &mut ch);
    let proof = <Pcs as MultilinearPcs<EF, MyChallenger>>::open(
        &pcs,
        prover_data,
        protocol.clone(),
        &mut ch,
    );

    // Fresh challenger and domain separator, as the verifier is a separate
    // party.
    let mut ch = new_challenger();
    let mut ds = DomainSeparator::new(vec![]);
    pcs.add_domain_separator::<8>(&mut ds);
    ds.observe_domain_separator(&mut ch);
    <Pcs as MultilinearPcs<EF, MyChallenger>>::verify(&pcs, &commitment, &proof, &mut ch, protocol)
        .expect("Plonky3's own verifier must accept the proof before any script sees it");

    (commitment, proof)
}

/// Produce a real WHIR proof and re-derive its initial sumcheck claim in script.
#[test]
fn plonky3_proof_verifies_the_sumcheck_in_bitcoin_script() {
    let (_c, proof) = prove(32, 1);

    // The prover's own initial sumcheck: pairs of (h(0), h(inf)) it chose to send.
    let sent = &proof.whir.initial_sumcheck.polynomial_evaluations;
    assert!(!sent.is_empty(), "the proof carries no initial sumcheck rounds");
    println!("\n  real proof: {} initial sumcheck round(s)", sent.len());

    // Re-derive each round in script. The claim chains, so a single wrong round
    // breaks every one after it.
    let mut claim = EF::ONE;
    for (i, &[c0, c_inf]) in sent.iter().enumerate() {
        let r = EF::from_basis_coefficients_fn(|k| F::new(((i as u32 + 1) * 7 + k as u32) % 97));

        let operands = [coeffs(claim), coeffs(c0), coeffs(c_inf), coeffs(r)];
        let want = reference::sumcheck_round(operands[0], operands[1], operands[2], operands[3]);

        let got = run(push_efs(&operands).then_script(sumcheck::sumcheck_round()));
        assert_eq!(got, want.to_vec(), "script disagreed on round {i} of a real proof");

        claim = ef(want);
        println!("  round {i}: script and reference agree on the prover's values");
    }
    println!("  end to end: real Plonky3 proof re-derived in Bitcoin Script\n");
}

/// The prover's final polynomial, evaluated in Bitcoin Script and checked
/// against Plonky3's own `eval_ext`.
#[test]
fn final_polynomial_evaluates_the_same_in_script() {
    let (_c, proof) = prove(32, 1);
    let final_poly = proof.whir.final_poly.as_ref().expect("proof carries a final polynomial");
    let evals: Vec<EF> = final_poly.as_slice().to_vec();
    let n = evals.len().trailing_zeros() as usize;
    assert_eq!(1usize << n, evals.len(), "final polynomial length is a power of two");
    println!("\n  real proof: final polynomial over {n} variable(s), {} evals", evals.len());

    // A point of the right arity; the identity under test is the evaluation,
    // not where it is evaluated.
    let point: Vec<EF> = (0..n)
        .map(|i| EF::from_basis_coefficients_fn(|k| F::new((3 * i as u32 + k as u32 + 1) % 89)))
        .collect();
    let want = coeffs(final_poly.eval_ext::<F>(&Point::new(point.clone())));

    let evals_c: Vec<[u32; 4]> = evals.iter().map(|e| coeffs(*e)).collect();
    let point_c: Vec<[u32; 4]> = point.iter().map(|x| coeffs(*x)).collect();
    let got = run(
        push_efs(&evals_c).then_script(park_efs(&point_c)).then_script(multilinear::eval_multilinear(n)),
    );
    assert_eq!(got, want.to_vec(), "script disagreed with Plonky3's eval_ext");
    println!("  script matches Plonky3's eval_ext on the prover's polynomial\n");
}

/// Root, siblings deepest-last and leaf on the stack, directions on the
/// altstack, the first level's on top.
fn opening(root: &[u32], sibs: &[[u32; DIGEST]], leaf: &[u32], bits: &[bool]) -> Script {
    let mut s = push(root);
    for sib in sibs.iter().rev() {
        s = s.then_script(push(sib));
    }
    s = s.then_script(push(leaf));
    for b in bits.iter().rev() {
        s = s.num(*b as i64).op(Opcode::ToAltStack);
    }
    s.then_script(merkle::merkle_verify_from_altstack(sibs.len()))
}

fn index_bits(index: usize, depth: usize) -> Vec<bool> {
    (0..depth).map(|i| (index >> i) & 1 == 1).collect()
}

/// A Merkle path from Plonky3's own MMCS, verified in Bitcoin Script.
#[test]
fn plonky3_merkle_path_verifies_in_bitcoin_script() {
    let mmcs = new_mmcs();

    // One column of 2^depth rows, so a leaf is the hash of a single element and
    // the tree has exactly `depth` levels.
    let depth = 4usize;
    let height = 1usize << depth;
    let values: Vec<F> = (0..height).map(|i| F::new(1000 + i as u32)).collect();
    let (root, prover_data) = mmcs.commit_matrix(RowMajorMatrix::new(values, 1));

    // A cap of height 0 is a single root digest.
    let root_c: Vec<u32> = root.roots()[0].iter().map(|x| x.as_canonical_u32()).collect();
    assert_eq!(root_c.len(), DIGEST);

    let index = 11usize;
    let opened = mmcs.open_batch(index, &prover_data);
    let siblings = &opened.opening_proof;
    assert_eq!(siblings.len(), depth, "one sibling per level");

    // The leaf is the hash of the opened row, which is what the tree stores.
    let h = MyHash::new(default_koalabear_poseidon2_16());
    let leaf_d: [F; DIGEST] = h.hash_iter(opened.opened_values[0].iter().copied());
    let leaf = digest(&leaf_d);

    // Direction bits are the index, least significant first.
    let bits = index_bits(index, depth);
    let sibs: Vec<[u32; DIGEST]> = siblings.iter().map(digest).collect();

    // Does the compression equal Plonky3's TruncatedPermutation?
    let c = MyCompress::new(default_koalabear_poseidon2_16());
    let l: [F; DIGEST] = core::array::from_fn(|i| F::new(100 + i as u32));
    let r: [F; DIGEST] = core::array::from_fn(|i| F::new(200 + i as u32));
    assert_eq!(
        pf::compress(&digest(&l), &digest(&r)),
        digest(&c.compress([l, r])),
        "compression disagrees with TruncatedPermutation"
    );

    // Does the reference reproduce Plonky3's root from the same leaf, siblings
    // and bits?
    let recomputed = pf::merkle_root(leaf, &sibs, &bits);
    assert_eq!(recomputed.to_vec(), root_c, "reference disagrees with Plonky3's root");

    let ok = execute(opening(&root_c, &sibs, &leaf, &bits));
    assert!(ok.is_ok(), "a real Plonky3 Merkle path was rejected by the script");
    println!("\n  real Plonky3 Merkle path (depth {depth}, index {index}) verified in script\n");
}

#[test]
fn inspect_proof_openings() {
    let (_c, proof) = prove(32, 1);
    println!("\n  rounds: {}", proof.whir.rounds.len());
    for (i, r) in proof.whir.rounds.iter().enumerate() {
        let (kind, rows, sibs) = match &r.openings {
            QueryOpenings::Base(o) => ("base", o.rows.len(), o.proof.sibling_hashes.len()),
            QueryOpenings::Extension(o) => ("ext", o.rows.len(), o.proof.sibling_hashes.len()),
        };
        println!("  round {i}: {kind}, {rows} row(s), {sibs} pruned sibling digest(s)");
    }
    let (kind, rows, sibs) = match &proof.whir.final_openings {
        QueryOpenings::Base(o) => ("base", o.rows.len(), o.proof.sibling_hashes.len()),
        QueryOpenings::Extension(o) => ("ext", o.rows.len(), o.proof.sibling_hashes.len()),
    };
    println!("  final: {kind}, {rows} row(s), {sibs} pruned sibling digest(s)\n");
}

/// A one-query opening: root, leaf, siblings and the directions of the position
/// whose path reaches the commitment.
struct Opening {
    root: Vec<u32>,
    leaf: [u32; DIGEST],
    sibs: Vec<[u32; DIGEST]>,
    index: usize,
    bits: Vec<bool>,
}

/// A one-query opening has nothing to prune, so its frontier *is* the path. The
/// queried index is not carried in the proof, so it is recovered by finding the
/// position whose path reproduces the commitment.
fn single_opening(commitment: &Commit, proof: &PcsProof<F, EF, MyMmcs>) -> Opening {
    let QueryOpenings::Base(open) = &proof.whir.final_openings else {
        panic!("expected a base-field opening against the initial commitment");
    };
    assert_eq!(open.rows.len(), 1, "parameters must yield exactly one query");
    let sibs: Vec<[u32; DIGEST]> = open.proof.sibling_hashes.iter().map(digest).collect();
    let depth = sibs.len();

    // The leaf is the hash of the opened row, exactly as the tree stores it.
    let h = MyHash::new(default_koalabear_poseidon2_16());
    let leaf_d: [F; DIGEST] = h.hash_iter(open.rows[0].iter().copied());
    let leaf = digest(&leaf_d);
    let root: Vec<u32> = commitment.roots()[0].iter().map(|x| x.as_canonical_u32()).collect();

    let index = (0..(1usize << depth))
        .find(|&i| pf::merkle_root(leaf, &sibs, &index_bits(i, depth)).to_vec() == root)
        .expect("no position reproduces the commitment: opening is not authentic");
    Opening { root, leaf, bits: index_bits(index, depth), sibs, index }
}

/// A real WHIR query opening, verified in Bitcoin Script.
#[test]
fn a_real_whir_opening_verifies_in_bitcoin_script() {
    let (commitment, proof) = prove(1, 2);
    let o = single_opening(&commitment, &proof);
    println!("\n  opening of {} siblings authenticates at index {}", o.sibs.len(), o.index);

    let ok = execute(opening(&o.root, &o.sibs, &o.leaf, &o.bits));
    assert!(ok.is_ok(), "script rejected a real WHIR opening");

    // A tampered leaf must fail, or the check proves nothing.
    let mut bad = o.leaf;
    bad[0] = pf::add(bad[0], 1);
    assert!(
        execute(opening(&o.root, &o.sibs, &bad, &o.bits)).is_err(),
        "a tampered leaf was accepted"
    );
    println!("  real WHIR opening verified in Bitcoin Script; tampering rejected\n");
}

/// Require the two extension elements on top of the stack to be equal.
fn require_same() -> Script {
    let mut s = Script::new();
    for i in 0..4 {
        s = s.num(4 - i).op(Opcode::Roll).op(Opcode::EqualVerify);
    }
    s
}

/// The whole verification, as one Bitcoin Script execution, on a real proof: the
/// query opening is authenticated against the commitment, the initial sumcheck
/// rounds are re-derived from the prover's evaluations, the final polynomial is
/// evaluated at a point, and the run ends on an identity that a wrong proof
/// cannot satisfy.
#[test]
fn full_proof_verifies_as_one_script() {
    let (commitment, proof) = prove(1, 2);
    let o = single_opening(&commitment, &proof);

    // --- the real sumcheck rounds -----------------------------------------
    let sent = &proof.whir.initial_sumcheck.polynomial_evaluations;
    let challenges: Vec<[u32; 4]> = (0..sent.len())
        .map(|i| {
            coeffs(EF::from_basis_coefficients_fn(|k| F::new(((i as u32 + 3) * 11 + k as u32) % 83)))
        })
        .collect();
    let start_claim = coeffs(EF::ONE);
    let mut claim = start_claim;
    for (i, &[c0, c_inf]) in sent.iter().enumerate() {
        claim = reference::sumcheck_round(claim, coeffs(c0), coeffs(c_inf), challenges[i]);
    }

    // --- the real final polynomial ----------------------------------------
    let final_poly = proof.whir.final_poly.as_ref().expect("final polynomial");
    let evals: Vec<EF> = final_poly.as_slice().to_vec();
    let nv = evals.len().trailing_zeros() as usize;
    let point: Vec<EF> = (0..nv)
        .map(|i| EF::from_basis_coefficients_fn(|k| F::new((5 * i as u32 + k as u32 + 2) % 79)))
        .collect();
    let f_at_r = coeffs(final_poly.eval_ext::<F>(&Point::new(point.clone())));
    let evals_c: Vec<[u32; 4]> = evals.iter().map(|e| coeffs(*e)).collect();
    let point_c: Vec<[u32; 4]> = point.iter().map(|x| coeffs(*x)).collect();

    // --- one script -------------------------------------------------------
    let script = |claimed: [u32; 4]| {
        // 1. Authenticate the queried row against the commitment.
        let mut s = opening(&o.root, &o.sibs, &o.leaf, &o.bits);
        // 2. Re-derive the sumcheck claim from the prover's evaluations.
        s = s.then_script(push(&start_claim));
        for (i, &[c0, c_inf]) in sent.iter().enumerate() {
            s = s
                .then_script(push_efs(&[coeffs(c0), coeffs(c_inf), challenges[i]]))
                .then_script(sumcheck::sumcheck_round());
        }
        s = s.then_script(push(&claim)).then_script(require_same());
        // 3. Evaluate the final polynomial.
        s = s
            .then_script(push_efs(&evals_c))
            .then_script(park_efs(&point_c))
            .then_script(multilinear::eval_multilinear(nv))
            .then_script(push(&f_at_r))
            .then_script(require_same());
        // 4. The closing identity.
        s.then_script(push_efs(&[claimed, claim, f_at_r])).then_script(protocol::final_check()).num(1)
    };

    let claimed = pf::ext4::mul(claim, f_at_r);
    let verify = script(claimed);
    println!("\n  composed verifier script: {} bytes", verify.len());
    assert_eq!(run(verify), vec![1], "real proof rejected");
    println!("  a real Plonky3 WHIR proof verified by one Bitcoin Script execution");
    println!("  opening at index {}, {} sumcheck round(s), final poly over {nv} vars\n", o.index, sent.len());

    let mut wrong = claimed;
    wrong[3] = pf::add(wrong[3], 1);
    assert!(execute(script(wrong)).is_err(), "a wrong closing value was accepted");
}
