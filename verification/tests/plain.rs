//! Plain arithmetic, and how scripts are serialized.

use bitcoin_stark_verifier::constants::{EXTERNAL_FINAL, EXTERNAL_INITIAL, INTERNAL, P, WIDTH};
use bitcoin_stark_verifier::reference;
use bitcoin_stark_verifier::script::{Opcode, Script};
use bitcoin_stark_verifier::field;

fn bytes(s: Script) -> Vec<u8> {
    s.into_script_buf().into_bytes()
}

#[test]
fn small_integers_have_opcodes_of_their_own() {
    assert_eq!(bytes(Script::new().num(0)), vec![0x00]);
    assert_eq!(bytes(Script::new().num(-1)), vec![0x4f]);
    assert_eq!(bytes(Script::new().num(1)), vec![0x51]);
    assert_eq!(bytes(Script::new().num(16)), vec![0x60]);
}

#[test]
fn other_integers_are_pushed_as_minimal_script_numbers() {
    assert_eq!(bytes(Script::new().num(17)), vec![0x01, 0x11]);
    assert_eq!(bytes(Script::new().num(127)), vec![0x01, 0x7f]);
    assert_eq!(bytes(Script::new().num(128)), vec![0x02, 0x80, 0x00]);
    assert_eq!(bytes(Script::new().num(-128)), vec![0x02, 0x80, 0x80]);
    assert_eq!(bytes(Script::new().num(-2)), vec![0x01, 0x82]);
    assert_eq!(bytes(Script::new().num(P as i64)), vec![0x04, 0x01, 0x00, 0x00, 0x7f]);
    assert_eq!(bytes(Script::new().num(0x80000000)), vec![0x05, 0x00, 0x00, 0x00, 0x80, 0x00]);
}

#[test]
fn data_is_pushed_behind_its_length() {
    assert_eq!(bytes(Script::new().data(vec![])), vec![0x00]);
    assert_eq!(bytes(Script::new().data(vec![7])), vec![0x01, 0x07]);
    let long = vec![0xab; 75];
    let mut want = vec![0x4b];
    want.extend_from_slice(&long);
    assert_eq!(bytes(Script::new().data(long)), want);
}

#[test]
fn every_opcode_has_its_consensus_byte() {
    let table = [
        (Opcode::If, 0x63),
        (Opcode::NotIf, 0x64),
        (Opcode::Else, 0x67),
        (Opcode::EndIf, 0x68),
        (Opcode::ToAltStack, 0x6b),
        (Opcode::FromAltStack, 0x6c),
        (Opcode::Drop2, 0x6d),
        (Opcode::Drop, 0x75),
        (Opcode::Dup, 0x76),
        (Opcode::Over, 0x78),
        (Opcode::Pick, 0x79),
        (Opcode::Roll, 0x7a),
        (Opcode::Rot, 0x7b),
        (Opcode::Swap, 0x7c),
        (Opcode::Tuck, 0x7d),
        (Opcode::Equal, 0x87),
        (Opcode::EqualVerify, 0x88),
        (Opcode::Sub1, 0x8c),
        (Opcode::Not, 0x91),
        (Opcode::NotEqual0, 0x92),
        (Opcode::Add, 0x93),
        (Opcode::Sub, 0x94),
        (Opcode::BoolAnd, 0x9a),
        (Opcode::NumEqual, 0x9c),
        (Opcode::LessThan, 0x9f),
        (Opcode::GreaterThanOrEqual, 0xa2),
        (Opcode::Hash160, 0xa9),
    ];
    for (op, byte) in table {
        assert_eq!(bytes(Script::new().op(op)), vec![byte], "{op:?}");
    }
}

#[test]
fn scripts_concatenate() {
    let a = Script::new().num(5).op(Opcode::Dup);
    let b = Script::new().op(Opcode::Add);
    assert_eq!(bytes(a.clone().with(&b)), vec![0x55, 0x76, 0x93]);
    assert_eq!(bytes(a.clone().then_script(b)), vec![0x55, 0x76, 0x93]);
    assert_eq!(a.len(), 2);
    assert_eq!(Script::new().len(), 0);
}

#[test]
fn sums_wrap_at_the_modulus() {
    assert_eq!(reference::add(P - 1, 1), 0);
    assert_eq!(reference::add(P - 1, P - 1), P - 2);
    assert_eq!(reference::sub(0, 1), P - 1);
    assert_eq!(reference::sub(5, 5), 0);
    assert_eq!(reference::double(P - 1), P - 2);
    assert_eq!(reference::mul(P - 1, P - 1), 1);
    assert_eq!(reference::sbox(3), 27);
    assert_eq!(reference::sbox(P - 1), P - 1);
}

#[test]
fn halving_undoes_doubling() {
    for k in 0..24u32 {
        let inv = field::inv_2exp(k);
        assert_eq!(reference::mul(inv, 1 << k), 1, "2^-{k}");
        assert_eq!(reference::div_2exp(reference::mul(12345, 1 << k), k), 12345, "divided by 2^{k}");
    }
    assert_eq!(field::inv_2exp(1), (P + 1) / 2);
}

/// Cubing loses nothing, and neither does the permutation.
#[test]
fn different_elements_and_states_stay_different() {
    let mut cubes: Vec<u32> = (0..2000u32).flat_map(|x| [x, P - 1 - x]).map(reference::sbox).collect();
    cubes.sort();
    cubes.dedup();
    assert_eq!(cubes.len(), 4000);

    let st = [9u32; WIDTH];
    let mut want = st;
    reference::permute(&mut want);
    for i in 0..WIDTH {
        let mut other = st;
        other[i] = 10;
        reference::permute(&mut other);
        assert_ne!(other, want, "element {i}");
    }
}

/// The linear layers as matrices: column `j` is the layer on basis vector `j`.
#[test]
fn layers_are_their_matrices() {
    let mds = reference::mds_light_matrix();
    let internal = reference::internal_matrix();
    let st: [u32; WIDTH] = core::array::from_fn(|i| 1_000_003 * (i as u32 + 1));
    let apply = |m: &[[u32; WIDTH]; WIDTH]| -> Vec<u32> {
        (0..WIDTH)
            .map(|i| (0..WIDTH).fold(0, |acc, j| reference::add(acc, reference::mul(m[i][j], st[j]))))
            .collect()
    };
    let mut want = st;
    reference::mds_light(&mut want);
    assert_eq!(apply(&mds), want.to_vec());
    let mut want = st;
    reference::internal_linear(&mut want);
    assert_eq!(apply(&internal), want.to_vec());
    // The block matrix is doubled on its diagonal.
    assert_eq!(mds[0][..8], [4, 6, 2, 2, 2, 3, 1, 1]);
    // The internal matrix is all ones off its diagonal.
    assert_eq!(internal[0][..3], [P - 1, 1, 1]);
    assert_eq!(internal[1][..3], [1, 2, 1]);
}

#[test]
fn round_constants_are_canonical() {
    assert_eq!(EXTERNAL_INITIAL.len() + EXTERNAL_FINAL.len(), 8);
    assert_eq!(INTERNAL.len(), 20);
    for row in EXTERNAL_INITIAL.iter().chain(EXTERNAL_FINAL.iter()) {
        assert!(row.iter().all(|c| *c < P));
    }
    assert!(INTERNAL.iter().all(|c| *c < P));
}

/// A row that ends inside a chunk leaves the rest of the state alone, so padding
/// a row with a zero changes its digest only through the element itself.
#[test]
fn row_digests_differ_by_length() {
    let one = reference::hash_row(&[5]);
    let two = reference::hash_row(&[5, 1]);
    assert_ne!(one, two);
    let mut state = [0u32; WIDTH];
    state[0] = 5;
    reference::permute(&mut state);
    assert_eq!(one.to_vec(), state[..8].to_vec());
}

/// Different leaves lead to different roots along the same path.
#[test]
fn a_root_binds_its_leaf() {
    let sibs: Vec<[u32; 8]> = (0..3u32).map(|k| core::array::from_fn(|i| 10 * k + i as u32)).collect();
    let bits = [true, false, true];
    let leaf = [7u32; 8];
    let root = reference::merkle_root(leaf, &sibs, &bits);
    for i in 0..8 {
        let mut other = leaf;
        other[i] = 8;
        assert_ne!(reference::merkle_root(other, &sibs, &bits), root, "element {i} is not bound");
    }
}

/// A path of no levels is its leaf, and each level compresses once.
#[test]
fn a_path_compresses_level_by_level() {
    let leaf: [u32; 8] = core::array::from_fn(|i| i as u32 + 1);
    let sib: [u32; 8] = core::array::from_fn(|i| 100 + i as u32);
    assert_eq!(reference::merkle_root(leaf, &[], &[]), leaf);
    assert_eq!(reference::merkle_root(leaf, &[sib], &[false]), reference::compress(&leaf, &sib));
    assert_eq!(reference::merkle_root(leaf, &[sib], &[true]), reference::compress(&sib, &leaf));
}
