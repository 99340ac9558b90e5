//! Bitcoin Script for verifying a STARK over the KoalaBear field.
//!
//! # Why this exists
//!
//! A STARK verifier on Bitcoin has to check Merkle paths and a Fiat-Shamir
//! transcript. With a byte-oriented hash that needs `OP_CAT`, because
//! `OP_SHA256` hashes one stack item and a Merkle step hashes the concatenation
//! of two children. `OP_CAT` is disabled and re-enabling it needs a soft fork.
//!
//! An *algebraic* hash removes that dependency. A Poseidon2 digest is eight
//! field elements rather than thirty-two bytes, so compressing two children
//! means feeding sixteen field elements to a width-16 permutation: sixteen stack
//! items handed to an arithmetic routine. There is nothing to concatenate; the
//! concatenation is the order the state sits in. No script of this crate holds
//! `OP_CAT` or any other disabled opcode; see
//! [`script::no_disabled_opcode`].
//!
//! Bitcoin has no `OP_MUL` either, so multiplication is emulated. KoalaBear is a
//! 31-bit prime (`0x7f000001`), so a field element fits one four-byte script
//! number and no multi-limb representation is needed.
//!
//! # How it is laid out
//!
//! [`script`] builds scripts, and [`vm`] says what running one does to the two
//! stacks. Every generator states its meaning over [`vm::run`]: which stacks it
//! accepts and what it leaves there. [`room`] bounds how many items the stacks
//! hold on the way, against the cap that running one is under, and [`bytes`] how
//! long scripts are, against what a transaction carries.
//!
//! The mathematics stands apart from the scripts: [`arith`] is the field,
//! [`ext`] its quartic extension, [`poseidon2`] the hash, and [`whir::algebra`]
//! the polynomials of the protocol. [`prime`] and [`quartic`] prove that the field
//! and its extension are fields, and [`layers`] that the permutation is one.
//! [`reference`] and [`whir::reference`] compute the same functions in plain Rust.
//! [`laws`] and [`whir::laws`] state what the definitions are for, by how results
//! relate to inputs and to each other rather than by how they are computed.

pub mod arith;
pub mod bytes;
pub mod constants;
pub mod disprove;
pub mod ext;
pub mod ext4;
pub mod field;
pub mod laws;
pub mod layers;
pub mod merkle;
pub mod permutation;
pub mod poseidon2;
pub mod prime;
pub mod quartic;
pub mod reference;
pub mod room;
pub mod script;
pub mod vm;
pub mod whir;
pub mod winternitz;

pub use constants::{EXTERNAL_FINAL, EXTERNAL_INITIAL, INTERNAL, P, WIDTH};
pub use merkle::{merkle_path, merkle_verify};
pub use permutation::{compress, permute};
