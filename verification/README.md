# bitcoin-stark-verifier

Bitcoin Script for verifying a STARK over the KoalaBear field, using no `OP_CAT`
and no other disabled opcode. The generators are ordinary Rust; what the scripts
they emit do to the stack is proved with Verus.

## Layout

| Module | What it holds |
| --- | --- |
| `script` | building and serializing scripts |
| `vm` | what running a script does to the two stacks |
| `room` | how many items a script needs, against the cap of a thousand |
| `prime`, `quartic` | that the field and its extension are fields |
| `layers` | the linear layers of the permutation in their sparse forms, and that the permutation loses nothing |
| `bytes` | how long scripts are, against the weight of a transaction |
| `arith`, `ext`, `poseidon2`, `whir::algebra` | the mathematics: the field, its quartic extension, the hash, the polynomials of the protocol |
| `field`, `ext4` | arithmetic scripts |
| `permutation`, `merkle` | Poseidon2, row hashing and Merkle paths |
| `winternitz`, `disprove` | one-time signatures over states, and the predicate that a committed step is wrong |
| `whir` | sponge, challenger, sumcheck rounds, multilinear evaluation, constraint batching, the composed transcript |
| `reference`, `whir::reference` | the same functions in plain Rust |

## Reading a contract

A generator `f` comes with a function `f_code` that spells out the instructions
it emits, and with two statements: that the script's code is `f_code`, and what
`vm::run` of it leaves for every stack it is meant for. Values below and above
what a script works on are left alone, on both stacks.

## Sizes

Script is witness data, so one byte is one unit of weight. The sizes below are
proved in `bytes`, `disprove` and `whir::spine`, and the tests measure them.

| | bytes |
| --- | ---: |
| multiplication | 1,446 |
| multiplication by `0x12345678` | 489 |
| S-box | 2,894 |
| external linear layer | 3,324 |
| internal linear layer | 5,487 |
| permutation | 572,228 |
| compression | 572,232 |
| one level of a Merkle path | 572,252 |
| sumcheck round | 95,100 |
| the largest step, with both states signed | 94,020 |

Two choices make them what they are. The linear layers are sparse: two passes
that read four inputs an output, and a sum with sixteen scalings. And the
multiplications keep one copy of the modulus on the stack, where a pick takes two
bytes and a push would take five.

## Tests

The tests run the emitted bytes on a small interpreter and compare with plain
arithmetic; `tests/agreement.rs` compares the arithmetic with Plonky3, and runs
the scripts on real proofs of its WHIR prover.
