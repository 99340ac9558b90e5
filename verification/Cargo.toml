[package]
name = "bitcoin_stark_verifier"
version = "0.1.0"
edition = "2021"
publish = false

[dependencies]
bitcoin = "=0.32.102"

[dev-dependencies]
rand = "=0.9.5"
rand_chacha = "=0.9.0"
p3-challenger = "=0.7.0"
p3-commit = "=0.7.0"
p3-dft = "=0.7.0"
p3-field = "=0.7.0"
p3-koala-bear = "=0.7.0"
p3-matrix = "=0.7.0"
p3-merkle-tree = "=0.7.0"
p3-multilinear-util = "=0.7.0"
p3-sumcheck = "=0.7.0"
p3-symmetric = "=0.7.0"
p3-whir = "=0.7.0"
