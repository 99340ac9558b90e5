//! The WHIR sumcheck round in Bitcoin Script.
//!
//! WHIR differs from FRI and STIR in how it folds: instead of interpolating a
//! fiber, it runs a **sumcheck** alongside the folding, and the folding
//! randomness is the sumcheck randomness. Per round the verifier does exactly
//! this:
//!
//! ```text
//! observe(h(0), h(inf));  r = sample();
//! claim = extrapolate_01inf(h(0), claim - h(0), h(inf), r);
//! ```
//!
//! The prover sends `h(0)` and `h(inf)`; `h(1)` is not sent because the
//! sumcheck constraint `h(0) + h(1) = claim` determines it. Reconstruction uses
//! these weights:
//!
//! ```text
//! L_0(r) = 1 - r      L_1(r) = r      L_inf(r) = r(r - 1)
//! h(r)   = h(0)*L_0 + h(1)*L_1 + h(inf)*L_inf
//! ```
//!
//! A round needs no field inversion at all, and it is far cheaper than a Merkle
//! level. So WHIR's advantage here is not that its arithmetic is cheaper; it is
//! that it needs fewer queries, and on Bitcoin a query is a Merkle path.

pub mod algebra;
pub mod challenger;
pub mod constraint;
pub mod laws;
pub mod multilinear;
pub mod protocol;
pub mod reference;
pub mod spine;
pub mod sponge;
pub mod sumcheck;
