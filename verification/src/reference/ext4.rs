//! Plain arithmetic in the quartic extension.

use crate::arith;
use crate::constants::P;
use crate::ext::{self, Ext};
use crate::reference as f;
use vstd::prelude::*;

verus! {

/// The non-residue: `X^4 = 3`.
pub const W: u32 = 3;

/// The element four words stand for.
pub open spec fn of(a: Seq<u32>) -> Ext {
    Ext { c0: a[0] as int, c1: a[1] as int, c2: a[2] as int, c3: a[3] as int }
}

/// Canonical words stand for canonical elements.
pub proof fn lemma_of_ok(a: Seq<u32>)
    requires
        a.len() == 4,
        f::canonical(a),
    ensures
        of(a).ok(),
{
}

/// Addition.
pub fn add(a: [u32; 4], b: [u32; 4]) -> (r: [u32; 4])
    requires
        f::canonical(a@),
        f::canonical(b@),
    ensures
        f::canonical(r@),
        of(r@) == ext::eadd(of(a@), of(b@)),
{
    proof {
        reveal(ext::eadd);
        ext::lemma_eadd_ok(of(a@), of(b@));
    }
    [
        crate::reference::add(a[0], b[0]),
        crate::reference::add(a[1], b[1]),
        crate::reference::add(a[2], b[2]),
        crate::reference::add(a[3], b[3]),
    ]
}

/// Subtraction.
pub fn sub(a: [u32; 4], b: [u32; 4]) -> (r: [u32; 4])
    requires
        f::canonical(a@),
        f::canonical(b@),
    ensures
        f::canonical(r@),
        of(r@) == ext::esub(of(a@), of(b@)),
{
    proof {
        reveal(ext::esub);
        ext::lemma_esub_ok(of(a@), of(b@));
    }
    [
        crate::reference::sub(a[0], b[0]),
        crate::reference::sub(a[1], b[1]),
        crate::reference::sub(a[2], b[2]),
        crate::reference::sub(a[3], b[3]),
    ]
}

/// `p + 3 * q` of two integers, from their residues.
fn plus_triple(p: u32, q: u32, x: Ghost<int>, y: Ghost<int>) -> (r: u32)
    requires
        p < P,
        q < P,
        p == arith::red(x@),
        q == arith::red(y@),
    ensures
        r < P,
        r == arith::red(x@ + 3 * y@),
{
    proof {
        arith::lemma_red_mul(W as int, y@);
        arith::lemma_red_add(x@, 3 * y@);
        arith::lemma_red(x@ + 3 * y@);
    }
    crate::reference::add(p, crate::reference::mul(W, q))
}

/// The sum of two integers, from their residues.
fn plus(p: u32, q: u32, x: Ghost<int>, y: Ghost<int>) -> (r: u32)
    requires
        p < P,
        q < P,
        p == arith::red(x@),
        q == arith::red(y@),
    ensures
        r < P,
        r == arith::red(x@ + y@),
{
    proof {
        arith::lemma_red_add(x@, y@);
        arith::lemma_red(x@ + y@);
    }
    crate::reference::add(p, q)
}

/// Multiplication, schoolbook.
pub fn mul(a: [u32; 4], b: [u32; 4]) -> (r: [u32; 4])
    requires
        f::canonical(a@),
        f::canonical(b@),
    ensures
        f::canonical(r@),
        of(r@) == ext::emul(of(a@), of(b@)),
{
    proof {
        reveal(ext::emul);
    }
    let ghost x = of(a@);
    let ghost y = of(b@);
    let a0b0 = crate::reference::mul(a[0], b[0]);
    let a0b1 = crate::reference::mul(a[0], b[1]);
    let a0b2 = crate::reference::mul(a[0], b[2]);
    let a0b3 = crate::reference::mul(a[0], b[3]);
    let a1b0 = crate::reference::mul(a[1], b[0]);
    let a1b1 = crate::reference::mul(a[1], b[1]);
    let a1b2 = crate::reference::mul(a[1], b[2]);
    let a1b3 = crate::reference::mul(a[1], b[3]);
    let a2b0 = crate::reference::mul(a[2], b[0]);
    let a2b1 = crate::reference::mul(a[2], b[1]);
    let a2b2 = crate::reference::mul(a[2], b[2]);
    let a2b3 = crate::reference::mul(a[2], b[3]);
    let a3b0 = crate::reference::mul(a[3], b[0]);
    let a3b1 = crate::reference::mul(a[3], b[1]);
    let a3b2 = crate::reference::mul(a[3], b[2]);
    let a3b3 = crate::reference::mul(a[3], b[3]);
    // Coefficient 0: a0 b0 + 3 (a1 b3 + a2 b2 + a3 b1).
    let s = plus(a1b3, a2b2, Ghost(x.c1 * y.c3), Ghost(x.c2 * y.c2));
    let s = plus(s, a3b1, Ghost(x.c1 * y.c3 + x.c2 * y.c2), Ghost(x.c3 * y.c1));
    let r0 = plus_triple(
        a0b0,
        s,
        Ghost(x.c0 * y.c0),
        Ghost(x.c1 * y.c3 + x.c2 * y.c2 + x.c3 * y.c1),
    );
    // Coefficient 1: a0 b1 + a1 b0 + 3 (a2 b3 + a3 b2).
    let p = plus(a0b1, a1b0, Ghost(x.c0 * y.c1), Ghost(x.c1 * y.c0));
    let s = plus(a2b3, a3b2, Ghost(x.c2 * y.c3), Ghost(x.c3 * y.c2));
    let r1 = plus_triple(
        p,
        s,
        Ghost(x.c0 * y.c1 + x.c1 * y.c0),
        Ghost(x.c2 * y.c3 + x.c3 * y.c2),
    );
    // Coefficient 2: a0 b2 + a1 b1 + a2 b0 + 3 a3 b3.
    let p = plus(a0b2, a1b1, Ghost(x.c0 * y.c2), Ghost(x.c1 * y.c1));
    let p = plus(p, a2b0, Ghost(x.c0 * y.c2 + x.c1 * y.c1), Ghost(x.c2 * y.c0));
    let r2 = plus_triple(
        p,
        a3b3,
        Ghost(x.c0 * y.c2 + x.c1 * y.c1 + x.c2 * y.c0),
        Ghost(x.c3 * y.c3),
    );
    // Coefficient 3: a0 b3 + a1 b2 + a2 b1 + a3 b0.
    let p = plus(a0b3, a1b2, Ghost(x.c0 * y.c3), Ghost(x.c1 * y.c2));
    let p = plus(p, a2b1, Ghost(x.c0 * y.c3 + x.c1 * y.c2), Ghost(x.c2 * y.c1));
    let r3 = plus(
        p,
        a3b0,
        Ghost(x.c0 * y.c3 + x.c1 * y.c2 + x.c2 * y.c1),
        Ghost(x.c3 * y.c0),
    );
    [r0, r1, r2, r3]
}

} // verus!
