//! Winternitz one-time signatures, in Bitcoin Script.
//!
//! A disprove predicate decides whether a claimed step is false. It says nothing
//! about whose claim it is: a spender can answer one challenge with one state
//! and the next with a different one, and no predicate over supplied values can
//! tell. What stops that is a **commitment** to each step boundary that the
//! prover cannot open two ways.
//!
//! Winternitz fits Bitcoin exactly, because it needs only *single-item* hashing.
//! `OP_HASH160` takes one stack item and hashes it, which is all a hash chain
//! ever asks for.
//!
//! # Why `w = 16` and not one chain per bit
//!
//! One chain per bit is the cheapest thing to *verify* and it does not work. A
//! committed state is sixteen field elements, 496 bits, so 505 chains with the
//! checksum, and each chain contributes a signature and a digit to the witness:
//! 1010 stack items against Bitcoin's limit of 1000.
//!
//! At `w = 16` a digit is four bits, a state is 128 digits and 131 chains, and
//! the witness is 262 items.
//!
//! # The scheme
//!
//! Per digit `d`, secret `sk`, public key `pk = H^(w-1)(sk)`, signature
//! `H^d(sk)`. Verification applies `H` exactly `w-1-d` more times and compares
//! against `pk`.
//!
//! # The checksum is not optional
//!
//! The signature for a *larger* digit is further along the chain, and a chain
//! runs towards the public key, so raising a digit is free to anyone holding the
//! signature. A Winternitz signature therefore carries a checksum of
//! `sum(w-1-d_i)`, whose own chains run the same way, so raising a message digit
//! forces *lowering* a checksum digit, and lowering one means inverting `H`.
//! [`verify`] always emits it; [`no_digits_dominate`] is the statement.

use crate::constants::{P, WIDTH};
use crate::script::{self, Instr, Opcode, Script};
use crate::vm::{self, Ctx, Item};
use vstd::prelude::*;

verus! {

/// Bits per digit. Four is what keeps the witness inside the stack limit.
pub const LOG_W: usize = 4;

/// Chain length: digits run `0 ..= W - 1`.
pub const W: usize = 16;

/// Digits per field element. `8 * 4 = 32 >= 31`, and the top digit is bounded
/// by the element being canonical rather than by a separate check.
pub const DIGITS_PER_ELEMENT: usize = 8;

/// Digits in one committed state.
pub const STATE_DIGITS: usize = 128;

// ---------------------------------------------------------------------------
// Digits
// ---------------------------------------------------------------------------

/// Powers of the digit base.
pub open spec fn power16(n: nat) -> int
    decreases n,
{
    if n == 0 {
        1
    } else {
        16 * power16((n - 1) as nat)
    }
}

/// The number of base-16 digits of `n`.
pub open spec fn digit_count(n: nat) -> nat
    decreases n,
{
    if n == 0 {
        0
    } else {
        1 + digit_count(n / 16)
    }
}

/// The value of base-16 digits, least significant first.
pub open spec fn base16(d: Seq<int>) -> int
    decreases d.len(),
{
    if d.len() == 0 {
        0
    } else {
        d[0] + 16 * base16(d.skip(1))
    }
}

/// The sum of a sequence.
pub open spec fn sum(d: Seq<int>) -> int
    decreases d.len(),
{
    if d.len() == 0 {
        0
    } else {
        d[0] + sum(d.skip(1))
    }
}

/// Whether all entries are base-16 digits.
pub open spec fn are_digits(d: Seq<int>) -> bool {
    forall|i: int| 0 <= i < d.len() ==> 0 <= #[trigger] d[i] <= 15
}

/// Suffixes one entry at a time.
proof fn lemma_skip(d: Seq<int>, i: int)
    requires
        0 <= i < d.len(),
    ensures
        base16(d.skip(i)) == d[i] + 16 * base16(d.skip(i + 1)),
        sum(d.skip(i)) == d[i] + sum(d.skip(i + 1)),
{
    assert(d.skip(i).skip(1) =~= d.skip(i + 1));
}

/// The value of `n` digits lies below `16^n`.
proof fn lemma_base16_range(d: Seq<int>)
    requires
        are_digits(d),
    ensures
        0 <= base16(d) < power16(d.len()),
        0 <= sum(d) <= 15 * d.len(),
    decreases d.len(),
{
    if d.len() > 0 {
        assert(are_digits(d.skip(1)));
        lemma_base16_range(d.skip(1));
    }
}

/// Powers grow with the exponent.
proof fn lemma_power16_mono(m: nat, n: nat)
    requires
        m <= n,
    ensures
        0 < power16(m) <= power16(n),
    decreases n,
{
    if m < n {
        lemma_power16_mono(m, (n - 1) as nat);
    } else if n > 0 {
        lemma_power16_mono((n - 1) as nat, (n - 1) as nat);
    }
}

/// [`digit_count`] is the least number of digits that can hold `n`.
pub proof fn digit_count_is_least(n: nat)
    ensures
        n < power16(digit_count(n)),
        digit_count(n) > 0 ==> power16((digit_count(n) - 1) as nat) <= n,
    decreases n,
{
    if n > 0 {
        digit_count_is_least(n / 16);
        if digit_count(n / 16) == 0 {
            assert(n / 16 == 0);
        }
    }
}

proof fn lemma_digit_count_unique(n: nat, k: nat)
    requires
        n < power16(k),
        k > 0 ==> power16((k - 1) as nat) <= n,
    ensures
        k == digit_count(n),
{
    digit_count_is_least(n);
    let c = digit_count(n);
    if k < c {
        lemma_power16_mono(k, (c - 1) as nat);
    }
    if c < k {
        lemma_power16_mono(c, (k - 1) as nat);
    }
}

/// Checksum digits: enough for `sum(W - 1 - d_i)`, whose maximum is
/// `message_digits * (W - 1)`, and no more.
pub fn checksum_digits(message_digits: usize) -> (r: usize)
    requires
        message_digits * 15 <= usize::MAX / 16,
    ensures
        r == digit_count((message_digits * 15) as nat),
{
    let max: usize = message_digits * (W - 1);
    let mut n: usize = 0;
    let mut cap: usize = 1;
    while cap <= max
        invariant
            max <= usize::MAX / 16,
            cap == power16(n as nat),
            n < cap,
            n > 0 ==> power16((n - 1) as nat) <= max,
        decreases 16 * max + 16 - cap,
    {
        cap = cap * W;
        n = n + 1;
    }
    proof {
        lemma_digit_count_unique(max as nat, n as nat);
    }
    n
}

/// Chains in a signature over `message_digits` digits.
pub open spec fn chain_count(message_digits: nat) -> nat {
    message_digits + digit_count(message_digits * 15)
}

/// Chains in a signature over `message_digits` digits.
pub fn chains(message_digits: usize) -> (r: usize)
    requires
        message_digits * 15 <= usize::MAX / 16,
    ensures
        r == chain_count(message_digits as nat),
{
    proof {
        lemma_digit_count_small((message_digits * 15) as nat);
    }
    message_digits + checksum_digits(message_digits)
}

/// A number has no more digits than it counts.
proof fn lemma_digit_count_small(n: nat)
    ensures
        digit_count(n) <= n,
    decreases n,
{
    if n > 0 {
        lemma_digit_count_small(n / 16);
    }
}

/// Chains in a signature over one committed state.
pub fn state_chains() -> (r: usize)
    ensures
        r == chain_count(128),
        r == 131,
{
    proof {
        reveal_with_fuel(digit_count, 4);
    }
    chains(STATE_DIGITS)
}

/// Canonical base-`W` digits of a field element, least significant first.
pub fn digits_of(x: u32) -> (r: [u32; DIGITS_PER_ELEMENT])
    requires
        x < P,
    ensures
        are_digits(crate::arith::ints(r@)),
        base16(crate::arith::ints(r@)) == x,
{
    let mut r: [u32; DIGITS_PER_ELEMENT] = [0; DIGITS_PER_ELEMENT];
    let mut rest: u32 = x;
    let mut i: usize = 0;
    proof {
        reveal_with_fuel(power16, 9);
        lemma_base16_zeros(crate::arith::ints(r@));
        assert(1 * rest == x);
    }
    while i < DIGITS_PER_ELEMENT
        invariant
            i <= DIGITS_PER_ELEMENT,
            power16(8) == 0x1_0000_0000,
            rest < power16((8 - i) as nat),
            forall|t: int| 0 <= t < i ==> #[trigger] r@[t] <= 15,
            forall|t: int| i <= t < 8 ==> #[trigger] r@[t] == 0,
            base16(crate::arith::ints(r@)) + power16(i as nat) * rest == x,
        decreases DIGITS_PER_ELEMENT - i,
    {
        let ghost before = crate::arith::ints(r@);
        let d: u32 = rest % 16;
        r[i] = d;
        proof {
            let after = crate::arith::ints(r@);
            assert(after =~= before.update(i as int, d as int));
            lemma_base16_update(before, i as int, d as int);
            let p = power16(i as nat);
            let q = (rest / 16) as int;
            assert(p * rest == p * d + 16 * p * q) by (nonlinear_arith)
                requires
                    rest == d + 16 * q,
            ;
            assert(power16((8 - i) as nat) == 16 * power16((8 - i - 1) as nat));
        }
        rest = rest / 16;
        i = i + 1;
    }
    assert(power16(0) == 1);
    assert(power16(8) * 0 == 0);
    r
}

/// Setting a digit that was zero adds its weight.
proof fn lemma_base16_update(d: Seq<int>, i: int, x: int)
    requires
        0 <= i < d.len(),
        d[i] == 0,
    ensures
        base16(d.update(i, x)) == base16(d) + power16(i as nat) * x,
    decreases d.len(),
{
    let e = d.update(i, x);
    if i == 0 {
        assert(e.skip(1) =~= d.skip(1));
        assert(1 * x == x);
    } else {
        assert(e.skip(1) =~= d.skip(1).update(i - 1, x));
        lemma_base16_update(d.skip(1), i - 1, x);
        let p = power16((i - 1) as nat);
        assert(16 * (p * x) == 16 * p * x) by (nonlinear_arith);
    }
}

/// Digits that are all zero are worth nothing.
proof fn lemma_base16_zeros(d: Seq<int>)
    requires
        forall|i: int| 0 <= i < d.len() ==> #[trigger] d[i] == 0,
    ensures
        base16(d) == 0,
    decreases d.len(),
{
    if d.len() > 0 {
        lemma_base16_zeros(d.skip(1));
    }
}

// ---------------------------------------------------------------------------
// One chain
// ---------------------------------------------------------------------------

/// `n` steps along a hash chain.
pub open spec fn hash_chain(h: spec_fn(Seq<u8>) -> Seq<u8>, x: Seq<u8>, n: nat) -> Seq<u8>
    decreases n,
{
    if n == 0 {
        x
    } else {
        h(hash_chain(h, x, (n - 1) as nat))
    }
}

/// Whether a signature item opens a chain to a digit item: the item reads as a
/// digit, and the rest of the chain leads to the public key.
pub open spec fn opens(
    h: spec_fn(Seq<u8>) -> Seq<u8>,
    sig: Item,
    digit: Item,
    pk: Seq<u8>,
) -> bool {
    match vm::as_num(digit) {
        Some(d) => 0 <= d <= 15 && hash_chain(h, sig, (15 - d) as nat) == pk,
        None => false,
    }
}

/// One unrolled step of the walk: hash while the counter has not reached zero.
#[verifier::opaque]
pub open spec fn walk_step_code() -> Seq<Instr> {
    vm::nil().push(vm::o(Opcode::Dup)).push(vm::o(Opcode::NotEqual0)) + vm::if_code(
        vm::nil().push(vm::o(Opcode::Sub1)).push(vm::o(Opcode::Swap)).push(
            vm::o(Opcode::Hash160),
        ).push(vm::o(Opcode::Swap)),
    )
}

/// The code of each step up a chain.
pub open spec fn walk_step_codes() -> spec_fn(int) -> Seq<Instr> {
    |i: int| walk_step_code()
}

/// The code of [`verify_digit`].
#[verifier::opaque]
pub open spec fn verify_digit_code(pk: Seq<u8>) -> Seq<Instr> {
    (vm::nil().push(vm::o(Opcode::Dup)).push(vm::o(Opcode::ToAltStack)).push(vm::k(15)).push(
        vm::o(Opcode::Swap),
    ).push(vm::o(Opcode::Sub)) + vm::flat(15, walk_step_codes())).push(vm::k(0)).push(
        vm::o(Opcode::EqualVerify),
    ).push(Instr::Data(pk)).push(vm::o(Opcode::EqualVerify)).push(vm::o(Opcode::FromAltStack))
}

proof fn lemma_walk_step(c: Ctx, v: Seq<Item>, w: Seq<Item>, sig: Item, k: int)
    requires
        c.live(),
        -0x7fffffff < k < 0x80000000,
    ensures
        vm::run(walk_step_code(), vm::at(c, v.push(sig).push(vm::num(k)), w)) == Some(
            if k != 0 {
                vm::at(c, v.push((c.hash)(sig)).push(vm::num(k - 1)), w)
            } else {
                vm::at(c, v.push(sig).push(vm::num(k)), w)
            },
        ),
{
    reveal(walk_step_code);
    broadcast use vm::group_run;
    broadcast use vm::group_inert;

    let body = vm::nil().push(vm::o(Opcode::Sub1)).push(vm::o(Opcode::Swap)).push(
        vm::o(Opcode::Hash160),
    ).push(vm::o(Opcode::Swap));
    let v1 = v.push(sig).push(vm::num(k));
    let v2 = if k != 0 {
        v.push((c.hash)(sig)).push(vm::num(k - 1))
    } else {
        v1
    };
    vm::lemma_enter_live(c);
    assert(k != 0 ==> vm::run(body, vm::at(c.enter(true), v1, w)) == Some(
        vm::at(c.enter(true), v2, w),
    ));
    vm::lemma_if(c, v1, w, body, k != 0, v2, w);
}

/// The walk from a counter that fits an operand.
proof fn lemma_walk(c: Ctx, v: Seq<Item>, w: Seq<Item>, sig: Item, k: int)
    requires
        c.live(),
        -0x80000000 + 16 <= k < 0x80000000,
    ensures
        ({
            let n: int = if 0 <= k <= 15 {
                k
            } else {
                15
            };
            vm::run(
                vm::flat(15, walk_step_codes()),
                vm::at(c, v.push(sig).push(vm::num(k)), w),
            ) == Some(
                vm::at(c, v.push(hash_chain(c.hash, sig, n as nat)).push(vm::num(k - n)), w),
            )
        }),
{
    let steps = |i: int|
        if 0 <= k <= i {
            k
        } else {
            i
        };
    let st = |i: int|
        vm::at(
            c,
            v.push(hash_chain(c.hash, sig, steps(i) as nat)).push(vm::num(k - steps(i))),
            w,
        );
    let f = walk_step_codes();
    assert forall|i: int| 0 <= i < 15 implies #[trigger] vm::run(f(i), st(i)) == Some(st(i + 1)) by {
        lemma_walk_step(c, v, w, hash_chain(c.hash, sig, steps(i) as nat), k - steps(i));
    }
    vm::lemma_run_flat(15, f, st);
}

/// A counter that does not fit an operand stops the walk at once.
proof fn lemma_walk_long(c: Ctx, v: Seq<Item>, w: Seq<Item>, sig: Item, k: int)
    requires
        c.live(),
        0x80000000 <= k,
    ensures
        vm::run(
            vm::flat(15, walk_step_codes()),
            vm::at(c, v.push(sig).push(vm::num(k)), w),
        ) is None,
{
    let m = vm::at(c, v.push(sig).push(vm::num(k)), w);
    assert(vm::run(walk_step_code(), m) is None) by {
        reveal(walk_step_code);
        broadcast use vm::group_run;

        vm::lemma_as_num_long(k);
        let p = vm::nil().push(vm::o(Opcode::Dup)).push(vm::o(Opcode::NotEqual0));
        assert(vm::run(p, m) is None);
    }
    vm::lemma_run_flat_fails(15, walk_step_codes(), |i: int| m, 0);
}

/// What [`verify_digit`] does to any two items.
#[verifier::rlimit(40)]
proof fn lemma_verify_digit(
    c: Ctx,
    v: Seq<Item>,
    w: Seq<Item>,
    sig: Item,
    digit: Item,
    pk: Seq<u8>,
)
    requires
        c.live(),
    ensures
        vm::run(verify_digit_code(pk), vm::at(c, v.push(sig).push(digit), w)) == (if opens(
            c.hash,
            sig,
            digit,
            pk,
        ) {
            Some(vm::at(c, v.push(digit), w))
        } else {
            None
        }),
{
    reveal(verify_digit_code);
    let head = vm::nil().push(vm::o(Opcode::Dup)).push(vm::o(Opcode::ToAltStack)).push(
        vm::k(15),
    ).push(vm::o(Opcode::Swap)).push(vm::o(Opcode::Sub));
    let walk = vm::flat(15, walk_step_codes());
    let m = vm::at(c, v.push(sig).push(digit), w);
    match vm::as_num(digit) {
        None => {
            assert(vm::run(head, m) is None) by {
                broadcast use vm::group_run;

            }
            broadcast use vm::group_run;

        },
        Some(d) => {
            vm::lemma_as_num_range(digit);
            let w1 = w.push(digit);
            let k = 15 - d;
            assert(vm::run(head, m) == Some(vm::at(c, v.push(sig).push(vm::num(k)), w1))) by {
                broadcast use vm::group_run;

            }
            if k >= 0x80000000 {
                lemma_walk_long(c, v, w1, sig, k);
            } else {
                lemma_walk(c, v, w1, sig, k);
                let n: int = if 0 <= k <= 15 {
                    k
                } else {
                    15
                };
                vm::lemma_num_eq(k - n, 0);
            }
            broadcast use vm::group_run;

        },
    }
}

/// The key's bytes as a vector.
fn key_bytes(pk: &[u8; 20]) -> (r: Vec<u8>)
    ensures
        r@ == pk@,
{
    let mut r: Vec<u8> = Vec::new();
    let mut i: usize = 0;
    while i < 20
        invariant
            i <= 20,
            r@ == pk@.take(i as int),
        decreases 20 - i,
    {
        r.push(pk[i]);
        i = i + 1;
    }
    assert(pk@.take(20) =~= pk@);
    r
}

/// Verify one chain against its public key, leaving the digit.
///
/// # Stack
///
/// In: `sig(20) d`. Out: `d`. Aborts unless the signature opens to that digit.
///
/// # How a variable-length walk is done without a loop opcode
///
/// The number of hashes is `W - 1 - d`, which is not known when the script is
/// built. The walk is therefore unrolled `W - 1` times with a counter, and each
/// step hashes only while the counter is not zero. Requiring the counter to
/// reach exactly zero is what rejects a digit outside `0 ..= W - 1`: neither a
/// negative counter nor a large one gets there.
fn verify_digit(pk: &[u8; 20]) -> (r: Script)
    ensures
        r.code() == verify_digit_code(pk@),
        forall|sig: Item, digit: Item, c: Ctx, v: Seq<Item>, w: Seq<Item>|
            c.live() ==> #[trigger] vm::run(r.code(), vm::at(c, v.push(sig).push(digit), w)) == (
            if opens(c.hash, sig, digit, pk@) {
                Some(vm::at(c, v.push(digit), w))
            } else {
                None
            }),
{
    proof {
        assert forall|sig: Item, digit: Item, c: Ctx, v: Seq<Item>, w: Seq<Item>|
            c.live() implies #[trigger] vm::run(
            verify_digit_code(pk@),
            vm::at(c, v.push(sig).push(digit), w),
        ) == (if opens(c.hash, sig, digit, pk@) {
            Some(vm::at(c, v.push(digit), w))
        } else {
            None
        }) by {
            lemma_verify_digit(c, v, w, sig, digit, pk@);
        }
        reveal(verify_digit_code);
    }
    let mut walk = Script::new();
    let mut i: usize = 0;
    while i < W - 1
        invariant
            i <= 15,
            walk.code() == vm::flat(i as nat, walk_step_codes()),
        decreases 15 - i,
    {
        proof {
            reveal(walk_step_code);
        }
        walk = walk.then_script(
            Script::new().op(Opcode::Dup).op(Opcode::NotEqual0).then_script(
                vm::when(
                    Script::new().op(Opcode::Sub1).op(Opcode::Swap).op(Opcode::Hash160).op(
                        Opcode::Swap,
                    ),
                ),
            ),
        );
        i = i + 1;
    }
    // Keep the digit for the caller; the walk must have finished exactly.
    Script::new().op(Opcode::Dup).op(Opcode::ToAltStack).num((W - 1) as i64).op(Opcode::Swap).op(
        Opcode::Sub,
    ).then_script(walk).num(0).op(Opcode::EqualVerify).data(key_bytes(pk)).op(
        Opcode::EqualVerify,
    ).op(Opcode::FromAltStack)
}

// ---------------------------------------------------------------------------
// A signature
// ---------------------------------------------------------------------------

/// Public keys as byte strings.
pub open spec fn keys(pks: Seq<[u8; 20]>) -> Seq<Seq<u8>> {
    Seq::new(pks.len(), |i: int| pks[i]@)
}

/// The witness of chains `i` and up, chain `i` on top.
pub open spec fn witness(sigs: Seq<Item>, digits: Seq<Item>, i: nat) -> Seq<Item>
    decreases sigs.len() - i,
{
    if i >= sigs.len() {
        Seq::empty()
    } else {
        witness(sigs, digits, i + 1).push(sigs[i as int]).push(digits[i as int])
    }
}

/// What digit items read as.
pub open spec fn digit_values(digits: Seq<Item>) -> Seq<int> {
    Seq::new(
        digits.len(),
        |i: int|
            match vm::as_num(digits[i]) {
                Some(d) => d,
                None => -1,
            },
    )
}

/// Whether every chain opens.
pub open spec fn all_open(
    h: spec_fn(Seq<u8>) -> Seq<u8>,
    sigs: Seq<Item>,
    digits: Seq<Item>,
    pks: Seq<Seq<u8>>,
) -> bool {
    forall|i: int| 0 <= i < pks.len() ==> #[trigger] opens(h, sigs[i], digits[i], pks[i])
}

/// The message elements digits spell out, eight digits each.
pub open spec fn elements(d: Seq<int>, n: nat) -> Seq<int> {
    Seq::new(n, |j: int| base16(d.subrange(8 * j, 8 * j + 8)))
}

/// The message digits and the checksum the digits carry add up.
pub open spec fn sum_matches(d: Seq<int>, m: nat) -> bool {
    sum(d.take(m as int)) + base16(d.skip(m as int)) == 15 * m
}

/// Whether digits are a signature's digits for `n` elements: the checksum
/// matches, and every element fits a script operand.
pub open spec fn well_signed(d: Seq<int>, n: nat) -> bool {
    &&& sum_matches(d, 8 * n)
    &&& forall|j: int| 0 <= j < n ==> #[trigger] elements(d, n)[j] < 0x80000000
}

/// Whether a witness is a signature under the keys.
pub open spec fn accepts(
    h: spec_fn(Seq<u8>) -> Seq<u8>,
    sigs: Seq<Item>,
    digits: Seq<Item>,
    pks: Seq<Seq<u8>>,
    n: nat,
) -> bool {
    all_open(h, sigs, digits, pks) && well_signed(digit_values(digits), n)
}

/// Sixteen times the top element, by doubling.
#[verifier::opaque]
pub open spec fn times16_code() -> Seq<Instr> {
    vm::nil().push(vm::o(Opcode::Dup)).push(vm::o(Opcode::Add)).push(vm::o(Opcode::Dup)).push(
        vm::o(Opcode::Add),
    ).push(vm::o(Opcode::Dup)).push(vm::o(Opcode::Add)).push(vm::o(Opcode::Dup)).push(
        vm::o(Opcode::Add),
    )
}

proof fn lemma_times16(c: Ctx, v: Seq<Item>, w: Seq<Item>, e: int)
    requires
        c.live(),
        0 <= e < 0x10000000,
    ensures
        vm::run(times16_code(), vm::at(c, v.push(vm::num(e)), w)) == Some(
            vm::at(c, v.push(vm::num(16 * e)), w),
        ),
{
    reveal(times16_code);
    broadcast use vm::group_run;

}

/// Sixteen times the top element, by doubling: there is no multiply opcode.
fn times16() -> (r: Script)
    ensures
        r.code() == times16_code(),
{
    proof {
        reveal(times16_code);
    }
    Script::new().op(Opcode::Dup).op(Opcode::Add).op(Opcode::Dup).op(Opcode::Add).op(
        Opcode::Dup,
    ).op(Opcode::Add).op(Opcode::Dup).op(Opcode::Add)
}

/// The chains, each verified and its digit parked.
pub open spec fn chain_codes(pks: Seq<Seq<u8>>) -> spec_fn(int) -> Seq<Instr> {
    |i: int| verify_digit_code(pks[i]).push(vm::o(Opcode::ToAltStack))
}

/// One digit of the checksum.
pub open spec fn check_digit_codes() -> spec_fn(int) -> Seq<Instr> {
    |i: int| times16_code().push(vm::o(Opcode::FromAltStack)).push(vm::o(Opcode::Add))
}

/// One digit of an element, summed alongside.
#[verifier::opaque]
pub open spec fn element_digit_code() -> Seq<Instr> {
    (vm::nil().push(vm::o(Opcode::FromAltStack)).push(vm::o(Opcode::Tuck)).push(
        vm::o(Opcode::Swap),
    ) + times16_code()).push(vm::o(Opcode::Add)).push(vm::o(Opcode::Swap)).push(
        vm::o(Opcode::Rot),
    ).push(vm::o(Opcode::Add)).push(vm::o(Opcode::Swap))
}

/// The code that takes each digit of an element.
pub open spec fn element_digit_codes() -> spec_fn(int) -> Seq<Instr> {
    |i: int| element_digit_code()
}

/// One element.
#[verifier::opaque]
pub open spec fn element_code() -> Seq<Instr> {
    (vm::nil().push(vm::k(0)) + vm::flat(8, element_digit_codes())).push(vm::o(Opcode::Swap))
}

/// The code that rebuilds each element.
pub open spec fn element_codes() -> spec_fn(int) -> Seq<Instr> {
    |j: int| element_code()
}

/// The rolls that put the elements in order.
pub open spec fn reorder_codes() -> spec_fn(int) -> Seq<Instr> {
    |i: int| vm::roll_code(i + 1)
}

/// The number of rolls that put `n` elements in order.
pub open spec fn reorder_count(n: nat) -> nat {
    if n == 0 {
        0
    } else {
        (n - 1) as nat
    }
}

/// The comparison of the sums.
#[verifier::opaque]
pub open spec fn compare_sums_code(n: nat) -> Seq<Instr> {
    vm::roll_code(n as int + 1).push(vm::o(Opcode::Add)).push(vm::k(120 * n as int)).push(
        vm::o(Opcode::EqualVerify),
    )
}

/// The code of [`verify`].
#[verifier::opaque]
pub open spec fn verify_code(pks: Seq<Seq<u8>>, n: nat) -> Seq<Instr> {
    (vm::flat(pks.len(), chain_codes(pks)).push(vm::k(0)) + vm::flat(
        digit_count(120 * n),
        check_digit_codes(),
    )).push(vm::k(0)) + vm::flat(n, element_codes()) + compare_sums_code(n) + vm::flat(
        reorder_count(n),
        reorder_codes(),
    )
}

/// The chains, all of them open or not.
proof fn lemma_chains(
    c: Ctx,
    v: Seq<Item>,
    w: Seq<Item>,
    sigs: Seq<Item>,
    digits: Seq<Item>,
    pks: Seq<Seq<u8>>,
)
    requires
        c.live(),
        sigs.len() == pks.len(),
        digits.len() == pks.len(),
    ensures
        vm::run(
            vm::flat(pks.len(), chain_codes(pks)),
            vm::at(c, v + witness(sigs, digits, 0), w),
        ) == (if all_open(c.hash, sigs, digits, pks) {
            Some(vm::at(c, v, w + digits))
        } else {
            None
        }),
{
    let t = pks.len();
    let f = chain_codes(pks);
    let st = |i: int| vm::at(c, v + witness(sigs, digits, i as nat), w + digits.take(i));
    assert forall|i: int| 0 <= i < t implies #[trigger] vm::run(f(i), st(i)) == (if opens(
        c.hash,
        sigs[i],
        digits[i],
        pks[i],
    ) {
        Some(st(i + 1))
    } else {
        None
    }) by {
        broadcast use vm::group_run;

        let v1 = v + witness(sigs, digits, (i + 1) as nat);
        let w1 = w + digits.take(i);
        assert(v + witness(sigs, digits, i as nat) =~= v1.push(sigs[i]).push(digits[i]));
        lemma_verify_digit(c, v1, w1, sigs[i], digits[i], pks[i]);
        assert(w1.push(digits[i]) =~= w + digits.take(i + 1));
    }
    assert(w + digits.take(0) =~= w);
    if all_open(c.hash, sigs, digits, pks) {
        vm::lemma_run_flat(t, f, st);
        assert(v + witness(sigs, digits, t) =~= v);
        assert(digits.take(t as int) =~= digits);
    } else {
        let bad = choose|i: int|
            0 <= i < t && !#[trigger] opens(c.hash, sigs[i], digits[i], pks[i]);
        let closed = |i: int| !opens(c.hash, sigs[i], digits[i], pks[i]);
        let j = lemma_first(bad, closed);
        assert forall|i: int| 0 <= i < j implies #[trigger] vm::run(f(i), st(i)) == Some(
            st(i + 1),
        ) by {
            assert(!closed(i));
        }
        vm::lemma_run_flat_fails(t, f, st, j);
    }
}

/// The least index at which a property holds.
proof fn lemma_first(i: int, p: spec_fn(int) -> bool) -> (j: int)
    requires
        0 <= i,
        p(i),
    ensures
        0 <= j <= i,
        p(j),
        forall|t: int| 0 <= t < j ==> !#[trigger] p(t),
    decreases i,
{
    if exists|t: int| 0 <= t < i && #[trigger] p(t) {
        let t = choose|t: int| 0 <= t < i && #[trigger] p(t);
        lemma_first(t, p)
    } else {
        i
    }
}

proof fn lemma_check_digit(c: Ctx, v: Seq<Item>, w: Seq<Item>, e: int, digit: Item, d: int)
    requires
        c.live(),
        0 <= e < 0x10000000,
        vm::as_num(digit) == Some(d),
        0 <= d <= 15,
    ensures
        vm::run(check_digit_codes()(0), vm::at(c, v.push(vm::num(e)), w.push(digit))) == (if 16 * e
            < 0x80000000 {
            Some(vm::at(c, v.push(vm::num(16 * e + d)), w))
        } else {
            None
        }),
{
    broadcast use vm::group_run;

    lemma_times16(c, v, w.push(digit), e);
    if 16 * e >= 0x80000000 {
        vm::lemma_as_num_long(16 * e);
    }
}

/// The checksum read back from its digits. A value that does not fit an operand
/// makes the script fail.
proof fn lemma_checksum(c: Ctx, v: Seq<Item>, w: Seq<Item>, digits: Seq<Item>, k: nat)
    requires
        c.live(),
        are_digits(digit_values(digits)),
        k <= 8,
        k <= digits.len(),
    ensures
        ({
            let d = digit_values(digits);
            let value = base16(d.skip(digits.len() - k));
            vm::run(
                vm::flat(k, check_digit_codes()),
                vm::at(c, v.push(vm::num(0)), w + digits),
            ) == (if value < 0x80000000 {
                Some(vm::at(c, v.push(vm::num(value)), w + digits.take(digits.len() - k)))
            } else {
                None
            })
        }),
{
    let d = digit_values(digits);
    let t = digits.len() as int;
    let f = check_digit_codes();
    let value = |i: int| base16(d.skip(t - i));
    let st = |i: int| vm::at(c, v.push(vm::num(value(i))), w + digits.take(t - i));
    reveal_with_fuel(power16, 9);
    assert forall|i: int| 0 <= i < k implies #[trigger] vm::run(f(i), st(i)) == (if value(i + 1)
        < 0x80000000 {
        Some(st(i + 1))
    } else {
        None
    }) by {
        let j = t - i - 1;
        let tail = d.skip(t - i);
        lemma_base16_range(tail);
        lemma_power16_mono(i as nat, 7);
        lemma_skip(d, j);
        assert(w + digits.take(t - i) =~= (w + digits.take(j)).push(digits[j]));
        assert(vm::as_num(digits[j]) == Some(d[j]));
        lemma_check_digit(c, v, w + digits.take(j), value(i), digits[j], d[j]);
        assert(f(i) == f(0));
    }
    assert(d.skip(t) =~= Seq::empty());
    assert(digits.take(t) =~= digits);
    lemma_values_grow(d, t, k as int);
    if value(k as int) < 0x80000000 {
        vm::lemma_run_flat(k, f, st);
    } else {
        assert(value(0) == 0);
        let long = |i: int| value(i + 1) >= 0x80000000;
        let j = lemma_first(k - 1, long);
        assert forall|i: int| 0 <= i < j implies #[trigger] vm::run(f(i), st(i)) == Some(
            st(i + 1),
        ) by {
            assert(!long(i));
        }
        vm::lemma_run_flat_fails(k, f, st, j);
    }
}

/// Longer suffixes of digits have larger values.
proof fn lemma_values_grow(d: Seq<int>, t: int, k: int)
    requires
        are_digits(d),
        0 <= k <= t == d.len(),
    ensures
        forall|i: int| 0 <= i <= k ==> #[trigger] base16(d.skip(t - i)) <= base16(d.skip(t - k)),
    decreases k,
{
    if k > 0 {
        lemma_values_grow(d, t, k - 1);
        lemma_skip(d, t - k);
        assert(are_digits(d.skip(t - k + 1)));
        lemma_base16_range(d.skip(t - k + 1));
    }
}

proof fn lemma_element_digit(
    c: Ctx,
    v: Seq<Item>,
    w: Seq<Item>,
    s: int,
    e: int,
    digit: Item,
    d: int,
)
    requires
        c.live(),
        0 <= s < 0x80000000,
        0 <= e < 0x10000000,
        vm::as_num(digit) == Some(d),
        0 <= d <= 15,
    ensures
        vm::run(
            element_digit_code(),
            vm::at(c, v.push(vm::num(s)).push(vm::num(e)), w.push(digit)),
        ) == (if 16 * e < 0x80000000 {
            Some(vm::at(c, v.push(vm::num(s + d)).push(vm::num(16 * e + d)), w))
        } else {
            None
        }),
{
    reveal(element_digit_code);
    let head = vm::nil().push(vm::o(Opcode::FromAltStack)).push(vm::o(Opcode::Tuck)).push(
        vm::o(Opcode::Swap),
    );
    let m = vm::at(c, v.push(vm::num(s)).push(vm::num(e)), w.push(digit));
    let v1 = v.push(vm::num(s)).push(digit).push(digit);
    assert(vm::run(head, m) == Some(vm::at(c, v1.push(vm::num(e)), w))) by {
        broadcast use vm::group_run;

    }
    lemma_times16(c, v1, w, e);
    if 16 * e >= 0x80000000 {
        vm::lemma_as_num_long(16 * e);
    }
    vm::lemma_run_concat(head, times16_code(), m);
    let p = head + times16_code();
    assert(vm::run(p, m) == Some(vm::at(c, v1.push(vm::num(16 * e)), w)));
    assert(vm::run(
        p.push(vm::o(Opcode::Add)).push(vm::o(Opcode::Swap)).push(vm::o(Opcode::Rot)).push(
            vm::o(Opcode::Add),
        ).push(vm::o(Opcode::Swap)),
        m,
    ) == (if 16 * e < 0x80000000 {
        Some(vm::at(c, v.push(vm::num(s + d)).push(vm::num(16 * e + d)), w))
    } else {
        None
    })) by {
        broadcast use vm::group_run;

    }
}

/// One element read back from its eight digits.
proof fn lemma_element(c: Ctx, v: Seq<Item>, w: Seq<Item>, s: int, digits: Seq<Item>)
    requires
        c.live(),
        0 <= s < 0x80000000 - 120,
        digits.len() == 8,
        are_digits(digit_values(digits)),
    ensures
        ({
            let d = digit_values(digits);
            vm::run(element_code(), vm::at(c, v.push(vm::num(s)), w + digits)) == (if base16(d)
                < 0x80000000 {
                Some(vm::at(c, v.push(vm::num(base16(d))).push(vm::num(s + sum(d))), w))
            } else {
                None
            })
        }),
{
    reveal(element_code);
    let d = digit_values(digits);
    let f = element_digit_codes();
    let value = |i: int| base16(d.skip(8 - i));
    let total = |i: int| s + sum(d.skip(8 - i));
    let st = |i: int|
        vm::at(c, v.push(vm::num(total(i))).push(vm::num(value(i))), w + digits.take(8 - i));
    reveal_with_fuel(power16, 9);
    assert forall|i: int| 0 <= i < 8 implies #[trigger] vm::run(f(i), st(i)) == (if value(i + 1)
        < 0x80000000 {
        Some(st(i + 1))
    } else {
        None
    }) by {
        let j = 7 - i;
        lemma_base16_range(d.skip(8 - i));
        lemma_power16_mono(i as nat, 7);
        lemma_skip(d, j);
        assert(w + digits.take(8 - i) =~= (w + digits.take(j)).push(digits[j]));
        assert(vm::as_num(digits[j]) == Some(d[j]));
        lemma_element_digit(c, v, w + digits.take(j), total(i), value(i), digits[j], d[j]);
    }
    assert(d.skip(8) =~= Seq::empty());
    assert(digits.take(8) =~= digits);
    assert(d.skip(0) =~= d);
    assert(w + digits.take(0) =~= w);
    lemma_values_grow(d, 8, 8);
    let start = vm::at(c, v.push(vm::num(s)), w + digits);
    assert(vm::run(vm::nil().push(vm::k(0)), start) == Some(st(0))) by {
        broadcast use vm::group_run;

    }
    if base16(d) < 0x80000000 {
        vm::lemma_run_flat(8, f, st);
    } else {
        let long = |i: int| value(i + 1) >= 0x80000000;
        let j = lemma_first(7, long);
        assert forall|i: int| 0 <= i < j implies #[trigger] vm::run(f(i), st(i)) == Some(
            st(i + 1),
        ) by {
            assert(!long(i));
        }
        vm::lemma_run_flat_fails(8, f, st, j);
    }
    broadcast use vm::group_run;

}

/// Elements last first, as they come off the digits.
spec fn reversed(d: Seq<int>, n: nat, j: nat) -> Seq<int> {
    Seq::new(j, |i: int| elements(d, n)[n - 1 - i])
}

/// The sum of a block of digits splits off.
proof fn lemma_sum_split(d: Seq<int>, i: int)
    requires
        0 <= i <= d.len(),
    ensures
        sum(d) == sum(d.take(i)) + sum(d.skip(i)),
    decreases d.len(),
{
    if i == 0 {
        assert(d.take(0) =~= Seq::empty());
        assert(d.skip(0) =~= d);
    } else {
        lemma_sum_split(d.skip(1), i - 1);
        assert(d.take(i).skip(1) =~= d.skip(1).take(i - 1));
        assert(d.skip(1).skip(i - 1) =~= d.skip(i));
        assert(d.take(i)[0] == d[0]);
    }
}

/// The elements read back from the message digits, last first.
proof fn lemma_elements(c: Ctx, v: Seq<Item>, w: Seq<Item>, digits: Seq<Item>, n: nat)
    requires
        c.live(),
        digits.len() == 8 * n,
        120 * n < 0x80000000,
        are_digits(digit_values(digits)),
    ensures
        ({
            let d = digit_values(digits);
            vm::run(
                vm::flat(n, element_codes()),
                vm::at(c, v.push(vm::num(0)), w + digits),
            ) == (if forall|j: int| 0 <= j < n ==> #[trigger] elements(d, n)[j] < 0x80000000 {
                Some(vm::at(c, (v + vm::nums(reversed(d, n, n))).push(vm::num(sum(d))), w))
            } else {
                None
            })
        }),
{
    let d = digit_values(digits);
    let f = element_codes();
    let st = |j: int|
        vm::at(
            c,
            (v + vm::nums(reversed(d, n, j as nat))).push(vm::num(sum(d.skip(8 * (n - j))))),
            w + digits.take(8 * (n - j)),
        );
    assert forall|j: int| 0 <= j < n implies #[trigger] vm::run(f(j), st(j)) == (if elements(
        d,
        n,
    )[n - 1 - j] < 0x80000000 {
        Some(st(j + 1))
    } else {
        None
    }) by {
        let e = n - 1 - j;
        let block = digits.subrange(8 * e, 8 * e + 8);
        let bd = digit_values(block);
        assert(bd =~= d.subrange(8 * e, 8 * e + 8));
        let tail = d.skip(8 * (n - j));
        assert(are_digits(tail));
        lemma_base16_range(tail);
        let v1 = v + vm::nums(reversed(d, n, j as nat));
        let w1 = w + digits.take(8 * e);
        assert(w + digits.take(8 * (n - j)) =~= w1 + block);
        lemma_element(c, v1, w1, sum(tail), block);
        assert(v1.push(vm::num(elements(d, n)[e])) =~= v + vm::nums(
            reversed(d, n, (j + 1) as nat),
        ));
        lemma_sum_split(d.skip(8 * e), 8);
        assert(d.skip(8 * e).take(8) =~= bd);
        assert(d.skip(8 * e).skip(8) =~= tail);
    }
    assert(d.skip(8 * n as int) =~= Seq::empty());
    assert(digits.take(8 * n as int) =~= digits);
    assert((v + vm::nums(reversed(d, n, 0))) =~= v);
    assert(d.skip(0) =~= d);
    assert(w + digits.take(0) =~= w);
    if forall|j: int| 0 <= j < n ==> #[trigger] elements(d, n)[j] < 0x80000000 {
        vm::lemma_run_flat(n, f, st);
    } else {
        let bad = choose|j: int| 0 <= j < n && !(#[trigger] elements(d, n)[j] < 0x80000000);
        let long = |j: int| elements(d, n)[n - 1 - j] >= 0x80000000;
        assert(long(n - 1 - bad));
        let j = lemma_first(n - 1 - bad, long);
        assert forall|i: int| 0 <= i < j implies #[trigger] vm::run(f(i), st(i)) == Some(
            st(i + 1),
        ) by {
            assert(!long(i));
        }
        vm::lemma_run_flat_fails(n, f, st, j);
    }
}

/// Putting the elements in order.
#[verifier::rlimit(40)]
proof fn lemma_reorder(c: Ctx, v: Seq<Item>, w: Seq<Item>, d: Seq<int>, n: nat)
    requires
        c.live(),
        n < 0x80000000,
    ensures
        vm::run(
            vm::flat(reorder_count(n), reorder_codes()),
            vm::at(c, v + vm::nums(reversed(d, n, n)), w),
        ) == Some(vm::at(c, v + vm::nums(elements(d, n)), w)),
{
    let e = elements(d, n);
    let r = reversed(d, n, n);
    if n == 0 {
        vm::lemma_run_empty(vm::at(c, v + vm::nums(r), w));
        assert(vm::nums(r) =~= vm::nums(e));
    } else {
        let f = reorder_codes();
        let st = |i: int|
            vm::at(c, v + vm::nums(r.take(n - 1 - i)) + vm::nums(e.take(i + 1)), w);
        assert forall|i: int| 0 <= i < n - 1 implies #[trigger] vm::run(f(i), st(i)) == Some(
            st(i + 1),
        ) by {
            let now = v + vm::nums(r.take(n - 1 - i)) + vm::nums(e.take(i + 1));
            vm::lemma_roll(c, now, w, i + 1);
            assert(now[now.len() - 2 - i] == vm::num(e[i + 1]));
            assert(now.remove(now.len() - 2 - i).push(vm::num(e[i + 1])) =~= v + vm::nums(
                r.take(n - 2 - i),
            ) + vm::nums(e.take(i + 2)));
        }
        vm::lemma_run_flat(reorder_count(n), f, st);
        assert(v + vm::nums(r.take(n - 1)) + vm::nums(e.take(1)) =~= v + vm::nums(r));
        assert(v + vm::nums(r.take(0)) + vm::nums(e.take(n as int)) =~= v + vm::nums(e));
    }
}

/// Comparing the sum of the digits and the checksum with what they must make.
proof fn lemma_compare_sums(
    c: Ctx,
    v: Seq<Item>,
    w: Seq<Item>,
    check: int,
    x: Seq<Item>,
    s: int,
)
    requires
        c.live(),
        0 <= check < 0x80000000,
        0 <= s < 0x80000000,
        x.len() + 1 < 0x80000000,
    ensures
        vm::run(
            compare_sums_code(x.len()),
            vm::at(c, (v.push(vm::num(check)) + x).push(vm::num(s)), w),
        ) == (if s + check == 120 * x.len() {
            Some(vm::at(c, v + x, w))
        } else {
            None
        }),
{
    reveal(compare_sums_code);
    let now = (v.push(vm::num(check)) + x).push(vm::num(s));
    let n = x.len() as int;
    vm::lemma_roll(c, now, w, n + 1);
    assert(now[now.len() - 1 - (n + 1)] == vm::num(check));
    assert(now.remove(now.len() - 1 - (n + 1)).push(vm::num(check)) =~= (v + x).push(
        vm::num(s),
    ).push(vm::num(check)));
    vm::lemma_num_eq(s + check, 120 * n);
    broadcast use vm::group_run;

}

/// What [`verify`] does to any witness.
pub proof fn lemma_verify(
    c: Ctx,
    v: Seq<Item>,
    w: Seq<Item>,
    sigs: Seq<Item>,
    digits: Seq<Item>,
    pks: Seq<Seq<u8>>,
    n: nat,
)
    requires
        c.live(),
        120 * n < 0x80000000,
        pks.len() == chain_count(8 * n),
        sigs.len() == pks.len(),
        digits.len() == pks.len(),
    ensures
        vm::run(verify_code(pks, n), vm::at(c, v + witness(sigs, digits, 0), w)) == (if accepts(
            c.hash,
            sigs,
            digits,
            pks,
            n,
        ) {
            Some(vm::at(c, v + vm::nums(elements(digit_values(digits), n)), w))
        } else {
            None
        }),
{
    reveal(verify_code);
    let d = digit_values(digits);
    let m = (8 * n) as int;
    let k = digit_count(120 * n);
    let start = vm::at(c, v + witness(sigs, digits, 0), w);
    let p1 = vm::flat(pks.len(), chain_codes(pks));
    lemma_chains(c, v, w, sigs, digits, pks);
    if !all_open(c.hash, sigs, digits, pks) {
        broadcast use vm::group_run;

    } else {
        assert(are_digits(d)) by {
            assert forall|i: int| 0 <= i < d.len() implies 0 <= #[trigger] d[i] <= 15 by {
                assert(opens(c.hash, sigs[i], digits[i], pks[i]));
            }
        }
        lemma_digit_count_bound(120 * n);
        let check = base16(d.skip(m));
        let md = digits.take(m);
        lemma_checksum(c, v, w, digits, k);
        assert(d.skip(digits.len() - k) =~= d.skip(m));
        assert(digits.take(digits.len() - k) =~= md);
        let body = d.take(m);
        assert(digit_values(md) =~= body);
        lemma_base16_range(body);
        assert(are_digits(d.skip(m)));
        lemma_base16_range(d.skip(m));
        assert(elements(body, n) =~= elements(d, n)) by {
            assert forall|j: int| 0 <= j < n implies #[trigger] elements(body, n)[j] == elements(
                d,
                n,
            )[j] by {
                assert(body.subrange(8 * j, 8 * j + 8) =~= d.subrange(8 * j, 8 * j + 8));
            }
        }
        if check >= 0x80000000 {
            // The sum of the digits and the checksum cannot match any more.
            broadcast use vm::group_run;

        } else {
            let v1 = v.push(vm::num(check));
            lemma_elements(c, v1, w, md, n);
            assert(reversed(body, n, n) =~= reversed(d, n, n));
            let x = vm::nums(reversed(d, n, n));
            lemma_compare_sums(c, v, w, check, x, sum(body));
            lemma_reorder(c, v, w, d, n);
            broadcast use vm::group_run;

        }
    }
}

proof fn lemma_digit_count_bound(x: nat)
    requires
        x < 0x80000000,
    ensures
        digit_count(x) <= 8,
{
    digit_count_is_least(x);
    reveal_with_fuel(power16, 9);
    if digit_count(x) > 8 {
        lemma_power16_mono(8, (digit_count(x) - 1) as nat);
    }
}

/// Verify a signature and leave the message as field elements.
///
/// # Stack
///
/// Witness, with chain 0 **on top**: for each of the [`chains`] positions,
/// `sig(20) d`, the message digits least significant first, then the checksum.
/// Out: `n_elements` field elements, the first deepest.
///
/// The script fails unless every chain opens, the checksum matches, and every
/// element fits a script operand.
///
/// # What the checksum buys, concretely
///
/// Raising any message digit lowers `sum(W - 1 - d_i)`, which lowers at least
/// one checksum digit. A chain's signature for a lower digit is *earlier* in the
/// chain, and a forger holds only what it was given plus the public key, the
/// far end. So the forgery costs a preimage of `H`.
///
/// This is why the checksum digits are verified with the same routine rather
/// than recomputed from the message: their being signed is the whole point, and
/// a recomputed checksum would be free to whoever is lying.
///
/// # Why nothing is parked while digits are still coming back
///
/// The digits live on the altstack, so a finished element cannot be parked
/// there: it would sit on top of the digits still to be read and be popped in
/// their place. Everything stays on the main stack, with the running checksum
/// sum kept directly beneath the element under construction, so the per-digit
/// juggle is at a constant depth however many elements are already finished.
///
/// The checksum is a script number of at most four bytes, which bounds
/// `n_elements`.
pub fn verify(pks: &[[u8; 20]], n_elements: usize) -> (r: Script)
    requires
        120 * n_elements < 0x80000000,
        120 * n_elements <= usize::MAX / 16,
        pks@.len() == chain_count((8 * n_elements) as nat),
    ensures
        r.code() == verify_code(keys(pks@), n_elements as nat),
        forall|sigs: Seq<Item>, digits: Seq<Item>, c: Ctx, v: Seq<Item>, w: Seq<Item>|
            sigs.len() == pks@.len() && digits.len() == pks@.len() && c.live() ==> #[trigger] vm::run(
                r.code(),
                vm::at(c, v + witness(sigs, digits, 0), w),
            ) == (if accepts(c.hash, sigs, digits, keys(pks@), n_elements as nat) {
                Some(
                    vm::at(
                        c,
                        v + vm::nums(elements(digit_values(digits), n_elements as nat)),
                        w,
                    ),
                )
            } else {
                None
            }),
{
    let ghost ks = keys(pks@);
    let ghost n = n_elements as nat;
    proof {
        assert forall|sigs: Seq<Item>, digits: Seq<Item>, c: Ctx, v: Seq<Item>, w: Seq<Item>|
            sigs.len() == ks.len() && digits.len() == ks.len() && c.live() implies #[trigger] vm::run(
            verify_code(ks, n),
            vm::at(c, v + witness(sigs, digits, 0), w),
        ) == (if accepts(c.hash, sigs, digits, ks, n) {
            Some(vm::at(c, v + vm::nums(elements(digit_values(digits), n)), w))
        } else {
            None
        }) by {
            lemma_verify(c, v, w, sigs, digits, ks, n);
        }
        reveal(verify_code);
    }
    let message_digits: usize = n_elements * DIGITS_PER_ELEMENT;
    let n_check: usize = checksum_digits(message_digits);
    let mut verify_all = Script::new();
    let mut i: usize = 0;
    while i < pks.len()
        invariant
            i <= pks@.len(),
            ks == keys(pks@),
            verify_all.code() == vm::flat(i as nat, chain_codes(ks)),
        decreases pks.len() - i,
    {
        verify_all = verify_all.then_script(verify_digit(&pks[i]).op(Opcode::ToAltStack));
        i = i + 1;
    }
    // The checksum the signature carries, most significant digit first.
    let mut check = Script::new();
    let mut i: usize = 0;
    while i < n_check
        invariant
            i <= n_check,
            check.code() == vm::flat(i as nat, check_digit_codes()),
        decreases n_check - i,
    {
        check = check.then_script(times16().op(Opcode::FromAltStack).op(Opcode::Add));
        i = i + 1;
    }
    // Elements, most significant digit first, with the digits summed alongside.
    // The top two are always `sum, element`.
    let mut body = Script::new();
    let mut j: usize = 0;
    while j < n_elements
        invariant
            j <= n_elements,
            body.code() == vm::flat(j as nat, element_codes()),
        decreases n_elements - j,
    {
        body = body.then_script(element());
        j = j + 1;
    }
    // The elements came out last-first, because the digits did.
    let mut reorder = Script::new();
    let mut i: usize = 1;
    while i < n_elements
        invariant
            120 * n_elements < 0x80000000,
            1 <= i,
            i <= n_elements || i == 1,
            reorder.code() == vm::flat((i - 1) as nat, reorder_codes()),
        decreases n_elements - i,
    {
        reorder = reorder.then_script(Script::new().num(i as i64).op(Opcode::Roll));
        i = i + 1;
    }
    // sum(d_i) + checksum == message_digits * (W - 1), which is what makes a
    // raised digit unaffordable. The checksum is under every element.
    proof {
        reveal(compare_sums_code);
    }
    let compare = Script::new().num((n_elements + 1) as i64).op(Opcode::Roll).op(Opcode::Add).num(
        (message_digits * (W - 1)) as i64,
    ).op(Opcode::EqualVerify);
    verify_all.num(0).then_script(check).num(0).then_script(body).then_script(compare).then_script(
        reorder,
    )
}

/// One element read back from its digits.
fn element() -> (r: Script)
    ensures
        r.code() == element_code(),
{
    proof {
        reveal(element_code);
    }
    let mut body = Script::new();
    let mut i: usize = 0;
    while i < DIGITS_PER_ELEMENT
        invariant
            i <= DIGITS_PER_ELEMENT,
            body.code() == vm::flat(i as nat, element_digit_codes()),
        decreases DIGITS_PER_ELEMENT - i,
    {
        proof {
            reveal(element_digit_code);
        }
        // .. S E  ->  .. S d E'  ->  .. E' d S  ->  .. S' E'
        let step = Script::new().op(Opcode::FromAltStack).op(Opcode::Tuck).op(
            Opcode::Swap,
        ).then_script(times16()).op(Opcode::Add).op(Opcode::Swap).op(Opcode::Rot).op(
            Opcode::Add,
        ).op(Opcode::Swap);
        body = body.then_script(step);
        i = i + 1;
    }
    // The finished element goes below the sum.
    Script::new().num(0).then_script(body).op(Opcode::Swap)
}

/// Keys of twenty zero bytes.
pub open spec fn zero_keys(count: nat) -> Seq<Seq<u8>> {
    Seq::new(count, |i: int| Seq::new(20, |j: int| 0u8))
}

/// As many keys of zero bytes as asked for.
pub(crate) fn blank_keys(count: usize) -> (r: Vec<[u8; 20]>)
    ensures
        keys(r@) == zero_keys(count as nat),
{
    let mut r: Vec<[u8; 20]> = Vec::new();
    let blank: [u8; 20] = [0; 20];
    let mut i: usize = 0;
    while i < count
        invariant
            i <= count,
            r@.len() == i,
            blank@ =~= Seq::new(20, |j: int| 0u8),
            forall|t: int| 0 <= t < i ==> (#[trigger] r@[t])@ == blank@,
        decreases count - i,
    {
        r.push(blank);
        i = i + 1;
    }
    assert(keys(r@) =~= zero_keys(count as nat));
    r
}

/// Script bytes a signature verification costs, for the cost model.
pub fn verify_len(n_elements: usize) -> (r: usize)
    requires
        120 * n_elements < 0x80000000,
        120 * n_elements <= usize::MAX / 16,
    ensures
        r == script::size(
            verify_code(
                zero_keys(chain_count((8 * n_elements) as nat)),
                n_elements as nat,
            ),
        ),
{
    let pks = blank_keys(chains(n_elements * DIGITS_PER_ELEMENT));
    assert(keys(pks@).len() == pks@.len());
    verify(&pks, n_elements).len()
}

// ---------------------------------------------------------------------------
// Laws
// ---------------------------------------------------------------------------

/// The `k` low base-16 digits of `x`, least significant first.
pub open spec fn to_base16(x: nat, k: nat) -> Seq<int>
    decreases k,
{
    if k == 0 {
        Seq::empty()
    } else {
        seq![(x % 16) as int] + to_base16(x / 16, (k - 1) as nat)
    }
}

proof fn lemma_to_base16(x: nat, k: nat)
    requires
        x < power16(k),
    ensures
        to_base16(x, k).len() == k,
        are_digits(to_base16(x, k)),
        base16(to_base16(x, k)) == x,
    decreases k,
{
    if k > 0 {
        lemma_to_base16(x / 16, (k - 1) as nat);
        let t = to_base16(x / 16, (k - 1) as nat);
        let d = to_base16(x, k);
        assert(d.skip(1) =~= t);
        assert forall|i: int| 0 <= i < d.len() implies 0 <= #[trigger] d[i] <= 15 by {
            if i > 0 {
                assert(d[i] == t[i - 1]);
            }
        }
    }
}

/// The message digits of elements, eight each.
pub open spec fn message_digits(e: Seq<int>) -> Seq<int> {
    Seq::new(8 * e.len(), |i: int| to_base16(e[i / 8] as nat, 8)[i % 8])
}

/// The digits that are signed: the message's, then the checksum's.
pub open spec fn signed_digits(e: Seq<int>) -> Seq<int> {
    let d = message_digits(e);
    d + to_base16((15 * d.len() - sum(d)) as nat, digit_count(15 * d.len()))
}

/// The public keys of secrets: the far end of each chain.
pub open spec fn public_keys(
    h: spec_fn(Seq<u8>) -> Seq<u8>,
    secrets: Seq<Seq<u8>>,
) -> Seq<Seq<u8>> {
    Seq::new(secrets.len(), |i: int| hash_chain(h, secrets[i], 15))
}

/// The signature items for digits: as far along each chain as the digit says.
pub open spec fn signature(
    h: spec_fn(Seq<u8>) -> Seq<u8>,
    secrets: Seq<Seq<u8>>,
    d: Seq<int>,
) -> Seq<Item> {
    Seq::new(secrets.len(), |i: int| hash_chain(h, secrets[i], d[i] as nat))
}

proof fn lemma_hash_chain_add(h: spec_fn(Seq<u8>) -> Seq<u8>, x: Seq<u8>, m: nat, n: nat)
    ensures
        hash_chain(h, hash_chain(h, x, m), n) == hash_chain(h, x, m + n),
    decreases n,
{
    if n > 0 {
        lemma_hash_chain_add(h, x, m, (n - 1) as nat);
    }
}

/// A signature made with the secrets opens to the signed elements, for every
/// hash function and every choice of elements that fit an operand.
pub proof fn signature_opens_to_the_signed_elements(
    h: spec_fn(Seq<u8>) -> Seq<u8>,
    secrets: Seq<Seq<u8>>,
    e: Seq<int>,
)
    requires
        forall|j: int| 0 <= j < e.len() ==> 0 <= #[trigger] e[j] < 0x80000000,
        secrets.len() == chain_count(8 * e.len()),
    ensures
        ({
            let d = signed_digits(e);
            &&& d.len() == secrets.len()
            &&& are_digits(d)
            &&& accepts(
                h,
                signature(h, secrets, d),
                vm::nums(d),
                public_keys(h, secrets),
                e.len(),
            )
            &&& elements(digit_values(vm::nums(d)), e.len()) == e
        }),
{
    let n = e.len();
    let md = message_digits(e);
    let m = 8 * n;
    reveal_with_fuel(power16, 9);
    assert forall|i: int| 0 <= i < md.len() implies 0 <= #[trigger] md[i] <= 15 by {
        assert(0 <= e[i / 8] < 0x80000000);
        lemma_to_base16(e[i / 8] as nat, 8);
    }
    lemma_base16_range(md);
    let x = (15 * m - sum(md)) as nat;
    let k = digit_count(15 * m);
    digit_count_is_least(15 * m);
    lemma_to_base16(x, k);
    let cd = to_base16(x, k);
    let d = signed_digits(e);
    assert(d == md + cd);
    assert(are_digits(d)) by {
        assert forall|i: int| 0 <= i < d.len() implies 0 <= #[trigger] d[i] <= 15 by {
            if i < m {
                assert(d[i] == md[i]);
            } else {
                assert(d[i] == cd[i - m]);
            }
        }
    }
    assert(d.take(m as int) =~= md);
    assert(d.skip(m as int) =~= cd);
    let dv = digit_values(vm::nums(d));
    assert(dv =~= d) by {
        broadcast use vm::group_run;

    }
    assert forall|j: int| 0 <= j < n implies #[trigger] elements(d, n)[j] == e[j] by {
        assert(0 <= e[j] < 0x80000000);
        lemma_to_base16(e[j] as nat, 8);
        let block = d.subrange(8 * j, 8 * j + 8);
        assert forall|i: int| 0 <= i < 8 implies #[trigger] block[i] == to_base16(
            e[j] as nat,
            8,
        )[i] by {
            assert(block[i] == md[8 * j + i]);
            assert((8 * j + i) / 8 == j && (8 * j + i) % 8 == i);
        }
        assert(block =~= to_base16(e[j] as nat, 8));
    }
    assert(elements(d, n) =~= e);
    let sigs = signature(h, secrets, d);
    let pks = public_keys(h, secrets);
    assert forall|i: int| 0 <= i < pks.len() implies #[trigger] opens(
        h,
        sigs[i],
        vm::nums(d)[i],
        pks[i],
    ) by {
        broadcast use vm::group_run;

        lemma_hash_chain_add(h, secrets[i], d[i] as nat, (15 - d[i]) as nat);
        assert(d[i] as nat + (15 - d[i]) as nat == 15);
    }
}

/// Raising digits raises the sum and the value, unless nothing was raised.
proof fn lemma_raise(d: Seq<int>, e: Seq<int>)
    requires
        d.len() == e.len(),
        forall|i: int| 0 <= i < d.len() ==> d[i] <= #[trigger] e[i],
    ensures
        sum(d) <= sum(e),
        base16(d) <= base16(e),
        sum(d) == sum(e) ==> d == e,
        base16(d) == base16(e) ==> d == e,
    decreases d.len(),
{
    if d.len() > 0 {
        lemma_raise(d.skip(1), e.skip(1));
        assert(d =~= seq![d[0]] + d.skip(1));
        assert(e =~= seq![e[0]] + e.skip(1));
        assert(d[0] <= e[0]);
    } else {
        assert(d =~= e);
    }
}

/// What makes a forgery cost a preimage: of two different digit sequences that
/// both carry a matching checksum, neither is at least the other everywhere. So
/// whoever opens digits other than those signed opens some chain at a digit
/// lower than the one signed.
pub proof fn no_digits_dominate(d: Seq<int>, e: Seq<int>, n: nat)
    requires
        d.len() == chain_count(8 * n),
        e.len() == d.len(),
        sum_matches(d, 8 * n),
        sum_matches(e, 8 * n),
        d != e,
    ensures
        exists|i: int| 0 <= i < d.len() && #[trigger] e[i] < d[i],
{
    if forall|i: int| 0 <= i < d.len() ==> !(#[trigger] e[i] < d[i]) {
        let m = (8 * n) as int;
        lemma_raise(d.take(m), e.take(m));
        lemma_raise(d.skip(m), e.skip(m));
        assert(d =~= d.take(m) + d.skip(m));
        assert(e =~= e.take(m) + e.skip(m));
    }
}

/// Raising a message digit and lowering none forces lowering a checksum digit.
pub proof fn raising_a_message_digit_lowers_the_checksum(d: Seq<int>, e: Seq<int>, n: nat)
    requires
        d.len() == chain_count(8 * n),
        e.len() == d.len(),
        sum_matches(d, 8 * n),
        sum_matches(e, 8 * n),
        forall|i: int| 0 <= i < 8 * n ==> d[i] <= #[trigger] e[i],
        exists|i: int| 0 <= i < 8 * n && d[i] < #[trigger] e[i],
    ensures
        exists|i: int| 8 * n <= i < d.len() && #[trigger] e[i] < d[i],
{
    no_digits_dominate(d, e, n);
}

/// Two different byte strings with the same hash.
pub open spec fn hashes_collide(h: spec_fn(Seq<u8>) -> Seq<u8>, x: Seq<u8>, y: Seq<u8>) -> bool {
    x != y && h(x) == h(y)
}

/// Whether `x` breaks the hash function against `y`: it is a preimage of `y` under
/// `lead` steps, or the two chains from there on collide within `rest` steps.
pub open spec fn breaks(
    h: spec_fn(Seq<u8>) -> Seq<u8>,
    x: Seq<u8>,
    y: Seq<u8>,
    lead: nat,
    rest: nat,
) -> bool {
    ||| hash_chain(h, x, lead) == y
    ||| exists|k: nat|
        k < rest && hashes_collide(
            h,
            hash_chain(h, hash_chain(h, x, lead), k),
            #[trigger] hash_chain(h, y, k),
        )
}

/// Chains that meet start at the same place or collide on the way.
proof fn lemma_chains_meet(h: spec_fn(Seq<u8>) -> Seq<u8>, x: Seq<u8>, y: Seq<u8>, n: nat)
    requires
        hash_chain(h, x, n) == hash_chain(h, y, n),
    ensures
        x == y || exists|k: nat|
            k < n && hashes_collide(h, hash_chain(h, x, k), #[trigger] hash_chain(h, y, k)),
    decreases n,
{
    if n > 0 {
        let k = (n - 1) as nat;
        if hash_chain(h, x, k) == hash_chain(h, y, k) {
            lemma_chains_meet(h, x, y, k);
        } else {
            assert(hashes_collide(h, hash_chain(h, x, k), hash_chain(h, y, k)));
        }
    }
}

/// Keys bind one message: whoever opens two different sequences of digits under
/// the same keys holds, in some chain, an item that breaks the hash function
/// against the other signature's item there.
pub proof fn a_second_message_breaks_the_hash(
    h: spec_fn(Seq<u8>) -> Seq<u8>,
    sigs: Seq<Item>,
    digits: Seq<Item>,
    other_sigs: Seq<Item>,
    other_digits: Seq<Item>,
    pks: Seq<Seq<u8>>,
    n: nat,
)
    requires
        pks.len() == chain_count(8 * n),
        digits.len() == pks.len(),
        other_digits.len() == pks.len(),
        accepts(h, sigs, digits, pks, n),
        accepts(h, other_sigs, other_digits, pks, n),
        digit_values(digits) != digit_values(other_digits),
    ensures
        exists|i: int|
            0 <= i < pks.len() && #[trigger] digit_values(other_digits)[i] < digit_values(
                digits,
            )[i] && breaks(
                h,
                other_sigs[i],
                sigs[i],
                (digit_values(digits)[i] - digit_values(other_digits)[i]) as nat,
                (15 - digit_values(digits)[i]) as nat,
            ),
{
    let d = digit_values(digits);
    let e = digit_values(other_digits);
    no_digits_dominate(d, e, n);
    let i = choose|i: int| 0 <= i < d.len() && #[trigger] e[i] < d[i];
    assert(opens(h, sigs[i], digits[i], pks[i]));
    assert(opens(h, other_sigs[i], other_digits[i], pks[i]));
    let lead = (d[i] - e[i]) as nat;
    let rest = (15 - d[i]) as nat;
    lemma_hash_chain_add(h, other_sigs[i], lead, rest);
    assert(lead + rest == (15 - e[i]) as nat);
    lemma_chains_meet(h, hash_chain(h, other_sigs[i], lead), sigs[i], rest);
    assert(breaks(h, other_sigs[i], sigs[i], lead, rest));
}

/// The size of a signature verification does not depend on the keys.
pub proof fn verify_len_does_not_depend_on_keys(pks: Seq<Seq<u8>>, n: nat)
    requires
        forall|i: int| 0 <= i < pks.len() ==> (#[trigger] pks[i]).len() == 20,
    ensures
        script::size(verify_code(pks, n)) == script::size(
            verify_code(zero_keys(pks.len()), n),
        ),
{
    reveal(verify_code);
    let z = zero_keys(pks.len());
    let f = chain_codes(pks);
    let g = chain_codes(z);
    assert forall|i: int| 0 <= i < pks.len() implies #[trigger] script::size(f(i))
        == script::size(g(i)) by {
        lemma_chain_len(pks[i], z[i]);
    }
    lemma_flat_len(pks.len(), f, g);
    let a = vm::flat(pks.len(), f);
    let b = vm::flat(pks.len(), g);
    let mid = vm::flat(digit_count(120 * n), check_digit_codes());
    lemma_push_len(a, b, vm::k(0), vm::k(0));
    script::lemma_assemble_concat(a.push(vm::k(0)), mid);
    script::lemma_assemble_concat(b.push(vm::k(0)), mid);
    lemma_push_len(a.push(vm::k(0)) + mid, b.push(vm::k(0)) + mid, vm::k(0), vm::k(0));
    let a2 = (a.push(vm::k(0)) + mid).push(vm::k(0));
    let b2 = (b.push(vm::k(0)) + mid).push(vm::k(0));
    let q1 = vm::flat(n, element_codes());
    let q2 = compare_sums_code(n);
    let q3 = vm::flat(reorder_count(n), reorder_codes());
    script::lemma_assemble_concat(a2, q1);
    script::lemma_assemble_concat(b2, q1);
    script::lemma_assemble_concat(a2 + q1, q2);
    script::lemma_assemble_concat(b2 + q1, q2);
    script::lemma_assemble_concat(a2 + q1 + q2, q3);
    script::lemma_assemble_concat(b2 + q1 + q2, q3);
}

/// Appending equally long instructions to equally long code.
proof fn lemma_push_len(p: Seq<Instr>, q: Seq<Instr>, i: Instr, j: Instr)
    requires
        script::size(p) == script::size(q),
        script::encode(i).len() == script::encode(j).len(),
    ensures
        script::size(p.push(i)) == script::size(q.push(j)),
{
    assert(p.push(i).drop_last() =~= p);
    assert(q.push(j).drop_last() =~= q);
}

/// Loops of equally long bodies are equally long.
pub proof fn lemma_flat_len(
    n: nat,
    f: spec_fn(int) -> Seq<Instr>,
    g: spec_fn(int) -> Seq<Instr>,
)
    requires
        forall|i: int|
            0 <= i < n ==> #[trigger] script::size(f(i)) == script::size(g(i)),
    ensures
        script::size(vm::flat(n, f)) == script::size(vm::flat(n, g)),
    decreases n,
{
    if n > 0 {
        let m = (n - 1) as nat;
        lemma_flat_len(m, f, g);
        script::lemma_assemble_concat(vm::flat(m, f), f(n - 1));
        script::lemma_assemble_concat(vm::flat(m, g), g(n - 1));
        assert(script::size(f(n - 1)) == script::size(g(n - 1)));
    }
}

proof fn lemma_chain_len(a: Seq<u8>, b: Seq<u8>)
    requires
        a.len() == b.len(),
    ensures
        script::size(verify_digit_code(a).push(vm::o(Opcode::ToAltStack)))
            == script::size(verify_digit_code(b).push(vm::o(Opcode::ToAltStack))),
{
    reveal(verify_digit_code);
    let p = (vm::nil().push(vm::o(Opcode::Dup)).push(vm::o(Opcode::ToAltStack)).push(
        vm::k(15),
    ).push(vm::o(Opcode::Swap)).push(vm::o(Opcode::Sub)) + vm::flat(15, walk_step_codes())).push(
        vm::k(0),
    ).push(vm::o(Opcode::EqualVerify));
    let x = Instr::Data(a);
    let y = Instr::Data(b);
    lemma_push_len(p, p, x, y);
    let e = vm::o(Opcode::EqualVerify);
    let f = vm::o(Opcode::FromAltStack);
    let t = vm::o(Opcode::ToAltStack);
    lemma_push_len(p.push(x), p.push(y), e, e);
    lemma_push_len(p.push(x).push(e), p.push(y).push(e), f, f);
    lemma_push_len(p.push(x).push(e).push(f), p.push(y).push(e).push(f), t, t);
}

} // verus!
