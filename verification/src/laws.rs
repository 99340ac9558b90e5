//! What the arithmetic and the hash are for: laws that tie them to plain integers
//! and to each other.

use crate::arith;
use crate::disprove::{self, Opening};
use crate::ext::{self, Ext};
use crate::ext4;
use crate::field;
use crate::merkle;
use crate::permutation;
use crate::poseidon2;
use crate::reference;
use crate::script::{self, Instr, Opcode};
use crate::vm::{self, Ctx, Item, Vm};
use crate::winternitz;
use vstd::arithmetic::div_mod::*;
use vstd::arithmetic::power2::*;
use vstd::prelude::*;

verus! {

// ---------------------------------------------------------------------------
// The row sponge
// ---------------------------------------------------------------------------

/// The sponge starts from zeros, whatever the row.
pub proof fn the_sponge_starts_from_zeros(row: Seq<int>, i: int)
    requires
        0 <= i < 16,
    ensures
        poseidon2::sponge(row, 0).len() == 16,
        poseidon2::sponge(row, 0)[i] == 0,
{
}

/// The sponge after `c` chunks depends on those chunks alone: rows of any lengths
/// that agree on their first `8 c` elements leave it in the same state.
pub proof fn the_sponge_depends_on_what_it_absorbed(row: Seq<int>, other: Seq<int>, c: nat)
    requires
        8 * c <= row.len(),
        8 * c <= other.len(),
        row.take(8 * c as int) == other.take(8 * c as int),
    ensures
        poseidon2::sponge(row, c) == poseidon2::sponge(other, c),
    decreases c,
{
    if c > 0 {
        let k = (c - 1) as nat;
        assert(row.take(8 * k as int) =~= row.take(8 * c as int).take(8 * k as int));
        assert(other.take(8 * k as int) =~= other.take(8 * c as int).take(8 * k as int));
        the_sponge_depends_on_what_it_absorbed(row, other, k);
        let a = poseidon2::chunk(row, k as int);
        let b = poseidon2::chunk(other, k as int);
        assert(a =~= b) by {
            assert forall|i: int| 0 <= i < 8 implies #[trigger] a[i] == b[i] by {
                let j = 8 * k + i;
                assert(row.take(8 * c as int)[j] == row[j]);
                assert(other.take(8 * c as int)[j] == other[j]);
                assert(a[i] == row[j] && b[i] == other[j]);
            }
        }
    }
}

/// A row of whole chunks and up to eight elements more: the sponge over the whole
/// chunks has its leading elements replaced by the last ones and is permuted, and
/// the digest is the first half of that.
pub proof fn a_longer_row_absorbs_once_more(row: Seq<int>, c: nat, x: Seq<int>)
    requires
        row.len() == 8 * c,
        0 < x.len() <= 8,
    ensures
        poseidon2::chunk_count((row + x).len()) == c + 1,
        poseidon2::sponge(row + x, c + 1) == poseidon2::permutation(
            x + poseidon2::sponge(row, c).skip(x.len() as int),
        ),
        poseidon2::row_digest(row + x) == poseidon2::permutation(
            x + poseidon2::sponge(row, c).skip(x.len() as int),
        ).take(8),
{
    let t = row + x;
    assert(t.take(8 * c as int) =~= row);
    assert(row.take(8 * c as int) =~= row);
    the_sponge_depends_on_what_it_absorbed(t, row, c);
    lemma_sponge_len(row, c);
    assert(poseidon2::chunk(t, c as int) =~= x);
    assert(poseidon2::overwrite(poseidon2::sponge(row, c), x) =~= x + poseidon2::sponge(
        row,
        c,
    ).skip(x.len() as int));
    assert((c + 1 - 1) as nat == c);
}

proof fn lemma_sponge_len(row: Seq<int>, c: nat)
    ensures
        poseidon2::sponge(row, c).len() == 16,
{
    if c > 0 {
        let s = poseidon2::overwrite(
            poseidon2::sponge(row, (c - 1) as nat),
            poseidon2::chunk(row, c - 1),
        );
        lemma_after_len(s, poseidon2::round_count());
    }
}

proof fn lemma_after_len(s: Seq<int>, n: nat)
    requires
        s.len() == 16,
    ensures
        poseidon2::after(s, n).len() == 16,
    decreases n,
{
    if n > 0 {
        lemma_after_len(s, (n - 1) as nat);
        poseidon2::lemma_round_keeps_states(poseidon2::after(s, (n - 1) as nat), n - 1);
    }
}

/// A digest hashed as a row is that digest compressed with zeros: the row hash and
/// the Merkle compression are one permutation.
pub proof fn hashing_a_digest_compresses_it_with_zeros(d: Seq<int>)
    requires
        d.len() == 8,
    ensures
        poseidon2::row_digest(d) == poseidon2::compression(d, Seq::new(8, |i: int| 0)),
        poseidon2::row_digest(Seq::empty()) == Seq::new(8, |i: int| 0int),
{
    let none = Seq::<int>::empty();
    a_longer_row_absorbs_once_more(none, 0, d);
    assert(none + d =~= d);
    let s = poseidon2::sponge(none, 0);
    assert(s.skip(8) =~= Seq::new(8, |i: int| 0));
    assert(poseidon2::row_digest(none) =~= Seq::new(8, |i: int| 0int));
}

// ---------------------------------------------------------------------------
// Merkle paths
// ---------------------------------------------------------------------------

/// A level compresses the running digest with its sibling, on the side the
/// direction says; swapping the two and the side changes nothing.
pub proof fn a_level_orders_its_children(digest: Seq<int>, sibling: Seq<int>)
    ensures
        poseidon2::parent(digest, sibling, false) == poseidon2::permutation(
            digest + sibling,
        ).take(8),
        poseidon2::parent(digest, sibling, true) == poseidon2::permutation(
            sibling + digest,
        ).take(8),
        poseidon2::parent(digest, sibling, true) == poseidon2::parent(sibling, digest, false),
{
}

/// A path of no levels leaves the leaf, and one level more is one parent more.
pub proof fn a_path_climbs_level_by_level(
    leaf: Seq<int>,
    siblings: Seq<Seq<int>>,
    right: Seq<bool>,
    sibling: Seq<int>,
    side: bool,
)
    requires
        siblings.len() == right.len(),
    ensures
        merkle::path_root(leaf, Seq::empty(), Seq::empty()) == leaf,
        merkle::path_root(leaf, siblings.push(sibling), right.push(side)) == poseidon2::parent(
            merkle::path_root(leaf, siblings, right),
            sibling,
            side,
        ),
{
    lemma_path_prefix(
        leaf,
        siblings,
        right,
        Seq::empty().push(sibling),
        Seq::empty().push(side),
        siblings.len(),
    );
    assert(siblings + Seq::empty().push(sibling) =~= siblings.push(sibling));
    assert(right + Seq::empty().push(side) =~= right.push(side));
    assert((siblings.len() + 1 - 1) as nat == siblings.len());
}

proof fn lemma_path_prefix(
    leaf: Seq<int>,
    siblings: Seq<Seq<int>>,
    right: Seq<bool>,
    more: Seq<Seq<int>>,
    sides: Seq<bool>,
    k: nat,
)
    requires
        siblings.len() == right.len(),
        k <= siblings.len(),
    ensures
        poseidon2::path_digest(leaf, siblings + more, right + sides, k) == poseidon2::path_digest(
            leaf,
            siblings,
            right,
            k,
        ),
    decreases k,
{
    if k > 0 {
        lemma_path_prefix(leaf, siblings, right, more, sides, (k - 1) as nat);
        assert((siblings + more)[k - 1] == siblings[k - 1]);
        assert((right + sides)[k - 1] == right[k - 1]);
    }
}

// ---------------------------------------------------------------------------
// The transcript sponge
// ---------------------------------------------------------------------------

/// What absorbing permutes: the inputs, then zeros up to the rate, then the
/// capacity with the number of inputs added to its first slot. Nothing absorbed
/// permutes the state as it is.
pub proof fn absorbing_permutes_inputs_and_length(s: Seq<int>, x: Seq<int>, t: Seq<int>)
    requires
        s.len() == 16,
        0 < x.len() <= 8,
        t.len() == 16,
        t.take(x.len() as int) == x,
        forall|i: int| x.len() <= i < 8 ==> #[trigger] t[i] == 0,
        t[8] == (s[8] + x.len()) % 0x7f000001,
        t.skip(9) == s.skip(9),
    ensures
        poseidon2::duplex(s, x) == poseidon2::permutation(t),
        poseidon2::duplex(s, Seq::empty()) == poseidon2::permutation(s),
{
    let y = poseidon2::duplex_input(s, x);
    assert forall|i: int| 0 <= i < 16 implies #[trigger] y[i] == t[i] by {
        if i < x.len() {
            assert(t.take(x.len() as int)[i] == t[i]);
        } else if i > 8 {
            assert(t.skip(9)[i - 9] == s.skip(9)[i - 9]);
        }
    }
    assert(y =~= t);
}

proof fn lemma_transcript_prefix(s: Seq<int>, x: Seq<int>, y: Seq<int>, c: nat)
    requires
        8 * c <= x.len(),
    ensures
        poseidon2::transcript(s, x + y, c) == poseidon2::transcript(s, x, c),
    decreases c,
{
    if c > 0 {
        lemma_transcript_prefix(s, x, y, (c - 1) as nat);
        assert(poseidon2::chunk(x + y, c - 1) =~= poseidon2::chunk(x, c - 1));
    }
}

proof fn lemma_transcript_rest(s: Seq<int>, x: Seq<int>, y: Seq<int>, b: nat, c: nat)
    requires
        x.len() == 8 * b,
        c <= poseidon2::chunk_count(y.len()),
    ensures
        poseidon2::transcript(s, x + y, b + c) == poseidon2::transcript(
            poseidon2::transcript(s, x, b),
            y,
            c,
        ),
    decreases c,
{
    if c == 0 {
        lemma_transcript_prefix(s, x, y, b);
    } else {
        lemma_transcript_rest(s, x, y, b, (c - 1) as nat);
        assert(poseidon2::chunk(x + y, b + c - 1) =~= poseidon2::chunk(y, c - 1));
        assert((b + c - 1) as nat == b + (c - 1) as nat);
    }
}

/// Absorbing goes on where it stopped: whole blocks first, then the rest; up to
/// eight elements are one duplex, and none leave the sponge alone.
pub proof fn absorbing_continues(s: Seq<int>, x: Seq<int>, y: Seq<int>)
    requires
        x.len() % 8 == 0,
    ensures
        poseidon2::absorb_all(s, x + y) == poseidon2::absorb_all(poseidon2::absorb_all(s, x), y),
        0 < y.len() <= 8 ==> poseidon2::absorb_all(s, y) == poseidon2::duplex(s, y),
        poseidon2::absorb_all(s, Seq::empty()) == s,
{
    let b = (x.len() / 8) as nat;
    lemma_transcript_rest(s, x, y, b, poseidon2::chunk_count(y.len()));
    if 0 < y.len() <= 8 {
        assert(poseidon2::chunk_count(y.len()) == 1);
        reveal_with_fuel(poseidon2::transcript, 2);
        assert(poseidon2::chunk(y, 0) =~= y);
    }
}

/// The blocks of eight that elements fall into: the last is not empty, and all of
/// them hold the elements.
pub proof fn blocks_are_as_few_as_hold_the_elements(n: nat)
    ensures
        n <= 8 * poseidon2::chunk_count(n),
        n > 0 ==> 8 * (poseidon2::chunk_count(n) - 1) < n,
        n == 0 ==> poseidon2::chunk_count(n) == 0,
{
}

// ---------------------------------------------------------------------------
// The field
// ---------------------------------------------------------------------------

/// Reduction takes the residue modulo `0x7f000001`.
pub proof fn reduction_takes_the_residue(a: int)
    ensures
        0 <= arith::red(a) < 0x7f000001,
        exists|k: int| a == arith::red(a) + #[trigger] (k * 0x7f000001),
        (a - arith::red(a)) % 0x7f000001 == 0,
        arith::modulus() == 0x7f000001,
{
    let k = a / 0x7f000001;
    arith::lemma_red(a);
    assert(a == arith::red(a) + k * 0x7f000001);
    lemma_mod_multiples_basic(k, 0x7f000001);
}

/// Field operations are the integer ones, up to multiples of the modulus.
pub proof fn field_operations_are_residues(a: int, b: int)
    ensures
        arith::fadd(a, b) == (a + b) % 0x7f000001,
        arith::fsub(a, b) == (a - b) % 0x7f000001,
        arith::fmul(a, b) == (a * b) % 0x7f000001,
        arith::fcube(a) == (a * a * a) % 0x7f000001,
{
    arith::lemma_red_mul(a, a * a);
    assert(a * (a * a) == a * a * a) by (nonlinear_arith);
}

/// Powers start at one and multiply by adding exponents.
pub proof fn field_powers_multiply(a: int, m: nat, n: nat)
    ensures
        arith::fpow(a, 0) == 1,
        arith::fpow(a, 1) == a % 0x7f000001,
        arith::fpow(a, m + n) == arith::fmul(arith::fpow(a, m), arith::fpow(a, n)),
{
    reveal_with_fuel(arith::fpow, 2);
    assert(1 * a == a);
    arith::lemma_fpow_add(a, m, n);
}

/// Halving `k` times and doubling `k` times is doing nothing.
pub proof fn dividing_by_a_power_of_two_undoes_multiplying(a: int, k: nat)
    requires
        arith::felt(a),
    ensures
        arith::fmul(arith::fmul(a, pow2(k) as int), arith::inv_pow2(k)) == a,
{
    let h = arith::inv_pow2(k);
    let q = pow2(k) as int;
    arith::inv_pow2_inverts(k);
    arith::field_laws(a, q, h);
    arith::field_laws(h, q, a);
    arith::field_identities(a);
}

/// Operations of the extension, coefficient by coefficient: sums and differences
/// apart, products with `X^4` read as three.
pub proof fn extension_operations_by_coefficients(a: Ext, b: Ext)
    ensures
        ext::eadd(a, b) == (Ext {
            c0: (a.c0 + b.c0) % 0x7f000001,
            c1: (a.c1 + b.c1) % 0x7f000001,
            c2: (a.c2 + b.c2) % 0x7f000001,
            c3: (a.c3 + b.c3) % 0x7f000001,
        }),
        ext::esub(a, b) == (Ext {
            c0: (a.c0 - b.c0) % 0x7f000001,
            c1: (a.c1 - b.c1) % 0x7f000001,
            c2: (a.c2 - b.c2) % 0x7f000001,
            c3: (a.c3 - b.c3) % 0x7f000001,
        }),
        ext::emul(a, b) == (Ext {
            c0: (a.c0 * b.c0 + 3 * (a.c1 * b.c3 + a.c2 * b.c2 + a.c3 * b.c1)) % 0x7f000001,
            c1: (a.c0 * b.c1 + a.c1 * b.c0 + 3 * (a.c2 * b.c3 + a.c3 * b.c2)) % 0x7f000001,
            c2: (a.c0 * b.c2 + a.c1 * b.c1 + a.c2 * b.c0 + 3 * (a.c3 * b.c3)) % 0x7f000001,
            c3: (a.c0 * b.c3 + a.c1 * b.c2 + a.c2 * b.c1 + a.c3 * b.c0) % 0x7f000001,
        }),
        a.coeffs() == seq![a.c0, a.c1, a.c2, a.c3],
        ext::ext(a.coeffs()) == a,
{
    reveal(ext::eadd);
    reveal(ext::esub);
    reveal(ext::emul);
    assert(a.coeffs() =~= seq![a.c0, a.c1, a.c2, a.c3]);
}

/// The number that bit items spell, the first one most significant.
pub open spec fn spelled_by_items(x: Seq<Item>) -> int
    decreases x.len(),
{
    if x.len() == 0 {
        0
    } else {
        2 * spelled_by_items(x.drop_last()) + (if x.last() == vm::num(1) {
            1int
        } else {
            0
        })
    }
}

/// Bits pushed to the altstack are zeros and ones and spell the number modulo the
/// power of two, most significant deepest.
pub proof fn pushed_bits_spell_the_number(b: int, n: nat, i: int)
    requires
        0 <= b,
        0 <= i < n,
    ensures
        field::bit_items(b, n).len() == n,
        field::bit_items(b, n)[i] == vm::num(0) || field::bit_items(b, n)[i] == vm::num(1),
        spelled_by_items(field::bit_items(b, n)) == b % pow2(n) as int,
{
    field::lemma_bit(b, (n - 1 - i) as nat);
    lemma_spelled(b, n, n);
    lemma2_to64();
    assert(field::bit_items(b, n).take(n as int) =~= field::bit_items(b, n));
    let t = spelled_by_items(field::bit_items(b, n));
    let q = pow2((n - n) as nat);
    assert(q == 1);
    assert(t * q == t) by (nonlinear_arith)
        requires
            q == 1,
    ;
}

/// The upper `k` of `n` bits.
proof fn lemma_spelled(b: int, n: nat, k: nat)
    requires
        0 <= b,
        k <= n,
    ensures
        spelled_by_items(field::bit_items(b, n).take(k as int)) * pow2((n - k) as nat) + b % pow2(
            (n - k) as nat,
        ) as int == b % pow2(n) as int,
    decreases k,
{
    let x = field::bit_items(b, n).take(k as int);
    if k == 0 {
        assert((n - 0) as nat == n);
        assert(0 * pow2(n) == 0);
    } else {
        let j = (k - 1) as nat;
        let i = (n - k) as nat;
        lemma_spelled(b, n, j);
        assert(x.drop_last() =~= field::bit_items(b, n).take(j as int));
        assert(x.last() == vm::num(field::bit(b, i)));
        field::lemma_bit(b, i);
        vm::lemma_num_eq(field::bit(b, i), 1);
        lemma_pow2_unfold(i + 1);
        assert((n - j) as nat == i + 1);
        let s = spelled_by_items(x.drop_last());
        let t = field::bit(b, i);
        let q = pow2(i) as int;
        assert(s * (2 * q) == (2 * s) * q && (2 * s + t) * q == (2 * s) * q + t * q)
            by (nonlinear_arith);
    }
}

// ---------------------------------------------------------------------------
// The layers
// ---------------------------------------------------------------------------

/// Two states added without reduction.
spec fn plus(s: Seq<int>, t: Seq<int>) -> Seq<int> {
    Seq::new(16, |i: int| s[i] + t[i])
}

proof fn lemma_dot_adds(row: Seq<int>, s: Seq<int>, t: Seq<int>, n: nat)
    requires
        n <= 16,
    ensures
        arith::dot(row, plus(s, t), n) == arith::dot(row, s, n) + arith::dot(row, t, n),
    decreases n,
{
    if n > 0 {
        lemma_dot_adds(row, s, t, (n - 1) as nat);
        let (r, a, b) = (row[n - 1], s[n - 1], t[n - 1]);
        assert(r * (a + b) == r * a + r * b) by (nonlinear_arith);
    }
}

proof fn lemma_dot_residues(row: Seq<int>, s: Seq<int>, t: Seq<int>, n: nat)
    requires
        n <= 16,
        forall|i: int| 0 <= i < 16 ==> #[trigger] t[i] == arith::red(s[i]),
    ensures
        arith::red(arith::dot(row, t, n)) == arith::red(arith::dot(row, s, n)),
    decreases n,
{
    if n > 0 {
        let m = (n - 1) as nat;
        lemma_dot_residues(row, s, t, m);
        assert(t[n - 1] == arith::red(s[n - 1]));
        let a = row[n - 1] * s[n - 1];
        let b = row[n - 1] * t[n - 1];
        arith::lemma_red_mul(row[n - 1], s[n - 1]);
        arith::lemma_red_add(arith::dot(row, s, m), a);
        arith::lemma_red_add(arith::dot(row, t, m), b);
    }
}

/// The linear layers are linear: of a sum of states they make the sum of what they
/// make of each.
pub proof fn the_layers_are_linear(s: Seq<int>, t: Seq<int>, u: Seq<int>, i: int)
    requires
        s.len() == 16,
        t.len() == 16,
        u.len() == 16,
        forall|j: int| 0 <= j < 16 ==> #[trigger] u[j] == arith::fadd(s[j], t[j]),
        0 <= i < 16,
    ensures
        poseidon2::mds(u)[i] == arith::fadd(poseidon2::mds(s)[i], poseidon2::mds(t)[i]),
        poseidon2::internal(u)[i] == arith::fadd(
            poseidon2::internal(s)[i],
            poseidon2::internal(t)[i],
        ),
{
    let p = plus(s, t);
    assert forall|j: int| 0 <= j < 16 implies #[trigger] u[j] == arith::red(p[j]) by {}
    let a = poseidon2::mds_matrix()[i];
    let b = poseidon2::internal_matrix()[i];
    lemma_dot_residues(a, p, u, 16);
    lemma_dot_residues(b, p, u, 16);
    lemma_dot_adds(a, s, t, 16);
    lemma_dot_adds(b, s, t, 16);
    arith::lemma_red_add(arith::dot(a, s, 16), arith::dot(a, t, 16));
    arith::lemma_red_add(arith::dot(b, s, 16), arith::dot(b, t, 16));
}

/// An S-box cubes the element with its constant added.
pub proof fn an_sbox_cubes_the_sum(x: int, c: int)
    ensures
        poseidon2::sbox(x, c) == ((x + c) * (x + c) * (x + c)) % 0x7f000001,
{
    let y = x + c;
    let z = arith::red(y);
    field_operations_are_residues(z, z);
    arith::lemma_red_mul(y, y);
    arith::lemma_red_mul(y * y, y);
    arith::lemma_red_mul(z * z, z);
    assert(arith::red(z * z) == arith::red(y * y));
}

/// Runs of rounds compose, from no round over a single one to any number.
pub proof fn runs_of_rounds_compose(s: Seq<int>, first: int, m: nat, n: nat)
    ensures
        disprove::run_of_rounds(s, first, 0) == s,
        disprove::run_of_rounds(s, first, 1) == poseidon2::round(s, first),
        disprove::run_of_rounds(s, first, m + n) == disprove::run_of_rounds(
            disprove::run_of_rounds(s, first, m),
            first + m,
            n,
        ),
    decreases n,
{
    reveal_with_fuel(disprove::run_of_rounds, 2);
    if n > 0 {
        runs_of_rounds_compose(s, first, m, (n - 1) as nat);
        assert((m + n - 1) as nat == m + (n - 1) as nat);
    }
}

// ---------------------------------------------------------------------------
// Digits and chains
// ---------------------------------------------------------------------------

/// Powers of sixteen are powers of two, four bits a digit.
pub proof fn a_digit_is_four_bits(n: nat)
    ensures
        winternitz::power16(n) == pow2(4 * n),
    decreases n,
{
    lemma2_to64();
    if n > 0 {
        let m = (n - 1) as nat;
        a_digit_is_four_bits(m);
        lemma_pow2_adds(4, 4 * m);
        assert(4 + 4 * m == 4 * n);
    }
}

/// Digits are positional: no digits are worth nothing, one is worth itself, and
/// those behind others count as much more as a digit in their place does. Sums of
/// digits are sums.
pub proof fn digits_are_positional(d: Seq<int>, e: Seq<int>, x: int)
    ensures
        winternitz::base16(Seq::empty()) == 0,
        winternitz::base16(seq![x]) == x,
        winternitz::base16(d + e) == winternitz::base16(d) + winternitz::power16(d.len())
            * winternitz::base16(e),
        winternitz::sum(Seq::empty()) == 0,
        winternitz::sum(seq![x]) == x,
        winternitz::sum(d + e) == winternitz::sum(d) + winternitz::sum(e),
    decreases d.len(),
{
    reveal_with_fuel(winternitz::base16, 2);
    reveal_with_fuel(winternitz::sum, 2);
    if d.len() == 0 {
        assert(d + e =~= e);
        assert(1 * winternitz::base16(e) == winternitz::base16(e));
    } else {
        digits_are_positional(d.skip(1), e, x);
        assert((d + e).skip(1) =~= d.skip(1) + e);
        let (p, b) = (winternitz::power16((d.len() - 1) as nat), winternitz::base16(e));
        assert(16 * (p * b) == (16 * p) * b) by (nonlinear_arith);
    }
}

/// Digits behind four others, and what four are worth.
proof fn lemma_four_digits(x: Seq<int>, y: Seq<int>)
    requires
        x.len() == 4,
        y.len() == 4,
    ensures
        winternitz::base16(x) == x[0] + 16 * x[1] + 256 * x[2] + 4096 * x[3],
        winternitz::base16(y) == y[0] + 16 * y[1] + 256 * y[2] + 4096 * y[3],
        winternitz::base16(x + y) == winternitz::base16(x) + 65536 * winternitz::base16(y),
{
    reveal_with_fuel(winternitz::base16, 5);
    reveal_with_fuel(winternitz::power16, 5);
    digits_are_positional(x, y, 0);
    assert(winternitz::power16(4) == 65536);
    assert(x.skip(1).skip(1).skip(1).skip(1).len() == 0);
    assert(y.skip(1).skip(1).skip(1).skip(1).len() == 0);
}

/// A signed element is what its eight digits spell, least significant first.
pub proof fn an_element_is_its_eight_digits(d: Seq<int>, n: nat, j: int)
    requires
        0 <= j < n,
        8 * n <= d.len(),
    ensures
        winternitz::elements(d, n).len() == n,
        winternitz::elements(d, n)[j] == d[8 * j] + 16 * d[8 * j + 1] + 256 * d[8 * j + 2] + 4096
            * d[8 * j + 3] + 65536 * d[8 * j + 4] + 1048576 * d[8 * j + 5] + 16777216 * d[8 * j + 6]
            + 268435456 * d[8 * j + 7],
{
    let b = d.subrange(8 * j, 8 * j + 8);
    assert(b =~= seq![d[8 * j], d[8 * j + 1], d[8 * j + 2], d[8 * j + 3]] + seq![
        d[8 * j + 4],
        d[8 * j + 5],
        d[8 * j + 6],
        d[8 * j + 7],
    ]);
    lemma_four_digits(
        seq![d[8 * j], d[8 * j + 1], d[8 * j + 2], d[8 * j + 3]],
        seq![d[8 * j + 4], d[8 * j + 5], d[8 * j + 6], d[8 * j + 7]],
    );
}

/// What the digits lack of fifteen each.
pub open spec fn lacking(d: Seq<int>) -> int
    decreases d.len(),
{
    if d.len() == 0 {
        0
    } else {
        lacking(d.drop_last()) + (15 - d.last())
    }
}

proof fn lemma_lacking(d: Seq<int>)
    ensures
        lacking(d) == 15 * d.len() - winternitz::sum(d),
    decreases d.len(),
{
    if d.len() > 0 {
        lemma_lacking(d.drop_last());
        digits_are_positional(d.drop_last(), seq![d.last()], d.last());
        assert(d.drop_last() + seq![d.last()] =~= d);
    }
}

/// The checksum is what the message digits lack, and a witness is accepted exactly
/// when every chain opens, the signed checksum is the one of the message, and every
/// element fits an operand.
pub proof fn the_checksum_is_what_the_digits_lack(
    h: spec_fn(Seq<u8>) -> Seq<u8>,
    sigs: Seq<Item>,
    digits: Seq<Item>,
    pks: Seq<Seq<u8>>,
    n: nat,
)
    requires
        8 * n <= digits.len(),
    ensures
        ({
            let d = winternitz::digit_values(digits);
            winternitz::accepts(h, sigs, digits, pks, n) <==> {
                &&& forall|i: int|
                    0 <= i < pks.len() ==> #[trigger] winternitz::opens(
                        h,
                        sigs[i],
                        digits[i],
                        pks[i],
                    )
                &&& winternitz::base16(d.skip(8 * n as int)) == lacking(d.take(8 * n as int))
                &&& forall|j: int|
                    0 <= j < n ==> #[trigger] winternitz::elements(d, n)[j] < 0x80000000
            }
        }),
{
    let d = winternitz::digit_values(digits);
    lemma_lacking(d.take(8 * n as int));
}

/// An item opens a chain to fifteen exactly when it is the key, to a smaller digit
/// exactly when its hash opens to the next, and to nothing else.
pub proof fn an_opening_walks_to_the_key(
    h: spec_fn(Seq<u8>) -> Seq<u8>,
    sig: Item,
    d: int,
    pk: Seq<u8>,
)
    requires
        -0x80000000 < d < 0x80000000,
    ensures
        winternitz::opens(h, sig, vm::num(15), pk) <==> sig == pk,
        0 <= d < 15 ==> (winternitz::opens(h, sig, vm::num(d), pk) <==> winternitz::opens(
            h,
            h(sig),
            vm::num(d + 1),
            pk,
        )),
        d < 0 || d > 15 ==> !winternitz::opens(h, sig, vm::num(d), pk),
{
    broadcast use vm::group_run;

    if 0 <= d < 15 {
        lemma_chain_front(h, sig, (14 - d) as nat);
        assert((14 - d) as nat + 1 == (15 - d) as nat);
    }
}

proof fn lemma_chain_front(h: spec_fn(Seq<u8>) -> Seq<u8>, x: Seq<u8>, n: nat)
    ensures
        winternitz::hash_chain(h, x, n + 1) == winternitz::hash_chain(h, h(x), n),
    decreases n,
{
    reveal_with_fuel(winternitz::hash_chain, 2);
    if n > 0 {
        lemma_chain_front(h, x, (n - 1) as nat);
    }
}

/// A signature has one chain a message digit, and as few more as hold the largest
/// checksum.
pub proof fn chains_cover_message_and_checksum(m: nat)
    ensures
        winternitz::chain_count(m) >= m,
        15 * m < winternitz::power16((winternitz::chain_count(m) - m) as nat),
        m > 0 ==> winternitz::power16((winternitz::chain_count(m) - m - 1) as nat) <= 15 * m,
        winternitz::chain_count(0) == 0,
{
    winternitz::digit_count_is_least(15 * m);
    assert(m * 15 == 15 * m);
}

/// Chain 0 lies on top of a witness, its digit above its signature item, and the
/// others below it in order.
pub proof fn a_witness_lies_chain_by_chain(
    sigs: Seq<Item>,
    digits: Seq<Item>,
    sig: Item,
    digit: Item,
)
    requires
        sigs.len() == digits.len(),
    ensures
        winternitz::witness(Seq::empty(), Seq::empty(), 0) == Seq::<Item>::empty(),
        winternitz::witness(seq![sig] + sigs, seq![digit] + digits, 0) == winternitz::witness(
            sigs,
            digits,
            0,
        ).push(sig).push(digit),
{
    lemma_witness_shift(sigs, digits, sig, digit, 0);
}

proof fn lemma_witness_shift(
    sigs: Seq<Item>,
    digits: Seq<Item>,
    sig: Item,
    digit: Item,
    k: nat,
)
    requires
        sigs.len() == digits.len(),
    ensures
        winternitz::witness(seq![sig] + sigs, seq![digit] + digits, k + 1) == winternitz::witness(
            sigs,
            digits,
            k,
        ),
    decreases sigs.len() - k,
{
    if k < sigs.len() {
        lemma_witness_shift(sigs, digits, sig, digit, k + 1);
        assert((seq![sig] + sigs)[k as int + 1] == sigs[k as int]);
        assert((seq![digit] + digits)[k as int + 1] == digits[k as int]);
    }
}

// ---------------------------------------------------------------------------
// Paths on the stack
// ---------------------------------------------------------------------------

/// The first level of a path lies on top, its direction above its sibling, and the
/// other levels below it in order.
pub proof fn a_path_lies_level_by_level(
    siblings: Seq<Seq<int>>,
    right: Seq<bool>,
    sibling: Seq<int>,
    side: bool,
)
    requires
        siblings.len() == right.len(),
    ensures
        merkle::path_items(Seq::empty(), Seq::empty(), 0) == Seq::<Item>::empty(),
        merkle::path_items(seq![sibling] + siblings, seq![side] + right, 0) == (merkle::path_items(
            siblings,
            right,
            0,
        ) + vm::nums(sibling)).push(vm::flag(side)),
        merkle::sibling_items(Seq::empty(), 0) == Seq::<Item>::empty(),
        merkle::sibling_items(seq![sibling] + siblings, 0) == merkle::sibling_items(siblings, 0)
            + vm::nums(sibling),
        merkle::direction_items(Seq::empty()) == Seq::<Item>::empty(),
        merkle::direction_items(seq![side] + right) == merkle::direction_items(right).push(
            vm::flag(side),
        ),
{
    lemma_path_shift(siblings, right, sibling, side, 0);
    assert(merkle::direction_items(seq![side] + right) =~= merkle::direction_items(right).push(
        vm::flag(side),
    ));
    assert(merkle::direction_items(Seq::empty()) =~= Seq::<Item>::empty());
}

proof fn lemma_path_shift(
    siblings: Seq<Seq<int>>,
    right: Seq<bool>,
    sibling: Seq<int>,
    side: bool,
    k: nat,
)
    requires
        siblings.len() == right.len(),
    ensures
        merkle::path_items(seq![sibling] + siblings, seq![side] + right, k + 1)
            == merkle::path_items(siblings, right, k),
        merkle::sibling_items(seq![sibling] + siblings, k + 1) == merkle::sibling_items(
            siblings,
            k,
        ),
    decreases siblings.len() - k,
{
    if k < siblings.len() {
        lemma_path_shift(siblings, right, sibling, side, k + 1);
        assert((seq![sibling] + siblings)[k as int + 1] == siblings[k as int]);
        assert((seq![side] + right)[k as int + 1] == right[k as int]);
    }
}

// ---------------------------------------------------------------------------
// What is canonical
// ---------------------------------------------------------------------------

/// The values that contracts speak of: every number below the modulus is a field
/// element, and states, digests, extension elements and paths are made of them.
pub proof fn canonical_values(
    a: int,
    s: Seq<int>,
    e: Ext,
    t: Seq<Ext>,
    p: Seq<Seq<int>>,
    x: Seq<u32>,
    c: Ctx,
)
    ensures
        arith::felt(a) <==> 0 <= a < 0x7f000001,
        arith::felts(s) <==> forall|i: int| 0 <= i < s.len() ==> 0 <= #[trigger] s[i] < 0x7f000001,
        poseidon2::is_state(s) <==> s.len() == 16 && arith::felts(s),
        poseidon2::is_digest(s) <==> s.len() == 8 && arith::felts(s),
        e.ok() <==> arith::felts(e.coeffs()),
        ext::all_ok(t) <==> forall|i: int|
            0 <= i < t.len() ==> arith::felts((#[trigger] t[i]).coeffs()),
        merkle::is_path(p) <==> forall|i: int|
            0 <= i < p.len() ==> poseidon2::is_digest(#[trigger] p[i]),
        reference::canonical(x) <==> arith::felts(arith::ints(x)),
        arith::ints(x).len() == x.len(),
        forall|i: int| 0 <= i < x.len() ==> #[trigger] arith::ints(x)[i] == x[i],
        c.live() <==> !c.cond.contains(false),
{
    lemma_coefficients(e);
    assert forall|i: int| 0 <= i < t.len() implies (#[trigger] t[i]).ok() == arith::felts(
        t[i].coeffs(),
    ) by {
        lemma_coefficients(t[i]);
    }
    if arith::felts(arith::ints(x)) {
        assert forall|i: int| 0 <= i < x.len() implies #[trigger] x[i] < 0x7f000001 by {
            assert(arith::felt(arith::ints(x)[i]));
        }
    }
    if !c.cond.contains(false) {
        assert forall|i: int| 0 <= i < c.cond.len() implies #[trigger] c.cond[i] by {
            if !c.cond[i] {
                assert(c.cond.contains(false));
            }
        }
    }
}

proof fn lemma_coefficients(e: Ext)
    ensures
        e.ok() <==> arith::felts(e.coeffs()),
{
    let s = e.coeffs();
    if arith::felts(s) {
        assert(arith::felt(s[0]) && arith::felt(s[1]) && arith::felt(s[2]) && arith::felt(s[3]));
    }
}

/// Extension elements lie on the stack lowest degree deepest, and on the altstack
/// lowest degree on top; sequences of them lie in order, the last on top.
pub proof fn elements_lie_coefficient_by_coefficient(v: Seq<Item>, s: Seq<Ext>, e: Ext)
    ensures
        ext4::put(v, e) == v + vm::nums(e.coeffs()),
        ext4::park(v, e) == v + vm::nums(e.coeffs()).reverse(),
        ext4::puts(v, Seq::empty()) == v,
        ext4::puts(v, s.push(e)) == ext4::puts(v, s) + vm::nums(e.coeffs()),
        ext4::parks(v, Seq::empty()) == v,
        ext4::parks(v, s.push(e)) == ext4::parks(v, s) + vm::nums(e.coeffs()).reverse(),
{
    assert(s.push(e).drop_last() =~= s);
    lemma_put(v, e);
    lemma_put(ext4::puts(v, s), e);
    lemma_put(ext4::parks(v, s), e);
}

proof fn lemma_put(v: Seq<Item>, e: Ext)
    ensures
        ext4::put(v, e) == v + vm::nums(e.coeffs()),
        ext4::park(v, e) == v + vm::nums(e.coeffs()).reverse(),
{
    assert(ext4::put(v, e) =~= v + vm::nums(e.coeffs()));
    assert(ext4::park(v, e) =~= v + vm::nums(e.coeffs()).reverse());
}

// ---------------------------------------------------------------------------
// Opcodes
// ---------------------------------------------------------------------------

/// The machine after one instruction.
pub open spec fn one(i: Instr, c: Ctx, v: Seq<Item>, w: Seq<Item>) -> Option<Vm> {
    vm::run(seq![i], vm::at(c, v, w))
}

proof fn lemma_one(i: Instr, c: Ctx, v: Seq<Item>, w: Seq<Item>)
    ensures
        one(i, c, v, w) == vm::step(i, vm::at(c, v, w)),
{
    let p = seq![i];
    assert(p.drop_last() =~= Seq::empty());
    assert(p.last() == i);
    vm::lemma_run_empty(vm::at(c, v, w));
}

/// Opcodes that move items, and the pushes.
pub proof fn opcodes_that_move_items(
    c: Ctx,
    v: Seq<Item>,
    w: Seq<Item>,
    x: Item,
    y: Item,
    z: Item,
    n: int,
)
    requires
        c.live(),
    ensures
        one(Instr::Int(n), c, v, w) == Some(vm::at(c, v.push(vm::num(n)), w)),
        one(Instr::Data(x), c, v, w) == Some(vm::at(c, v.push(x), w)),
        one(vm::o(Opcode::Dup), c, v.push(x), w) == Some(vm::at(c, v.push(x).push(x), w)),
        one(vm::o(Opcode::Drop), c, v.push(x), w) == Some(vm::at(c, v, w)),
        one(vm::o(Opcode::Drop2), c, v.push(x).push(y), w) == Some(vm::at(c, v, w)),
        one(vm::o(Opcode::Swap), c, v.push(x).push(y), w) == Some(
            vm::at(c, v.push(y).push(x), w),
        ),
        one(vm::o(Opcode::Over), c, v.push(x).push(y), w) == Some(
            vm::at(c, v.push(x).push(y).push(x), w),
        ),
        one(vm::o(Opcode::Tuck), c, v.push(x).push(y), w) == Some(
            vm::at(c, v.push(y).push(x).push(y), w),
        ),
        one(vm::o(Opcode::Rot), c, v.push(x).push(y).push(z), w) == Some(
            vm::at(c, v.push(y).push(z).push(x), w),
        ),
        one(vm::o(Opcode::ToAltStack), c, v.push(x), w) == Some(vm::at(c, v, w.push(x))),
        one(vm::o(Opcode::FromAltStack), c, v, w.push(x)) == Some(vm::at(c, v.push(x), w)),
        one(vm::o(Opcode::Hash160), c, v.push(x), w) == Some(vm::at(c, v.push((c.hash)(x)), w)),
        one(vm::o(Opcode::Equal), c, v.push(x).push(y), w) == Some(
            vm::at(c, v.push(vm::flag(x == y)), w),
        ),
        one(vm::o(Opcode::EqualVerify), c, v.push(x).push(y), w) == (if x == y {
            Some(vm::at(c, v, w))
        } else {
            None
        }),
{
    let vx = v.push(x);
    let vxy = vx.push(y);
    let vxyz = vxy.push(z);
    assert(vx.drop_last() =~= v);
    assert(vxy.drop_last() =~= vx);
    assert(vxyz.drop_last() =~= vxy);
    assert(w.push(x).drop_last() =~= w);
    lemma_one(Instr::Int(n), c, v, w);
    lemma_one(Instr::Data(x), c, v, w);
    lemma_one(vm::o(Opcode::Dup), c, vx, w);
    lemma_one(vm::o(Opcode::Drop), c, vx, w);
    lemma_one(vm::o(Opcode::Drop2), c, vxy, w);
    lemma_one(vm::o(Opcode::Swap), c, vxy, w);
    lemma_one(vm::o(Opcode::Over), c, vxy, w);
    lemma_one(vm::o(Opcode::Tuck), c, vxy, w);
    lemma_one(vm::o(Opcode::Rot), c, vxyz, w);
    lemma_one(vm::o(Opcode::ToAltStack), c, vx, w);
    lemma_one(vm::o(Opcode::FromAltStack), c, v, w.push(x));
    lemma_one(vm::o(Opcode::Hash160), c, vx, w);
    lemma_one(vm::o(Opcode::Equal), c, vxy, w);
    lemma_one(vm::o(Opcode::EqualVerify), c, vxy, w);
}

/// Opcodes that compute, on operands of at most four bytes.
pub proof fn opcodes_that_compute(c: Ctx, v: Seq<Item>, w: Seq<Item>, a: int, b: int)
    requires
        c.live(),
        -0x80000000 < a < 0x80000000,
        -0x80000000 < b < 0x80000000,
    ensures
        vm::as_num(vm::num(a)) == Some(a),
        one(vm::o(Opcode::Add), c, v.push(vm::num(a)).push(vm::num(b)), w) == Some(
            vm::at(c, v.push(vm::num(a + b)), w),
        ),
        one(vm::o(Opcode::Sub), c, v.push(vm::num(a)).push(vm::num(b)), w) == Some(
            vm::at(c, v.push(vm::num(a - b)), w),
        ),
        one(vm::o(Opcode::LessThan), c, v.push(vm::num(a)).push(vm::num(b)), w) == Some(
            vm::at(c, v.push(vm::flag(a < b)), w),
        ),
        one(vm::o(Opcode::GreaterThanOrEqual), c, v.push(vm::num(a)).push(vm::num(b)), w) == Some(
            vm::at(c, v.push(vm::flag(a >= b)), w),
        ),
        one(vm::o(Opcode::NumEqual), c, v.push(vm::num(a)).push(vm::num(b)), w) == Some(
            vm::at(c, v.push(vm::flag(a == b)), w),
        ),
        one(vm::o(Opcode::BoolAnd), c, v.push(vm::num(a)).push(vm::num(b)), w) == Some(
            vm::at(c, v.push(vm::flag(a != 0 && b != 0)), w),
        ),
        one(vm::o(Opcode::Sub1), c, v.push(vm::num(a)), w) == Some(
            vm::at(c, v.push(vm::num(a - 1)), w),
        ),
        one(vm::o(Opcode::Not), c, v.push(vm::num(a)), w) == Some(
            vm::at(c, v.push(vm::flag(a == 0)), w),
        ),
        one(vm::o(Opcode::NotEqual0), c, v.push(vm::num(a)), w) == Some(
            vm::at(c, v.push(vm::flag(a != 0)), w),
        ),
        0 <= a < v.len() ==> one(vm::o(Opcode::Pick), c, v.push(vm::num(a)), w) == Some(
            vm::at(c, v.push(v[v.len() - 1 - a]), w),
        ),
        0 <= a < v.len() ==> one(vm::o(Opcode::Roll), c, v.push(vm::num(a)), w) == Some(
            vm::at(c, v.remove(v.len() - 1 - a).push(v[v.len() - 1 - a]), w),
        ),
        a < 0 || a >= v.len() ==> one(vm::o(Opcode::Pick), c, v.push(vm::num(a)), w) is None && one(
            vm::o(Opcode::Roll),
            c,
            v.push(vm::num(a)),
            w,
        ) is None,
{
    vm::lemma_as_num(a);
    vm::lemma_as_num(b);
    let va = v.push(vm::num(a));
    let vab = va.push(vm::num(b));
    assert(va.drop_last() =~= v);
    assert(vab.drop_last() =~= va);
    assert(va[va.len() - 1] == vm::num(a));
    assert(vab[vab.len() - 1] == vm::num(b));
    assert(vab[vab.len() - 2] == vm::num(a));
    lemma_one(vm::o(Opcode::Add), c, vab, w);
    lemma_one(vm::o(Opcode::Sub), c, vab, w);
    lemma_one(vm::o(Opcode::LessThan), c, vab, w);
    lemma_one(vm::o(Opcode::GreaterThanOrEqual), c, vab, w);
    lemma_one(vm::o(Opcode::NumEqual), c, vab, w);
    lemma_one(vm::o(Opcode::BoolAnd), c, vab, w);
    lemma_one(vm::o(Opcode::Sub1), c, va, w);
    lemma_one(vm::o(Opcode::Not), c, va, w);
    lemma_one(vm::o(Opcode::NotEqual0), c, va, w);
    lemma_one(vm::o(Opcode::Pick), c, va, w);
    lemma_one(vm::o(Opcode::Roll), c, va, w);
}

/// Conditionals run the branch their argument selects and skip the other; only one
/// and zero select.
pub proof fn conditionals_select_a_branch(
    c: Ctx,
    v: Seq<Item>,
    w: Seq<Item>,
    x: Item,
    p: Seq<Instr>,
    m: Vm,
)
    requires
        c.live(),
    ensures
        one(vm::o(Opcode::If), c, v.push(x), w) == (if x == vm::num(1) {
            Some(vm::at(c.enter(true), v, w))
        } else if x == vm::num(0) {
            Some(vm::at(c.enter(false), v, w))
        } else {
            None
        }),
        one(vm::o(Opcode::NotIf), c, v.push(x), w) == (if x == vm::num(1) {
            Some(vm::at(c.enter(false), v, w))
        } else if x == vm::num(0) {
            Some(vm::at(c.enter(true), v, w))
        } else {
            None
        }),
        one(vm::o(Opcode::Else), c.enter(true), v, w) == Some(vm::at(c.enter(false), v, w)),
        one(vm::o(Opcode::Else), c.enter(false), v, w) == Some(vm::at(c.enter(true), v, w)),
        one(vm::o(Opcode::EndIf), c.enter(true), v, w) == Some(vm::at(c, v, w)),
        one(vm::o(Opcode::EndIf), c.enter(false), v, w) == Some(vm::at(c, v, w)),
        c.enter(true).live(),
        !c.enter(false).live(),
        !m.ctx.live() && (forall|i: int| 0 <= i < p.len() ==> vm::plain(#[trigger] p[i]))
            ==> vm::run(p, m) == Some(m),
{
    vm::lemma_enter_live(c);
    vm::lemma_num_eq(0, 1);
    assert(v.push(x).drop_last() =~= v);
    assert(c.enter(true).cond.drop_last() =~= c.cond);
    assert(c.enter(false).cond.drop_last() =~= c.cond);
    lemma_one(vm::o(Opcode::If), c, v.push(x), w);
    lemma_one(vm::o(Opcode::NotIf), c, v.push(x), w);
    lemma_one(vm::o(Opcode::Else), c.enter(true), v, w);
    lemma_one(vm::o(Opcode::Else), c.enter(false), v, w);
    lemma_one(vm::o(Opcode::EndIf), c.enter(true), v, w);
    lemma_one(vm::o(Opcode::EndIf), c.enter(false), v, w);
    if !m.ctx.live() && (forall|i: int| 0 <= i < p.len() ==> vm::plain(#[trigger] p[i])) {
        lemma_skipped(p, m);
    }
}

proof fn lemma_skipped(p: Seq<Instr>, m: Vm)
    requires
        !m.ctx.live(),
        forall|i: int| 0 <= i < p.len() ==> vm::plain(#[trigger] p[i]),
    ensures
        vm::run(p, m) == Some(m),
    decreases p.len(),
{
    if p.len() > 0 {
        let q = p.drop_last();
        assert forall|i: int| 0 <= i < q.len() implies vm::plain(#[trigger] q[i]) by {
            assert(q[i] == p[i]);
        }
        lemma_skipped(q, m);
        assert(vm::plain(p[p.len() - 1]));
    }
}

/// A script runs its parts one after the other and fails where one of them does.
pub proof fn scripts_run_in_order(p: Seq<Instr>, q: Seq<Instr>, m: Vm)
    ensures
        vm::run(Seq::empty(), m) == Some(m),
        vm::run(p + q, m) == (match vm::run(p, m) {
            None => None,
            Some(t) => vm::run(q, t),
        }),
{
    vm::lemma_run_concat(p, q, m);
}

// ---------------------------------------------------------------------------
// Numbers and bytes
// ---------------------------------------------------------------------------

/// Bytes are positional, eight bits each and the least significant first.
pub proof fn bytes_are_positional(a: Seq<u8>, b: Seq<u8>, x: u8)
    ensures
        vm::le_value(Seq::empty()) == 0,
        vm::le_value(seq![x]) == x,
        vm::le_value(a + b) == vm::le_value(a) + pow2(8 * a.len()) * vm::le_value(b),
    decreases a.len(),
{
    reveal_with_fuel(vm::le_value, 2);
    lemma2_to64();
    assert(seq![x].subrange(1, 1) =~= Seq::empty());
    if a.len() == 0 {
        assert(a + b =~= b);
        assert(1 * vm::le_value(b) == vm::le_value(b));
    } else {
        let t = a.subrange(1, a.len() as int);
        bytes_are_positional(t, b, x);
        assert((a + b).subrange(1, (a + b).len() as int) =~= t + b);
        lemma_pow2_adds(8, 8 * t.len());
        assert(8 + 8 * t.len() == 8 * a.len());
        let (p, v) = (pow2(8 * t.len()) as int, vm::le_value(b));
        assert(256 * (p * v) == (256 * p) * v) by (nonlinear_arith);
    }
}

/// Every number is read back from its item, whatever its size; an operand is one
/// whose item has at most four bytes, and those are the numbers below two to the
/// thirty-first in magnitude.
pub proof fn numbers_are_read_back(n: int, m: int)
    ensures
        vm::num(n) == vm::num(m) <==> n == m,
        -0x80000000 < n < 0x80000000 ==> vm::as_num(vm::num(n)) == Some(n),
        n >= 0x80000000 || n <= -0x80000000 ==> vm::as_num(vm::num(n)) is None,
        vm::num(0) == Seq::<u8>::empty(),
        0 < n < 128 ==> vm::num(n) == seq![n as u8] && vm::num(-n) == seq![(n + 128) as u8],
{
    vm::lemma_num_eq(n, m);
    if -0x80000000 < n < 0x80000000 {
        vm::lemma_as_num(n);
    } else {
        vm::lemma_as_num_long(n);
    }
    reveal(vm::num);
    if 0 < n < 128 {
        reveal_with_fuel(script::le_bytes, 2);
        assert(script::le_bytes(n as nat) =~= seq![n as u8]);
        assert(vm::num(n) =~= seq![n as u8]);
        assert(vm::num(-n) =~= seq![(n + 128) as u8]);
    }
}

/// A script's bytes are those of its instructions in order: an opcode is one byte, a
/// byte string is its length and itself, and a number outside `-1 ..= 16` is pushed as
/// its item.
pub proof fn scripts_assemble_in_order(p: Seq<Instr>, q: Seq<Instr>, op: Opcode, d: Seq<u8>, n: int)
    ensures
        script::assemble(Seq::empty()) == Seq::<u8>::empty(),
        script::assemble(p + q) == script::assemble(p) + script::assemble(q),
        script::size(p + q) == script::size(p) + script::size(q),
        script::assemble(seq![vm::o(op)]).len() == 1,
        script::assemble(seq![Instr::Data(d)]) == seq![d.len() as u8] + d,
        n < -1 || n > 16 ==> script::assemble(seq![Instr::Int(n)]) == script::assemble(
            seq![Instr::Data(vm::num(n))],
        ),
        -1 <= n <= 16 ==> script::assemble(seq![Instr::Int(n)]).len() == 1,
{
    reveal_with_fuel(script::assemble, 2);
    reveal(vm::num);
    script::lemma_assemble_concat(p, q);
    let (a, b, c, e) = (
        seq![vm::o(op)],
        seq![Instr::Data(d)],
        seq![Instr::Int(n)],
        seq![Instr::Data(vm::num(n))],
    );
    assert(a.drop_last() =~= Seq::empty());
    assert(b.drop_last() =~= Seq::empty());
    assert(c.drop_last() =~= Seq::empty());
    assert(e.drop_last() =~= Seq::empty());
    assert(script::assemble(b) =~= seq![d.len() as u8] + d);
    assert(script::assemble(c) =~= script::encode(Instr::Int(n)));
    assert(script::assemble(e) =~= script::encode(Instr::Data(vm::num(n))));
}

// ---------------------------------------------------------------------------
// What code does
// ---------------------------------------------------------------------------

/// Code that computes a function of field elements leaves it in place of them, on
/// every canonical operand and above any stack.
pub proof fn code_leaves_its_function(
    p: Seq<Instr>,
    f: spec_fn(int) -> int,
    g: spec_fn(int, int) -> int,
    c: Ctx,
    v: Seq<Item>,
    w: Seq<Item>,
    a: int,
    b: int,
)
    requires
        !c.cond.contains(false),
        0 <= a < 0x7f000001,
        0 <= b < 0x7f000001,
    ensures
        field::computes1(p, f) ==> vm::run(p, vm::at(c, v.push(vm::num(a)), w)) == Some(
            vm::at(c, v.push(vm::num(f(a))), w),
        ),
        field::computes2(p, g) ==> vm::run(p, vm::at(c, v.push(vm::num(a)).push(vm::num(b)), w))
            == Some(vm::at(c, v.push(vm::num(g(a, b))), w)),
{
    canonical_values(a, Seq::empty(), ext::ezero(), Seq::empty(), Seq::empty(), Seq::empty(), c);
    canonical_values(b, Seq::empty(), ext::ezero(), Seq::empty(), Seq::empty(), Seq::empty(), c);
}

/// The same of code on extension elements and on states, lowest degree and first
/// element deepest.
pub proof fn code_leaves_its_function_of_many(
    p: Seq<Instr>,
    f: spec_fn(Ext, Ext) -> Ext,
    g: spec_fn(Seq<int>) -> Seq<int>,
    c: Ctx,
    v: Seq<Item>,
    w: Seq<Item>,
    a: Ext,
    b: Ext,
    s: Seq<int>,
)
    requires
        !c.cond.contains(false),
        arith::felts(a.coeffs()),
        arith::felts(b.coeffs()),
        s.len() == 16,
        arith::felts(s),
    ensures
        ext4::combines(p, f) ==> vm::run(
            p,
            vm::at(c, v + vm::nums(a.coeffs()) + vm::nums(b.coeffs()), w),
        ) == Some(vm::at(c, v + vm::nums(f(a, b).coeffs()), w)),
        ext4::pushes(p, a) ==> vm::run(p, vm::at(c, v, w)) == Some(
            vm::at(c, v + vm::nums(a.coeffs()), w),
        ),
        permutation::maps_state(p, g) ==> vm::run(p, vm::at(c, v + vm::nums(s), w)) == Some(
            vm::at(c, v + vm::nums(g(s)), w),
        ),
{
    canonical_values(0, s, a, Seq::empty(), Seq::empty(), Seq::empty(), c);
    canonical_values(0, s, b, Seq::empty(), Seq::empty(), Seq::empty(), c);
    lemma_put(v, a);
    lemma_put(ext4::put(v, a), b);
    lemma_put(v, f(a, b));
}

/// A signature over a state has one chain a digit and its checksum's, lies with
/// chain 0 on top, is valid when it is accepted, and spells the state.
pub proof fn an_opening_is_a_signature_over_a_state(
    o: Opening,
    h: spec_fn(Seq<u8>) -> Seq<u8>,
    pks: Seq<Seq<u8>>,
)
    ensures
        o.complete() <==> o.sigs.len() == winternitz::chain_count(128) && o.digits.len()
            == winternitz::chain_count(128),
        o.items() == winternitz::witness(o.sigs, o.digits, 0),
        o.valid(h, pks) <==> winternitz::accepts(h, o.sigs, o.digits, pks, 16),
        o.state() == winternitz::elements(winternitz::digit_values(o.digits), 16),
{
    reveal_with_fuel(winternitz::digit_count, 4);
}

/// The permutation is its twenty-nine rounds in order, and compression is its first
/// half on the two digests side by side.
pub proof fn the_permutation_is_all_rounds(s: Seq<int>, left: Seq<int>, right: Seq<int>)
    ensures
        poseidon2::permutation(s) == disprove::run_of_rounds(s, 0, 29),
        poseidon2::compression(left, right) == disprove::run_of_rounds(left + right, 0, 29).take(8),
{
    disprove::runs_follow_the_permutation(s, 0, 29);
    disprove::runs_follow_the_permutation(left + right, 0, 29);
    assert(poseidon2::after(s, 0) == s);
    assert(poseidon2::after(left + right, 0) == left + right);
}

/// An external round adds its constants and cubes everywhere, an internal round at the
/// first element only; both then mix.
pub proof fn rounds_cube_and_mix(s: Seq<int>, rc: Seq<u32>, c: int, i: int)
    requires
        s.len() == 16,
        0 <= i < 16,
    ensures
        poseidon2::full_sbox(s, rc).len() == 16,
        poseidon2::full_sbox(s, rc)[i] == ((s[i] + rc[i]) * (s[i] + rc[i]) * (s[i] + rc[i]))
            % 0x7f000001,
        poseidon2::partial_sbox(s, c).len() == 16,
        poseidon2::partial_sbox(s, c)[0] == ((s[0] + c) * (s[0] + c) * (s[0] + c)) % 0x7f000001,
        i > 0 ==> poseidon2::partial_sbox(s, c)[i] == s[i],
{
    an_sbox_cubes_the_sum(s[i], rc[i] as int);
    an_sbox_cubes_the_sum(s[0], c);
}

/// The root of a path is its digest after the last level, and words stand for their
/// digests one for one.
pub proof fn a_root_is_the_last_digest(
    leaf: Seq<int>,
    siblings: Seq<Seq<int>>,
    right: Seq<bool>,
    s: Seq<[u32; 8]>,
    i: int,
)
    ensures
        merkle::path_root(leaf, siblings, right) == poseidon2::path_digest(
            leaf,
            siblings,
            right,
            siblings.len(),
        ),
        reference::digests(s).len() == s.len(),
        0 <= i < s.len() ==> reference::digests(s)[i] == arith::ints(s[i]@),
{
}

} // verus!
