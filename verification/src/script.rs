//! Bitcoin Script as a value.
//!
//! A [`Script`] holds the serialized bytes of a script together with the
//! instructions those bytes spell out. The instructions are ghost data: they
//! are what contracts speak of, and the type invariant keeps them in step with
//! the bytes.

use bitcoin::opcodes::Opcode as RawOpcode;
use bitcoin::script::{Builder, PushBytesBuf, ScriptBuf};
use vstd::prelude::*;

verus! {

/// The opcodes this library emits. None of the disabled ones is among them.
#[derive(Clone, Copy, Debug, PartialEq, Eq, Structural)]
pub enum Opcode {
    If,
    NotIf,
    Else,
    EndIf,
    ToAltStack,
    FromAltStack,
    Drop2,
    Drop,
    Dup,
    Over,
    Pick,
    Roll,
    Rot,
    Swap,
    Tuck,
    Equal,
    EqualVerify,
    Sub1,
    Not,
    NotEqual0,
    Add,
    Sub,
    BoolAnd,
    NumEqual,
    LessThan,
    GreaterThanOrEqual,
    Hash160,
}

/// The byte an opcode serializes to.
pub open spec fn opcode_byte(op: Opcode) -> u8 {
    match op {
        Opcode::If => 0x63,
        Opcode::NotIf => 0x64,
        Opcode::Else => 0x67,
        Opcode::EndIf => 0x68,
        Opcode::ToAltStack => 0x6b,
        Opcode::FromAltStack => 0x6c,
        Opcode::Drop2 => 0x6d,
        Opcode::Drop => 0x75,
        Opcode::Dup => 0x76,
        Opcode::Over => 0x78,
        Opcode::Pick => 0x79,
        Opcode::Roll => 0x7a,
        Opcode::Rot => 0x7b,
        Opcode::Swap => 0x7c,
        Opcode::Tuck => 0x7d,
        Opcode::Equal => 0x87,
        Opcode::EqualVerify => 0x88,
        Opcode::Sub1 => 0x8c,
        Opcode::Not => 0x91,
        Opcode::NotEqual0 => 0x92,
        Opcode::Add => 0x93,
        Opcode::Sub => 0x94,
        Opcode::BoolAnd => 0x9a,
        Opcode::NumEqual => 0x9c,
        Opcode::LessThan => 0x9f,
        Opcode::GreaterThanOrEqual => 0xa2,
        Opcode::Hash160 => 0xa9,
    }
}

/// The fifteen disabled opcodes: `OP_CAT`, `OP_SUBSTR`, `OP_LEFT`, `OP_RIGHT`,
/// `OP_INVERT`, `OP_AND`, `OP_OR`, `OP_XOR`, `OP_2MUL`, `OP_2DIV`, `OP_MUL`,
/// `OP_DIV`, `OP_MOD`, `OP_LSHIFT` and `OP_RSHIFT`.
pub open spec fn disabled(b: u8) -> bool {
    0x7e <= b <= 0x81 || 0x83 <= b <= 0x86 || 0x8d <= b <= 0x8e || 0x95 <= b <= 0x99
}

/// One instruction of a script.
#[verifier::ext_equal]
pub enum Instr {
    /// An opcode.
    Op(Opcode),
    /// A push of an integer as a script number.
    Int(int),
    /// A push of a byte string.
    Data(Seq<u8>),
}

/// The little-endian bytes of a magnitude, with no leading zero byte.
pub open spec fn le_bytes(n: nat) -> Seq<u8>
    decreases n,
{
    if n == 0 {
        Seq::empty()
    } else {
        seq![(n % 256) as u8] + le_bytes(n / 256)
    }
}

/// The minimal script number: little-endian magnitude with the sign on the top
/// bit of the last byte, and an extra byte where that bit is already taken.
pub open spec fn script_num(n: int) -> Seq<u8> {
    if n == 0 {
        Seq::empty()
    } else {
        let m = le_bytes((if n < 0 { -n } else { n }) as nat);
        let sign: int = if n < 0 { 128 } else { 0 };
        if m.last() >= 128 {
            m.push(sign as u8)
        } else {
            m.drop_last().push((m.last() + sign) as u8)
        }
    }
}

/// The bytes that push `data`, for the lengths that need no `OP_PUSHDATA`.
pub open spec fn push_slice_bytes(data: Seq<u8>) -> Seq<u8> {
    seq![data.len() as u8] + data
}

/// The bytes that push an integer: a dedicated opcode for `-1`, `0` and
/// `1 ..= 16`, and the script number as data otherwise.
pub open spec fn push_int_bytes(n: int) -> Seq<u8> {
    if n == 0 {
        seq![0u8]
    } else if n == -1 || 1 <= n <= 16 {
        seq![(n + 0x50) as u8]
    } else {
        push_slice_bytes(script_num(n))
    }
}

/// The bytes one instruction serializes to.
pub open spec fn encode(i: Instr) -> Seq<u8> {
    match i {
        Instr::Op(op) => seq![opcode_byte(op)],
        Instr::Int(n) => push_int_bytes(n),
        Instr::Data(d) => push_slice_bytes(d),
    }
}

/// The bytes a sequence of instructions serializes to.
pub open spec fn assemble(p: Seq<Instr>) -> Seq<u8>
    decreases p.len(),
{
    if p.len() == 0 {
        Seq::empty()
    } else {
        assemble(p.drop_last()) + encode(p.last())
    }
}

/// Serializing a concatenation concatenates the serializations.
pub proof fn lemma_assemble_concat(p: Seq<Instr>, q: Seq<Instr>)
    ensures
        assemble(p + q) == assemble(p) + assemble(q),
    decreases q.len(),
{
    if q.len() == 0 {
        assert(p + q =~= p);
        assert(assemble(p) + assemble(q) =~= assemble(p));
    } else {
        lemma_assemble_concat(p, q.drop_last());
        assert((p + q).drop_last() =~= p + q.drop_last());
        assert(assemble(p + q) =~= assemble(p) + assemble(q));
    }
}

/// Whether an instruction can be serialized: integers in the range of the
/// builder, and data that needs no `OP_PUSHDATA`.
pub open spec fn pushable(i: Instr) -> bool {
    match i {
        Instr::Op(_) => true,
        Instr::Int(n) => -0x8000_0000_0000_0000 < n < 0x8000_0000_0000_0000,
        Instr::Data(d) => d.len() < 0x4c,
    }
}

/// Whether all instructions can be serialized.
pub open spec fn all_pushable(p: Seq<Instr>) -> bool {
    forall|i: int| 0 <= i < p.len() ==> pushable(#[trigger] p[i])
}

/// How many bytes the first instruction of a nonempty serialized script takes:
/// an opcode, after it the length where `OP_PUSHDATA` announces one, and the
/// bytes it pushes.
pub open spec fn extent(b: Seq<u8>) -> int {
    let h = b[0];
    if h < 76 {
        1 + h
    } else if h == 76 {
        2 + b[1]
    } else if h == 77 {
        3 + b[1] + 256 * b[2]
    } else if h == 78 {
        5 + b[1] + 256 * b[2] + 65536 * b[3] + 16777216 * b[4]
    } else {
        1
    }
}

/// The opcodes of a serialized script, with the bytes they push skipped. `None`
/// where the script ends within a push.
pub open spec fn opcodes(b: Seq<u8>) -> Option<Seq<u8>>
    decreases b.len(),
{
    if b.len() == 0 {
        Some(Seq::empty())
    } else if extent(b) <= 0 || extent(b) > b.len() {
        None
    } else {
        match opcodes(b.skip(extent(b))) {
            None => None,
            Some(s) => Some(seq![b[0]] + s),
        }
    }
}

/// The opcode each instruction serializes to.
pub open spec fn heads(p: Seq<Instr>) -> Seq<u8> {
    p.map_values(|i: Instr| encode(i)[0])
}

/// How long the bytes of a magnitude are.
proof fn lemma_le_bytes_len(n: nat)
    requires
        0 < n < 0x8000_0000_0000_0000,
    ensures
        0 < le_bytes(n).len() <= 8,
{
    reveal_with_fuel(le_bytes, 9);
}

/// Reading one instruction gives its opcode, and goes on behind it.
proof fn lemma_opcodes_step(i: Instr, rest: Seq<u8>)
    requires
        pushable(i),
    ensures
        opcodes(encode(i) + rest) == (match opcodes(rest) {
            None => None,
            Some(s) => Some(seq![encode(i)[0]] + s),
        }),
        !disabled(encode(i)[0]),
{
    if let Instr::Int(n) = i {
        if n < -1 || n > 16 {
            lemma_le_bytes_len((if n < 0 { -n } else { n }) as nat);
        }
    }
    let b = encode(i) + rest;
    assert(b[0] == encode(i)[0]);
    assert(extent(b) == encode(i).len());
    assert(b.skip(extent(b)) =~= rest);
}

/// Reading a serialized script gives the opcodes of its instructions.
proof fn lemma_opcodes(p: Seq<Instr>, rest: Seq<u8>)
    requires
        all_pushable(p),
    ensures
        opcodes(assemble(p) + rest) == (match opcodes(rest) {
            None => None,
            Some(s) => Some(heads(p) + s),
        }),
    decreases p.len(),
{
    if p.len() == 0 {
        assert(assemble(p) + rest =~= rest);
        if let Some(s) = opcodes(rest) {
            assert(heads(p) + s =~= s);
        }
    } else {
        let q = p.drop_last();
        let i = p.last();
        lemma_opcodes_step(i, rest);
        lemma_opcodes(q, encode(i) + rest);
        assert(assemble(p) + rest =~= assemble(q) + (encode(i) + rest));
        if let Some(s) = opcodes(rest) {
            assert(heads(p) + s =~= heads(q) + (seq![encode(i)[0]] + s));
        }
    }
}

/// Whether a serialized script is well formed and holds no disabled opcode.
pub open spec fn enabled(b: Seq<u8>) -> bool {
    match opcodes(b) {
        None => false,
        Some(s) => forall|i: int| 0 <= i < s.len() ==> !disabled(#[trigger] s[i]),
    }
}

/// No script contains `OP_CAT` or any other disabled opcode: read back from its
/// bytes, the opcodes are those of its instructions, and all of them are enabled.
pub proof fn no_disabled_opcode(p: Seq<Instr>)
    requires
        all_pushable(p),
    ensures
        opcodes(assemble(p)) == Some(heads(p)),
        enabled(assemble(p)),
{
    lemma_opcodes(p, Seq::empty());
    assert(assemble(p) + Seq::<u8>::empty() =~= assemble(p));
    assert(heads(p) + Seq::<u8>::empty() =~= heads(p));
    assert forall|i: int| 0 <= i < heads(p).len() implies !disabled(#[trigger] heads(p)[i]) by {
        lemma_opcodes_step(p[i], Seq::empty());
    }
}

/// `Builder::push_opcode` of the `bitcoin` crate on an empty builder: the
/// script is the one byte of the opcode.
#[verifier::external_body]
fn raw_opcode(code: u8) -> (r: Vec<u8>)
    ensures
        r@ == seq![code],
{
    Builder::new().push_opcode(RawOpcode::from(code)).into_bytes()
}

/// `Builder::push_int` of the `bitcoin` crate on an empty builder: the
/// dedicated opcode for `-1`, `0` and `1 ..= 16`, and otherwise a push of the
/// little-endian signed-magnitude number.
#[verifier::external_body]
fn raw_int(n: i64) -> (r: Vec<u8>)
    requires
        n > i64::MIN,
    ensures
        r@ == push_int_bytes(n as int),
{
    Builder::new().push_int(n).into_bytes()
}

/// `Builder::push_slice` of the `bitcoin` crate on an empty builder, for data
/// short enough to need no `OP_PUSHDATA`: the length, then the data.
#[verifier::external_body]
fn raw_slice(data: Vec<u8>) -> (r: Vec<u8>)
    requires
        data@.len() < 0x4c,
    ensures
        r@ == push_slice_bytes(data@),
{
    Builder::new().push_slice(PushBytesBuf::try_from(data).unwrap()).into_bytes()
}

/// `ScriptBuf` of the `bitcoin` crate: an owned script.
#[verifier::external_type_specification]
#[verifier::external_body]
pub struct ExScriptBuf(ScriptBuf);

/// The bytes a `ScriptBuf` holds.
pub uninterp spec fn script_buf_bytes(s: ScriptBuf) -> Seq<u8>;

/// `ScriptBuf::from_bytes` of the `bitcoin` crate: the script holds the bytes
/// it is given.
#[verifier::external_body]
fn raw_script(bytes: Vec<u8>) -> (r: ScriptBuf)
    ensures
        script_buf_bytes(r) == bytes@,
{
    ScriptBuf::from_bytes(bytes)
}

/// The size of a script in bytes.
pub open spec fn size(p: Seq<Instr>) -> nat {
    assemble(p).len()
}

/// A script under construction, or finished.
pub struct Script {
    bytes: Vec<u8>,
    instrs: Ghost<Seq<Instr>>,
}

impl Script {
    /// The bytes are the serialization of the instructions.
    #[verifier::type_invariant]
    spec fn wf(self) -> bool {
        self.bytes@ == assemble(self.instrs@) && all_pushable(self.instrs@)
    }

    /// The instructions of the script.
    pub closed spec fn code(self) -> Seq<Instr> {
        self.instrs@
    }

    /// The empty script.
    pub fn new() -> (r: Script)
        ensures
            r.code() == Seq::<Instr>::empty(),
    {
        Script { bytes: Vec::new(), instrs: Ghost(Seq::empty()) }
    }

    /// Append an opcode.
    pub fn op(self, op: Opcode) -> (r: Script)
        ensures
            r.code() == self.code().push(Instr::Op(op)),
    {
        let code: u8 = match op {
            Opcode::If => 0x63,
            Opcode::NotIf => 0x64,
            Opcode::Else => 0x67,
            Opcode::EndIf => 0x68,
            Opcode::ToAltStack => 0x6b,
            Opcode::FromAltStack => 0x6c,
            Opcode::Drop2 => 0x6d,
            Opcode::Drop => 0x75,
            Opcode::Dup => 0x76,
            Opcode::Over => 0x78,
            Opcode::Pick => 0x79,
            Opcode::Roll => 0x7a,
            Opcode::Rot => 0x7b,
            Opcode::Swap => 0x7c,
            Opcode::Tuck => 0x7d,
            Opcode::Equal => 0x87,
            Opcode::EqualVerify => 0x88,
            Opcode::Sub1 => 0x8c,
            Opcode::Not => 0x91,
            Opcode::NotEqual0 => 0x92,
            Opcode::Add => 0x93,
            Opcode::Sub => 0x94,
            Opcode::BoolAnd => 0x9a,
            Opcode::NumEqual => 0x9c,
            Opcode::LessThan => 0x9f,
            Opcode::GreaterThanOrEqual => 0xa2,
            Opcode::Hash160 => 0xa9,
        };
        self.extend(raw_opcode(code), Ghost(Instr::Op(op)))
    }

    /// Append a push of an integer.
    pub fn num(self, n: i64) -> (r: Script)
        requires
            n > i64::MIN,
        ensures
            r.code() == self.code().push(Instr::Int(n as int)),
    {
        self.extend(raw_int(n), Ghost(Instr::Int(n as int)))
    }

    /// Append a push of a byte string of at most 75 bytes.
    pub fn data(self, d: Vec<u8>) -> (r: Script)
        requires
            d@.len() < 0x4c,
        ensures
            r.code() == self.code().push(Instr::Data(d@)),
    {
        let ghost seen = d@;
        self.extend(raw_slice(d), Ghost(Instr::Data(seen)))
    }

    /// Append the bytes of one instruction.
    fn extend(self, piece: Vec<u8>, i: Ghost<Instr>) -> (r: Script)
        requires
            piece@ == encode(i@),
            pushable(i@),
        ensures
            r.code() == self.code().push(i@),
    {
        proof {
            use_type_invariant(&self);
        }
        let ghost p = self.instrs@;
        let mut bytes = self.bytes;
        let mut piece = piece;
        bytes.append(&mut piece);
        proof {
            assert(p.push(i@).drop_last() =~= p);
        }
        Script { bytes, instrs: Ghost(p.push(i@)) }
    }

    /// Append a whole script.
    pub fn then_script(self, other: Script) -> (r: Script)
        ensures
            r.code() == self.code() + other.code(),
    {
        proof {
            use_type_invariant(&self);
            use_type_invariant(&other);
            lemma_assemble_concat(self.instrs@, other.instrs@);
        }
        let ghost p = self.instrs@ + other.instrs@;
        let mut bytes = self.bytes;
        let mut more = other.bytes;
        bytes.append(&mut more);
        Script { bytes, instrs: Ghost(p) }
    }

    /// Append a copy of a whole script.
    pub fn with(self, other: &Script) -> (r: Script)
        ensures
            r.code() == self.code() + other.code(),
    {
        proof {
            use_type_invariant(&self);
            use_type_invariant(other);
            lemma_assemble_concat(self.instrs@, other.instrs@);
        }
        let ghost p = self.instrs@ + other.instrs@;
        let mut bytes = self.bytes;
        let ghost before = bytes@;
        bytes.extend_from_slice(other.bytes.as_slice());
        assert(bytes@ =~= before + other.bytes@);
        Script { bytes, instrs: Ghost(p) }
    }

    /// Length of the serialized script in bytes.
    pub fn len(&self) -> (r: usize)
        ensures
            r == size(self.code()),
    {
        proof {
            use_type_invariant(self);
        }
        self.bytes.len()
    }

    /// The script as the `bitcoin` crate's own type. It is well formed and holds
    /// no disabled opcode.
    pub fn into_script_buf(self) -> (r: ScriptBuf)
        ensures
            script_buf_bytes(r) == assemble(self.code()),
            enabled(script_buf_bytes(r)),
    {
        proof {
            use_type_invariant(&self);
            no_disabled_opcode(self.instrs@);
        }
        raw_script(self.bytes)
    }
}

impl Clone for Script {
    fn clone(&self) -> (r: Script)
        ensures
            r.code() == self.code(),
    {
        let r = Script::new().with(self);
        assert(r.code() =~= self.code());
        r
    }
}

} // verus!
