//! The data model of a WASM binary module, its abstract (specification-level)
//! views, and the codecs for the primitive and one-byte-tagged wire types.

use vstd::prelude::*;

use crate::codec::SpecDec;
use crate::codec::WasmBinary;
use crate::error::WasmError;
use crate::leb::lemma_pow128_9;
use crate::leb::lemma_pow128_5;
use crate::leb::lemma_uleb_dec_bounds;
use crate::leb::lemma_uleb_dec_minimal;
use crate::leb::lemma_uleb_round_trip;
use crate::leb::lemma_uleb_wire_len;
use crate::leb::lemma_sleb_dec_bounds;
use crate::leb::lemma_sleb_dec_minimal;
use crate::leb::lemma_sleb_round_trip;
use crate::leb::lemma_sleb_wire_len;
use crate::leb::sleb_dec;
use crate::leb::sleb_decode;
use crate::leb::sleb_encode;
use crate::leb::sleb_wire;
use crate::leb::pow128;
use crate::leb::sleb_cap;
use crate::leb::uleb_dec;
use crate::leb::uleb_decode;
use crate::leb::uleb_encode;
use crate::leb::uleb_wire;

verus! {

/// A value type, each bound to a fixed one-byte tag.
#[derive(Debug, Clone, Copy, PartialEq, Eq)]
pub enum ValType {
    I32,
    I64,
    F32,
    F64,
}

/// An index into the type section.
#[derive(Debug, Clone, Copy, PartialEq, Eq)]
pub struct TypeIdx(pub u32);

/// One instruction. Only the bootstrap subset is in scope here; `End` and
/// `Else` double as the terminators of an instruction sequence.
#[derive(Debug, Clone, Copy, PartialEq, Eq)]
pub enum Instr {
    Unreachable,
    Nop,
    Drop,
    Select,
    Else,
    End,
}

/// The optional result type of a structured control construct, with a
/// compressed one-byte encoding: the sentinel `0x40` for the empty case, or a
/// value type's own tag.
#[derive(Debug, Clone, Copy, PartialEq, Eq)]
pub struct BlockType(pub Option<ValType>);

impl DeepView for ValType {
    type V = ValType;

    open spec fn deep_view(&self) -> ValType {
        *self
    }
}

impl DeepView for TypeIdx {
    type V = TypeIdx;

    open spec fn deep_view(&self) -> TypeIdx {
        *self
    }
}

impl DeepView for Instr {
    type V = Instr;

    open spec fn deep_view(&self) -> Instr {
        *self
    }
}

impl DeepView for BlockType {
    type V = Option<ValType>;

    open spec fn deep_view(&self) -> Option<ValType> {
        self.0
    }
}

/* Primitive codecs */

impl WasmBinary for u8 {
    open spec fn wf(v: u8) -> bool {
        true
    }

    open spec fn enc_ok(v: u8) -> bool {
        true
    }

    open spec fn wire(v: u8) -> Seq<u8> {
        seq![v]
    }

    open spec fn sdec(s: Seq<u8>) -> SpecDec<u8> {
        if s.len() == 0 {
            SpecDec::Eof
        } else {
            SpecDec::Found(s[0], 1)
        }
    }

    proof fn lemma_sdec(s: Seq<u8>) {
    }

    proof fn lemma_wf_enc_ok(v: u8) {
    }

    proof fn lemma_round_trip(v: u8, rest: Seq<u8>) {
        assert((seq![v] + rest)[0] == v);
    }

    fn decode(bytes: &Vec<u8>, pos: usize) -> (r: Result<(u8, usize), WasmError>) {
        if pos < bytes.len() {
            Ok((bytes[pos], pos + 1))
        } else {
            Err(WasmError::Eof)
        }
    }

    fn encode(&self, out: &mut Vec<u8>) -> (r: Result<usize, WasmError>) {
        out.push(*self);
        proof {
            assert(out@ =~= old(out)@ + seq![*self]);
        }
        Ok(1)
    }
}

/// An unsigned 32-bit integer travels as unsigned LEB128, at most five bytes.
impl WasmBinary for u32 {
    open spec fn wf(v: u32) -> bool {
        true
    }

    open spec fn enc_ok(v: u32) -> bool {
        true
    }

    open spec fn wire(v: u32) -> Seq<u8> {
        uleb_wire(v as nat)
    }

    open spec fn sdec(s: Seq<u8>) -> SpecDec<u32> {
        match uleb_dec(s, u32::MAX as nat, 5) {
            SpecDec::Found(v, n) => SpecDec::Found(v as u32, n),
            SpecDec::Eof => SpecDec::Eof,
            SpecDec::Bad => SpecDec::Bad,
        }
    }

    proof fn lemma_sdec(s: Seq<u8>) {
        lemma_uleb_dec_bounds(s, u32::MAX as nat, 5);
        lemma_uleb_dec_minimal(s, u32::MAX as nat, 5);
    }

    proof fn lemma_wf_enc_ok(v: u32) {
    }

    proof fn lemma_round_trip(v: u32, rest: Seq<u8>) {
        lemma_pow128_5();
        lemma_uleb_wire_len(v as nat, 5);
        lemma_uleb_round_trip(v as nat, rest, u32::MAX as nat, 5);
    }

    fn decode(bytes: &Vec<u8>, pos: usize) -> (r: Result<(u32, usize), WasmError>) {
        proof {
            lemma_uleb_dec_bounds(bytes@.skip(pos as int), u32::MAX as nat, 5);
        }
        uleb_decode(bytes, pos, u32::MAX, 5)
    }

    fn encode(&self, out: &mut Vec<u8>) -> (r: Result<usize, WasmError>) {
        let before = out.len();
        uleb_encode(*self, out);
        proof {
            lemma_pow128_5();
            lemma_uleb_wire_len(*self as nat, 5);
        }
        Ok(out.len() - before)
    }
}

/// A signed 32-bit integer travels as signed LEB128, at most five bytes.
impl WasmBinary for i32 {
    open spec fn wf(v: i32) -> bool {
        true
    }

    open spec fn enc_ok(v: i32) -> bool {
        true
    }

    open spec fn wire(v: i32) -> Seq<u8> {
        sleb_wire(v as int)
    }

    open spec fn sdec(s: Seq<u8>) -> SpecDec<i32> {
        match sleb_dec(s, 5) {
            SpecDec::Found(v, n) => if i32::MIN <= v <= i32::MAX {
                SpecDec::Found(v as i32, n)
            } else {
                SpecDec::Bad
            },
            SpecDec::Eof => SpecDec::Eof,
            SpecDec::Bad => SpecDec::Bad,
        }
    }

    proof fn lemma_sdec(s: Seq<u8>) {
        lemma_sleb_dec_bounds(s, 5);
        lemma_sleb_dec_minimal(s, 5);
    }

    proof fn lemma_wf_enc_ok(v: i32) {
    }

    proof fn lemma_round_trip(v: i32, rest: Seq<u8>) {
        lemma_pow128_5();
        assert(sleb_cap(5) == 64 * pow128(4));
        lemma_sleb_wire_len(v as int, 5);
        lemma_sleb_round_trip(v as int, rest, 5);
    }

    fn decode(bytes: &Vec<u8>, pos: usize) -> (r: Result<(i32, usize), WasmError>) {
        match sleb_decode(bytes, pos, 5) {
            Ok((v, np)) => {
                if i32::MIN as i128 <= v && v <= i32::MAX as i128 {
                    Ok((v as i32, np))
                } else {
                    Err(WasmError::Invalid("signed leb128 value overflows 32 bits".to_string()))
                }
            },
            Err(e) => Err(e),
        }
    }

    fn encode(&self, out: &mut Vec<u8>) -> (r: Result<usize, WasmError>) {
        let before = out.len();
        sleb_encode(*self as i128, out);
        proof {
            lemma_pow128_5();
            lemma_sleb_wire_len(*self as int, 5);
        }
        Ok(out.len() - before)
    }
}

/// A signed 64-bit integer travels as signed LEB128, at most ten bytes.
impl WasmBinary for i64 {
    open spec fn wf(v: i64) -> bool {
        true
    }

    open spec fn enc_ok(v: i64) -> bool {
        true
    }

    open spec fn wire(v: i64) -> Seq<u8> {
        sleb_wire(v as int)
    }

    open spec fn sdec(s: Seq<u8>) -> SpecDec<i64> {
        match sleb_dec(s, 10) {
            SpecDec::Found(v, n) => if i64::MIN <= v <= i64::MAX {
                SpecDec::Found(v as i64, n)
            } else {
                SpecDec::Bad
            },
            SpecDec::Eof => SpecDec::Eof,
            SpecDec::Bad => SpecDec::Bad,
        }
    }

    proof fn lemma_sdec(s: Seq<u8>) {
        lemma_sleb_dec_bounds(s, 10);
        lemma_sleb_dec_minimal(s, 10);
    }

    proof fn lemma_wf_enc_ok(v: i64) {
    }

    proof fn lemma_round_trip(v: i64, rest: Seq<u8>) {
        lemma_pow128_9();
        assert(sleb_cap(10) == 64 * pow128(9));
        lemma_sleb_wire_len(v as int, 10);
        lemma_sleb_round_trip(v as int, rest, 10);
    }

    fn decode(bytes: &Vec<u8>, pos: usize) -> (r: Result<(i64, usize), WasmError>) {
        match sleb_decode(bytes, pos, 10) {
            Ok((v, np)) => {
                if i64::MIN as i128 <= v && v <= i64::MAX as i128 {
                    Ok((v as i64, np))
                } else {
                    Err(WasmError::Invalid("signed leb128 value overflows 64 bits".to_string()))
                }
            },
            Err(e) => Err(e),
        }
    }

    fn encode(&self, out: &mut Vec<u8>) -> (r: Result<usize, WasmError>) {
        let before = out.len();
        sleb_encode(*self as i128, out);
        proof {
            lemma_pow128_9();
            assert(sleb_cap(10) == 64 * pow128(9));
            lemma_sleb_wire_len(*self as int, 10);
        }
        Ok(out.len() - before)
    }
}

/* One-byte-tagged codecs */

/// The fixed tag byte of each value type.
pub open spec fn val_type_tag(v: ValType) -> u8 {
    match v {
        ValType::I32 => 0x7f,
        ValType::I64 => 0x7e,
        ValType::F32 => 0x7d,
        ValType::F64 => 0x7c,
    }
}

/// The value type a tag byte stands for, if any.
pub open spec fn val_type_of_tag(b: u8) -> Option<ValType> {
    if b == 0x7f {
        Some(ValType::I32)
    } else if b == 0x7e {
        Some(ValType::I64)
    } else if b == 0x7d {
        Some(ValType::F32)
    } else if b == 0x7c {
        Some(ValType::F64)
    } else {
        None
    }
}

impl ValType {
    /// The tag byte this value type is written as.
    pub fn tag(&self) -> (b: u8)
        ensures
            b == val_type_tag(*self),
    {
        match self {
            ValType::I32 => 0x7f,
            ValType::I64 => 0x7e,
            ValType::F32 => 0x7d,
            ValType::F64 => 0x7c,
        }
    }
}

impl WasmBinary for ValType {
    open spec fn wf(v: ValType) -> bool {
        true
    }

    open spec fn enc_ok(v: ValType) -> bool {
        true
    }

    open spec fn wire(v: ValType) -> Seq<u8> {
        seq![val_type_tag(v)]
    }

    open spec fn sdec(s: Seq<u8>) -> SpecDec<ValType> {
        if s.len() == 0 {
            SpecDec::Eof
        } else {
            match val_type_of_tag(s[0]) {
                Some(v) => SpecDec::Found(v, 1),
                None => SpecDec::Bad,
            }
        }
    }

    proof fn lemma_sdec(s: Seq<u8>) {
    }

    proof fn lemma_wf_enc_ok(v: ValType) {
    }

    proof fn lemma_round_trip(v: ValType, rest: Seq<u8>) {
        assert((seq![val_type_tag(v)] + rest)[0] == val_type_tag(v));
    }

    fn decode(bytes: &Vec<u8>, pos: usize) -> (r: Result<(ValType, usize), WasmError>) {
        if pos >= bytes.len() {
            return Err(WasmError::Eof);
        }
        let b = bytes[pos];
        if b == 0x7f {
            Ok((ValType::I32, pos + 1))
        } else if b == 0x7e {
            Ok((ValType::I64, pos + 1))
        } else if b == 0x7d {
            Ok((ValType::F32, pos + 1))
        } else if b == 0x7c {
            Ok((ValType::F64, pos + 1))
        } else {
            Err(WasmError::Invalid("expected a value type tag".to_string()))
        }
    }

    fn encode(&self, out: &mut Vec<u8>) -> (r: Result<usize, WasmError>) {
        out.push(self.tag());
        proof {
            assert(out@ =~= old(out)@ + seq![val_type_tag(*self)]);
        }
        Ok(1)
    }
}

impl WasmBinary for TypeIdx {
    open spec fn wf(v: TypeIdx) -> bool {
        true
    }

    open spec fn enc_ok(v: TypeIdx) -> bool {
        true
    }

    open spec fn wire(v: TypeIdx) -> Seq<u8> {
        uleb_wire(v.0 as nat)
    }

    open spec fn sdec(s: Seq<u8>) -> SpecDec<TypeIdx> {
        match <u32 as WasmBinary>::sdec(s) {
            SpecDec::Found(v, n) => SpecDec::Found(TypeIdx(v), n),
            SpecDec::Eof => SpecDec::Eof,
            SpecDec::Bad => SpecDec::Bad,
        }
    }

    proof fn lemma_sdec(s: Seq<u8>) {
        <u32 as WasmBinary>::lemma_sdec(s);
    }

    proof fn lemma_wf_enc_ok(v: TypeIdx) {
    }

    proof fn lemma_round_trip(v: TypeIdx, rest: Seq<u8>) {
        <u32 as WasmBinary>::lemma_round_trip(v.0, rest);
    }

    fn decode(bytes: &Vec<u8>, pos: usize) -> (r: Result<(TypeIdx, usize), WasmError>) {
        match u32::decode(bytes, pos) {
            Ok((v, np)) => Ok((TypeIdx(v), np)),
            Err(e) => Err(e),
        }
    }

    fn encode(&self, out: &mut Vec<u8>) -> (r: Result<usize, WasmError>) {
        self.0.encode(out)
    }
}

/// The fixed tag byte of each instruction in scope.
pub open spec fn instr_tag(i: Instr) -> u8 {
    match i {
        Instr::Unreachable => 0x00,
        Instr::Nop => 0x01,
        Instr::Drop => 0x1a,
        Instr::Select => 0x1b,
        Instr::Else => 0x05,
        Instr::End => 0x0b,
    }
}

/// The instruction a tag byte stands for, if any.
pub open spec fn instr_of_tag(b: u8) -> Option<Instr> {
    if b == 0x00 {
        Some(Instr::Unreachable)
    } else if b == 0x01 {
        Some(Instr::Nop)
    } else if b == 0x1a {
        Some(Instr::Drop)
    } else if b == 0x1b {
        Some(Instr::Select)
    } else if b == 0x05 {
        Some(Instr::Else)
    } else if b == 0x0b {
        Some(Instr::End)
    } else {
        None
    }
}

impl Instr {
    /// The tag byte this instruction is written as.
    pub fn tag(&self) -> (b: u8)
        ensures
            b == instr_tag(*self),
    {
        match self {
            Instr::Unreachable => 0x00,
            Instr::Nop => 0x01,
            Instr::Drop => 0x1a,
            Instr::Select => 0x1b,
            Instr::Else => 0x05,
            Instr::End => 0x0b,
        }
    }

    /// Whether this instruction ends the instruction sequence it stands in.
    pub fn is_terminator(&self) -> (r: bool)
        ensures
            r == instr_terminates(*self),
    {
        match self {
            Instr::Else => true,
            Instr::End => true,
            _ => false,
        }
    }
}

/// Whether an instruction is a block terminator (`End` or `Else`).
pub open spec fn instr_terminates(i: Instr) -> bool {
    i == Instr::End || i == Instr::Else
}

impl WasmBinary for Instr {
    open spec fn wf(v: Instr) -> bool {
        true
    }

    open spec fn enc_ok(v: Instr) -> bool {
        true
    }

    open spec fn wire(v: Instr) -> Seq<u8> {
        seq![instr_tag(v)]
    }

    open spec fn sdec(s: Seq<u8>) -> SpecDec<Instr> {
        if s.len() == 0 {
            SpecDec::Eof
        } else {
            match instr_of_tag(s[0]) {
                Some(i) => SpecDec::Found(i, 1),
                None => SpecDec::Bad,
            }
        }
    }

    proof fn lemma_sdec(s: Seq<u8>) {
    }

    proof fn lemma_wf_enc_ok(v: Instr) {
    }

    proof fn lemma_round_trip(v: Instr, rest: Seq<u8>) {
        assert((seq![instr_tag(v)] + rest)[0] == instr_tag(v));
    }

    fn decode(bytes: &Vec<u8>, pos: usize) -> (r: Result<(Instr, usize), WasmError>) {
        if pos >= bytes.len() {
            return Err(WasmError::Eof);
        }
        let b = bytes[pos];
        if b == 0x00 {
            Ok((Instr::Unreachable, pos + 1))
        } else if b == 0x01 {
            Ok((Instr::Nop, pos + 1))
        } else if b == 0x1a {
            Ok((Instr::Drop, pos + 1))
        } else if b == 0x1b {
            Ok((Instr::Select, pos + 1))
        } else if b == 0x05 {
            Ok((Instr::Else, pos + 1))
        } else if b == 0x0b {
            Ok((Instr::End, pos + 1))
        } else {
            Err(WasmError::Invalid("unsupported instruction tag".to_string()))
        }
    }

    fn encode(&self, out: &mut Vec<u8>) -> (r: Result<usize, WasmError>) {
        out.push(self.tag());
        proof {
            assert(out@ =~= old(out)@ + seq![instr_tag(*self)]);
        }
        Ok(1)
    }
}

/// The sentinel byte that stands for "no result type" in a block type.
pub open spec fn block_type_sentinel() -> u8 {
    0x40
}

/// The two spaces a block type byte is drawn from never overlap: the sentinel
/// is not a value type tag.
pub proof fn lemma_block_type_spaces_disjoint()
    ensures
        val_type_of_tag(block_type_sentinel()) is None,
{
}

impl WasmBinary for BlockType {
    open spec fn wf(v: Option<ValType>) -> bool {
        true
    }

    open spec fn enc_ok(v: Option<ValType>) -> bool {
        true
    }

    open spec fn wire(v: Option<ValType>) -> Seq<u8> {
        match v {
            None => seq![block_type_sentinel()],
            Some(t) => seq![val_type_tag(t)],
        }
    }

    open spec fn sdec(s: Seq<u8>) -> SpecDec<Option<ValType>> {
        if s.len() == 0 {
            SpecDec::Eof
        } else if s[0] == block_type_sentinel() {
            SpecDec::Found(None, 1)
        } else {
            match val_type_of_tag(s[0]) {
                Some(t) => SpecDec::Found(Some(t), 1),
                None => SpecDec::Bad,
            }
        }
    }

    proof fn lemma_sdec(s: Seq<u8>) {
    }

    proof fn lemma_wf_enc_ok(v: Option<ValType>) {
    }

    proof fn lemma_round_trip(v: Option<ValType>, rest: Seq<u8>) {
        assert((BlockType::wire(v) + rest)[0] == BlockType::wire(v)[0]);
    }

    fn decode(bytes: &Vec<u8>, pos: usize) -> (r: Result<(BlockType, usize), WasmError>) {
        if pos >= bytes.len() {
            return Err(WasmError::Eof);
        }
        if bytes[pos] == 0x40 {
            Ok((BlockType(None), pos + 1))
        } else {
            match ValType::decode(bytes, pos) {
                Ok((t, np)) => Ok((BlockType(Some(t)), np)),
                Err(e) => Err(e),
            }
        }
    }

    fn encode(&self, out: &mut Vec<u8>) -> (r: Result<usize, WasmError>) {
        match self.0 {
            None => {
                out.push(0x40);
                proof {
                    assert(out@ =~= old(out)@ + seq![block_type_sentinel()]);
                }
                Ok(1)
            },
            Some(t) => t.encode(out),
        }
    }
}

} // verus!
