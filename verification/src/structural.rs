//! The hand-written structural codecs: expression bodies with block-terminator
//! semantics, function types, function bodies, sections, and the module
//! container itself.

use vstd::prelude::*;

use crate::codec::SpecDec;
use crate::codec::WasmBinary;
use crate::combinators::WithSize;
use crate::combinators::dec_prepend;
use crate::combinators::elems_wire;
use crate::combinators::lemma_elems_wire_concat;
use crate::combinators::lemma_prepend_assoc;
use crate::combinators::lemma_prepend_empty;
use crate::error::WasmError;
use crate::leb::lemma_uleb_wire_mono;
use crate::leb::uleb_wire;
use crate::parallel::code_sdec;
use crate::parallel::decode_code_vec;
use crate::parallel::encode_code_vec;
use crate::parallel::lemma_code_sdec;
use crate::parallel::lemma_code_round_trip;
use crate::types::Instr;
use crate::types::TypeIdx;
use crate::types::ValType;
use crate::types::instr_terminates;

verus! {

/// One instruction stream, terminated by (and including) `End` or `Else`.
#[derive(Debug, Clone, PartialEq)]
pub struct Expr(pub Vec<Instr>);

/// A function signature: parameter types and result types.
#[derive(Debug, Clone, PartialEq)]
pub struct FuncType {
    pub params: Vec<ValType>,
    pub results: Vec<ValType>,
}

/// One function body: its local declarations and its instructions.
#[derive(Debug, Clone, PartialEq)]
pub struct Func {
    pub locals: Vec<ValType>,
    pub body: Expr,
}

/// One section of a module. The discriminant byte on the wire uniquely
/// determines the variant; an unrecognized discriminant is a decode failure.
#[derive(Debug, Clone, PartialEq)]
pub enum Section {
    Type(Vec<FuncType>),
    Function(Vec<TypeIdx>),
    Code(Vec<Func>),
}

/// A whole module: the format version and the sections in order.
#[derive(Debug, Clone, PartialEq)]
pub struct Module {
    pub version: u32,
    pub sections: Vec<Section>,
}

/// The abstract view of a function signature.
pub struct FuncTypeV {
    pub params: Seq<ValType>,
    pub results: Seq<ValType>,
}

/// The abstract view of a function body.
pub struct FuncV {
    pub locals: Seq<ValType>,
    pub body: Seq<Instr>,
}

/// The abstract view of a section.
pub enum SectionV {
    Type(Seq<FuncTypeV>),
    Function(Seq<TypeIdx>),
    Code(Seq<FuncV>),
}

/// The abstract view of a module.
pub struct ModuleV {
    pub version: u32,
    pub sections: Seq<SectionV>,
}

impl DeepView for Expr {
    type V = Seq<Instr>;

    open spec fn deep_view(&self) -> Seq<Instr> {
        self.0.deep_view()
    }
}

impl DeepView for FuncType {
    type V = FuncTypeV;

    open spec fn deep_view(&self) -> FuncTypeV {
        FuncTypeV { params: self.params.deep_view(), results: self.results.deep_view() }
    }
}

impl DeepView for Func {
    type V = FuncV;

    open spec fn deep_view(&self) -> FuncV {
        FuncV { locals: self.locals.deep_view(), body: self.body.deep_view() }
    }
}

impl DeepView for Section {
    type V = SectionV;

    open spec fn deep_view(&self) -> SectionV {
        match self {
            Section::Type(fs) => SectionV::Type(fs.deep_view()),
            Section::Function(is) => SectionV::Function(is.deep_view()),
            Section::Code(fs) => SectionV::Code(fs.deep_view()),
        }
    }
}

impl DeepView for Module {
    type V = ModuleV;

    open spec fn deep_view(&self) -> ModuleV {
        ModuleV { version: self.version, sections: self.sections.deep_view() }
    }
}

/* Expression bodies */

/// Exact model of decoding one instruction stream: instructions are read and
/// kept until one of them is a block terminator, which is kept as well.
pub open spec fn expr_sdec(s: Seq<u8>) -> SpecDec<Seq<Instr>>
    decreases s.len(),
{
    match <Instr as WasmBinary>::sdec(s) {
        SpecDec::Found(i, n) => {
            if instr_terminates(i) {
                SpecDec::Found(seq![i], n)
            } else if 1 <= n <= s.len() {
                dec_prepend(seq![i], n, expr_sdec(s.skip(n as int)))
            } else {
                SpecDec::Bad
            }
        },
        SpecDec::Eof => SpecDec::Eof,
        SpecDec::Bad => SpecDec::Bad,
    }
}

/// An instruction stream is well formed when it ends with its one and only
/// block terminator.
pub open spec fn expr_wf(v: Seq<Instr>) -> bool {
    v.len() >= 1 && instr_terminates(v.last()) && (forall|i: int|
        0 <= i < v.len() - 1 ==> !instr_terminates(#[trigger] v[i]))
}

impl WasmBinary for Expr {
    open spec fn wf(v: Seq<Instr>) -> bool {
        expr_wf(v)
    }

    open spec fn enc_ok(v: Seq<Instr>) -> bool {
        true
    }

    open spec fn wire(v: Seq<Instr>) -> Seq<u8> {
        elems_wire::<Instr>(v)
    }

    open spec fn sdec(s: Seq<u8>) -> SpecDec<Seq<Instr>> {
        expr_sdec(s)
    }

    proof fn lemma_sdec(s: Seq<u8>) {
        lemma_expr_sdec(s);
    }

    proof fn lemma_wf_enc_ok(v: Seq<Instr>) {
    }

    proof fn lemma_round_trip(v: Seq<Instr>, rest: Seq<u8>) {
        lemma_expr_round_trip(v, rest);
    }

    fn decode(bytes: &Vec<u8>, pos: usize) -> (r: Result<(Expr, usize), WasmError>) {
        let mut instrs: Vec<Instr> = Vec::new();
        let mut p: usize = pos;
        proof {
            lemma_prepend_empty(expr_sdec(bytes@.skip(pos as int)));
            assert(instrs.deep_view() =~= Seq::<Instr>::empty());
        }
        loop
            invariant
                pos <= p <= bytes.len(),
                instrs.deep_view().len() == p - pos <= bytes.len(),
                expr_sdec(bytes@.skip(pos as int)) == dec_prepend(
                    instrs.deep_view(),
                    (p - pos) as nat,
                    expr_sdec(bytes@.skip(p as int)),
                ),
                forall|i: int|
                    0 <= i < instrs.deep_view().len() ==> !instr_terminates(
                        #[trigger] instrs.deep_view()[i],
                    ),
            decreases bytes.len() - p,
        {
            let ghost pre = instrs.deep_view();
            match Instr::decode(bytes, p) {
                Ok((i, np)) => {
                    proof {
                        <Instr as WasmBinary>::lemma_sdec(bytes@.skip(p as int));
                    }
                    let stop = i.is_terminator();
                    instrs.push(i);
                    proof {
                        assert(instrs.deep_view() =~= pre + seq![i]);
                    }
                    if stop {
                        proof {
                            assert(pre + seq![i] =~= instrs.deep_view());
                        }
                        return Ok((Expr(instrs), np));
                    }
                    proof {
                        assert(bytes@.skip(p as int).skip((np - p) as int) =~= bytes@.skip(
                            np as int,
                        ));
                        lemma_prepend_assoc(
                            pre,
                            (p - pos) as nat,
                            seq![i],
                            (np - p) as nat,
                            expr_sdec(bytes@.skip(np as int)),
                        );
                        assert(forall|j: int|
                            0 <= j < pre.len() ==> (pre + seq![i])[j] == pre[j]);
                    }
                    p = np;
                },
                Err(e) => {
                    return Err(e);
                },
            }
        }
    }

    fn encode(&self, out: &mut Vec<u8>) -> (r: Result<usize, WasmError>) {
        let ghost vs = self.deep_view();
        let ghost base = out@;
        let before = out.len();
        let mut i: usize = 0;
        proof {
            assert(elems_wire::<Instr>(vs.take(0)) =~= Seq::<u8>::empty());
            assert(out@ =~= base + elems_wire::<Instr>(vs.take(0)));
        }
        while i < self.0.len()
            invariant
                i <= self.0@.len(),
                vs == self.deep_view(),
                vs.len() == self.0@.len(),
                base == old(out)@,
                before == base.len(),
                out@ == base + elems_wire::<Instr>(vs.take(i as int)),
            decreases self.0@.len() - i,
        {
            proof {
                assert(self.0@[i as int].deep_view() == vs[i as int]);
            }
            match self.0[i].encode(out) {
                Ok(_) => {
                    proof {
                        crate::combinators::lemma_elems_wire_push::<Instr>(vs, i as int);
                        assert(out@ =~= base + elems_wire::<Instr>(vs.take(i + 1)));
                    }
                    i = i + 1;
                },
                Err(_) => {
                    proof {
                        assert(false);
                    }
                },
            }
        }
        proof {
            assert(vs.take(vs.len() as int) =~= vs);
        }
        Ok(out.len() - before)
    }
}

/// Decoding an instruction stream consumes at least one byte, yields a well
/// formed stream, and never a stream whose encoding is longer than was read.
pub proof fn lemma_expr_sdec(s: Seq<u8>)
    ensures
        expr_sdec(s) matches SpecDec::Found(v, n) ==> 1 <= n <= s.len() && expr_wf(v)
            && elems_wire::<Instr>(v).len() <= n,
    decreases s.len(),
{
    <Instr as WasmBinary>::lemma_sdec(s);
    if let SpecDec::Found(i, n) = <Instr as WasmBinary>::sdec(s) {
        if instr_terminates(i) {
            if let SpecDec::Found(v, m) = expr_sdec(s) {
                assert(v == seq![i]);
                assert(v.last() == i);
                lemma_wire_single(i);
            }
        } else {
            lemma_expr_sdec(s.skip(n as int));
            if let SpecDec::Found(v1, m1) = expr_sdec(s.skip(n as int)) {
                let v = seq![i] + v1;
                assert(v.last() == v1.last());
                assert(forall|j: int| 1 <= j < v.len() ==> v[j] == v1[j - 1]);
                assert(v[0] == i);
                lemma_elems_wire_concat::<Instr>(seq![i], v1);
                lemma_wire_single(i);
            }
        }
    }
}

/// The element encoding of a single instruction is its own encoding.
proof fn lemma_wire_single(i: Instr)
    ensures
        elems_wire::<Instr>(seq![i]) == <Instr as WasmBinary>::wire(i),
{
    let single = seq![i];
    assert(single[0] == i);
    assert(single.skip(1) =~= Seq::<Instr>::empty());
    assert(elems_wire::<Instr>(single) == <Instr as WasmBinary>::wire(i) + elems_wire::<Instr>(
        single.skip(1),
    ));
    assert(<Instr as WasmBinary>::wire(i) + elems_wire::<Instr>(single.skip(1))
        =~= <Instr as WasmBinary>::wire(i));
}

/// Round trip for instruction streams.
pub proof fn lemma_expr_round_trip(v: Seq<Instr>, rest: Seq<u8>)
    requires
        expr_wf(v),
    ensures
        expr_sdec(elems_wire::<Instr>(v) + rest) == SpecDec::Found(v, elems_wire::<Instr>(v).len()),
    decreases v.len(),
{
    let head = v[0];
    let tail = v.skip(1);
    let s = elems_wire::<Instr>(v) + rest;
    lemma_wire_single(head);
    assert(s =~= <Instr as WasmBinary>::wire(head) + (elems_wire::<Instr>(tail) + rest));
    <Instr as WasmBinary>::lemma_round_trip(head, elems_wire::<Instr>(tail) + rest);
    assert(s.skip(1) =~= elems_wire::<Instr>(tail) + rest);
    if v.len() == 1 {
        assert(v.last() == head);
        assert(seq![head] =~= v);
        assert(elems_wire::<Instr>(v) =~= <Instr as WasmBinary>::wire(head));
    } else {
        assert(!instr_terminates(head));
        assert(tail.last() == v.last());
        assert(forall|j: int| 0 <= j < tail.len() - 1 ==> tail[j] == v[j + 1]);
        lemma_expr_round_trip(tail, rest);
        assert(seq![head] + tail =~= v);
        lemma_elems_wire_concat::<Instr>(seq![head], tail);
    }
}

/* Function types */

/// The fixed tag byte that opens a function type.
pub open spec fn func_type_tag() -> u8 {
    0x60
}

impl WasmBinary for FuncType {
    open spec fn wf(v: FuncTypeV) -> bool {
        <Vec<ValType> as WasmBinary>::wf(v.params) && <Vec<ValType> as WasmBinary>::wf(v.results)
    }

    open spec fn enc_ok(v: FuncTypeV) -> bool {
        <Vec<ValType> as WasmBinary>::enc_ok(v.params) && <Vec<ValType> as WasmBinary>::enc_ok(
            v.results,
        )
    }

    open spec fn wire(v: FuncTypeV) -> Seq<u8> {
        seq![func_type_tag()] + <Vec<ValType> as WasmBinary>::wire(v.params) + <Vec<
            ValType,
        > as WasmBinary>::wire(v.results)
    }

    open spec fn sdec(s: Seq<u8>) -> SpecDec<FuncTypeV> {
        if s.len() == 0 {
            SpecDec::Eof
        } else if s[0] != func_type_tag() {
            SpecDec::Bad
        } else {
            match <Vec<ValType> as WasmBinary>::sdec(s.skip(1)) {
                SpecDec::Found(ps, n1) => match <Vec<ValType> as WasmBinary>::sdec(
                    s.skip(1 + n1 as int),
                ) {
                    SpecDec::Found(rs, n2) => SpecDec::Found(
                        FuncTypeV { params: ps, results: rs },
                        1 + n1 + n2,
                    ),
                    SpecDec::Eof => SpecDec::Eof,
                    SpecDec::Bad => SpecDec::Bad,
                },
                SpecDec::Eof => SpecDec::Eof,
                SpecDec::Bad => SpecDec::Bad,
            }
        }
    }

    proof fn lemma_sdec(s: Seq<u8>) {
        if s.len() > 0 && s[0] == func_type_tag() {
            <Vec<ValType> as WasmBinary>::lemma_sdec(s.skip(1));
            if let SpecDec::Found(ps, n1) = <Vec<ValType> as WasmBinary>::sdec(s.skip(1)) {
                assert(s.skip(1).skip(n1 as int) =~= s.skip(1 + n1 as int));
                <Vec<ValType> as WasmBinary>::lemma_sdec(s.skip(1 + n1 as int));
            }
        }
    }

    proof fn lemma_wf_enc_ok(v: FuncTypeV) {
        <Vec<ValType> as WasmBinary>::lemma_wf_enc_ok(v.params);
        <Vec<ValType> as WasmBinary>::lemma_wf_enc_ok(v.results);
    }

    proof fn lemma_round_trip(v: FuncTypeV, rest: Seq<u8>) {
        let pw = <Vec<ValType> as WasmBinary>::wire(v.params);
        let rw = <Vec<ValType> as WasmBinary>::wire(v.results);
        let s = Self::wire(v) + rest;
        assert(s[0] == func_type_tag());
        assert(s.skip(1) =~= pw + (rw + rest));
        <Vec<ValType> as WasmBinary>::lemma_round_trip(v.params, rw + rest);
        assert(s.skip(1 + pw.len() as int) =~= rw + rest);
        <Vec<ValType> as WasmBinary>::lemma_round_trip(v.results, rest);
    }

    fn decode(bytes: &Vec<u8>, pos: usize) -> (r: Result<(FuncType, usize), WasmError>) {
        let ghost s = bytes@.skip(pos as int);
        if pos >= bytes.len() {
            return Err(WasmError::Eof);
        }
        if bytes[pos] != 0x60 {
            return Err(WasmError::Invalid("expected the function type tag".to_string()));
        }
        proof {
            assert(s.skip(1) =~= bytes@.skip(pos + 1));
        }
        let (params, p1) = match <Vec<ValType> as WasmBinary>::decode(bytes, pos + 1) {
            Ok(x) => x,
            Err(e) => {
                return Err(e);
            },
        };
        proof {
            <Vec<ValType> as WasmBinary>::lemma_sdec(s.skip(1));
            assert(s.skip(1).skip((p1 - pos - 1) as int) =~= bytes@.skip(p1 as int));
            assert(s.skip(1 + (p1 - pos - 1) as int) =~= bytes@.skip(p1 as int));
        }
        let (results, p2) = match <Vec<ValType> as WasmBinary>::decode(bytes, p1) {
            Ok(x) => x,
            Err(e) => {
                return Err(e);
            },
        };
        Ok((FuncType { params, results }, p2))
    }

    fn encode(&self, out: &mut Vec<u8>) -> (r: Result<usize, WasmError>) {
        let before = out.len();
        let ghost base = out@;
        out.push(0x60);
        let ghost mid0 = out@;
        proof {
            assert(mid0 =~= base + seq![func_type_tag()]);
        }
        match self.params.encode(out) {
            Ok(_) => {},
            Err(e) => {
                return Err(e);
            },
        }
        match self.results.encode(out) {
            Ok(_) => {},
            Err(e) => {
                return Err(e);
            },
        }
        proof {
            assert(out@ =~= base + Self::wire(self.deep_view()));
        }
        Ok(out.len() - before)
    }
}

/* Function bodies */

impl WasmBinary for Func {
    open spec fn wf(v: FuncV) -> bool {
        <Vec<ValType> as WasmBinary>::wf(v.locals) && expr_wf(v.body)
    }

    open spec fn enc_ok(v: FuncV) -> bool {
        <Vec<ValType> as WasmBinary>::enc_ok(v.locals)
    }

    open spec fn wire(v: FuncV) -> Seq<u8> {
        <Vec<ValType> as WasmBinary>::wire(v.locals) + elems_wire::<Instr>(v.body)
    }

    open spec fn sdec(s: Seq<u8>) -> SpecDec<FuncV> {
        match <Vec<ValType> as WasmBinary>::sdec(s) {
            SpecDec::Found(ls, n1) => match expr_sdec(s.skip(n1 as int)) {
                SpecDec::Found(body, n2) => SpecDec::Found(
                    FuncV { locals: ls, body },
                    n1 + n2,
                ),
                SpecDec::Eof => SpecDec::Eof,
                SpecDec::Bad => SpecDec::Bad,
            },
            SpecDec::Eof => SpecDec::Eof,
            SpecDec::Bad => SpecDec::Bad,
        }
    }

    proof fn lemma_sdec(s: Seq<u8>) {
        <Vec<ValType> as WasmBinary>::lemma_sdec(s);
        if let SpecDec::Found(ls, n1) = <Vec<ValType> as WasmBinary>::sdec(s) {
            lemma_expr_sdec(s.skip(n1 as int));
        }
    }

    proof fn lemma_wf_enc_ok(v: FuncV) {
        <Vec<ValType> as WasmBinary>::lemma_wf_enc_ok(v.locals);
    }

    proof fn lemma_round_trip(v: FuncV, rest: Seq<u8>) {
        let lw = <Vec<ValType> as WasmBinary>::wire(v.locals);
        let bw = elems_wire::<Instr>(v.body);
        let s = Self::wire(v) + rest;
        assert(s =~= lw + (bw + rest));
        <Vec<ValType> as WasmBinary>::lemma_round_trip(v.locals, bw + rest);
        assert(s.skip(lw.len() as int) =~= bw + rest);
        lemma_expr_round_trip(v.body, rest);
    }

    fn decode(bytes: &Vec<u8>, pos: usize) -> (r: Result<(Func, usize), WasmError>) {
        let ghost s = bytes@.skip(pos as int);
        let (locals, p1) = match <Vec<ValType> as WasmBinary>::decode(bytes, pos) {
            Ok(x) => x,
            Err(e) => {
                return Err(e);
            },
        };
        proof {
            <Vec<ValType> as WasmBinary>::lemma_sdec(s);
            assert(s.skip((p1 - pos) as int) =~= bytes@.skip(p1 as int));
        }
        let (body, p2) = match Expr::decode(bytes, p1) {
            Ok(x) => x,
            Err(e) => {
                return Err(e);
            },
        };
        Ok((Func { locals, body }, p2))
    }

    fn encode(&self, out: &mut Vec<u8>) -> (r: Result<usize, WasmError>) {
        let before = out.len();
        let ghost base = out@;
        match self.locals.encode(out) {
            Ok(_) => {},
            Err(e) => {
                return Err(e);
            },
        }
        match self.body.encode(out) {
            Ok(_) => {},
            Err(e) => {
                proof {
                    assert(false);
                }
                return Err(e);
            },
        }
        proof {
            assert(out@ =~= base + Self::wire(self.deep_view()));
        }
        Ok(out.len() - before)
    }
}


/* Sections */

/// The discriminant byte of each section variant.
pub open spec fn section_tag(v: SectionV) -> u8 {
    match v {
        SectionV::Type(_) => 1,
        SectionV::Function(_) => 3,
        SectionV::Code(_) => 10,
    }
}

impl WasmBinary for Section {
    open spec fn wf(v: SectionV) -> bool {
        match v {
            SectionV::Type(fs) => <WithSize<Vec<FuncType>> as WasmBinary>::wf(fs),
            SectionV::Function(is) => <WithSize<Vec<TypeIdx>> as WasmBinary>::wf(is),
            SectionV::Code(fs) => <WithSize<Vec<WithSize<Func>>> as WasmBinary>::wf(fs),
        }
    }

    open spec fn enc_ok(v: SectionV) -> bool {
        match v {
            SectionV::Type(fs) => <WithSize<Vec<FuncType>> as WasmBinary>::enc_ok(fs),
            SectionV::Function(is) => <WithSize<Vec<TypeIdx>> as WasmBinary>::enc_ok(is),
            SectionV::Code(fs) => <WithSize<Vec<WithSize<Func>>> as WasmBinary>::enc_ok(fs),
        }
    }

    open spec fn wire(v: SectionV) -> Seq<u8> {
        match v {
            SectionV::Type(fs) => seq![1u8] + <WithSize<Vec<FuncType>> as WasmBinary>::wire(fs),
            SectionV::Function(is) => seq![3u8] + <WithSize<Vec<TypeIdx>> as WasmBinary>::wire(is),
            SectionV::Code(fs) => seq![10u8] + <WithSize<Vec<WithSize<Func>>> as WasmBinary>::wire(
                fs,
            ),
        }
    }

    open spec fn sdec(s: Seq<u8>) -> SpecDec<SectionV> {
        if s.len() == 0 {
            SpecDec::Eof
        } else if s[0] == 1 {
            match <WithSize<Vec<FuncType>> as WasmBinary>::sdec(s.skip(1)) {
                SpecDec::Found(fs, n) => SpecDec::Found(SectionV::Type(fs), 1 + n),
                SpecDec::Eof => SpecDec::Eof,
                SpecDec::Bad => SpecDec::Bad,
            }
        } else if s[0] == 3 {
            match <WithSize<Vec<TypeIdx>> as WasmBinary>::sdec(s.skip(1)) {
                SpecDec::Found(is, n) => SpecDec::Found(SectionV::Function(is), 1 + n),
                SpecDec::Eof => SpecDec::Eof,
                SpecDec::Bad => SpecDec::Bad,
            }
        } else if s[0] == 10 {
            match <u32 as WasmBinary>::sdec(s.skip(1)) {
                SpecDec::Found(size, n0) => match code_sdec::<Func>(s.skip(1 + n0 as int)) {
                    SpecDec::Found(fs, m) => if m == size as nat {
                        SpecDec::Found(SectionV::Code(fs), 1 + n0 + m)
                    } else {
                        SpecDec::Bad
                    },
                    SpecDec::Eof => SpecDec::Eof,
                    SpecDec::Bad => SpecDec::Bad,
                },
                SpecDec::Eof => SpecDec::Eof,
                SpecDec::Bad => SpecDec::Bad,
            }
        } else {
            SpecDec::Bad
        }
    }

    proof fn lemma_sdec(s: Seq<u8>) {
        if s.len() > 0 {
            if s[0] == 1 {
                <WithSize<Vec<FuncType>> as WasmBinary>::lemma_sdec(s.skip(1));
            } else if s[0] == 3 {
                <WithSize<Vec<TypeIdx>> as WasmBinary>::lemma_sdec(s.skip(1));
            } else if s[0] == 10 {
                <u32 as WasmBinary>::lemma_sdec(s.skip(1));
                if let SpecDec::Found(size, n0) = <u32 as WasmBinary>::sdec(s.skip(1)) {
                    let s2 = s.skip(1 + n0 as int);
                    assert(s.skip(1).skip(n0 as int) =~= s2);
                    lemma_code_sdec::<Func>(s2);
                    if let SpecDec::Found(fs, m) = code_sdec::<Func>(s2) {
                        if m == size as nat {
                            lemma_uleb_wire_mono(
                                <Vec<WithSize<Func>> as WasmBinary>::wire(fs).len() as nat,
                                size as nat,
                            );
                        }
                    }
                }
            }
        }
    }

    proof fn lemma_wf_enc_ok(v: SectionV) {
        match v {
            SectionV::Type(fs) => <WithSize<Vec<FuncType>> as WasmBinary>::lemma_wf_enc_ok(fs),
            SectionV::Function(is) => <WithSize<Vec<TypeIdx>> as WasmBinary>::lemma_wf_enc_ok(is),
            SectionV::Code(fs) => <WithSize<Vec<WithSize<Func>>> as WasmBinary>::lemma_wf_enc_ok(
                fs,
            ),
        }
    }

    #[verifier::rlimit(60)]
    #[verifier::spinoff_prover]
    proof fn lemma_round_trip(v: SectionV, rest: Seq<u8>) {
        let s = Self::wire(v) + rest;
        match v {
            SectionV::Type(fs) => {
                assert(s[0] == 1);
                assert(s.skip(1) =~= <WithSize<Vec<FuncType>> as WasmBinary>::wire(fs) + rest);
                <WithSize<Vec<FuncType>> as WasmBinary>::lemma_round_trip(fs, rest);
            },
            SectionV::Function(is) => {
                assert(s[0] == 3);
                assert(s.skip(1) =~= <WithSize<Vec<TypeIdx>> as WasmBinary>::wire(is) + rest);
                <WithSize<Vec<TypeIdx>> as WasmBinary>::lemma_round_trip(is, rest);
            },
            SectionV::Code(fs) => {
                assert(s[0] == 10);
                let pw = <Vec<WithSize<Func>> as WasmBinary>::wire(fs);
                let plen = pw.len() as u32;
                assert(s.skip(1) =~= uleb_wire(plen as nat) + (pw + rest));
                <u32 as WasmBinary>::lemma_round_trip(plen, pw + rest);
                let n0 = uleb_wire(plen as nat).len();
                assert(s.skip(1).skip(n0 as int) =~= pw + rest);
                assert(s.skip(1 + n0 as int) =~= pw + rest);
                lemma_code_round_trip::<Func>(fs, rest);
            },
        }
    }

    fn decode(bytes: &Vec<u8>, pos: usize) -> (r: Result<(Section, usize), WasmError>) {
        let ghost s = bytes@.skip(pos as int);
        if pos >= bytes.len() {
            return Err(WasmError::Eof);
        }
        let tag = bytes[pos];
        proof {
            assert(s[0] == tag);
            assert(s.skip(1) =~= bytes@.skip(pos + 1));
        }
        if tag == 1 {
            match <WithSize<Vec<FuncType>> as WasmBinary>::decode(bytes, pos + 1) {
                Ok((ws, np)) => Ok((Section::Type(ws.content), np)),
                Err(e) => Err(e),
            }
        } else if tag == 3 {
            match <WithSize<Vec<TypeIdx>> as WasmBinary>::decode(bytes, pos + 1) {
                Ok((ws, np)) => Ok((Section::Function(ws.content), np)),
                Err(e) => Err(e),
            }
        } else if tag == 10 {
            let (size, p1) = match u32::decode(bytes, pos + 1) {
                Ok(x) => x,
                Err(e) => {
                    return Err(e);
                },
            };
            proof {
                <u32 as WasmBinary>::lemma_sdec(s.skip(1));
                assert(s.skip(1).skip((p1 - pos - 1) as int) =~= bytes@.skip(p1 as int));
                assert(s.skip(1 + (p1 - pos - 1) as int) =~= bytes@.skip(p1 as int));
            }
            match decode_code_vec::<Func>(bytes, p1) {
                Ok((fs, np)) => {
                    if np - p1 == size as usize {
                        Ok((Section::Code(fs), np))
                    } else {
                        Err(WasmError::Invalid(
                            "section size does not match its content".to_string(),
                        ))
                    }
                },
                Err(e) => Err(e),
            }
        } else {
            Err(WasmError::Invalid("unsupported section tag".to_string()))
        }
    }

    fn encode(&self, out: &mut Vec<u8>) -> (r: Result<usize, WasmError>) {
        let before = out.len();
        let ghost base = out@;
        match self {
            Section::Type(fs) => {
                out.push(1);
                proof {
                    assert(out@ =~= base + seq![1u8]);
                }
                match crate::combinators::encode_sized(fs, out) {
                    Ok(_) => {},
                    Err(e) => {
                        return Err(e);
                    },
                }
                proof {
                    assert(out@ =~= base + Self::wire(self.deep_view()));
                }
                Ok(out.len() - before)
            },
            Section::Function(is) => {
                out.push(3);
                proof {
                    assert(out@ =~= base + seq![3u8]);
                }
                match crate::combinators::encode_sized(is, out) {
                    Ok(_) => {},
                    Err(e) => {
                        return Err(e);
                    },
                }
                proof {
                    assert(out@ =~= base + Self::wire(self.deep_view()));
                }
                Ok(out.len() - before)
            },
            Section::Code(fs) => {
                out.push(10);
                proof {
                    assert(out@ =~= base + seq![10u8]);
                }
                let mut buf: Vec<u8> = Vec::new();
                match encode_code_vec::<Func>(fs, &mut buf) {
                    Ok(_) => {},
                    Err(e) => {
                        return Err(e);
                    },
                }
                proof {
                    assert(Seq::<u8>::empty() + <Vec<WithSize<Func>> as WasmBinary>::wire(
                        fs.deep_view(),
                    ) =~= <Vec<WithSize<Func>> as WasmBinary>::wire(fs.deep_view()));
                }
                match crate::leb::uleb_encode_checked(buf.len() as u64, out) {
                    Ok(_) => {},
                    Err(e) => {
                        return Err(e);
                    },
                }
                let ghost mid = out@;
                let mut j: usize = 0;
                while j < buf.len()
                    invariant
                        0 <= j <= buf@.len(),
                        out@ == mid + buf@.take(j as int),
                    decreases buf@.len() - j,
                {
                    out.push(buf[j]);
                    proof {
                        assert(out@ =~= mid + buf@.take(j + 1 as int));
                    }
                    j = j + 1;
                }
                proof {
                    assert(buf@.take(buf@.len() as int) =~= buf@);
                    assert(out@ =~= base + Self::wire(self.deep_view()));
                }
                Ok(out.len() - before)
            },
        }
    }
}

/* The module container */

/// The four magic bytes that open every module.
pub open spec fn magic_wire() -> Seq<u8> {
    seq![0u8, 0x61u8, 0x73u8, 0x6du8]
}

/// The four bytes of the only supported version, 1, in little-endian order.
pub open spec fn version_wire() -> Seq<u8> {
    seq![1u8, 0u8, 0u8, 0u8]
}

/// The little-endian 32-bit value of four bytes.
pub open spec fn le32(b0: u8, b1: u8, b2: u8, b3: u8) -> nat {
    b0 as nat + 0x100 * b1 as nat + 0x1_0000 * b2 as nat + 0x100_0000 * b3 as nat
}

/// Exact model of decoding the section stream: sections follow one another
/// until the input ends exactly at a section boundary, which is the regular
/// end of the stream. End of input strictly inside a section stays an error.
pub open spec fn sections_sdec(s: Seq<u8>) -> SpecDec<Seq<SectionV>>
    decreases s.len(),
{
    if s.len() == 0 {
        SpecDec::Found(Seq::empty(), 0)
    } else {
        match <Section as WasmBinary>::sdec(s) {
            SpecDec::Found(sec, n) => if 1 <= n <= s.len() {
                dec_prepend(seq![sec], n, sections_sdec(s.skip(n as int)))
            } else {
                SpecDec::Bad
            },
            SpecDec::Eof => SpecDec::Eof,
            SpecDec::Bad => SpecDec::Bad,
        }
    }
}

/// Modules that round-trip: version 1 and well-formed sections.
pub open spec fn module_wf(m: ModuleV) -> bool {
    m.version == 1 && (forall|i: int|
        0 <= i < m.sections.len() ==> <Section as WasmBinary>::wf(#[trigger] m.sections[i]))
}

/// Modules whose encoding succeeds: every count on the wire fits 32 bits.
pub open spec fn module_enc_ok(m: ModuleV) -> bool {
    forall|i: int|
        0 <= i < m.sections.len() ==> <Section as WasmBinary>::enc_ok(#[trigger] m.sections[i])
}

/// The canonical wire encoding of a module: magic, version 1, each section in
/// order.
pub open spec fn module_wire(m: ModuleV) -> Seq<u8> {
    magic_wire() + version_wire() + elems_wire::<Section>(m.sections)
}

/// Exact model of decoding a whole module.
pub open spec fn module_sdec(s: Seq<u8>) -> SpecDec<ModuleV> {
    if s.len() < 4 {
        SpecDec::Eof
    } else if s.subrange(0, 4) != magic_wire() {
        SpecDec::Bad
    } else if s.len() < 8 {
        SpecDec::Eof
    } else if le32(s[4], s[5], s[6], s[7]) != 1 {
        SpecDec::Bad
    } else {
        match sections_sdec(s.skip(8)) {
            SpecDec::Found(secs, n) => SpecDec::Found(
                ModuleV { version: 1, sections: secs },
                8 + n,
            ),
            SpecDec::Eof => SpecDec::Eof,
            SpecDec::Bad => SpecDec::Bad,
        }
    }
}

/// Decoded section streams consume the whole input and yield well-formed
/// sections.
pub proof fn lemma_sections_sdec(s: Seq<u8>)
    ensures
        sections_sdec(s) matches SpecDec::Found(secs, n) ==> n == s.len() && (forall|i: int|
            0 <= i < secs.len() ==> <Section as WasmBinary>::wf(#[trigger] secs[i]))
            && elems_wire::<Section>(secs).len() <= n,
    decreases s.len(),
{
    if s.len() > 0 {
        <Section as WasmBinary>::lemma_sdec(s);
        if let SpecDec::Found(sec, n) = <Section as WasmBinary>::sdec(s) {
            lemma_sections_sdec(s.skip(n as int));
            if let SpecDec::Found(secs1, m1) = sections_sdec(s.skip(n as int)) {
                let secs = seq![sec] + secs1;
                assert(secs[0] == sec);
                assert(forall|j: int| 1 <= j < secs.len() ==> secs[j] == secs1[j - 1]);
                lemma_elems_wire_concat::<Section>(seq![sec], secs1);
                assert(seq![sec].skip(1) =~= Seq::<SectionV>::empty());
                assert(elems_wire::<Section>(seq![sec]) == <Section as WasmBinary>::wire(sec)
                    + elems_wire::<Section>(seq![sec].skip(1)));
                assert(<Section as WasmBinary>::wire(sec) + elems_wire::<Section>(
                    seq![sec].skip(1),
                ) =~= <Section as WasmBinary>::wire(sec));
            }
        }
    }
}

/// Round trip of the section stream: the concatenated encodings of well-formed
/// sections, with nothing after them, decode back to those sections.
pub proof fn lemma_sections_round_trip(secs: Seq<SectionV>)
    requires
        forall|i: int| 0 <= i < secs.len() ==> <Section as WasmBinary>::wf(#[trigger] secs[i]),
    ensures
        sections_sdec(elems_wire::<Section>(secs)) == SpecDec::Found(
            secs,
            elems_wire::<Section>(secs).len(),
        ),
    decreases secs.len(),
{
    if secs.len() == 0 {
        assert(elems_wire::<Section>(secs) =~= Seq::<u8>::empty());
        assert(secs =~= Seq::<SectionV>::empty());
    } else {
        let head = secs[0];
        let tail = secs.skip(1);
        let tw = elems_wire::<Section>(tail);
        let s = elems_wire::<Section>(secs);
        assert(s =~= <Section as WasmBinary>::wire(head) + tw);
        <Section as WasmBinary>::lemma_round_trip(head, tw);
        let n = <Section as WasmBinary>::wire(head).len();
        assert(n >= 1);
        assert(s.skip(n as int) =~= tw);
        lemma_sections_round_trip(tail);
        assert(seq![head] + tail =~= secs);
    }
}

/// Every successfully decoded module is well formed; a module decode consumes
/// the entire input.
pub proof fn lemma_module_sdec(s: Seq<u8>)
    ensures
        module_sdec(s) matches SpecDec::Found(m, n) ==> n == s.len() && module_wf(m)
            && module_enc_ok(m),
{
    if s.len() >= 8 && s.subrange(0, 4) == magic_wire() && le32(s[4], s[5], s[6], s[7]) == 1 {
        lemma_sections_sdec(s.skip(8));
        if let SpecDec::Found(secs, n) = sections_sdec(s.skip(8)) {
            assert forall|i: int| 0 <= i < secs.len() implies <Section as WasmBinary>::enc_ok(
                #[trigger] secs[i],
            ) by {
                <Section as WasmBinary>::lemma_wf_enc_ok(secs[i]);
            }
        }
    }
}

/// Round trip: decoding the canonical encoding of a well-formed module yields
/// that module back, consuming the whole encoding.
pub proof fn lemma_module_round_trip(m: ModuleV)
    requires
        module_wf(m),
    ensures
        module_sdec(module_wire(m)) == SpecDec::Found(m, module_wire(m).len()),
{
    let s = module_wire(m);
    assert(s.subrange(0, 4) =~= magic_wire());
    assert(s[4] == 1u8 && s[5] == 0u8 && s[6] == 0u8 && s[7] == 0u8);
    assert(s.skip(8) =~= elems_wire::<Section>(m.sections));
    lemma_sections_round_trip(m.sections);
    assert(ModuleV { version: 1, sections: m.sections } == m);
}

/// Round trip from any successful decode: whatever bytes a module was decoded
/// from, encoding it succeeds and decoding that encoding gives the very same
/// module.
pub proof fn lemma_decode_encode_decode(s: Seq<u8>)
    ensures
        module_sdec(s) matches SpecDec::Found(m, n) ==> module_enc_ok(m) && module_sdec(
            module_wire(m),
        ) == SpecDec::Found(m, module_wire(m).len()),
{
    lemma_module_sdec(s);
    if let SpecDec::Found(m, n) = module_sdec(s) {
        lemma_module_round_trip(m);
    }
}

impl Module {
    /// Decode a whole module: the magic signature, the version, then sections
    /// until the input ends at a section boundary. End of input strictly
    /// inside a section, a wrong magic, a version other than 1, and every
    /// other format violation abort the decode.
    #[verifier::rlimit(100)]
    #[verifier::spinoff_prover]
    pub fn decode(bytes: &Vec<u8>) -> (r: Result<Module, WasmError>)
        ensures
            match module_sdec(bytes@) {
                SpecDec::Found(m, n) => r matches Ok(rm) && rm.deep_view() == m && n
                    == bytes@.len(),
                SpecDec::Eof => r matches Err(e) && e is Eof,
                SpecDec::Bad => r matches Err(e) && e is Invalid,
            },
    {
        proof {
            lemma_module_sdec(bytes@);
        }
        if bytes.len() < 4 {
            return Err(WasmError::Eof);
        }
        if !(bytes[0] == 0 && bytes[1] == 0x61 && bytes[2] == 0x73 && bytes[3] == 0x6d) {
            proof {
                assert(bytes@.subrange(0, 4) != magic_wire()) by {
                    if bytes@.subrange(0, 4) == magic_wire() {
                        assert(bytes@.subrange(0, 4)[0] == bytes@[0]);
                        assert(bytes@.subrange(0, 4)[1] == bytes@[1]);
                        assert(bytes@.subrange(0, 4)[2] == bytes@[2]);
                        assert(bytes@.subrange(0, 4)[3] == bytes@[3]);
                    }
                }
            }
            return Err(WasmError::Invalid("magic bytes do not match".to_string()));
        }
        proof {
            assert(bytes@.subrange(0, 4) =~= magic_wire());
        }
        if bytes.len() < 8 {
            return Err(WasmError::Eof);
        }
        if !(bytes[4] == 1 && bytes[5] == 0 && bytes[6] == 0 && bytes[7] == 0) {
            proof {
                assert(le32(bytes@[4], bytes@[5], bytes@[6], bytes@[7]) != 1);
            }
            return Err(WasmError::Invalid("unsupported version, expected 1".to_string()));
        }
        let mut sections: Vec<Section> = Vec::new();
        let mut p: usize = 8;
        proof {
            lemma_prepend_empty(sections_sdec(bytes@.skip(8)));
            assert(sections.deep_view() =~= Seq::<SectionV>::empty());
        }
        while p < bytes.len()
            invariant
                8 <= p <= bytes.len(),
                bytes@.len() >= 8,
                bytes@.subrange(0, 4) == magic_wire(),
                le32(bytes@[4], bytes@[5], bytes@[6], bytes@[7]) == 1,
                sections.deep_view().len() <= p - 8,
                sections_sdec(bytes@.skip(8)) == dec_prepend(
                    sections.deep_view(),
                    (p - 8) as nat,
                    sections_sdec(bytes@.skip(p as int)),
                ),
            decreases bytes.len() - p,
        {
            let ghost pre = sections.deep_view();
            match <Section as WasmBinary>::decode(bytes, p) {
                Ok((sec, np)) => {
                    proof {
                        <Section as WasmBinary>::lemma_sdec(bytes@.skip(p as int));
                    }
                    sections.push(sec);
                    proof {
                        assert(sections.deep_view() =~= pre + seq![sec.deep_view()]);
                        assert(bytes@.skip(p as int).skip((np - p) as int) =~= bytes@.skip(
                            np as int,
                        ));
                        lemma_prepend_assoc(
                            pre,
                            (p - 8) as nat,
                            seq![sec.deep_view()],
                            (np - p) as nat,
                            sections_sdec(bytes@.skip(np as int)),
                        );
                    }
                    p = np;
                },
                Err(e) => {
                    return Err(e);
                },
            }
        }
        proof {
            assert(bytes@.skip(p as int).len() == 0);
            assert(sections_sdec(bytes@.skip(p as int)) == SpecDec::Found(
                Seq::<SectionV>::empty(),
                0nat,
            ));
            assert(sections.deep_view() + Seq::<SectionV>::empty() =~= sections.deep_view());
        }
        Ok(Module { version: 1, sections })
    }

    /// Encode the module: magic, version 1 as four little-endian bytes, then
    /// each section's encoding in order. The result is the number of bytes
    /// written.
    pub fn encode(&self, out: &mut Vec<u8>) -> (r: Result<usize, WasmError>)
        ensures
            r matches Ok(n) ==> module_enc_ok(self.deep_view()) && final(out)@ == old(out)@
                + module_wire(self.deep_view()) && n == module_wire(self.deep_view()).len(),
            r is Err ==> !module_enc_ok(self.deep_view()),
            r matches Err(e) ==> e is Invalid,
            old(out)@.is_prefix_of(final(out)@),
    {
        let ghost vs = self.deep_view().sections;
        let ghost base = out@;
        let before = out.len();
        out.push(0);
        out.push(0x61);
        out.push(0x73);
        out.push(0x6d);
        out.push(1);
        out.push(0);
        out.push(0);
        out.push(0);
        let mut i: usize = 0;
        proof {
            assert(elems_wire::<Section>(vs.take(0)) =~= Seq::<u8>::empty());
            assert(out@ =~= base + magic_wire() + version_wire() + elems_wire::<Section>(
                vs.take(0),
            ));
        }
        while i < self.sections.len()
            invariant
                i <= self.sections@.len(),
                vs == self.deep_view().sections,
                vs.len() == self.sections@.len(),
                base == old(out)@,
                before == base.len(),
                out@ == base + magic_wire() + version_wire() + elems_wire::<Section>(
                    vs.take(i as int),
                ),
                forall|j: int| 0 <= j < i ==> <Section as WasmBinary>::enc_ok(#[trigger] vs[j]),
            decreases self.sections@.len() - i,
        {
            proof {
                assert(self.sections@[i as int].deep_view() == vs[i as int]);
            }
            match self.sections[i].encode(out) {
                Ok(_) => {
                    proof {
                        crate::combinators::lemma_elems_wire_push::<Section>(vs, i as int);
                        assert(out@ =~= base + magic_wire() + version_wire() + elems_wire::<
                            Section,
                        >(vs.take(i + 1)));
                    }
                    i = i + 1;
                },
                Err(e) => {
                    proof {
                        assert(!<Section as WasmBinary>::enc_ok(vs[i as int]));
                        assert(base.is_prefix_of(out@));
                    }
                    return Err(e);
                },
            }
        }
        proof {
            assert(vs.take(vs.len() as int) =~= vs);
            assert(out@ =~= base + (magic_wire() + version_wire() + elems_wire::<Section>(vs)));
        }
        Ok(out.len() - before)
    }
}

} // verus!
