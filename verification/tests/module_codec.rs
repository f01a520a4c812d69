//! Tests of the structural codecs: block types, function types, expressions,
//! sections, whole modules, and the parallel code-section codec.

use wasm_codec::{BlockType, Expr, Func, FuncType, Instr, Module, Section, TypeIdx, ValType};
use wasm_codec::WasmBinary;
use wasm_codec::WasmError;

#[test]
fn block_type_sentinel_round_trips() {
    let bytes = vec![0x40u8];
    let (bt, n) = BlockType::decode(&bytes, 0).unwrap();
    assert_eq!(bt, BlockType(None));
    assert_eq!(n, 1);
    let mut out: Vec<u8> = Vec::new();
    bt.encode(&mut out).unwrap();
    assert_eq!(out, vec![0x40u8]);
}

#[test]
fn block_type_value_type_round_trips() {
    let bytes = vec![0x7fu8];
    let (bt, _) = BlockType::decode(&bytes, 0).unwrap();
    assert_eq!(bt, BlockType(Some(ValType::I32)));
    let mut out: Vec<u8> = Vec::new();
    bt.encode(&mut out).unwrap();
    assert_eq!(out, vec![0x7fu8]);
}

#[test]
fn block_type_rejects_unknown_byte() {
    let bytes = vec![0x41u8];
    assert!(matches!(BlockType::decode(&bytes, 0), Err(WasmError::Invalid(_))));
}

#[test]
fn empty_module_round_trips() {
    let bytes = vec![0x00u8, 0x61, 0x73, 0x6d, 0x01, 0x00, 0x00, 0x00];
    let m = Module::decode(&bytes).unwrap();
    assert_eq!(m.version, 1);
    assert!(m.sections.is_empty());
    let mut out: Vec<u8> = Vec::new();
    let n = m.encode(&mut out).unwrap();
    assert_eq!(out, bytes);
    assert_eq!(n, 8);
}

#[test]
fn wrong_magic_is_invalid_data() {
    let bytes = vec![0x00u8, 0x61, 0x73, 0x6e, 0x01, 0x00, 0x00, 0x00];
    assert!(matches!(Module::decode(&bytes), Err(WasmError::Invalid(_))));
}

#[test]
fn wrong_version_is_invalid_data() {
    let bytes = vec![0x00u8, 0x61, 0x73, 0x6d, 0x02, 0x00, 0x00, 0x00];
    assert!(matches!(Module::decode(&bytes), Err(WasmError::Invalid(_))));
}

#[test]
fn truncated_header_is_eof() {
    let bytes = vec![0x00u8, 0x61, 0x73];
    assert!(matches!(Module::decode(&bytes), Err(WasmError::Eof)));
    let bytes = vec![0x00u8, 0x61, 0x73, 0x6d, 0x01, 0x00];
    assert!(matches!(Module::decode(&bytes), Err(WasmError::Eof)));
}

#[test]
fn truncation_inside_a_section_fails() {
    // Type section declaring two bytes of content but holding a count of one
    // function type and nothing more.
    let bytes = vec![0x00u8, 0x61, 0x73, 0x6d, 0x01, 0x00, 0x00, 0x00, 0x01, 0x02, 0x01];
    assert!(Module::decode(&bytes).is_err());
}

#[test]
fn truncation_after_the_last_section_succeeds() {
    // A complete, empty type section; the input ends exactly at the boundary.
    let bytes = vec![0x00u8, 0x61, 0x73, 0x6d, 0x01, 0x00, 0x00, 0x00, 0x01, 0x01, 0x00];
    let m = Module::decode(&bytes).unwrap();
    assert_eq!(m.sections.len(), 1);
    assert_eq!(m.sections[0], Section::Type(vec![]));
}

#[test]
fn unsupported_section_tag_is_invalid_data() {
    let bytes = vec![0x00u8, 0x61, 0x73, 0x6d, 0x01, 0x00, 0x00, 0x00, 0x05, 0x01, 0x00];
    assert!(matches!(Module::decode(&bytes), Err(WasmError::Invalid(_))));
}

#[test]
fn func_type_round_trips() {
    let bytes = vec![0x60u8, 0x01, 0x7f, 0x00];
    let (ft, n) = FuncType::decode(&bytes, 0).unwrap();
    assert_eq!(ft, FuncType { params: vec![ValType::I32], results: vec![] });
    assert_eq!(n, 4);
    let mut out: Vec<u8> = Vec::new();
    ft.encode(&mut out).unwrap();
    assert_eq!(out, bytes);
}

#[test]
fn func_type_rejects_wrong_tag() {
    let bytes = vec![0x61u8, 0x00, 0x00];
    assert!(matches!(FuncType::decode(&bytes, 0), Err(WasmError::Invalid(_))));
}

#[test]
fn expr_round_trips() {
    let bytes = vec![0x01u8, 0x0b];
    let (e, n) = Expr::decode(&bytes, 0).unwrap();
    assert_eq!(e, Expr(vec![Instr::Nop, Instr::End]));
    assert_eq!(n, 2);
    let mut out: Vec<u8> = Vec::new();
    e.encode(&mut out).unwrap();
    assert_eq!(out, bytes);
}

#[test]
fn expr_stops_at_else_inclusive() {
    let bytes = vec![0x00u8, 0x05, 0x0b];
    let (e, n) = Expr::decode(&bytes, 0).unwrap();
    assert_eq!(e, Expr(vec![Instr::Unreachable, Instr::Else]));
    assert_eq!(n, 2);
}

#[test]
fn expr_rejects_unknown_instruction_tag() {
    let bytes = vec![0x42u8, 0x0b];
    assert!(matches!(Expr::decode(&bytes, 0), Err(WasmError::Invalid(_))));
}

fn nop_func(nops: usize) -> Func {
    let mut instrs = vec![Instr::Nop; nops];
    instrs.push(Instr::End);
    Func { locals: vec![], body: Expr(instrs) }
}

#[test]
fn code_section_round_trips_hand_built_bytes() {
    // Code section: one function body of two bytes: no locals, then End.
    let bytes = vec![
        0x00u8, 0x61, 0x73, 0x6d, 0x01, 0x00, 0x00, 0x00, 0x0a, 0x04, 0x01, 0x02, 0x00, 0x0b,
    ];
    let m = Module::decode(&bytes).unwrap();
    assert_eq!(m.sections, vec![Section::Code(vec![nop_func(0)])]);
    let mut out: Vec<u8> = Vec::new();
    m.encode(&mut out).unwrap();
    assert_eq!(out, bytes);
}

#[test]
fn code_section_rejects_short_frame() {
    // The frame declares one byte, but the body needs two: the End is outside
    // the frame, so the frame's content hits end-of-input.
    let bytes = vec![
        0x00u8, 0x61, 0x73, 0x6d, 0x01, 0x00, 0x00, 0x00, 0x0a, 0x04, 0x01, 0x01, 0x00, 0x0b,
    ];
    assert!(Module::decode(&bytes).is_err());
}

#[test]
fn code_section_round_trips_for_many_sizes() {
    for count in [0usize, 1, 2, 7, 64, 300] {
        let mut funcs: Vec<Func> = Vec::new();
        for i in 0..count {
            funcs.push(nop_func(i % 5));
        }
        let m = Module { version: 1, sections: vec![Section::Code(funcs)] };
        let mut out: Vec<u8> = Vec::new();
        m.encode(&mut out).unwrap();
        let back = Module::decode(&out).unwrap();
        assert_eq!(back, m);
        let mut again: Vec<u8> = Vec::new();
        back.encode(&mut again).unwrap();
        assert_eq!(again, out);
    }
}

#[test]
fn full_module_round_trips() {
    let m = Module {
        version: 1,
        sections: vec![
            Section::Type(vec![
                FuncType { params: vec![ValType::I32, ValType::I64], results: vec![ValType::F64] },
                FuncType { params: vec![], results: vec![] },
            ]),
            Section::Function(vec![TypeIdx(0), TypeIdx(1)]),
            Section::Code(vec![
                Func { locals: vec![ValType::I32], body: Expr(vec![Instr::Drop, Instr::End]) },
                Func { locals: vec![], body: Expr(vec![Instr::Select, Instr::Nop, Instr::End]) },
            ]),
        ],
    };
    let mut out: Vec<u8> = Vec::new();
    m.encode(&mut out).unwrap();
    let back = Module::decode(&out).unwrap();
    assert_eq!(back, m);
}

#[test]
fn value_type_tags_are_fixed() {
    let pairs = [
        (ValType::I32, 0x7fu8),
        (ValType::I64, 0x7e),
        (ValType::F32, 0x7d),
        (ValType::F64, 0x7c),
    ];
    for (vt, tag) in pairs {
        let mut out: Vec<u8> = Vec::new();
        vt.encode(&mut out).unwrap();
        assert_eq!(out, vec![tag]);
        let (back, _) = ValType::decode(&out, 0).unwrap();
        assert_eq!(back, vt);
    }
}

#[test]
fn error_description_mentions_what_was_expected() {
    let bytes = vec![0x00u8, 0x61, 0x73, 0x6e, 0x01, 0x00, 0x00, 0x00];
    match Module::decode(&bytes) {
        Err(e) => assert!(e.describe().contains("magic")),
        Ok(_) => panic!("expected a failure"),
    }
}

#[test]
fn error_description_is_the_recorded_reason() {
    let e = WasmError::Invalid("expected the function type tag".to_string());
    assert_eq!(e.describe(), "expected the function type tag".to_string());
    assert_eq!(WasmError::Eof.describe(), "unexpected end of input".to_string());
}
