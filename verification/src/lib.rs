//! A verified codec for the WebAssembly binary module format.
//!
//! The library turns a raw byte stream into a structured in-memory [`Module`]
//! and back. Every decoder is proved to agree with an exact specification-level
//! model of the wire format, and every encoder is proved to emit exactly the
//! canonical wire bytes of its value, so that `decode(encode(m)) == m` holds as
//! a theorem for every well-formed module.

pub mod codec;
pub mod combinators;
pub mod error;
pub mod types;
pub mod leb;
pub mod parallel;
pub mod structural;

pub use codec::WasmBinary;
pub use combinators::WithSize;
pub use error::WasmError;
pub use structural::Expr;
pub use structural::Func;
pub use structural::FuncType;
pub use structural::Module;
pub use structural::Section;
pub use types::BlockType;
pub use types::Instr;
pub use types::TypeIdx;
pub use types::ValType;
