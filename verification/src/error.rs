//! Error values reported by the codec.

use vstd::prelude::*;

verus! {

/// An error produced while decoding or encoding a WASM binary.
///
/// `Eof` stands for running out of input before a value was complete; it is
/// kept apart from `Invalid` because the module decoder treats end-of-input at
/// a section boundary as the regular end of the section stream, while any
/// format violation aborts the whole operation.
#[derive(Debug)]
pub enum WasmError {
    /// The input ended before the value being decoded was complete.
    Eof,
    /// The bytes violate the format; the string says what was expected.
    Invalid(String),
}

impl WasmError {
    /// A human-readable description of the error: the fixed end-of-input
    /// message, or the exact reason a format violation was recorded with.
    pub fn describe(&self) -> (r: String)
        ensures
            self is Eof ==> r@ == "unexpected end of input"@,
            self matches WasmError::Invalid(reason) ==> r@ == reason@,
    {
        match self {
            WasmError::Eof => "unexpected end of input".to_string(),
            WasmError::Invalid(reason) => reason.clone(),
        }
    }
}

} // verus!
