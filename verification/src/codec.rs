//! The generic codec contract: every type that lives on the wire implements
//! [`WasmBinary`], which ties its executable decoder and encoder to an exact
//! specification-level model of the byte format.

use vstd::prelude::*;

use crate::error::WasmError;

verus! {

/// The outcome of decoding a value from the front of a byte sequence, at the
/// specification level.
///
/// `Found(v, n)` means the first `n` bytes decode to the value `v`; `Eof`
/// means the input ended before the value was complete; `Bad` means the bytes
/// violate the format.
pub enum SpecDec<V> {
    Found(V, nat),
    Eof,
    Bad,
}

/// How an executable decode result must relate to the specification-level
/// outcome `d` for a decode that started at position `pos`.
pub open spec fn dec_matches<T: DeepView>(
    d: SpecDec<T::V>,
    r: Result<(T, usize), WasmError>,
    pos: int,
) -> bool {
    match d {
        SpecDec::Found(v, n) => r matches Ok((rv, rn)) && rv.deep_view() == v && rn == pos + n,
        SpecDec::Eof => r matches Err(e) && e is Eof,
        SpecDec::Bad => r matches Err(e) && e is Invalid,
    }
}

/// The contract every wire type implements.
///
/// `wire(v)` is the canonical byte encoding of the abstract value `v`;
/// `sdec(s)` says exactly what decoding the front of `s` yields; `wf(v)` are
/// the values that decoding can produce (and that therefore round-trip);
/// `enc_ok(v)` are the values whose encoding succeeds (every count on the wire
/// fits in 32 bits).
pub trait WasmBinary: Sized + DeepView {
    /// Values the decoder can produce; exactly these round-trip.
    spec fn wf(v: Self::V) -> bool;

    /// Values whose encoding succeeds.
    spec fn enc_ok(v: Self::V) -> bool;

    /// The canonical wire encoding of `v`.
    spec fn wire(v: Self::V) -> Seq<u8>;

    /// The exact model of decoding the front of `s`.
    spec fn sdec(s: Seq<u8>) -> SpecDec<Self::V>;

    /// Decoding consumes at least one byte and no more than the input, yields
    /// well-formed values, and never a value whose canonical encoding is
    /// longer than what was read.
    proof fn lemma_sdec(s: Seq<u8>)
        ensures
            Self::sdec(s) matches SpecDec::Found(v, n) ==> 1 <= n <= s.len() && Self::wf(v)
                && Self::wire(v).len() <= n,
    ;

    /// Well-formed values encode successfully.
    proof fn lemma_wf_enc_ok(v: Self::V)
        requires
            Self::wf(v),
        ensures
            Self::enc_ok(v),
    ;

    /// Round trip: decoding the canonical encoding of a well-formed value,
    /// followed by any other bytes, yields that value back and consumes
    /// exactly the encoding.
    proof fn lemma_round_trip(v: Self::V, rest: Seq<u8>)
        requires
            Self::wf(v),
        ensures
            Self::sdec(Self::wire(v) + rest) == SpecDec::Found(v, Self::wire(v).len()),
    ;

    /// Decode one value from `bytes` starting at `pos`; on success the new
    /// position points just past the bytes the value occupied.
    fn decode(bytes: &Vec<u8>, pos: usize) -> (r: Result<(Self, usize), WasmError>)
        requires
            pos <= bytes.len(),
        ensures
            dec_matches::<Self>(Self::sdec(bytes@.skip(pos as int)), r, pos as int),
    ;

    /// Append the canonical encoding of `self` to `out`, returning the number
    /// of bytes written. Fails exactly when a count on the wire would exceed
    /// the 32-bit cap, always with an invalid-data error; on failure `out`
    /// may hold a partial encoding.
    fn encode(&self, out: &mut Vec<u8>) -> (r: Result<usize, WasmError>)
        ensures
            r matches Ok(n) ==> Self::enc_ok(self.deep_view()) && final(out)@ == old(out)@
                + Self::wire(self.deep_view()) && n == Self::wire(self.deep_view()).len(),
            r is Err ==> !Self::enc_ok(self.deep_view()),
            r matches Err(e) ==> e is Invalid,
            old(out)@.is_prefix_of(final(out)@),
    ;
}

/// Decode a complete value from the front of `buf`, ignoring any bytes that
/// follow it (the caller is expected to have framed `buf` itself).
pub fn decode_all<T: WasmBinary>(buf: &Vec<u8>) -> (r: Result<T, WasmError>)
    ensures
        match T::sdec(buf@) {
            SpecDec::Found(v, n) => r matches Ok(rv) && rv.deep_view() == v,
            SpecDec::Eof => r matches Err(e) && e is Eof,
            SpecDec::Bad => r matches Err(e) && e is Invalid,
        },
{
    match T::decode(buf, 0) {
        Ok((v, _)) => {
            proof {
                assert(buf@.skip(0) =~= buf@);
            }
            Ok(v)
        },
        Err(e) => {
            proof {
                assert(buf@.skip(0) =~= buf@);
            }
            Err(e)
        },
    }
}

/// Encode a value into a fresh private buffer.
pub fn encode_to_buf<T: WasmBinary>(v: &T) -> (r: Result<Vec<u8>, WasmError>)
    ensures
        r matches Ok(buf) ==> T::enc_ok(v.deep_view()) && buf@ == T::wire(v.deep_view()),
        r is Err ==> !T::enc_ok(v.deep_view()),
        r matches Err(e) ==> e is Invalid,
{
    let mut buf: Vec<u8> = Vec::new();
    match v.encode(&mut buf) {
        Ok(_) => Ok(buf),
        Err(e) => Err(e),
    }
}

} // verus!
