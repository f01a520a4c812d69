//! The generic combinators built on the primitive codec: length-prefixed
//! sequences, size-prefixed blocks, and length-prefixed UTF-8 text.

use vstd::prelude::*;

use crate::codec::SpecDec;
use crate::codec::WasmBinary;
use crate::codec::encode_to_buf;
use crate::error::WasmError;
use crate::leb::lemma_uleb_wire_mono;
use crate::leb::uleb_encode_checked;
use crate::leb::uleb_wire;

verus! {

/// Prefix a specification-level decode outcome for a sequence with elements
/// already taken off the stream (`pre`) and bytes already consumed (`extra`).
pub open spec fn dec_prepend<V>(pre: Seq<V>, extra: nat, d: SpecDec<Seq<V>>) -> SpecDec<Seq<V>> {
    match d {
        SpecDec::Found(vs, m) => SpecDec::Found(pre + vs, extra + m),
        SpecDec::Eof => SpecDec::Eof,
        SpecDec::Bad => SpecDec::Bad,
    }
}

/// Prefixing with nothing changes nothing.
pub proof fn lemma_prepend_empty<V>(d: SpecDec<Seq<V>>)
    ensures
        dec_prepend(Seq::<V>::empty(), 0, d) == d,
{
    match d {
        SpecDec::Found(vs, m) => {
            assert(Seq::<V>::empty() + vs =~= vs);
        },
        _ => {},
    }
}

/// Prefixing twice is prefixing with the concatenation.
pub proof fn lemma_prepend_assoc<V>(a: Seq<V>, e1: nat, b: Seq<V>, e2: nat, d: SpecDec<Seq<V>>)
    ensures
        dec_prepend(a, e1, dec_prepend(b, e2, d)) == dec_prepend(a + b, e1 + e2, d),
{
    match d {
        SpecDec::Found(vs, m) => {
            assert(a + (b + vs) =~= (a + b) + vs);
        },
        _ => {},
    }
}

/// Exact model of decoding `k` consecutive `T` values from the front of `s`.
pub open spec fn elems_sdec<T: WasmBinary>(s: Seq<u8>, k: nat) -> SpecDec<Seq<T::V>>
    decreases k,
{
    if k == 0 {
        SpecDec::Found(Seq::empty(), 0)
    } else {
        match T::sdec(s) {
            SpecDec::Found(v, n) => dec_prepend(
                seq![v],
                n,
                elems_sdec::<T>(s.skip(n as int), (k - 1) as nat),
            ),
            SpecDec::Eof => SpecDec::Eof,
            SpecDec::Bad => SpecDec::Bad,
        }
    }
}

/// The concatenated canonical encodings of the elements of `vs`.
pub open spec fn elems_wire<T: WasmBinary>(vs: Seq<T::V>) -> Seq<u8>
    decreases vs.len(),
{
    if vs.len() == 0 {
        Seq::empty()
    } else {
        T::wire(vs[0]) + elems_wire::<T>(vs.skip(1))
    }
}

/// Element encodings concatenate.
pub proof fn lemma_elems_wire_concat<T: WasmBinary>(a: Seq<T::V>, b: Seq<T::V>)
    ensures
        elems_wire::<T>(a + b) == elems_wire::<T>(a) + elems_wire::<T>(b),
    decreases a.len(),
{
    if a.len() == 0 {
        assert(a + b =~= b);
        assert(elems_wire::<T>(a) + elems_wire::<T>(b) =~= elems_wire::<T>(b));
    } else {
        assert((a + b)[0] == a[0]);
        assert((a + b).skip(1) =~= a.skip(1) + b);
        lemma_elems_wire_concat::<T>(a.skip(1), b);
        assert(T::wire(a[0]) + (elems_wire::<T>(a.skip(1)) + elems_wire::<T>(b)) =~= (T::wire(a[0])
            + elems_wire::<T>(a.skip(1))) + elems_wire::<T>(b));
    }
}

/// Appending one element appends its encoding.
pub proof fn lemma_elems_wire_push<T: WasmBinary>(vs: Seq<T::V>, i: int)
    requires
        0 <= i < vs.len(),
    ensures
        elems_wire::<T>(vs.take(i + 1)) == elems_wire::<T>(vs.take(i)) + T::wire(vs[i]),
{
    assert(vs.take(i + 1) =~= vs.take(i) + seq![vs[i]]);
    lemma_elems_wire_concat::<T>(vs.take(i), seq![vs[i]]);
    let single = seq![vs[i]];
    assert(single[0] == vs[i]);
    assert(single.skip(1) =~= Seq::<T::V>::empty());
    assert(elems_wire::<T>(single) == T::wire(vs[i]) + elems_wire::<T>(single.skip(1)));
    assert(T::wire(vs[i]) + elems_wire::<T>(single.skip(1)) =~= T::wire(vs[i]));
}

/// Decoding `k` elements consumes no more than the input, finds exactly `k`
/// well-formed values, and consumes at least one byte per element that `T`
/// itself consumes at least one byte for.
pub proof fn lemma_elems_sdec<T: WasmBinary>(s: Seq<u8>, k: nat)
    ensures
        elems_sdec::<T>(s, k) matches SpecDec::Found(vs, m) ==> m <= s.len() && vs.len() == k && (
        forall|i: int| 0 <= i < vs.len() ==> T::wf(#[trigger] vs[i])),
    decreases k,
{
    if k > 0 {
        T::lemma_sdec(s);
        match T::sdec(s) {
            SpecDec::Found(v, n) => {
                lemma_elems_sdec::<T>(s.skip(n as int), (k - 1) as nat);
                if let SpecDec::Found(vs, m) = elems_sdec::<T>(s.skip(n as int), (k - 1) as nat) {
                    assert(forall|i: int|
                        0 <= i < (seq![v] + vs).len() ==> T::wf(#[trigger] (seq![v] + vs)[i]))
                        by {
                        assert(forall|i: int|
                            1 <= i < (seq![v] + vs).len() ==> (seq![v] + vs)[i] == vs[i - 1]);
                    }
                }
            },
            _ => {},
        }
    }
}

/// The canonical encodings of decoded elements are never longer than the
/// bytes they were decoded from.
pub proof fn lemma_elems_wire_min<T: WasmBinary>(s: Seq<u8>, k: nat)
    ensures
        elems_sdec::<T>(s, k) matches SpecDec::Found(vs, m) ==> elems_wire::<T>(vs).len() <= m,
    decreases k,
{
    if k > 0 {
        T::lemma_sdec(s);
        if let SpecDec::Found(v, n) = T::sdec(s) {
            lemma_elems_wire_min::<T>(s.skip(n as int), (k - 1) as nat);
            if let SpecDec::Found(vs, m) = elems_sdec::<T>(s.skip(n as int), (k - 1) as nat) {
                lemma_elems_wire_concat::<T>(seq![v], vs);
                assert(seq![v].skip(1) =~= Seq::<T::V>::empty());
                assert(elems_wire::<T>(seq![v]) == T::wire(v) + elems_wire::<T>(seq![v].skip(1)));
                assert(T::wire(v) + elems_wire::<T>(seq![v].skip(1)) =~= T::wire(v));
            }
        }
    }
}

/// Round trip for element sequences: the concatenated encodings of `k`
/// well-formed values, followed by anything, decode back to those values.
pub proof fn lemma_elems_round_trip<T: WasmBinary>(vs: Seq<T::V>, rest: Seq<u8>)
    requires
        forall|i: int| 0 <= i < vs.len() ==> T::wf(#[trigger] vs[i]),
    ensures
        elems_sdec::<T>(elems_wire::<T>(vs) + rest, vs.len()) == SpecDec::Found(
            vs,
            elems_wire::<T>(vs).len(),
        ),
    decreases vs.len(),
{
    if vs.len() == 0 {
        assert(elems_sdec::<T>(elems_wire::<T>(vs) + rest, 0) == SpecDec::Found(
            Seq::<T::V>::empty(),
            0nat,
        ));
        assert(vs =~= Seq::<T::V>::empty());
    } else {
        let head = vs[0];
        let tail = vs.skip(1);
        let s = elems_wire::<T>(vs) + rest;
        assert(s =~= T::wire(head) + (elems_wire::<T>(tail) + rest));
        T::lemma_round_trip(head, elems_wire::<T>(tail) + rest);
        let n = T::wire(head).len();
        assert(s.skip(n as int) =~= elems_wire::<T>(tail) + rest);
        lemma_elems_round_trip::<T>(tail, rest);
        assert(seq![head] + tail =~= vs);
    }
}

/// A length-prefixed sequence: the element count as an unsigned LEB128
/// integer, then each element's encoding in order.
impl<T: WasmBinary> WasmBinary for Vec<T> {
    open spec fn wf(vs: Seq<T::V>) -> bool {
        vs.len() <= u32::MAX && forall|i: int| 0 <= i < vs.len() ==> T::wf(#[trigger] vs[i])
    }

    open spec fn enc_ok(vs: Seq<T::V>) -> bool {
        vs.len() <= u32::MAX && forall|i: int| 0 <= i < vs.len() ==> T::enc_ok(#[trigger] vs[i])
    }

    open spec fn wire(vs: Seq<T::V>) -> Seq<u8> {
        uleb_wire(vs.len() as nat) + elems_wire::<T>(vs)
    }

    open spec fn sdec(s: Seq<u8>) -> SpecDec<Seq<T::V>> {
        match <u32 as WasmBinary>::sdec(s) {
            SpecDec::Found(count, n0) => dec_prepend(
                Seq::empty(),
                n0,
                elems_sdec::<T>(s.skip(n0 as int), count as nat),
            ),
            SpecDec::Eof => SpecDec::Eof,
            SpecDec::Bad => SpecDec::Bad,
        }
    }

    proof fn lemma_sdec(s: Seq<u8>) {
        <u32 as WasmBinary>::lemma_sdec(s);
        if let SpecDec::Found(count, n0) = <u32 as WasmBinary>::sdec(s) {
            lemma_elems_sdec::<T>(s.skip(n0 as int), count as nat);
            lemma_elems_wire_min::<T>(s.skip(n0 as int), count as nat);
            if let SpecDec::Found(vs, m) = elems_sdec::<T>(s.skip(n0 as int), count as nat) {
                assert(Seq::<T::V>::empty() + vs =~= vs);
            }
        }
    }

    proof fn lemma_wf_enc_ok(vs: Seq<T::V>) {
        assert forall|i: int| 0 <= i < vs.len() implies T::enc_ok(#[trigger] vs[i]) by {
            T::lemma_wf_enc_ok(vs[i]);
        }
    }

    proof fn lemma_round_trip(vs: Seq<T::V>, rest: Seq<u8>) {
        let count = vs.len() as u32;
        let s = Self::wire(vs) + rest;
        assert(s =~= uleb_wire(count as nat) + (elems_wire::<T>(vs) + rest));
        <u32 as WasmBinary>::lemma_round_trip(count, elems_wire::<T>(vs) + rest);
        let n0 = uleb_wire(count as nat).len();
        assert(s.skip(n0 as int) =~= elems_wire::<T>(vs) + rest);
        lemma_elems_round_trip::<T>(vs, rest);
        lemma_prepend_empty(elems_sdec::<T>(s.skip(n0 as int), count as nat));
    }

    fn decode(bytes: &Vec<u8>, pos: usize) -> (r: Result<(Vec<T>, usize), WasmError>) {
        let ghost s = bytes@.skip(pos as int);
        let (count, start) = match u32::decode(bytes, pos) {
            Ok(x) => x,
            Err(e) => {
                return Err(e);
            },
        };
        proof {
            <u32 as WasmBinary>::lemma_sdec(s);
            assert(s.skip((start - pos) as int) =~= bytes@.skip(start as int));
        }
        let ghost s0 = bytes@.skip(start as int);
        let mut vec: Vec<T> = Vec::new();
        let mut p: usize = start;
        let mut i: u32 = 0;
        proof {
            lemma_prepend_empty(elems_sdec::<T>(s0, count as nat));
            assert(vec.deep_view() =~= Seq::<T::V>::empty());
        }
        while i < count
            invariant
                i <= count,
                pos <= start <= p <= bytes.len(),
                <u32 as WasmBinary>::sdec(bytes@.skip(pos as int)) == SpecDec::<u32>::Found(
                    count,
                    (start - pos) as nat,
                ),
                s0 == bytes@.skip(start as int),
                vec.deep_view().len() == i,
                elems_sdec::<T>(s0, count as nat) == dec_prepend(
                    vec.deep_view(),
                    (p - start) as nat,
                    elems_sdec::<T>(bytes@.skip(p as int), (count - i) as nat),
                ),
            decreases count - i,
        {
            let ghost si = bytes@.skip(p as int);
            let ghost pre = vec.deep_view();
            let ghost done = (p - start) as nat;
            match T::decode(bytes, p) {
                Ok((v, np)) => {
                    proof {
                        T::lemma_sdec(si);
                    }
                    let ghost n = (np - p) as nat;
                    vec.push(v);
                    proof {
                        assert(vec.deep_view() =~= pre + seq![v.deep_view()]);
                        assert(si.skip(n as int) =~= bytes@.skip(np as int));
                        lemma_prepend_assoc(
                            pre,
                            done,
                            seq![v.deep_view()],
                            n,
                            elems_sdec::<T>(bytes@.skip(np as int), (count - i - 1) as nat),
                        );
                    }
                    p = np;
                    i = i + 1;
                },
                Err(e) => {
                    proof {
                        assert(bytes@.skip(pos as int).skip((start - pos) as int) =~= bytes@.skip(
                            start as int,
                        ));
                    }
                    return Err(e);
                },
            }
        }
        proof {
            assert(elems_sdec::<T>(bytes@.skip(p as int), 0) == SpecDec::Found(
                Seq::<T::V>::empty(),
                0nat,
            ));
            assert(vec.deep_view() + Seq::<T::V>::empty() =~= vec.deep_view());
        }
        Ok((vec, p))
    }

    fn encode(&self, out: &mut Vec<u8>) -> (r: Result<usize, WasmError>) {
        let ghost vs = self.deep_view();
        let ghost base = out@;
        let before = out.len();
        match uleb_encode_checked(self.len() as u64, out) {
            Ok(_) => {},
            Err(e) => {
                return Err(e);
            },
        };
        let mut i: usize = 0;
        proof {
            assert(elems_wire::<T>(vs.take(0)) =~= Seq::<u8>::empty());
            assert(out@ =~= base + uleb_wire(vs.len() as nat) + elems_wire::<T>(vs.take(0)));
        }
        while i < self.len()
            invariant
                i <= self@.len(),
                vs == self.deep_view(),
                vs.len() == self@.len(),
                base == old(out)@,
                before == base.len(),
                out@ == base + uleb_wire(vs.len() as nat) + elems_wire::<T>(vs.take(i as int)),
                forall|j: int| 0 <= j < i ==> T::enc_ok(#[trigger] vs[j]),
            decreases self@.len() - i,
        {
            proof {
                assert(self@[i as int].deep_view() == vs[i as int]);
            }
            match self[i].encode(out) {
                Ok(_) => {
                    proof {
                        lemma_elems_wire_push::<T>(vs, i as int);
                        assert(out@ =~= base + uleb_wire(vs.len() as nat) + elems_wire::<T>(
                            vs.take(i + 1),
                        ));
                    }
                    i = i + 1;
                },
                Err(e) => {
                    proof {
                        assert(!T::enc_ok(vs[i as int]));
                        assert(base.is_prefix_of(out@));
                    }
                    return Err(e);
                },
            }
        }
        proof {
            assert(vs.take(vs.len() as int) =~= vs);
            assert(out@ =~= base + (uleb_wire(vs.len() as nat) + elems_wire::<T>(vs)));
        }
        Ok(out.len() - before)
    }
}


/// A size-prefixed block: the exact byte length of the content's encoding as
/// an unsigned LEB128 integer, then the content itself.
///
/// On decode the declared length is validated against what the content's own
/// decoder consumed: a disagreement would silently desynchronize the
/// enclosing stream of blocks, so it is rejected as a format violation.
pub struct WithSize<T> {
    pub content: T,
}

impl<T: DeepView> DeepView for WithSize<T> {
    type V = T::V;

    open spec fn deep_view(&self) -> T::V {
        self.content.deep_view()
    }
}

impl<T: WasmBinary> WasmBinary for WithSize<T> {
    open spec fn wf(v: T::V) -> bool {
        T::wf(v) && T::wire(v).len() <= u32::MAX
    }

    open spec fn enc_ok(v: T::V) -> bool {
        T::enc_ok(v) && T::wire(v).len() <= u32::MAX
    }

    open spec fn wire(v: T::V) -> Seq<u8> {
        uleb_wire(T::wire(v).len() as nat) + T::wire(v)
    }

    open spec fn sdec(s: Seq<u8>) -> SpecDec<T::V> {
        match <u32 as WasmBinary>::sdec(s) {
            SpecDec::Found(size, n0) => match T::sdec(s.skip(n0 as int)) {
                SpecDec::Found(v, m) => if m == size as nat {
                    SpecDec::Found(v, n0 + m)
                } else {
                    SpecDec::Bad
                },
                SpecDec::Eof => SpecDec::Eof,
                SpecDec::Bad => SpecDec::Bad,
            },
            SpecDec::Eof => SpecDec::Eof,
            SpecDec::Bad => SpecDec::Bad,
        }
    }

    proof fn lemma_sdec(s: Seq<u8>) {
        <u32 as WasmBinary>::lemma_sdec(s);
        if let SpecDec::Found(size, n0) = <u32 as WasmBinary>::sdec(s) {
            T::lemma_sdec(s.skip(n0 as int));
            if let SpecDec::Found(v, m) = T::sdec(s.skip(n0 as int)) {
                if m == size as nat {
                    lemma_uleb_wire_mono(T::wire(v).len() as nat, size as nat);
                }
            }
        }
    }

    proof fn lemma_wf_enc_ok(v: T::V) {
        T::lemma_wf_enc_ok(v);
    }

    proof fn lemma_round_trip(v: T::V, rest: Seq<u8>) {
        let w = T::wire(v);
        let size = w.len() as u32;
        let s = Self::wire(v) + rest;
        assert(s =~= uleb_wire(size as nat) + (w + rest));
        <u32 as WasmBinary>::lemma_round_trip(size, w + rest);
        let n0 = uleb_wire(size as nat).len();
        assert(s.skip(n0 as int) =~= w + rest);
        T::lemma_round_trip(v, rest);
    }

    fn decode(bytes: &Vec<u8>, pos: usize) -> (r: Result<(WithSize<T>, usize), WasmError>) {
        let ghost s = bytes@.skip(pos as int);
        let (size, p1) = match u32::decode(bytes, pos) {
            Ok(x) => x,
            Err(e) => {
                return Err(e);
            },
        };
        proof {
            <u32 as WasmBinary>::lemma_sdec(s);
            assert(s.skip((p1 - pos) as int) =~= bytes@.skip(p1 as int));
        }
        match T::decode(bytes, p1) {
            Ok((v, np)) => {
                if np - p1 == size as usize {
                    Ok((WithSize { content: v }, np))
                } else {
                    Err(WasmError::Invalid(
                        "size prefix does not match the content's length".to_string(),
                    ))
                }
            },
            Err(e) => Err(e),
        }
    }

    fn encode(&self, out: &mut Vec<u8>) -> (r: Result<usize, WasmError>) {
        encode_sized(&self.content, out)
    }
}

/// Append the size-prefixed encoding of `content` to `out`: its encoding's
/// exact byte length first, measured from a private buffer, then the buffer.
pub fn encode_sized<T: WasmBinary>(content: &T, out: &mut Vec<u8>) -> (r: Result<usize, WasmError>)
    ensures
        r matches Ok(n) ==> <WithSize<T> as WasmBinary>::enc_ok(content.deep_view())
            && final(out)@ == old(out)@ + <WithSize<T> as WasmBinary>::wire(content.deep_view())
            && n == <WithSize<T> as WasmBinary>::wire(content.deep_view()).len(),
        r is Err ==> !<WithSize<T> as WasmBinary>::enc_ok(content.deep_view()),
        r matches Err(e) ==> e is Invalid,
        old(out)@.is_prefix_of(final(out)@),
{
    let before = out.len();
    let mut buf = match encode_to_buf(content) {
        Ok(b) => b,
        Err(e) => {
            return Err(e);
        },
    };
    match uleb_encode_checked(buf.len() as u64, out) {
        Ok(_) => {},
        Err(e) => {
            return Err(e);
        },
    }
    out.append(&mut buf);
    proof {
        assert(out@ =~= old(out)@ + (uleb_wire(T::wire(content.deep_view()).len() as nat)
            + T::wire(content.deep_view())));
    }
    Ok(out.len() - before)
}

/// What an outside UTF-8 decoder yields on the given bytes: the text when the
/// bytes are valid UTF-8, nothing otherwise. Relied on through
/// `String::from_utf8`.
pub uninterp spec fn utf8_decode(bytes: Seq<u8>) -> Option<Seq<char>>;

/// The UTF-8 encoding of the given text. Relied on through `str::as_bytes`.
pub uninterp spec fn utf8_encode(text: Seq<char>) -> Seq<u8>;

/// Relies on `String::from_utf8`: when the bytes are valid UTF-8 it returns
/// the string wrapping exactly those bytes, else a descriptive error carrying
/// the converter's own diagnostic.
#[verifier::external_body]
fn string_from_utf8(bytes: Vec<u8>) -> (r: Result<String, WasmError>)
    ensures
        r matches Ok(t) ==> utf8_decode(bytes@) == Some(t@) && utf8_encode(t@) == bytes@,
        r is Err ==> utf8_decode(bytes@) is None,
        r matches Err(e) ==> e is Invalid,
{
    match String::from_utf8(bytes) {
        Ok(t) => Ok(t),
        Err(e) => Err(WasmError::Invalid(format!("utf-8 conversion error: {}", e))),
    }
}

/// Relies on `str::as_bytes`: returns the UTF-8 encoding of the text, which
/// `String::from_utf8` accepts back unchanged.
#[verifier::external_body]
fn string_to_bytes(t: &String) -> (r: Vec<u8>)
    ensures
        r@ == utf8_encode(t@),
        utf8_decode(r@) == Some(t@),
{
    t.as_bytes().to_vec()
}

/// Byte sequences are their own element encoding.
pub proof fn lemma_bytes_elems_wire(bs: Seq<u8>)
    ensures
        elems_wire::<u8>(bs) == bs,
    decreases bs.len(),
{
    if bs.len() == 0 {
        assert(elems_wire::<u8>(bs) =~= bs);
    } else {
        lemma_bytes_elems_wire(bs.skip(1));
        assert(seq![bs[0]] + bs.skip(1) =~= bs);
    }
}

/// Length-prefixed UTF-8 text: the byte count as an unsigned LEB128 integer,
/// then that many bytes, which must be valid UTF-8. Invalid bytes are a
/// format violation carrying the converter's diagnostic, never silently
/// replaced.
impl WasmBinary for String {
    open spec fn wf(t: Seq<char>) -> bool {
        utf8_encode(t).len() <= u32::MAX && utf8_decode(utf8_encode(t)) == Some(t)
    }

    open spec fn enc_ok(t: Seq<char>) -> bool {
        utf8_encode(t).len() <= u32::MAX
    }

    open spec fn wire(t: Seq<char>) -> Seq<u8> {
        uleb_wire(utf8_encode(t).len() as nat) + utf8_encode(t)
    }

    open spec fn sdec(s: Seq<u8>) -> SpecDec<Seq<char>> {
        match <Vec<u8> as WasmBinary>::sdec(s) {
            SpecDec::Found(bs, n) => match utf8_decode(bs) {
                Some(t) => if utf8_encode(t) == bs {
                    SpecDec::Found(t, n)
                } else {
                    SpecDec::Bad
                },
                None => SpecDec::Bad,
            },
            SpecDec::Eof => SpecDec::Eof,
            SpecDec::Bad => SpecDec::Bad,
        }
    }

    proof fn lemma_sdec(s: Seq<u8>) {
        <Vec<u8> as WasmBinary>::lemma_sdec(s);
        if let SpecDec::Found(bs, n) = <Vec<u8> as WasmBinary>::sdec(s) {
            if let Some(t) = utf8_decode(bs) {
                if utf8_encode(t) == bs {
                    lemma_bytes_elems_wire(bs);
                }
            }
        }
    }

    proof fn lemma_wf_enc_ok(t: Seq<char>) {
    }

    proof fn lemma_round_trip(t: Seq<char>, rest: Seq<u8>) {
        let bs = utf8_encode(t);
        lemma_bytes_elems_wire(bs);
        assert(<Vec<u8> as WasmBinary>::wire(bs) == String::wire(t));
        <Vec<u8> as WasmBinary>::lemma_round_trip(bs, rest);
    }

    fn decode(bytes: &Vec<u8>, pos: usize) -> (r: Result<(String, usize), WasmError>) {
        match <Vec<u8> as WasmBinary>::decode(bytes, pos) {
            Ok((bs, np)) => {
                proof {
                    assert(bs.deep_view() =~= bs@);
                }
                match string_from_utf8(bs) {
                    Ok(t) => Ok((t, np)),
                    Err(e) => Err(e),
                }
            },
            Err(e) => Err(e),
        }
    }

    fn encode(&self, out: &mut Vec<u8>) -> (r: Result<usize, WasmError>) {
        let before = out.len();
        let mut bs = string_to_bytes(self);
        match uleb_encode_checked(bs.len() as u64, out) {
            Ok(_) => {},
            Err(e) => {
                return Err(e);
            },
        }
        out.append(&mut bs);
        Ok(out.len() - before)
    }
}

} // verus!
