//! The parallel codec for sequences of self-delimiting (size-prefixed)
//! blocks, used for the code section: a sequential framing pass splits the
//! stream into one private buffer per element, the buffers are decoded (or
//! the elements encoded) independently in parallel, and the results are
//! collected in the original index order, whatever order the workers finish
//! in. The first error in element order is the error reported.

use rayon::prelude::IntoParallelIterator;
use rayon::prelude::IntoParallelRefIterator;
use rayon::prelude::ParallelIterator;
use vstd::prelude::*;

use crate::codec::SpecDec;
use crate::codec::WasmBinary;
use crate::codec::encode_to_buf;
use crate::combinators::WithSize;
use crate::combinators::dec_prepend;
use crate::combinators::elems_wire;
use crate::combinators::lemma_elems_wire_push;
use crate::combinators::lemma_prepend_assoc;
use crate::combinators::lemma_prepend_empty;
use crate::error::WasmError;
use crate::leb::lemma_uleb_wire_mono;
use crate::leb::uleb_encode_checked;
use crate::leb::uleb_wire;

verus! {

/// Decoding one frame's content: the value must fill the frame exactly.
pub open spec fn framed_sdec<T: WasmBinary>(b: Seq<u8>) -> SpecDec<T::V> {
    match T::sdec(b) {
        SpecDec::Found(v, m) => if m == b.len() {
            SpecDec::Found(v, m)
        } else {
            SpecDec::Bad
        },
        SpecDec::Eof => SpecDec::Eof,
        SpecDec::Bad => SpecDec::Bad,
    }
}

/// How an executable result for one frame relates to `framed_sdec`.
pub open spec fn framed_matches<T: WasmBinary>(b: Seq<u8>, r: Result<T, WasmError>) -> bool {
    match framed_sdec::<T>(b) {
        SpecDec::Found(v, m) => r matches Ok(rv) && rv.deep_view() == v,
        SpecDec::Eof => r matches Err(e) && e is Eof,
        SpecDec::Bad => r matches Err(e) && e is Invalid,
    }
}

/// Decode one frame's content, rejecting a frame the content does not fill.
pub fn decode_framed<T: WasmBinary>(buf: &Vec<u8>) -> (r: Result<T, WasmError>)
    ensures
        framed_matches::<T>(buf@, r),
{
    proof {
        assert(buf@.skip(0) =~= buf@);
    }
    match T::decode(buf, 0) {
        Ok((v, np)) => {
            if np == buf.len() {
                Ok(v)
            } else {
                Err(WasmError::Invalid("a framed block's content does not fill its frame".to_string()))
            }
        },
        Err(e) => Err(e),
    }
}

/// How an executable per-element encode result relates to the element: a
/// failure is always of the invalid-data kind, as the library's encoders
/// promise.
pub open spec fn enc_buf_matches<T: WasmBinary>(v: T::V, r: Result<Vec<u8>, WasmError>) -> bool {
    match r {
        Ok(buf) => T::enc_ok(v) && buf@ == T::wire(v),
        Err(e) => !T::enc_ok(v) && e is Invalid,
    }
}

/// Relies on rayon's parallel iterator `map` and `collect` over a vector:
/// the closure runs once per buffer and the results stand in the original
/// index order, independent of worker scheduling.
#[verifier::external_body]
fn par_decode_framed<T: WasmBinary + Send + Sync>(bufs: Vec<Vec<u8>>) -> (r: Vec<
    Result<T, WasmError>,
>)
    ensures
        r@.len() == bufs@.len(),
        forall|i: int|
            0 <= i < bufs@.len() ==> framed_matches::<T>(bufs.deep_view()[i], #[trigger] r@[i]),
{
    bufs.into_par_iter().map(|buf| decode_framed::<T>(&buf)).collect()
}

/// Relies on rayon's parallel iterator `map` and `collect` over a slice:
/// each element is encoded into its own private buffer and the buffers stand
/// in the original index order, independent of worker scheduling.
#[verifier::external_body]
fn par_encode_to_bufs<T: WasmBinary + Send + Sync>(elems: &Vec<T>) -> (r: Vec<
    Result<Vec<u8>, WasmError>,
>)
    ensures
        r@.len() == elems@.len(),
        forall|i: int|
            0 <= i < elems@.len() ==> enc_buf_matches::<T>(elems.deep_view()[i], #[trigger] r@[i]),
{
    elems.par_iter().map(|e| encode_to_buf::<T>(e)).collect()
}

/// The sequential framing pass: `k` frames, each an unsigned LEB128 byte
/// length followed by exactly that many raw bytes.
pub open spec fn frames_sdec(s: Seq<u8>, k: nat) -> SpecDec<Seq<Seq<u8>>>
    decreases k,
{
    if k == 0 {
        SpecDec::Found(Seq::empty(), 0)
    } else {
        match <u32 as WasmBinary>::sdec(s) {
            SpecDec::Found(size, n0) => {
                if s.len() < n0 + size {
                    SpecDec::Eof
                } else {
                    dec_prepend(
                        seq![s.subrange(n0 as int, (n0 + size) as int)],
                        (n0 + size) as nat,
                        frames_sdec(s.skip((n0 + size) as int), (k - 1) as nat),
                    )
                }
            },
            SpecDec::Eof => SpecDec::Eof,
            SpecDec::Bad => SpecDec::Bad,
        }
    }
}

/// The content pass: every buffered frame decodes independently; the first
/// failing frame in element order determines the error.
pub open spec fn contents_sdec<T: WasmBinary>(bufs: Seq<Seq<u8>>) -> SpecDec<Seq<T::V>>
    decreases bufs.len(),
{
    if bufs.len() == 0 {
        SpecDec::Found(Seq::empty(), 0)
    } else {
        match framed_sdec::<T>(bufs[0]) {
            SpecDec::Found(v, m) => dec_prepend(seq![v], 0, contents_sdec::<T>(bufs.skip(1))),
            SpecDec::Eof => SpecDec::Eof,
            SpecDec::Bad => SpecDec::Bad,
        }
    }
}

/// Exact model of the parallel codec's decode: the element count, then the
/// framing pass, then the content pass.
pub open spec fn code_sdec<T: WasmBinary>(s: Seq<u8>) -> SpecDec<Seq<T::V>> {
    match <u32 as WasmBinary>::sdec(s) {
        SpecDec::Found(count, n0) => match frames_sdec(s.skip(n0 as int), count as nat) {
            SpecDec::Found(bufs, m) => match contents_sdec::<T>(bufs) {
                SpecDec::Found(vs, _) => SpecDec::Found(vs, n0 + m),
                SpecDec::Eof => SpecDec::Eof,
                SpecDec::Bad => SpecDec::Bad,
            },
            SpecDec::Eof => SpecDec::Eof,
            SpecDec::Bad => SpecDec::Bad,
        },
        SpecDec::Eof => SpecDec::Eof,
        SpecDec::Bad => SpecDec::Bad,
    }
}

/// What the framing and content passes together yield: as many well-formed
/// values as frames, whose size-prefixed encodings are no longer than the
/// bytes read.
pub proof fn lemma_code_passes<T: WasmBinary>(s: Seq<u8>, k: nat)
    ensures
        frames_sdec(s, k) matches SpecDec::Found(bufs, m) ==> m <= s.len() && (
        contents_sdec::<T>(bufs) matches SpecDec::Found(vs, z) ==> vs.len() == k && (forall|i: int|
            0 <= i < vs.len() ==> <WithSize<T> as WasmBinary>::wf(#[trigger] vs[i]))
            && elems_wire::<WithSize<T>>(vs).len() <= m),
    decreases k,
{
    if k > 0 {
        <u32 as WasmBinary>::lemma_sdec(s);
        if let SpecDec::Found(size, n0) = <u32 as WasmBinary>::sdec(s) {
            if s.len() >= n0 + size {
                let b0 = s.subrange(n0 as int, (n0 + size) as int);
                lemma_code_passes::<T>(s.skip((n0 + size) as int), (k - 1) as nat);
                T::lemma_sdec(b0);
                if let SpecDec::Found(bufs1, m1) = frames_sdec(
                    s.skip((n0 + size) as int),
                    (k - 1) as nat,
                ) {
                    let bufs = seq![b0] + bufs1;
                    assert(bufs.skip(1) =~= bufs1);
                    if let SpecDec::Found(v0, m0) = framed_sdec::<T>(b0) {
                        lemma_uleb_wire_mono(T::wire(v0).len() as nat, size as nat);
                        if let SpecDec::Found(vs1, z1) = contents_sdec::<T>(bufs1) {
                            let vs = seq![v0] + vs1;
                            assert(vs.skip(1) =~= vs1);
                            assert(vs[0] == v0);
                            assert(forall|i: int|
                                0 <= i < vs.len() ==> <WithSize<T> as WasmBinary>::wf(
                                    #[trigger] vs[i],
                                )) by {
                                assert(forall|i: int| 1 <= i < vs.len() ==> vs[i] == vs1[i - 1]);
                            }
                            assert(elems_wire::<WithSize<T>>(vs) == <WithSize<T> as WasmBinary>::wire(
                                v0,
                            ) + elems_wire::<WithSize<T>>(vs1));
                        }
                    }
                }
            }
        }
    }
}

/// What a successful parallel decode yields: a well-formed sequence whose
/// canonical encoding is no longer than the bytes read.
pub proof fn lemma_code_sdec<T: WasmBinary>(s: Seq<u8>)
    ensures
        code_sdec::<T>(s) matches SpecDec::Found(vs, n) ==> 1 <= n <= s.len() && <Vec<
            WithSize<T>,
        > as WasmBinary>::wf(vs) && <Vec<WithSize<T>> as WasmBinary>::wire(vs).len() <= n,
{
    <u32 as WasmBinary>::lemma_sdec(s);
    if let SpecDec::Found(count, n0) = <u32 as WasmBinary>::sdec(s) {
        lemma_code_passes::<T>(s.skip(n0 as int), count as nat);
    }
}

/// The exact buffers that framing the canonical encoding of `vs` yields.
pub open spec fn bufs_of<T: WasmBinary>(vs: Seq<T::V>) -> Seq<Seq<u8>> {
    Seq::new(vs.len(), |i: int| T::wire(vs[i]))
}

/// Round trip of the framing pass over canonical encodings.
pub proof fn lemma_frames_round_trip<T: WasmBinary>(vs: Seq<T::V>, rest: Seq<u8>)
    requires
        forall|i: int|
            0 <= i < vs.len() ==> <WithSize<T> as WasmBinary>::wf(#[trigger] vs[i]),
    ensures
        frames_sdec(elems_wire::<WithSize<T>>(vs) + rest, vs.len()) == SpecDec::Found(
            bufs_of::<T>(vs),
            elems_wire::<WithSize<T>>(vs).len(),
        ),
    decreases vs.len(),
{
    if vs.len() == 0 {
        assert(bufs_of::<T>(vs) =~= Seq::<Seq<u8>>::empty());
    } else {
        let head = vs[0];
        let tail = vs.skip(1);
        let w = T::wire(head);
        let hw = <WithSize<T> as WasmBinary>::wire(head);
        let tw = elems_wire::<WithSize<T>>(tail);
        let s = elems_wire::<WithSize<T>>(vs) + rest;
        assert(s =~= uleb_wire(w.len() as nat) + (w + (tw + rest)));
        <u32 as WasmBinary>::lemma_round_trip(w.len() as u32, w + (tw + rest));
        let n0 = uleb_wire(w.len() as nat).len();
        assert(s.subrange(n0 as int, (n0 + w.len()) as int) =~= w);
        assert(s.skip((n0 + w.len()) as int) =~= tw + rest);
        lemma_frames_round_trip::<T>(tail, rest);
        assert(seq![w] + bufs_of::<T>(tail) =~= bufs_of::<T>(vs));
    }
}

/// Round trip of the content pass over canonical encodings.
pub proof fn lemma_contents_round_trip<T: WasmBinary>(vs: Seq<T::V>)
    requires
        forall|i: int| 0 <= i < vs.len() ==> T::wf(#[trigger] vs[i]),
    ensures
        contents_sdec::<T>(bufs_of::<T>(vs)) == SpecDec::Found(vs, 0nat),
    decreases vs.len(),
{
    if vs.len() == 0 {
        assert(bufs_of::<T>(vs) =~= Seq::<Seq<u8>>::empty());
        assert(vs =~= Seq::<T::V>::empty());
    } else {
        let head = vs[0];
        let w = T::wire(head);
        T::lemma_round_trip(head, Seq::empty());
        assert(w + Seq::<u8>::empty() =~= w);
        assert(bufs_of::<T>(vs)[0] == w);
        assert(bufs_of::<T>(vs).skip(1) =~= bufs_of::<T>(vs.skip(1)));
        lemma_contents_round_trip::<T>(vs.skip(1));
        assert(seq![head] + vs.skip(1) =~= vs);
    }
}

/// Round trip of the whole parallel codec: it agrees with the sequential
/// length-prefixed sequence of size-prefixed blocks on every well-formed
/// value, whatever follows on the wire.
pub proof fn lemma_code_round_trip<T: WasmBinary>(vs: Seq<T::V>, rest: Seq<u8>)
    requires
        <Vec<WithSize<T>> as WasmBinary>::wf(vs),
    ensures
        code_sdec::<T>(<Vec<WithSize<T>> as WasmBinary>::wire(vs) + rest) == SpecDec::Found(
            vs,
            <Vec<WithSize<T>> as WasmBinary>::wire(vs).len(),
        ),
{
    let count = vs.len() as u32;
    let ew = elems_wire::<WithSize<T>>(vs);
    let s = <Vec<WithSize<T>> as WasmBinary>::wire(vs) + rest;
    assert(s =~= uleb_wire(count as nat) + (ew + rest));
    <u32 as WasmBinary>::lemma_round_trip(count, ew + rest);
    let n0 = uleb_wire(count as nat).len();
    assert(s.skip(n0 as int) =~= ew + rest);
    lemma_frames_round_trip::<T>(vs, rest);
    assert(forall|i: int| 0 <= i < vs.len() ==> T::wf(#[trigger] vs[i]));
    lemma_contents_round_trip::<T>(vs);
}

/// The parallel and the sequential codec for a sequence of size-prefixed
/// blocks write the very same bytes and read back the very same values: both
/// decode the canonical encoding of any well-formed sequence, followed by
/// anything, to that sequence, consuming exactly the encoding.
pub proof fn lemma_parallel_matches_sequential<T: WasmBinary>(vs: Seq<T::V>, rest: Seq<u8>)
    requires
        <Vec<WithSize<T>> as WasmBinary>::wf(vs),
    ensures
        code_sdec::<T>(<Vec<WithSize<T>> as WasmBinary>::wire(vs) + rest) == <Vec<
            WithSize<T>,
        > as WasmBinary>::sdec(<Vec<WithSize<T>> as WasmBinary>::wire(vs) + rest),
        code_sdec::<T>(<Vec<WithSize<T>> as WasmBinary>::wire(vs) + rest) == SpecDec::Found(
            vs,
            <Vec<WithSize<T>> as WasmBinary>::wire(vs).len(),
        ),
{
    lemma_code_round_trip::<T>(vs, rest);
    <Vec<WithSize<T>> as WasmBinary>::lemma_round_trip(vs, rest);
}

/// Decode a length-prefixed sequence of size-prefixed blocks: a sequential
/// framing pass, then all frame contents in parallel.
pub fn decode_code_vec<T: WasmBinary + Send + Sync>(bytes: &Vec<u8>, pos: usize) -> (r: Result<
    (Vec<T>, usize),
    WasmError,
>)
    requires
        pos <= bytes.len(),
    ensures
        crate::codec::dec_matches::<Vec<T>>(code_sdec::<T>(bytes@.skip(pos as int)), r, pos as int),
{
    let ghost s = bytes@.skip(pos as int);
    let (count, start) = match u32::decode(bytes, pos) {
        Ok(x) => x,
        Err(e) => {
            return Err(e);
        },
    };
    proof {
        <u32 as WasmBinary>::lemma_sdec(s);
        assert(s.skip((start - pos) as int) =~= bytes@.skip(start as int));
    }
    let ghost s0 = bytes@.skip(start as int);
    let mut bufs: Vec<Vec<u8>> = Vec::new();
    let mut p: usize = start;
    let mut i: u32 = 0;
    proof {
        lemma_prepend_empty(frames_sdec(s0, count as nat));
        assert(bufs.deep_view() =~= Seq::<Seq<u8>>::empty());
    }
    while i < count
        invariant
            i <= count,
            pos <= start <= p <= bytes.len(),
            <u32 as WasmBinary>::sdec(bytes@.skip(pos as int)) == SpecDec::<u32>::Found(
                count,
                (start - pos) as nat,
            ),
            s0 == bytes@.skip(start as int),
            bufs.deep_view().len() == i,
            frames_sdec(s0, count as nat) == dec_prepend(
                bufs.deep_view(),
                (p - start) as nat,
                frames_sdec(bytes@.skip(p as int), (count - i) as nat),
            ),
        decreases count - i,
    {
        let ghost si = bytes@.skip(p as int);
        let ghost pre = bufs.deep_view();
        let ghost done = (p - start) as nat;
        let (size, p1) = match u32::decode(bytes, p) {
            Ok(x) => x,
            Err(e) => {
                proof {
                    assert(bytes@.skip(pos as int).skip((start - pos) as int) =~= bytes@.skip(
                        start as int,
                    ));
                }
                return Err(e);
            },
        };
        proof {
            <u32 as WasmBinary>::lemma_sdec(si);
        }
        let size_us = size as usize;
        if bytes.len() - p1 < size_us {
            proof {
                assert(bytes@.skip(pos as int).skip((start - pos) as int) =~= bytes@.skip(
                    start as int,
                ));
            }
            return Err(WasmError::Eof);
        }
        let mut buf: Vec<u8> = Vec::new();
        let mut j: usize = p1;
        while j < p1 + size_us
            invariant
                p1 <= j <= p1 + size_us,
                p1 + size_us <= bytes.len(),
                buf@ == bytes@.subrange(p1 as int, j as int),
            decreases p1 + size_us - j,
        {
            buf.push(bytes[j]);
            proof {
                assert(buf@ =~= bytes@.subrange(p1 as int, j + 1 as int));
            }
            j = j + 1;
        }
        let ghost n0 = (p1 - p) as nat;
        proof {
            assert(si.skip(n0 as int) =~= bytes@.skip(p1 as int));
            assert(si.subrange(n0 as int, (n0 + size) as int) =~= bytes@.subrange(
                p1 as int,
                (p1 + size_us) as int,
            ));
            assert(si.skip((n0 + size) as int) =~= bytes@.skip((p1 + size_us) as int));
        }
        bufs.push(buf);
        proof {
            assert(bufs.deep_view() =~~= pre + seq![si.subrange(n0 as int, (n0 + size) as int)]);
            lemma_prepend_assoc(
                pre,
                done,
                seq![si.subrange(n0 as int, (n0 + size) as int)],
                n0 + size as nat,
                frames_sdec(bytes@.skip((p1 + size_us) as int), (count - i - 1) as nat),
            );
        }
        p = p1 + size_us;
        i = i + 1;
    }
    proof {
        assert(frames_sdec(bytes@.skip(p as int), 0) == SpecDec::Found(Seq::<Seq<u8>>::empty(), 0nat));
        assert(bufs.deep_view() + Seq::<Seq<u8>>::empty() =~= bufs.deep_view());
    }
    let ghost all_bufs = bufs.deep_view();
    let mut results = par_decode_framed::<T>(bufs);
    let mut vec: Vec<T> = Vec::new();
    let mut k: usize = 0;
    let ghost total = all_bufs.len();
    let rlen = results.len();
    proof {
        assert(rlen == total);
    }
    proof {
        lemma_prepend_empty(contents_sdec::<T>(all_bufs));
        assert(all_bufs.skip(0) =~= all_bufs);
        assert(vec.deep_view() =~= Seq::<T::V>::empty());
    }
    while results.len() > 0
        invariant
            k + results@.len() == total,
            total == all_bufs.len(),
            total <= usize::MAX,
            pos <= start <= p <= bytes.len(),
            <u32 as WasmBinary>::sdec(bytes@.skip(pos as int)) == SpecDec::<u32>::Found(
                count,
                (start - pos) as nat,
            ),
            frames_sdec(bytes@.skip(start as int), count as nat) == SpecDec::Found(
                all_bufs,
                (p - start) as nat,
            ),
            bytes@.skip(pos as int).skip((start - pos) as int) == bytes@.skip(start as int),
            vec.deep_view().len() == k,
            forall|z: int|
                0 <= z < results@.len() ==> framed_matches::<T>(
                    all_bufs[k + z],
                    #[trigger] results@[z],
                ),
            contents_sdec::<T>(all_bufs) == dec_prepend(
                vec.deep_view(),
                0,
                contents_sdec::<T>(all_bufs.skip(k as int)),
            ),
        decreases results@.len(),
    {
        let ghost pre = vec.deep_view();
        let r0 = results.remove(0);
        proof {
            assert(all_bufs.skip(k as int)[0] == all_bufs[k as int]);
            assert(all_bufs.skip(k as int).len() > 0);
        }
        match r0 {
            Ok(v) => {
                vec.push(v);
                proof {
                    assert(vec.deep_view() =~= pre + seq![v.deep_view()]);
                    assert(all_bufs.skip(k as int).skip(1) =~= all_bufs.skip(k + 1));
                    lemma_prepend_assoc(
                        pre,
                        0nat,
                        seq![v.deep_view()],
                        0nat,
                        contents_sdec::<T>(all_bufs.skip(k + 1)),
                    );
                    assert(forall|z: int|
                        0 <= z < results@.len() ==> framed_matches::<T>(
                            all_bufs[k + 1 + z],
                            #[trigger] results@[z],
                        ));
                }
                k = k + 1;
            },
            Err(e) => {
                return Err(e);
            },
        }
    }
    proof {
        assert(all_bufs.skip(total as int) =~= Seq::<Seq<u8>>::empty());
        assert(contents_sdec::<T>(Seq::<Seq<u8>>::empty()) == SpecDec::Found(
            Seq::<T::V>::empty(),
            0nat,
        ));
        assert(vec.deep_view() + Seq::<T::V>::empty() =~= vec.deep_view());
    }
    Ok((vec, p))
}

/// Encode a length-prefixed sequence of size-prefixed blocks: all elements
/// into private buffers in parallel, then the count, sizes and buffers in
/// order to the single output.
pub fn encode_code_vec<T: WasmBinary + Send + Sync>(elems: &Vec<T>, out: &mut Vec<u8>) -> (r:
    Result<usize, WasmError>)
    ensures
        r matches Ok(n) ==> <Vec<WithSize<T>> as WasmBinary>::enc_ok(elems.deep_view())
            && final(out)@ == old(out)@ + <Vec<WithSize<T>> as WasmBinary>::wire(elems.deep_view())
            && n == <Vec<WithSize<T>> as WasmBinary>::wire(elems.deep_view()).len(),
        r is Err ==> !<Vec<WithSize<T>> as WasmBinary>::enc_ok(elems.deep_view()),
        r matches Err(e) ==> e is Invalid,
        old(out)@.is_prefix_of(final(out)@),
{
    let ghost vs = elems.deep_view();
    let ghost base = out@;
    let before = out.len();
    let mut results = par_encode_to_bufs::<T>(elems);
    match uleb_encode_checked(elems.len() as u64, out) {
        Ok(_) => {},
        Err(e) => {
            return Err(e);
        },
    }
    let mut i: usize = 0;
    proof {
        assert(elems_wire::<WithSize<T>>(vs.take(0)) =~= Seq::<u8>::empty());
        assert(out@ =~= base + uleb_wire(vs.len() as nat) + elems_wire::<WithSize<T>>(vs.take(0)));
    }
    while results.len() > 0
        invariant
            i + results@.len() == vs.len(),
            vs == elems.deep_view(),
            vs.len() == elems@.len(),
            base == old(out)@,
            before == base.len(),
            out@ == base + uleb_wire(vs.len() as nat) + elems_wire::<WithSize<T>>(
                vs.take(i as int),
            ),
            vs.len() <= u32::MAX,
            forall|z: int|
                0 <= z < results@.len() ==> enc_buf_matches::<T>(vs[i + z], #[trigger] results@[z]),
            forall|j: int| 0 <= j < i ==> <WithSize<T> as WasmBinary>::enc_ok(#[trigger] vs[j]),
        decreases results@.len(),
    {
        let buf = match results.remove(0) {
            Ok(b) => b,
            Err(e) => {
                proof {
                    assert(!T::enc_ok(vs[i as int]));
                    assert(base.is_prefix_of(out@));
                }
                return Err(e);
            },
        };
        match uleb_encode_checked(buf.len() as u64, out) {
            Ok(_) => {},
            Err(e) => {
                proof {
                    assert(T::wire(vs[i as int]).len() > u32::MAX);
                    assert(base.is_prefix_of(out@));
                }
                return Err(e);
            },
        }
        let ghost mid = out@;
        let mut j: usize = 0;
        while j < buf.len()
            invariant
                0 <= j <= buf@.len(),
                out@ == mid + buf@.take(j as int),
            decreases buf@.len() - j,
        {
            out.push(buf[j]);
            proof {
                assert(out@ =~= mid + buf@.take(j + 1 as int));
            }
            j = j + 1;
        }
        proof {
            assert(buf@.take(buf@.len() as int) =~= buf@);
            lemma_elems_wire_push::<WithSize<T>>(vs, i as int);
            assert(out@ =~= base + uleb_wire(vs.len() as nat) + elems_wire::<WithSize<T>>(
                vs.take(i + 1),
            ));
            assert(forall|z: int|
                0 <= z < results@.len() ==> enc_buf_matches::<T>(
                    vs[i + 1 + z],
                    #[trigger] results@[z],
                ));
        }
        i = i + 1;
    }
    proof {
        assert(vs.take(vs.len() as int) =~= vs);
        assert(out@ =~= base + (uleb_wire(vs.len() as nat) + elems_wire::<WithSize<T>>(vs)));
    }
    Ok(out.len() - before)
}

} // verus!
