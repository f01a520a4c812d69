//! Variable-length (LEB128) integers: the exact decode model, the canonical
//! encoding, the round-trip proofs, and the executable codecs.
//!
//! The wire format stores 7 data bits per byte, least significant first, with
//! the high bit of each byte marking a continuation. Unsigned values are
//! capped at 32 bits: a value that needs more, or an encoding longer than five
//! bytes, is a format violation, reported apart from plain end-of-input.

use vstd::prelude::*;

use crate::codec::SpecDec;
use crate::error::WasmError;

verus! {

/// 128 raised to `k`; the number of values `k` LEB128 bytes can carry.
pub open spec fn pow128(k: nat) -> nat
    decreases k,
{
    if k == 0 {
        1
    } else {
        128 * pow128((k - 1) as nat)
    }
}

/// Exact model of unsigned LEB128 decoding from the front of `s`, rejecting
/// values above `max` and encodings longer than `budget` bytes.
///
/// The byte budget is a deliberate decision: a 32-bit value is rejected after
/// its fifth byte even when redundant continuation bytes would keep the value
/// in range (so `80 80 80 80 80 00` is not an encoding of zero here). This is
/// the length rule the binary format itself states for `u32` fields; a
/// decoder that instead accepts any encoding whose value fits would take the
/// same well-formed modules and differ only on these over-long forms.
pub open spec fn uleb_dec(s: Seq<u8>, max: nat, budget: nat) -> SpecDec<nat>
    decreases s.len(),
{
    if s.len() == 0 {
        SpecDec::Eof
    } else if budget == 0 {
        SpecDec::Bad
    } else {
        let b = s[0];
        if b < 128 {
            if b as nat <= max {
                SpecDec::Found(b as nat, 1)
            } else {
                SpecDec::Bad
            }
        } else {
            let low = (b - 128) as nat;
            if max < low {
                SpecDec::Bad
            } else {
                match uleb_dec(s.skip(1), ((max - low) / 128) as nat, (budget - 1) as nat) {
                    SpecDec::Found(v, n) => SpecDec::Found(low + 128 * v, n + 1),
                    SpecDec::Eof => SpecDec::Eof,
                    SpecDec::Bad => SpecDec::Bad,
                }
            }
        }
    }
}

/// The canonical unsigned LEB128 encoding of `v`.
pub open spec fn uleb_wire(v: nat) -> Seq<u8>
    decreases v,
{
    if v < 128 {
        seq![v as u8]
    } else {
        seq![((v % 128) + 128) as u8] + uleb_wire(v / 128)
    }
}

/// A decoded value stays under the cap, and no more bytes are consumed than
/// the input holds or the budget allows.
pub proof fn lemma_uleb_dec_bounds(s: Seq<u8>, max: nat, budget: nat)
    ensures
        uleb_dec(s, max, budget) matches SpecDec::Found(v, n) ==> v <= max && 1 <= n <= s.len()
            && n <= budget,
    decreases s.len(),
{
    if s.len() > 0 && budget > 0 {
        let b = s[0];
        if b >= 128 {
            let low = (b - 128) as nat;
            if low <= max {
                let max2 = ((max - low) / 128) as nat;
                lemma_uleb_dec_bounds(s.skip(1), max2, (budget - 1) as nat);
                if let SpecDec::Found(v, n) = uleb_dec(s.skip(1), max2, (budget - 1) as nat) {
                    assert(128 * v <= 128 * max2) by (nonlinear_arith)
                        requires
                            v <= max2,
                    ;
                    assert(128 * ((max - low) as nat / 128) <= (max - low) as nat) by {
                        vstd::arithmetic::div_mod::lemma_fundamental_div_mod(
                            (max - low) as int,
                            128,
                        );
                    }
                }
            }
        }
    }
}

/// The canonical encoding of a decoded value is never longer than the bytes
/// it was decoded from.
pub proof fn lemma_uleb_dec_minimal(s: Seq<u8>, max: nat, budget: nat)
    ensures
        uleb_dec(s, max, budget) matches SpecDec::Found(v, n) ==> uleb_wire(v).len() <= n,
    decreases s.len(),
{
    if s.len() > 0 && budget > 0 {
        let b = s[0];
        if b >= 128 {
            let low = (b - 128) as nat;
            if low <= max {
                let max2 = ((max - low) / 128) as nat;
                lemma_uleb_dec_minimal(s.skip(1), max2, (budget - 1) as nat);
                if let SpecDec::Found(hi, m) = uleb_dec(s.skip(1), max2, (budget - 1) as nat) {
                    let v = low + 128 * hi;
                    if v >= 128 {
                        assert(v / 128 == hi) by {
                            vstd::arithmetic::div_mod::lemma_fundamental_div_mod_converse(
                                v as int,
                                128,
                                hi as int,
                                low as int,
                            );
                        }
                    }
                }
            }
        }
    }
}

/// The canonical encoding's length is monotone in the value.
pub proof fn lemma_uleb_wire_mono(a: nat, b: nat)
    requires
        a <= b,
    ensures
        uleb_wire(a).len() <= uleb_wire(b).len(),
    decreases b,
{
    if a >= 128 {
        vstd::arithmetic::div_mod::lemma_div_is_ordered(a as int, b as int, 128);
        assert(b / 128 < b) by {
            vstd::arithmetic::div_mod::lemma_fundamental_div_mod(b as int, 128);
        }
        lemma_uleb_wire_mono(a / 128, b / 128);
    }
}

/// Five LEB128 bytes carry 35 bits, more than any 32-bit value needs.
pub proof fn lemma_pow128_5()
    ensures
        pow128(5) == 0x8_0000_0000,
{
    assert(pow128(0) == 1);
    assert(pow128(1) == 128);
    assert(pow128(2) == 0x4000);
    assert(pow128(3) == 0x20_0000);
    assert(pow128(4) == 0x1000_0000);
    assert(pow128(5) == 0x8_0000_0000);
}

/// The canonical encoding of a value below `pow128(k)` takes at most `k`
/// bytes, and always at least one.
pub proof fn lemma_uleb_wire_len(v: nat, k: nat)
    requires
        v < pow128(k),
        1 <= k,
    ensures
        1 <= uleb_wire(v).len() <= k,
    decreases k,
{
    if v >= 128 {
        assert(v / 128 < pow128((k - 1) as nat)) by {
            assert(pow128(k) == 128 * pow128((k - 1) as nat));
            vstd::arithmetic::div_mod::lemma_fundamental_div_mod(v as int, 128);
        }
        lemma_uleb_wire_len(v / 128, (k - 1) as nat);
    }
}

/// Round trip: the canonical encoding of `v`, followed by anything, decodes
/// back to `v`, consuming exactly the encoding.
pub proof fn lemma_uleb_round_trip(v: nat, rest: Seq<u8>, max: nat, budget: nat)
    requires
        v <= max,
        uleb_wire(v).len() <= budget,
    ensures
        uleb_dec(uleb_wire(v) + rest, max, budget) == SpecDec::Found(v, uleb_wire(v).len()),
    decreases v,
{
    let s = uleb_wire(v) + rest;
    if v < 128 {
        assert(s[0] == v as u8);
    } else {
        let low = v % 128;
        let hi = v / 128;
        vstd::arithmetic::div_mod::lemma_fundamental_div_mod(v as int, 128);
        assert(s[0] == (low + 128) as u8);
        let max2 = ((max - low) / 128) as nat;
        assert(hi <= max2) by {
            vstd::arithmetic::div_mod::lemma_div_is_ordered(
                (v - low) as int,
                (max - low) as int,
                128,
            );
            assert((v - low) as int / 128 == hi as int) by {
                vstd::arithmetic::div_mod::lemma_fundamental_div_mod(v as int, 128);
                vstd::arithmetic::div_mod::lemma_fundamental_div_mod_converse(
                    (v - low) as int,
                    128,
                    hi as int,
                    0,
                );
            }
        }
        assert(s.skip(1) =~= uleb_wire(hi) + rest);
        lemma_uleb_round_trip(hi, rest, max2, (budget - 1) as nat);
    }
}

/// Decode an unsigned LEB128 value no greater than `max` from at most
/// `budget` bytes, starting at `pos`. See `uleb_dec` for the deliberate
/// rejection of over-long encodings.
pub fn uleb_decode(bytes: &Vec<u8>, pos: usize, max: u32, budget: u32) -> (r: Result<
    (u32, usize),
    WasmError,
>)
    requires
        pos <= bytes.len(),
    ensures
        match uleb_dec(bytes@.skip(pos as int), max as nat, budget as nat) {
            SpecDec::Found(v, n) => r matches Ok((rv, rn)) && rv as nat == v && rn == pos + n,
            SpecDec::Eof => r matches Err(e) && e is Eof,
            SpecDec::Bad => r matches Err(e) && e is Invalid,
        },
    decreases bytes.len() - pos,
{
    let ghost s = bytes@.skip(pos as int);
    if pos >= bytes.len() {
        return Err(WasmError::Eof);
    }
    let b = bytes[pos];
    assert(b == s[0]);
    if budget == 0 {
        return Err(WasmError::Invalid("leb128 encoding exceeds the 32-bit cap".to_string()));
    }
    if b < 128 {
        if b as u32 <= max {
            Ok((b as u32, pos + 1))
        } else {
            Err(WasmError::Invalid("leb128 value overflows the 32-bit cap".to_string()))
        }
    } else {
        let low = (b - 128) as u32;
        if max < low {
            Err(WasmError::Invalid("leb128 value overflows the 32-bit cap".to_string()))
        } else {
            let max2 = (max - low) / 128;
            proof {
                assert(s.skip(1) =~= bytes@.skip(pos + 1));
            }
            match uleb_decode(bytes, pos + 1, max2, budget - 1) {
                Ok((v, np)) => {
                    proof {
                        lemma_uleb_dec_bounds(s.skip(1), max2 as nat, (budget - 1) as nat);
                        assert(128 * v <= 128 * max2) by (nonlinear_arith)
                            requires
                                v <= max2,
                        ;
                        assert(128 * ((max - low) as nat / 128) <= (max - low) as nat) by {
                            vstd::arithmetic::div_mod::lemma_fundamental_div_mod(
                                (max - low) as int,
                                128,
                            );
                        }
                    }
                    Ok((low + 128 * v, np))
                },
                Err(e) => Err(e),
            }
        }
    }
}

/// Append the canonical unsigned LEB128 encoding of `v` to `out`.
pub fn uleb_encode(v: u32, out: &mut Vec<u8>)
    ensures
        final(out)@ == old(out)@ + uleb_wire(v as nat),
    decreases v,
{
    if v < 128 {
        out.push(v as u8);
        assert(out@ =~= old(out)@ + uleb_wire(v as nat));
    } else {
        out.push((v % 128 + 128) as u8);
        uleb_encode(v / 128, out);
        assert(out@ =~= old(out)@ + uleb_wire(v as nat));
    }
}

/// Append the unsigned LEB128 encoding of a count or value held in a wider
/// in-memory type. The wire format caps unsigned integers at 32 bits, so a
/// wider value is an explicit overflow error, never a silent truncation.
pub fn uleb_encode_checked(v: u64, out: &mut Vec<u8>) -> (r: Result<usize, WasmError>)
    ensures
        r matches Ok(n) ==> v <= u32::MAX && final(out)@ == old(out)@ + uleb_wire(v as nat) && n
            == uleb_wire(v as nat).len(),
        r is Err ==> v > u32::MAX && final(out)@ == old(out)@,
        r matches Err(e) ==> e is Invalid,
        old(out)@.is_prefix_of(final(out)@),
{
    if v > u32::MAX as u64 {
        assert(old(out)@.is_prefix_of(old(out)@));
        return Err(WasmError::Invalid(
            "unsigned value does not fit the 32-bit cap of the format".to_string(),
        ));
    }
    let before = out.len();
    uleb_encode(v as u32, out);
    proof {
        lemma_pow128_5();
        lemma_uleb_wire_len(v as nat, 5);
    }
    Ok(out.len() - before)
}


/// Exact model of signed LEB128 decoding: 7 data bits per byte, least
/// significant first; in the last byte, bit 6 is the sign. As with the
/// unsigned form, encodings longer than `budget` bytes (five for 32 bits,
/// ten for 64) are rejected even when redundant sign-extension bytes would
/// keep the value in range.
pub open spec fn sleb_dec(s: Seq<u8>, budget: nat) -> SpecDec<int>
    decreases s.len(),
{
    if s.len() == 0 {
        SpecDec::Eof
    } else if budget == 0 {
        SpecDec::Bad
    } else {
        let b = s[0];
        if b < 128 {
            if b < 64 {
                SpecDec::Found(b as int, 1)
            } else {
                SpecDec::Found(b - 128, 1)
            }
        } else {
            match sleb_dec(s.skip(1), (budget - 1) as nat) {
                SpecDec::Found(v, n) => SpecDec::Found((b - 128) + 128 * v, n + 1),
                SpecDec::Eof => SpecDec::Eof,
                SpecDec::Bad => SpecDec::Bad,
            }
        }
    }
}

/// The canonical signed LEB128 encoding of `v`.
pub open spec fn sleb_wire(v: int) -> Seq<u8>
    decreases vstd::math::abs(v),
{
    if -64 <= v < 64 {
        if v >= 0 {
            seq![v as u8]
        } else {
            seq![(v + 128) as u8]
        }
    } else {
        let low = v % 128;
        seq![(low + 128) as u8] + sleb_wire((v - low) / 128)
    }
}

/// A decoded signed value is bounded by what its bytes can carry, and no more
/// bytes are consumed than the input holds or the budget allows.
pub proof fn lemma_sleb_dec_bounds(s: Seq<u8>, budget: nat)
    ensures
        sleb_dec(s, budget) matches SpecDec::Found(v, n) ==> 1 <= n <= s.len() && n <= budget && -(
        pow128(n) as int) <= v < pow128(n) as int,
    decreases s.len(),
{
    if s.len() > 0 && budget > 0 {
        let b = s[0];
        if b < 128 {
            assert(pow128(1) == 128 * pow128(0));
        } else {
            lemma_sleb_dec_bounds(s.skip(1), (budget - 1) as nat);
            if let SpecDec::Found(v, n) = sleb_dec(s.skip(1), (budget - 1) as nat) {
                let low = b - 128;
                assert(pow128(n + 1) == 128 * pow128(n));
                assert(-(pow128(n + 1) as int) <= low + 128 * v < pow128(n + 1) as int)
                    by (nonlinear_arith)
                    requires
                        0 <= low < 128,
                        pow128(n + 1) == 128 * pow128(n),
                        -(pow128(n) as int) <= v < pow128(n) as int,
                ;
            }
        }
    }
}

/// The canonical encoding of a decoded signed value is never longer than the
/// bytes it was decoded from.
pub proof fn lemma_sleb_dec_minimal(s: Seq<u8>, budget: nat)
    ensures
        sleb_dec(s, budget) matches SpecDec::Found(v, n) ==> sleb_wire(v).len() <= n,
    decreases s.len(),
{
    if s.len() > 0 && budget > 0 {
        let b = s[0];
        if b >= 128 {
            lemma_sleb_dec_minimal(s.skip(1), (budget - 1) as nat);
            if let SpecDec::Found(hi, m) = sleb_dec(s.skip(1), (budget - 1) as nat) {
                let low = (b - 128) as int;
                let v = low + 128 * hi;
                if !(-64 <= v < 64) {
                    assert(v % 128 == low && (v - low) / 128 == hi) by {
                        vstd::arithmetic::div_mod::lemma_fundamental_div_mod_converse(
                            v,
                            128,
                            hi,
                            low,
                        );
                    }
                }
            }
        }
    }
}

/// How many signed values `k` bytes can carry: the last byte gives 6 data
/// bits plus the sign.
pub open spec fn sleb_cap(k: nat) -> int
    recommends
        k >= 1,
{
    64 * pow128((k - 1) as nat) as int
}

/// The canonical signed encoding of a value within `sleb_cap(k)` takes at
/// most `k` bytes, and always at least one.
pub proof fn lemma_sleb_wire_len(v: int, k: nat)
    requires
        1 <= k,
        -sleb_cap(k) <= v < sleb_cap(k),
    ensures
        1 <= sleb_wire(v).len() <= k,
    decreases k,
{
    if !(-64 <= v < 64) {
        let low = v % 128;
        let hi = (v - low) / 128;
        vstd::arithmetic::div_mod::lemma_fundamental_div_mod(v, 128);
        assert(k >= 2);
        assert(sleb_cap(k) == 64 * (128 * pow128((k - 2) as nat)));
        assert(-sleb_cap((k - 1) as nat) <= hi < sleb_cap((k - 1) as nat)) by (nonlinear_arith)
            requires
                v == 128 * hi + low,
                0 <= low < 128,
                -(64 * (128 * pow128((k - 2) as nat))) <= v < 64 * (128 * pow128((k - 2) as nat)),
                sleb_cap((k - 1) as nat) == 64 * pow128((k - 2) as nat),
        ;
        lemma_sleb_wire_len(hi, (k - 1) as nat);
    }
}

/// Round trip: the canonical signed encoding of `v`, followed by anything,
/// decodes back to `v`, consuming exactly the encoding.
pub proof fn lemma_sleb_round_trip(v: int, rest: Seq<u8>, budget: nat)
    requires
        sleb_wire(v).len() <= budget,
    ensures
        sleb_dec(sleb_wire(v) + rest, budget) == SpecDec::Found(v, sleb_wire(v).len()),
    decreases vstd::math::abs(v),
{
    let s = sleb_wire(v) + rest;
    if -64 <= v < 64 {
        assert(s[0] == sleb_wire(v)[0]);
    } else {
        let low = v % 128;
        let hi = (v - low) / 128;
        vstd::arithmetic::div_mod::lemma_fundamental_div_mod(v, 128);
        assert(s[0] == (low + 128) as u8);
        assert(s.skip(1) =~= sleb_wire(hi) + rest);
        lemma_sleb_round_trip(hi, rest, (budget - 1) as nat);
        assert(low + 128 * hi == v);
    }
}

/// `pow128(9)`, the reach of nine LEB128 bytes: 63 bits.
pub proof fn lemma_pow128_9()
    ensures
        pow128(9) == 0x8000_0000_0000_0000,
{
    lemma_pow128_5();
    assert(pow128(6) == 0x400_0000_0000);
    assert(pow128(7) == 0x2_0000_0000_0000);
    assert(pow128(8) == 0x100_0000_0000_0000);
    assert(pow128(9) == 0x8000_0000_0000_0000);
}

/// `pow128(10)`, the reach of ten LEB128 bytes: 70 bits.
pub proof fn lemma_pow128_10()
    ensures
        pow128(10) == 0x40_0000_0000_0000_0000,
{
    lemma_pow128_9();
    assert(pow128(10) == 0x40_0000_0000_0000_0000);
}

/// Decode a signed LEB128 value of at most `budget` bytes, starting at `pos`.
/// The caller checks the range of the result against its own width.
pub fn sleb_decode(bytes: &Vec<u8>, pos: usize, budget: u32) -> (r: Result<(i128, usize), WasmError>)
    requires
        pos <= bytes.len(),
        budget <= 10,
    ensures
        match sleb_dec(bytes@.skip(pos as int), budget as nat) {
            SpecDec::Found(v, n) => r matches Ok((rv, rn)) && rv as int == v && rn == pos + n,
            SpecDec::Eof => r matches Err(e) && e is Eof,
            SpecDec::Bad => r matches Err(e) && e is Invalid,
        },
    decreases bytes.len() - pos,
{
    let ghost s = bytes@.skip(pos as int);
    if pos >= bytes.len() {
        return Err(WasmError::Eof);
    }
    let b = bytes[pos];
    assert(b == s[0]);
    if budget == 0 {
        return Err(WasmError::Invalid("signed leb128 encoding is too long".to_string()));
    }
    if b < 128 {
        if b < 64 {
            Ok((b as i128, pos + 1))
        } else {
            Ok((b as i128 - 128, pos + 1))
        }
    } else {
        proof {
            assert(s.skip(1) =~= bytes@.skip(pos + 1));
        }
        match sleb_decode(bytes, pos + 1, budget - 1) {
            Ok((v, np)) => {
                proof {
                    lemma_sleb_dec_bounds(s.skip(1), (budget - 1) as nat);
                    lemma_pow128_10();
                    if let SpecDec::Found(sv, sn) = sleb_dec(s.skip(1), (budget - 1) as nat) {
                        assert(pow128(sn) <= pow128(10)) by {
                            lemma_pow128_mono(sn, 10);
                        }
                    }
                }
                Ok(((b - 128) as i128 + 128 * v, np))
            },
            Err(e) => Err(e),
        }
    }
}

/// `pow128` grows with its argument.
pub proof fn lemma_pow128_mono(a: nat, b: nat)
    requires
        a <= b,
    ensures
        pow128(a) <= pow128(b),
    decreases b,
{
    if a < b {
        lemma_pow128_mono(a, (b - 1) as nat);
        assert(pow128(b) == 128 * pow128((b - 1) as nat));
    }
}

/// Append the canonical signed LEB128 encoding of `v` to `out`.
pub fn sleb_encode(v: i128, out: &mut Vec<u8>)
    requires
        -0x8000_0000_0000_0000 <= v <= 0x7fff_ffff_ffff_ffff,
    ensures
        final(out)@ == old(out)@ + sleb_wire(v as int),
    decreases (if v < 0 { -v as int } else { v as int }),
{
    if -64 <= v && v < 64 {
        if v >= 0 {
            out.push(v as u8);
        } else {
            out.push((v + 128) as u8);
        }
        assert(out@ =~= old(out)@ + sleb_wire(v as int));
    } else {
        let m = v % 128;
        let low = if m < 0 {
            m + 128
        } else {
            m
        };
        proof {
            assert(low == (v as int) % 128);
            vstd::arithmetic::div_mod::lemma_fundamental_div_mod(v as int, 128);
        }
        out.push((low + 128) as u8);
        sleb_encode((v - low) / 128, out);
        assert(out@ =~= old(out)@ + sleb_wire(v as int));
    }
}

} // verus!
