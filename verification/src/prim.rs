//! Primitive wire codec: fixed-width integers and length-prefixed byte
//! strings under a selectable byte order, plus the decimal rendering of ids
//! that the pattern selector matches against.
//!
//! Every multi-byte value on the wire honours an explicit [`Endianness`]
//! argument; the file stores that choice once per file, not per field.

use vstd::prelude::*;

verus! {

use vstd::utf8::valid_utf8;
use vstd::utf8::partial_valid_utf8;
use vstd::utf8::partial_valid_utf8_extend_ascii_block;
use vstd::slice::slice_subrange;
use vstd::slice::slice_to_vec;
use crate::error::KfmError;

/// The byte order under which every multi-byte field of one file is coded.
#[derive(Clone, Copy, PartialEq, Eq, Structural, Debug)]
pub enum Endianness {
    Little,
    Big,
}

/// The suffix of `s` from `pos` on: what remains to be decoded.
pub open spec fn tail(s: Seq<u8>, pos: int) -> Seq<u8> {
    s.subrange(pos, s.len() as int)
}

/// The suffix from `b` is the suffix from `a` with the first `b - a` bytes
/// dropped.
pub proof fn tail_shift(s: Seq<u8>, a: int, b: int)
    requires
        0 <= a <= b <= s.len(),
    ensures
        tail(s, a).skip(b - a) == tail(s, b),
{
    assert(tail(s, a).skip(b - a) =~= tail(s, b));
}

pub broadcast proof fn lemma_tail_tail(s: Seq<u8>, a: int, b: int)
    requires
        0 <= a,
        0 <= b,
        a + b <= s.len(),
    ensures
        #[trigger] tail(tail(s, a), b) == tail(s, a + b),
{
    assert(tail(tail(s, a), b) =~= tail(s, a + b));
}

// ---------------------------------------------------------------------------
// u8
// ---------------------------------------------------------------------------

pub fn write_u8(out: &mut Vec<u8>, v: u8)
    ensures
        final(out)@ == old(out)@ + seq![v],
{
    out.push(v);
    assert(final(out)@ =~= old(out)@ + seq![v]);
}

// ---------------------------------------------------------------------------
// u32
// ---------------------------------------------------------------------------

/// The number carried by four bytes, least significant first.
pub closed spec fn u32_le(b0: u8, b1: u8, b2: u8, b3: u8) -> u32 {
    (b0 as u32) | ((b1 as u32) << 8) | ((b2 as u32) << 16) | ((b3 as u32) << 24)
}

pub closed spec fn u32_of_bytes(b0: u8, b1: u8, b2: u8, b3: u8, en: Endianness) -> u32 {
    match en {
        Endianness::Little => u32_le(b0, b1, b2, b3),
        Endianness::Big => u32_le(b3, b2, b1, b0),
    }
}

/// The four bytes of `x`, least significant first.
pub closed spec fn u32_bytes_le(x: u32) -> Seq<u8> {
    seq![
        (x & 0xff) as u8,
        ((x >> 8) & 0xff) as u8,
        ((x >> 16) & 0xff) as u8,
        ((x >> 24) & 0xff) as u8,
    ]
}

pub closed spec fn u32_bytes(x: u32, en: Endianness) -> Seq<u8> {
    match en {
        Endianness::Little => u32_bytes_le(x),
        Endianness::Big => seq![
            ((x >> 24) & 0xff) as u8,
            ((x >> 16) & 0xff) as u8,
            ((x >> 8) & 0xff) as u8,
            (x & 0xff) as u8,
        ],
    }
}

pub closed spec fn dec_u32(s: Seq<u8>, en: Endianness) -> Option<(u32, int)> {
    if s.len() >= 4 {
        Some((u32_of_bytes(s[0], s[1], s[2], s[3], en), 4int))
    } else {
        None
    }
}

pub broadcast proof fn lemma_u32_bytes_len(x: u32, en: Endianness)
    ensures
        #[trigger] u32_bytes(x, en).len() == 4,
{
}

/// Recomposing the four bytes of `x` gives `x` back.
pub proof fn lemma_u32_bytes_roundtrip(x: u32, en: Endianness)
    ensures
        u32_bytes(x, en).len() == 4,
        u32_of_bytes(
            u32_bytes(x, en)[0],
            u32_bytes(x, en)[1],
            u32_bytes(x, en)[2],
            u32_bytes(x, en)[3],
            en,
        ) == x,
{
    assert(((x & 0xff) as u8) as u32 == (x & 0xff)) by (bit_vector);
    assert((((x >> 8) & 0xff) as u8) as u32 == ((x >> 8) & 0xff)) by (bit_vector);
    assert((((x >> 16) & 0xff) as u8) as u32 == ((x >> 16) & 0xff)) by (bit_vector);
    assert((((x >> 24) & 0xff) as u8) as u32 == ((x >> 24) & 0xff)) by (bit_vector);
    assert((x & 0xff) | (((x >> 8) & 0xff) << 8) | (((x >> 16) & 0xff) << 16) | (((x >> 24)
        & 0xff) << 24) == x) by (bit_vector);
}

pub fn read_u32(inp: &[u8], pos: usize, en: Endianness) -> (r: Result<(u32, usize), KfmError>)
    requires
        pos <= inp@.len(),
    ensures
        match dec_u32(tail(inp@, pos as int), en) {
            Some((v, n)) => r matches Ok((rv, rp)) && rv == v && rp == pos + n && pos <= rp && rp
                <= inp@.len(),
            None => r matches Err(e) && e == KfmError::Format,
        },
{
    if inp.len() - pos < 4 {
        return Err(KfmError::Format);
    }
    let b0 = inp[pos];
    let b1 = inp[pos + 1];
    let b2 = inp[pos + 2];
    let b3 = inp[pos + 3];
    let v: u32 = match en {
        Endianness::Little => (b0 as u32) | ((b1 as u32) << 8) | ((b2 as u32) << 16) | ((
        b3 as u32) << 24),
        Endianness::Big => (b3 as u32) | ((b2 as u32) << 8) | ((b1 as u32) << 16) | ((
        b0 as u32) << 24),
    };
    Ok((v, pos + 4))
}

pub fn write_u32(out: &mut Vec<u8>, x: u32, en: Endianness)
    ensures
        final(out)@ == old(out)@ + u32_bytes(x, en),
{
    let b0 = (x & 0xff) as u8;
    let b1 = ((x >> 8) & 0xff) as u8;
    let b2 = ((x >> 16) & 0xff) as u8;
    let b3 = ((x >> 24) & 0xff) as u8;
    proof {
        assert(x & 0xff < 256 && (x >> 8) & 0xff < 256 && (x >> 16) & 0xff < 256 && (x >> 24)
            & 0xff < 256) by (bit_vector);
    }
    match en {
        Endianness::Little => {
            out.push(b0);
            out.push(b1);
            out.push(b2);
            out.push(b3);
        },
        Endianness::Big => {
            out.push(b3);
            out.push(b2);
            out.push(b1);
            out.push(b0);
        },
    }
    assert(final(out)@ =~= old(out)@ + u32_bytes(x, en));
}

// ---------------------------------------------------------------------------
// i32 (stored as its two's-complement u32 image)
// ---------------------------------------------------------------------------

pub open spec fn i32_bytes(x: i32, en: Endianness) -> Seq<u8> {
    u32_bytes(x as u32, en)
}

pub open spec fn dec_i32(s: Seq<u8>, en: Endianness) -> Option<(i32, int)> {
    match dec_u32(s, en) {
        Some((v, n)) => Some((v as i32, n)),
        None => None,
    }
}

pub proof fn lemma_i32_u32_roundtrip(x: i32)
    ensures
        (x as u32) as i32 == x,
{
    assert((x as u32) as i32 == x) by (bit_vector);
}

pub proof fn lemma_u32_i32_roundtrip(v: u32)
    ensures
        (v as i32) as u32 == v,
{
    assert((v as i32) as u32 == v) by (bit_vector);
}

pub fn read_i32(inp: &[u8], pos: usize, en: Endianness) -> (r: Result<(i32, usize), KfmError>)
    requires
        pos <= inp@.len(),
    ensures
        match dec_i32(tail(inp@, pos as int), en) {
            Some((v, n)) => r matches Ok((rv, rp)) && rv == v && rp == pos + n && pos <= rp && rp
                <= inp@.len(),
            None => r matches Err(e) && e == KfmError::Format,
        },
{
    match read_u32(inp, pos, en) {
        Ok((v, rp)) => Ok((v as i32, rp)),
        Err(e) => Err(e),
    }
}

pub fn write_i32(out: &mut Vec<u8>, x: i32, en: Endianness)
    ensures
        final(out)@ == old(out)@ + i32_bytes(x, en),
{
    write_u32(out, x as u32, en);
}

// ---------------------------------------------------------------------------
// length-prefixed byte strings
// ---------------------------------------------------------------------------

/// All bytes are ASCII: the only strings the wire format can carry.
pub open spec fn is_ascii_bytes(b: Seq<u8>) -> bool {
    forall|i: int| 0 <= i < b.len() ==> b[i] < 0x80
}

/// A string can be written: ASCII only, and short enough for a 4-byte count.
pub closed spec fn str_enc_ok(b: Seq<u8>) -> bool {
    b.len() <= 0xffff_ffff && is_ascii_bytes(b)
}

/// A 4-byte byte count followed by the raw bytes.
pub closed spec fn enc_str(b: Seq<u8>, en: Endianness) -> Seq<u8> {
    u32_bytes(b.len() as u32, en) + b
}

/// The bytes form well-formed UTF-8. Kept opaque outside this module: the
/// callers only ever need that ASCII implies it.
pub closed spec fn utf8_ok_bytes(b: Seq<u8>) -> bool {
    valid_utf8(b)
}

pub broadcast proof fn lemma_enc_str_len(b: Seq<u8>, en: Endianness)
    ensures
        #[trigger] enc_str(b, en).len() == 4 + b.len(),
{
}

/// What can be written: ASCII only, and short enough for its 4-byte count.
pub proof fn lemma_str_enc_ok(b: Seq<u8>)
    ensures
        str_enc_ok(b) <==> b.len() <= 0xffff_ffff && is_ascii_bytes(b),
{
}

/// Reads the declared count of bytes; they must be present and must form
/// valid UTF-8 (a strict superset of the ASCII the format legally carries).
pub closed spec fn dec_str(s: Seq<u8>, en: Endianness) -> Option<(Seq<u8>, int)> {
    match dec_u32(s, en) {
        None => None,
        Some((len, n)) => {
            if s.len() - n < len {
                None
            } else {
                let b = s.subrange(n, n + len);
                if utf8_ok_bytes(b) {
                    Some((b, n + len))
                } else {
                    None
                }
            }
        },
    }
}

/// An all-ASCII byte sequence is valid UTF-8.
pub proof fn lemma_ascii_valid_utf8(b: Seq<u8>)
    requires
        is_ascii_bytes(b),
    ensures
        utf8_ok_bytes(b),
{
    assert(b.subrange(0, 0) =~= Seq::<u8>::empty());
    assert(partial_valid_utf8(b, 0));
    partial_valid_utf8_extend_ascii_block(b, 0, b.len() as int);
    assert(b.subrange(0, b.len() as int) =~= b);
}

/// Relies on `core::str::from_utf8`: it succeeds exactly on input that is
/// well-formed UTF-8.
#[verifier::external_body]
fn utf8_check(b: &[u8]) -> (r: bool)
    ensures
        r == utf8_ok_bytes(b@),
{
    core::str::from_utf8(b).is_ok()
}

pub fn read_str(inp: &[u8], pos: usize, en: Endianness) -> (r: Result<
    (Vec<u8>, usize),
    KfmError,
>)
    requires
        pos <= inp@.len(),
    ensures
        match dec_str(tail(inp@, pos as int), en) {
            Some((b, n)) => r matches Ok((rb, rp)) && rb@ == b && rp == pos + n && pos <= rp && rp
                <= inp@.len(),
            None => r matches Err(e) && e == KfmError::Format,
        },
{
    let (len, p1) = match read_u32(inp, pos, en) {
        Ok(v) => v,
        Err(e) => {
            return Err(e);
        },
    };
    let len: usize = len as usize;
    if inp.len() - p1 < len {
        return Err(KfmError::Format);
    }
    let body = slice_subrange(inp, p1, p1 + len);
    proof {
        assert(body@ =~= tail(inp@, pos as int).subrange(4, 4 + len as int));
    }
    if !utf8_check(body) {
        return Err(KfmError::Format);
    }
    let v = slice_to_vec(body);
    Ok((v, p1 + len))
}

pub fn write_str(out: &mut Vec<u8>, b: &Vec<u8>, en: Endianness) -> (r: Result<(), KfmError>)
    ensures
        match r {
            Ok(()) => str_enc_ok(b@) && final(out)@ == old(out)@ + enc_str(b@, en),
            Err(e) => !str_enc_ok(b@) && e == KfmError::Encoding && final(out)@ == old(out)@,
        },
{
    if b.len() > u32::MAX as usize {
        return Err(KfmError::Encoding);
    }
    let mut i: usize = 0;
    while i < b.len()
        invariant
            0 <= i <= b@.len(),
            forall|j: int| 0 <= j < i ==> b@[j] < 0x80,
        decreases b@.len() - i,
    {
        if b[i] >= 0x80 {
            return Err(KfmError::Encoding);
        }
        i = i + 1;
    }
    write_u32(out, b.len() as u32, en);
    out.extend_from_slice(b.as_slice());
    assert(final(out)@ =~= old(out)@ + enc_str(b@, en));
    Ok(())
}

pub proof fn lemma_rt_u32(x: u32, rest: Seq<u8>, en: Endianness)
    ensures
        dec_u32(u32_bytes(x, en) + rest, en) == Some((x, 4int)),
{
    lemma_u32_bytes_roundtrip(x, en);
    let s = u32_bytes(x, en) + rest;
    assert(s[0] == u32_bytes(x, en)[0]);
    assert(s[1] == u32_bytes(x, en)[1]);
    assert(s[2] == u32_bytes(x, en)[2]);
    assert(s[3] == u32_bytes(x, en)[3]);
}

pub proof fn lemma_rt_i32(x: i32, rest: Seq<u8>, en: Endianness)
    ensures
        dec_i32(i32_bytes(x, en) + rest, en) == Some((x, 4int)),
{
    lemma_rt_u32(x as u32, rest, en);
    lemma_i32_u32_roundtrip(x);
}

pub proof fn lemma_rt_str(b: Seq<u8>, rest: Seq<u8>, en: Endianness)
    requires
        str_enc_ok(b),
    ensures
        dec_str(enc_str(b, en) + rest, en) == Some((b, 4 + b.len() as int)),
{
    let s = enc_str(b, en) + rest;
    assert(s =~= u32_bytes(b.len() as u32, en) + (b + rest));
    lemma_rt_u32(b.len() as u32, b + rest, en);
    assert(b.len() as u32 == b.len());
    assert(s.subrange(4, 4 + b.len() as int) =~= b);
    lemma_ascii_valid_utf8(b);
}

// ---------------------------------------------------------------------------
// decimal rendering of ids
// ---------------------------------------------------------------------------

/// The decimal digits of `n`, most significant first, no leading zeros
/// (a single `'0'` for zero).
pub open spec fn decimal_seq(n: nat) -> Seq<u8>
    decreases n,
{
    if n < 10 {
        seq![(48 + n) as u8]
    } else {
        decimal_seq(n / 10).push((48 + n % 10) as u8)
    }
}

/// Appends the decimal digits of `n` to `out`.
pub fn push_decimal(n: u32, out: &mut Vec<u8>)
    ensures
        final(out)@ == old(out)@ + decimal_seq(n as nat),
    decreases n,
{
    if n < 10 {
        out.push(48 + n as u8);
        assert(final(out)@ =~= old(out)@ + decimal_seq(n as nat));
    } else {
        push_decimal(n / 10, out);
        out.push(48 + (n % 10) as u8);
        assert(final(out)@ =~= old(out)@ + decimal_seq(n as nat));
    }
}

} // verus!
