//! Canonical binary encoding.
//!
//! Signatures are only meaningful if every node derives byte-identical
//! preimages from the same event, so the encoding is canonical: one value,
//! one representation. The format is postcard's: unsigned integers of two
//! bytes and more as LEB128 varints, single bytes as themselves, byte strings
//! and text as a varint length and then the bytes, sequences as a varint
//! count and then the items, options as a tag byte, and enum variants as a
//! varint index followed by the fields.
//!
//! This file holds the building blocks: each comes as an encoder, a decoder,
//! a specification of both, and a proof that decoding an encoding gives the
//! value back and consumes exactly the encoding.

use vstd::prelude::*;
use vstd::utf8::{decode_utf8, encode_utf8, valid_utf8};

use crate::text::string_from_utf8;

verus! {

broadcast use {vstd::utf8::encode_utf8_valid_utf8, vstd::utf8::encode_utf8_decode_utf8};

/// Why bytes failed to decode.
#[derive(Clone, Copy, Debug, PartialEq, Eq, Structural)]
pub enum DecodeError {
    /// The input ended in the middle of a value.
    UnexpectedEnd,
    /// A varint ran past the width of its type.
    BadVarint,
    /// An option tag other than 0 or 1.
    BadOption,
    /// Text that is not valid UTF-8.
    BadUtf8,
    /// A value the type does not accept: an unknown enum variant, or an
    /// identifier or signature of the wrong length.
    Custom,
}

/// Errors from [`from_canonical`]-style decoding of a whole buffer.
#[derive(Clone, Copy, Debug, PartialEq, Eq, Structural)]
pub enum CodecError {
    Decode(DecodeError),
    /// This many bytes were left over after a complete value.
    TrailingBytes(usize),
}

// -- varints ----------------------------------------------------------------

/// LEB128: seven bits per byte, least significant first, the high bit set on
/// every byte but the last.
pub open spec fn varint(n: nat) -> Seq<u8>
    decreases n,
{
    if n < 128 {
        seq![n as u8]
    } else {
        seq![(n % 128 + 128) as u8] + varint(n / 128)
    }
}

/// Reads a varint of at most `max` bytes whose last byte may be at most
/// `last_max`, exactly as postcard does: a varint that is still going after
/// `max` bytes, or whose final byte is too large, is refused.
pub open spec fn take_varint(b: Seq<u8>, max: nat, last_max: int) -> Result<(int, nat), DecodeError>
    decreases max,
{
    if max == 0 {
        Err(DecodeError::BadVarint)
    } else if b.len() == 0 {
        Err(DecodeError::UnexpectedEnd)
    } else if b[0] < 128 {
        if max == 1 && b[0] > last_max {
            Err(DecodeError::BadVarint)
        } else {
            Ok((b[0] as int, 1))
        }
    } else {
        match take_varint(b.drop_first(), (max - 1) as nat, last_max) {
            Ok((v, n)) => Ok((b[0] - 128 + 128 * v, n + 1)),
            Err(e) => Err(e),
        }
    }
}

/// The largest value plus one that `take_varint` can produce.
pub open spec fn varint_bound(max: nat, last_max: int) -> int
    decreases max,
{
    if max <= 1 {
        last_max + 1
    } else {
        128 * varint_bound((max - 1) as nat, last_max)
    }
}

pub open spec fn take_u64(b: Seq<u8>) -> Result<(u64, nat), DecodeError> {
    match take_varint(b, 10, 1) {
        Ok((v, n)) => Ok((v as u64, n)),
        Err(e) => Err(e),
    }
}

pub open spec fn take_u32(b: Seq<u8>) -> Result<(u32, nat), DecodeError> {
    match take_varint(b, 5, 15) {
        Ok((v, n)) => Ok((v as u32, n)),
        Err(e) => Err(e),
    }
}

pub open spec fn take_u16(b: Seq<u8>) -> Result<(u16, nat), DecodeError> {
    match take_varint(b, 3, 3) {
        Ok((v, n)) => Ok((v as u16, n)),
        Err(e) => Err(e),
    }
}

proof fn lemma_varint_bound_pos(max: nat, last_max: int)
    requires
        last_max >= 0,
    ensures
        varint_bound(max, last_max) >= 1,
        max >= 2 ==> varint_bound(max, last_max) >= 128,
    decreases max,
{
    if max > 1 {
        lemma_varint_bound_pos((max - 1) as nat, last_max);
    }
}

/// What `take_varint` produces is below its bound and consumes at most
/// `max` bytes of the input.
pub proof fn lemma_take_varint_range(b: Seq<u8>, max: nat, last_max: int)
    requires
        last_max >= 0,
    ensures
        take_varint(b, max, last_max) matches Ok((v, n)) ==> 0 <= v < varint_bound(max, last_max)
            && 1 <= n <= max && n <= b.len(),
    decreases max,
{
    lemma_varint_bound_pos(max, last_max);
    if max > 0 && b.len() > 0 && b[0] >= 128 {
        lemma_take_varint_range(b.drop_first(), (max - 1) as nat, last_max);
        lemma_varint_bound_pos((max - 1) as nat, last_max);
    }
}

pub proof fn lemma_varint_bounds()
    ensures
        varint_bound(10, 1) == 0x1_0000_0000_0000_0000,
        varint_bound(5, 15) == 0x1_0000_0000,
        varint_bound(3, 3) == 0x1_0000,
{
    reveal_with_fuel(varint_bound, 10);
}

/// The encoding of a value below the bound reads back as that value and
/// nothing more, whatever follows it.
pub proof fn lemma_varint_roundtrip(n: nat, rest: Seq<u8>, max: nat, last_max: int)
    requires
        n < varint_bound(max, last_max),
        max >= 1,
        0 <= last_max < 128,
    ensures
        take_varint(varint(n) + rest, max, last_max) == Ok::<(int, nat), DecodeError>((n as int, varint(n).len())),
    decreases n,
{
    lemma_varint_bound_pos(max, last_max);
    let b = varint(n) + rest;
    if n < 128 {
        assert(b[0] == n as u8);
        if max == 1 {
            assert(varint_bound(max, last_max) == last_max + 1);
            assert(n <= last_max);
        }
    } else {
        if max <= 1 {
            assert(varint_bound(max, last_max) == last_max + 1);
            assert(false);
        }
        let bound = varint_bound((max - 1) as nat, last_max);
        assert(varint_bound(max, last_max) == 128 * bound);
        assert(n / 128 < bound) by (nonlinear_arith)
            requires
                n < 128 * bound,
        ;
        lemma_varint_roundtrip(n / 128, rest, (max - 1) as nat, last_max);
        assert(b.drop_first() =~= varint(n / 128) + rest);
        assert(b[0] == (n % 128 + 128) as u8);
    }
}

/// Appends the varint encoding of `n`.
pub fn put_varint(out: &mut Vec<u8>, n: u64)
    ensures
        final(out)@ == old(out)@ + varint(n as nat),
    decreases n,
{
    if n < 128 {
        out.push(n as u8);
        assert(varint(n as nat) =~= seq![n as u8]);
    } else {
        let ghost before = out@;
        out.push((n % 128 + 128) as u8);
        put_varint(out, n / 128);
        assert(out@ =~= before + varint(n as nat));
    }
}

/// Reads a varint at `pos`, as [`take_varint`] specifies.
fn read_varint(b: &[u8], pos: usize, max: usize, last_max: u8) -> (r: Result<(u64, usize), DecodeError>)
    requires
        pos <= b@.len(),
        max <= 10,
        varint_bound(max as nat, last_max as int) <= 0x1_0000_0000_0000_0000,
    ensures
        match r {
            Ok((v, p)) => take_varint(b@.skip(pos as int), max as nat, last_max as int)
                == Ok::<(int, nat), DecodeError>((v as int, (p - pos) as nat)) && pos < p <= b@.len(),
            Err(e) => take_varint(b@.skip(pos as int), max as nat, last_max as int) == Err::<(int, nat), DecodeError>(e),
        },
    decreases max,
{
    if max == 0 {
        return Err(DecodeError::BadVarint);
    }
    if pos >= b.len() {
        return Err(DecodeError::UnexpectedEnd);
    }
    let byte = b[pos];
    if byte < 128 {
        if max == 1 && byte > last_max {
            return Err(DecodeError::BadVarint);
        }
        return Ok((byte as u64, pos + 1));
    }
    proof {
        lemma_varint_bound_pos((max - 1) as nat, last_max as int);
        assert(b@.skip(pos as int).drop_first() =~= b@.skip(pos + 1));
    }
    match read_varint(b, pos + 1, max - 1, last_max) {
        Ok((v, p)) => {
            proof {
                lemma_take_varint_range(b@.skip(pos + 1), (max - 1) as nat, last_max as int);
            }
            Ok(((byte - 128) as u64 + 128 * v, p))
        },
        Err(e) => Err(e),
    }
}

/// Reads a `u64`.
pub fn read_u64(b: &[u8], pos: usize) -> (r: Result<(u64, usize), DecodeError>)
    requires
        pos <= b@.len(),
    ensures
        agrees_u64(r, pos, take_u64(b@.skip(pos as int)), b@.len()),
{
    proof {
        lemma_varint_bounds();
        lemma_take_varint_range(b@.skip(pos as int), 10, 1);
    }
    read_varint(b, pos, 10, 1)
}

/// Reads a `u32`.
pub fn read_u32(b: &[u8], pos: usize) -> (r: Result<(u32, usize), DecodeError>)
    requires
        pos <= b@.len(),
    ensures
        match r {
            Ok((v, p)) => take_u32(b@.skip(pos as int)) == Ok::<(u32, nat), DecodeError>((v, (p - pos) as nat)) && pos < p <= b@.len(),
            Err(e) => take_u32(b@.skip(pos as int)) == Err::<(u32, nat), DecodeError>(e),
        },
{
    proof {
        lemma_varint_bounds();
        lemma_take_varint_range(b@.skip(pos as int), 5, 15);
    }
    match read_varint(b, pos, 5, 15) {
        Ok((v, p)) => Ok((v as u32, p)),
        Err(e) => Err(e),
    }
}

/// Reads a `u16`.
pub fn read_u16(b: &[u8], pos: usize) -> (r: Result<(u16, usize), DecodeError>)
    requires
        pos <= b@.len(),
    ensures
        match r {
            Ok((v, p)) => take_u16(b@.skip(pos as int)) == Ok::<(u16, nat), DecodeError>((v, (p - pos) as nat)) && pos < p <= b@.len(),
            Err(e) => take_u16(b@.skip(pos as int)) == Err::<(u16, nat), DecodeError>(e),
        },
{
    proof {
        lemma_varint_bounds();
        lemma_take_varint_range(b@.skip(pos as int), 3, 3);
    }
    match read_varint(b, pos, 3, 3) {
        Ok((v, p)) => Ok((v as u16, p)),
        Err(e) => Err(e),
    }
}

/// A decoder's result agrees with the specification of reading a `u64` at
/// `pos`.
pub open spec fn agrees_u64(
    r: Result<(u64, usize), DecodeError>,
    pos: usize,
    s: Result<(u64, nat), DecodeError>,
    len: nat,
) -> bool {
    match r {
        Ok((v, p)) => s == Ok::<(u64, nat), DecodeError>((v, (p - pos) as nat)) && pos < p <= len,
        Err(e) => s == Err::<(u64, nat), DecodeError>(e),
    }
}

pub proof fn lemma_u64_roundtrip(n: u64, rest: Seq<u8>)
    ensures
        take_u64(varint(n as nat) + rest) == Ok::<(u64, nat), DecodeError>((n, varint(n as nat).len())),
{
    lemma_varint_bounds();
    lemma_varint_roundtrip(n as nat, rest, 10, 1);
}

pub proof fn lemma_u32_roundtrip(n: u32, rest: Seq<u8>)
    ensures
        take_u32(varint(n as nat) + rest) == Ok::<(u32, nat), DecodeError>((n, varint(n as nat).len())),
{
    lemma_varint_bounds();
    lemma_varint_roundtrip(n as nat, rest, 5, 15);
}

pub proof fn lemma_u16_roundtrip(n: u16, rest: Seq<u8>)
    ensures
        take_u16(varint(n as nat) + rest) == Ok::<(u16, nat), DecodeError>((n, varint(n as nat).len())),
{
    lemma_varint_bounds();
    lemma_varint_roundtrip(n as nat, rest, 3, 3);
}

// -- byte strings, text, tags ------------------------------------------------

/// A byte string: its length as a varint, then the bytes.
pub open spec fn enc_bytes(s: Seq<u8>) -> Seq<u8> {
    varint(s.len()) + s
}

/// Text: its UTF-8 as a byte string.
pub open spec fn enc_str(s: Seq<char>) -> Seq<u8> {
    enc_bytes(encode_utf8(s))
}

pub open spec fn take_bytes(b: Seq<u8>) -> Result<(Seq<u8>, nat), DecodeError> {
    match take_u64(b) {
        Ok((n, k)) => if k + n <= b.len() {
            Ok((b.subrange(k as int, k + n), (k + n) as nat))
        } else {
            Err(DecodeError::UnexpectedEnd)
        },
        Err(e) => Err(e),
    }
}

/// A byte string that must be exactly `width` long, as identifiers and
/// signatures are.
pub open spec fn take_fixed(b: Seq<u8>, width: nat) -> Result<(Seq<u8>, nat), DecodeError> {
    match take_bytes(b) {
        Ok((s, n)) => if s.len() == width {
            Ok((s, n))
        } else {
            Err(DecodeError::Custom)
        },
        Err(e) => Err(e),
    }
}

pub open spec fn take_str(b: Seq<u8>) -> Result<(Seq<char>, nat), DecodeError> {
    match take_bytes(b) {
        Ok((s, n)) => if valid_utf8(s) {
            Ok((decode_utf8(s), n))
        } else {
            Err(DecodeError::BadUtf8)
        },
        Err(e) => Err(e),
    }
}

/// A single raw byte.
pub open spec fn take_byte(b: Seq<u8>) -> Result<(u8, nat), DecodeError> {
    if b.len() == 0 {
        Err(DecodeError::UnexpectedEnd)
    } else {
        Ok((b[0], 1))
    }
}

/// An option's tag: 0 for none, 1 for some.
pub open spec fn take_option_tag(b: Seq<u8>) -> Result<(bool, nat), DecodeError> {
    if b.len() == 0 {
        Err(DecodeError::UnexpectedEnd)
    } else if b[0] == 0 {
        Ok((false, 1))
    } else if b[0] == 1 {
        Ok((true, 1))
    } else {
        Err(DecodeError::BadOption)
    }
}

pub proof fn lemma_bytes_roundtrip(s: Seq<u8>, rest: Seq<u8>)
    requires
        s.len() < 0x1_0000_0000_0000_0000,
    ensures
        take_bytes(enc_bytes(s) + rest) == Ok::<(Seq<u8>, nat), DecodeError>((s, enc_bytes(s).len())),
{
    let b = enc_bytes(s) + rest;
    lemma_u64_roundtrip(s.len() as u64, s + rest);
    assert(b =~= varint(s.len()) + (s + rest));
    assert(b.subrange(varint(s.len()).len() as int, enc_bytes(s).len() as int) =~= s);
}

pub proof fn lemma_fixed_roundtrip(s: Seq<u8>, rest: Seq<u8>, width: nat)
    requires
        s.len() == width,
        width < 0x1_0000_0000_0000_0000,
    ensures
        take_fixed(enc_bytes(s) + rest, width) == Ok::<(Seq<u8>, nat), DecodeError>((s, enc_bytes(s).len())),
{
    lemma_bytes_roundtrip(s, rest);
}

pub proof fn lemma_str_roundtrip(c: Seq<char>, rest: Seq<u8>)
    requires
        encode_utf8(c).len() < 0x1_0000_0000_0000_0000,
    ensures
        take_str(enc_str(c) + rest) == Ok::<(Seq<char>, nat), DecodeError>((c, enc_str(c).len())),
{
    lemma_bytes_roundtrip(encode_utf8(c), rest);
}

/// Appends a byte string.
pub fn put_bytes(out: &mut Vec<u8>, s: &[u8])
    ensures
        final(out)@ == old(out)@ + enc_bytes(s@),
{
    let ghost before = out@;
    put_varint(out, s.len() as u64);
    out.extend_from_slice(s);
    assert(out@ =~= before + enc_bytes(s@));
}

/// Appends text.
pub fn put_str(out: &mut Vec<u8>, s: &str)
    ensures
        final(out)@ == old(out)@ + enc_str(s@),
{
    put_bytes(out, s.as_bytes());
}

/// Reads a byte string's bounds: it starts at `r.0` and ends before `r.1`.
fn read_bytes(b: &[u8], pos: usize) -> (r: Result<(usize, usize), DecodeError>)
    requires
        pos <= b@.len(),
    ensures
        match r {
            Ok((start, end)) => take_bytes(b@.skip(pos as int)) == Ok::<(Seq<u8>, nat), DecodeError>((
                b@.subrange(start as int, end as int),
                (end - pos) as nat,
            )) && pos < start <= end <= b@.len(),
            Err(e) => take_bytes(b@.skip(pos as int)) == Err::<(Seq<u8>, nat), DecodeError>(e),
        },
{
    let (n, start) = match read_u64(b, pos) {
        Ok(x) => x,
        Err(e) => return Err(e),
    };
    if n as u128 > (b.len() - start) as u128 {
        return Err(DecodeError::UnexpectedEnd);
    }
    let end = start + n as usize;
    assert(b@.skip(pos as int).subrange((start - pos) as int, (end - pos) as int) =~= b@.subrange(start as int, end as int));
    Ok((start, end))
}

/// Reads a 32-byte identifier.
pub fn read_fixed32(b: &[u8], pos: usize) -> (r: Result<([u8; 32], usize), DecodeError>)
    requires
        pos <= b@.len(),
    ensures
        match r {
            Ok((v, p)) => take_fixed(b@.skip(pos as int), 32) == Ok::<(Seq<u8>, nat), DecodeError>((v@, (p - pos) as nat)) && pos < p <= b@.len(),
            Err(e) => take_fixed(b@.skip(pos as int), 32) == Err::<(Seq<u8>, nat), DecodeError>(e),
        },
{
    let (start, end) = match read_bytes(b, pos) {
        Ok(x) => x,
        Err(e) => return Err(e),
    };
    if end - start != 32 {
        return Err(DecodeError::Custom);
    }
    let mut out = [0u8; 32];
    let mut i: usize = 0;
    while i < 32
        invariant
            i <= 32,
            end - start == 32,
            end <= b@.len(),
            forall|j: int| 0 <= j < i ==> out@[j] == b@[start + j],
        decreases 32 - i,
    {
        out[i] = b[start + i];
        i += 1;
    }
    assert(out@ =~= b@.subrange(start as int, end as int));
    Ok((out, end))
}

/// Reads a 64-byte signature.
pub fn read_fixed64(b: &[u8], pos: usize) -> (r: Result<([u8; 64], usize), DecodeError>)
    requires
        pos <= b@.len(),
    ensures
        match r {
            Ok((v, p)) => take_fixed(b@.skip(pos as int), 64) == Ok::<(Seq<u8>, nat), DecodeError>((v@, (p - pos) as nat)) && pos < p <= b@.len(),
            Err(e) => take_fixed(b@.skip(pos as int), 64) == Err::<(Seq<u8>, nat), DecodeError>(e),
        },
{
    let (start, end) = match read_bytes(b, pos) {
        Ok(x) => x,
        Err(e) => return Err(e),
    };
    if end - start != 64 {
        return Err(DecodeError::Custom);
    }
    let mut out = [0u8; 64];
    let mut i: usize = 0;
    while i < 64
        invariant
            i <= 64,
            end - start == 64,
            end <= b@.len(),
            forall|j: int| 0 <= j < i ==> out@[j] == b@[start + j],
        decreases 64 - i,
    {
        out[i] = b[start + i];
        i += 1;
    }
    assert(out@ =~= b@.subrange(start as int, end as int));
    Ok((out, end))
}

/// Reads text.
pub fn read_string(b: &[u8], pos: usize) -> (r: Result<(String, usize), DecodeError>)
    requires
        pos <= b@.len(),
    ensures
        match r {
            Ok((v, p)) => take_str(b@.skip(pos as int)) == Ok::<(Seq<char>, nat), DecodeError>((v@, (p - pos) as nat)) && pos < p <= b@.len(),
            Err(e) => take_str(b@.skip(pos as int)) == Err::<(Seq<char>, nat), DecodeError>(e),
        },
{
    let (start, end) = match read_bytes(b, pos) {
        Ok(x) => x,
        Err(e) => return Err(e),
    };
    let bytes = vstd::slice::slice_to_vec(&b[start..end]);
    match string_from_utf8(bytes) {
        Some(s) => Ok((s, end)),
        None => Err(DecodeError::BadUtf8),
    }
}

/// Reads one raw byte.
pub fn read_byte(b: &[u8], pos: usize) -> (r: Result<(u8, usize), DecodeError>)
    requires
        pos <= b@.len(),
    ensures
        match r {
            Ok((v, p)) => take_byte(b@.skip(pos as int)) == Ok::<(u8, nat), DecodeError>((v, (p - pos) as nat)) && p == pos + 1 && p <= b@.len(),
            Err(e) => take_byte(b@.skip(pos as int)) == Err::<(u8, nat), DecodeError>(e),
        },
{
    if pos >= b.len() {
        return Err(DecodeError::UnexpectedEnd);
    }
    Ok((b[pos], pos + 1))
}

/// Reads an option's tag.
pub fn read_option_tag(b: &[u8], pos: usize) -> (r: Result<(bool, usize), DecodeError>)
    requires
        pos <= b@.len(),
    ensures
        match r {
            Ok((v, p)) => take_option_tag(b@.skip(pos as int)) == Ok::<(bool, nat), DecodeError>((v, (p - pos) as nat)) && p == pos + 1 && p <= b@.len(),
            Err(e) => take_option_tag(b@.skip(pos as int)) == Err::<(bool, nat), DecodeError>(e),
        },
{
    if pos >= b.len() {
        return Err(DecodeError::UnexpectedEnd);
    }
    if b[pos] == 0 {
        Ok((false, pos + 1))
    } else if b[pos] == 1 {
        Ok((true, pos + 1))
    } else {
        Err(DecodeError::BadOption)
    }
}

/// Fails when a complete value did not use up the whole buffer.
pub open spec fn whole<T>(r: Result<(T, nat), DecodeError>, len: nat) -> Result<T, CodecError> {
    match r {
        Ok((v, n)) => if n == len {
            Ok(v)
        } else {
            Err(CodecError::TrailingBytes((len - n) as usize))
        },
        Err(e) => Err(CodecError::Decode(e)),
    }
}

// -- sequences -----------------------------------------------------------------

/// The items of a sequence, each encoded and laid end to end.
pub open spec fn enc_seq<T>(s: Seq<T>, enc: spec_fn(T) -> Seq<u8>) -> Seq<u8>
    decreases s.len(),
{
    if s.len() == 0 {
        seq![]
    } else {
        enc(s[0]) + enc_seq(s.drop_first(), enc)
    }
}

/// A sequence: its length as a varint, then its items.
pub open spec fn enc_list<T>(s: Seq<T>, enc: spec_fn(T) -> Seq<u8>) -> Seq<u8> {
    varint(s.len()) + enc_seq(s, enc)
}

/// Reads `k` items one after another.
pub open spec fn take_seq<T>(
    b: Seq<u8>,
    k: nat,
    dec: spec_fn(Seq<u8>) -> Result<(T, nat), DecodeError>,
) -> Result<(Seq<T>, nat), DecodeError>
    decreases k,
{
    if k == 0 {
        Ok((seq![], 0))
    } else {
        match dec(b) {
            Ok((x, n)) => match take_seq(b.skip(n as int), (k - 1) as nat, dec) {
                Ok((xs, m)) => Ok((seq![x] + xs, n + m)),
                Err(e) => Err(e),
            },
            Err(e) => Err(e),
        }
    }
}

/// Reads a count and then that many items.
pub open spec fn take_list<T>(
    b: Seq<u8>,
    dec: spec_fn(Seq<u8>) -> Result<(T, nat), DecodeError>,
) -> Result<(Seq<T>, nat), DecodeError> {
    match take_u64(b) {
        Ok((k, n)) => match take_seq(b.skip(n as int), k as nat, dec) {
            Ok((xs, m)) => Ok((xs, n + m)),
            Err(e) => Err(e),
        },
        Err(e) => Err(e),
    }
}

/// `r` with `acc` in front of the items it read and `used` bytes in front
/// of what it consumed: how far a loop that reads items one by one has got.
pub open spec fn after<T>(acc: Seq<T>, used: nat, r: Result<(Seq<T>, nat), DecodeError>) -> Result<(Seq<T>, nat), DecodeError> {
    match r {
        Ok((xs, m)) => Ok((acc + xs, used + m)),
        Err(e) => Err(e),
    }
}

/// Encoding one more item extends the encoding of the items before it.
pub proof fn lemma_enc_seq_push<T>(s: Seq<T>, i: int, enc: spec_fn(T) -> Seq<u8>)
    requires
        0 <= i < s.len(),
    ensures
        enc_seq(s.take(i + 1), enc) == enc_seq(s.take(i), enc) + enc(s[i]),
    decreases i,
{
    if i == 0 {
        assert(s.take(1).drop_first() =~= Seq::<T>::empty());
        assert(enc_seq(s.take(0), enc) =~= Seq::<u8>::empty());
        let one = s.take(1);
        assert(one[0] == s[0]);
        assert(enc_seq(one.drop_first(), enc) == Seq::<u8>::empty());
        assert(enc_seq(one, enc) == enc(s[0]) + enc_seq(one.drop_first(), enc));
        assert(enc_seq(one, enc) =~= enc(s[0]));
    } else {
        lemma_enc_seq_push(s.drop_first(), i - 1, enc);
        assert(s.take(i + 1).drop_first() =~= s.drop_first().take(i));
        assert(s.take(i).drop_first() =~= s.drop_first().take(i - 1));
        assert(s.take(i + 1)[0] == s[0]);
        assert(s.take(i)[0] == s[0]);
        assert(enc_seq(s.take(i + 1), enc) =~= enc(s[0]) + enc_seq(s.drop_first().take(i), enc));
        assert(enc_seq(s.take(i), enc) =~= enc(s[0]) + enc_seq(s.drop_first().take(i - 1), enc));
    }
}

/// One step of a reading loop: having read `x` in `n` bytes from where
/// `k` items were still to come.
pub proof fn lemma_take_seq_step<T>(
    b: Seq<u8>,
    k: nat,
    dec: spec_fn(Seq<u8>) -> Result<(T, nat), DecodeError>,
    x: T,
    n: nat,
)
    requires
        k > 0,
        dec(b) == Ok::<(T, nat), DecodeError>((x, n)),
        n <= b.len(),
    ensures
        forall|acc: Seq<T>, used: nat|
            #[trigger] after(acc, used, take_seq(b, k, dec)) == after(
                acc.push(x),
                used + n,
                take_seq(b.skip(n as int), (k - 1) as nat, dec),
            ),
{
    assert forall|acc: Seq<T>, used: nat|
        #[trigger] after(acc, used, take_seq(b, k, dec)) == after(
            acc.push(x),
            used + n,
            take_seq(b.skip(n as int), (k - 1) as nat, dec),
        ) by {
        match take_seq(b.skip(n as int), (k - 1) as nat, dec) {
            Ok((xs, m)) => {
                assert(acc + (seq![x] + xs) =~= acc.push(x) + xs);
            },
            Err(e) => {},
        }
    }
}

/// Decoding the encoding of a sequence gives it back, provided each item
/// round-trips on its own.
pub proof fn lemma_seq_roundtrip<T>(
    s: Seq<T>,
    rest: Seq<u8>,
    enc: spec_fn(T) -> Seq<u8>,
    dec: spec_fn(Seq<u8>) -> Result<(T, nat), DecodeError>,
    wf: spec_fn(T) -> bool,
)
    requires
        forall|x: T, r: Seq<u8>| wf(x) ==> #[trigger] dec(enc(x) + r) == Ok::<(T, nat), DecodeError>((x, enc(x).len())),
        forall|i: int| 0 <= i < s.len() ==> wf(#[trigger] s[i]),
    ensures
        take_seq(enc_seq(s, enc) + rest, s.len(), dec) == Ok::<(Seq<T>, nat), DecodeError>((s, enc_seq(s, enc).len())),
    decreases s.len(),
{
    if s.len() > 0 {
        let tail = s.drop_first();
        assert forall|i: int| 0 <= i < tail.len() implies wf(#[trigger] tail[i]) by {
            assert(tail[i] == s[i + 1]);
        }
        lemma_seq_roundtrip(tail, rest, enc, dec, wf);
        let b = enc_seq(s, enc) + rest;
        assert(wf(s[0]));
        assert(b =~= enc(s[0]) + (enc_seq(tail, enc) + rest));
        assert(dec(b) == Ok::<(T, nat), DecodeError>((s[0], enc(s[0]).len())));
        assert(b.skip(enc(s[0]).len() as int) =~= enc_seq(tail, enc) + rest);
        assert(seq![s[0]] + tail =~= s);
    } else {
        assert(s =~= Seq::<T>::empty());
    }
}

pub proof fn lemma_list_roundtrip<T>(
    s: Seq<T>,
    rest: Seq<u8>,
    enc: spec_fn(T) -> Seq<u8>,
    dec: spec_fn(Seq<u8>) -> Result<(T, nat), DecodeError>,
    wf: spec_fn(T) -> bool,
)
    requires
        forall|x: T, r: Seq<u8>| wf(x) ==> #[trigger] dec(enc(x) + r) == Ok::<(T, nat), DecodeError>((x, enc(x).len())),
        forall|i: int| 0 <= i < s.len() ==> wf(#[trigger] s[i]),
        s.len() < 0x1_0000_0000_0000_0000,
    ensures
        take_list(enc_list(s, enc) + rest, dec) == Ok::<(Seq<T>, nat), DecodeError>((s, enc_list(s, enc).len())),
{
    lemma_seq_roundtrip(s, rest, enc, dec, wf);
    let b = enc_list(s, enc) + rest;
    lemma_u64_roundtrip(s.len() as u64, enc_seq(s, enc) + rest);
    assert(b =~= varint(s.len()) + (enc_seq(s, enc) + rest));
    assert(b.skip(varint(s.len()).len() as int) =~= enc_seq(s, enc) + rest);
}

/// Skipping twice is skipping the sum.
pub broadcast proof fn lemma_skip_skip<T>(b: Seq<T>, i: int, j: int)
    requires
        0 <= i <= b.len(),
        0 <= j <= b.len() - i,
    ensures
        #[trigger] b.skip(i).skip(j) == b.skip(i + j),
{
    assert(b.skip(i).skip(j) =~= b.skip(i + j));
}

/// A failed item fails the whole sequence, whatever was read before it.
pub proof fn lemma_take_seq_fail<T>(
    b: Seq<u8>,
    k: nat,
    dec: spec_fn(Seq<u8>) -> Result<(T, nat), DecodeError>,
    e: DecodeError,
)
    requires
        k > 0,
        dec(b) == Err::<(T, nat), DecodeError>(e),
    ensures
        take_seq(b, k, dec) == Err::<(Seq<T>, nat), DecodeError>(e),
{
}

} // verus!
