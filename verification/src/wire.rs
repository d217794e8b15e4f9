//! The encoding of single values in a file of routes: integers of fixed
//! width, least significant byte first, and strings as their length followed
//! by their bytes.

use vstd::bytes::*;
use vstd::prelude::*;
use vstd::slice::{slice_subrange, slice_to_vec};
use vstd::utf8::*;

verus! {

/// Why bytes could not be decoded.
#[derive(Copy, Clone, Debug, PartialEq, Eq, Structural)]
pub enum DecodeError {
    /// The bytes end before the value does.
    UnexpectedEnd,
    /// The bytes of a string are not valid UTF-8.
    InvalidUtf8,
}

/// The 32 bits that stand for `x` in two's complement.
pub open spec fn i32_bits(x: i32) -> u32 {
    if x >= 0 {
        x as u32
    } else {
        (x + 0x1_0000_0000) as u32
    }
}

/// The number that the 32 bits `u` stand for in two's complement.
pub open spec fn bits_i32(u: u32) -> i32 {
    if u < 0x8000_0000 {
        u as i32
    } else {
        (u - 0x1_0000_0000) as i32
    }
}

/// The 64 bits that stand for `x` in two's complement.
pub open spec fn i64_bits(x: i64) -> u64 {
    if x >= 0 {
        x as u64
    } else {
        (x + 0x1_0000_0000_0000_0000) as u64
    }
}

/// The number that the 64 bits `u` stand for in two's complement.
pub open spec fn bits_i64(u: u64) -> i64 {
    if u < 0x8000_0000_0000_0000 {
        u as i64
    } else {
        (u - 0x1_0000_0000_0000_0000) as i64
    }
}

/// The two bytes of a 16-bit number.
pub open spec fn u16_bytes(x: u16) -> Seq<u8> {
    spec_u16_to_le_bytes(x)
}

/// The eight bytes of a 64-bit number.
pub open spec fn u64_bytes(x: u64) -> Seq<u8> {
    spec_u64_to_le_bytes(x)
}

/// The four bytes of a signed 32-bit number.
pub open spec fn i32_bytes(x: i32) -> Seq<u8> {
    spec_u32_to_le_bytes(i32_bits(x))
}

/// The eight bytes of a signed 64-bit number.
pub open spec fn i64_bytes(x: i64) -> Seq<u8> {
    spec_u64_to_le_bytes(i64_bits(x))
}

/// A string: the number of its bytes, then its bytes.
pub open spec fn str_bytes(chars: Seq<char>) -> Seq<u8> {
    u64_bytes(encode_utf8(chars).len() as u64) + encode_utf8(chars)
}

/// A list of 64-bit numbers, one after the other.
pub open spec fn i64s_bytes(xs: Seq<i64>) -> Seq<u8>
    decreases xs.len(),
{
    if xs.len() == 0 {
        Seq::empty()
    } else {
        i64s_bytes(xs.drop_last()) + i64_bytes(xs.last())
    }
}

/// Reads a 16-bit number at `pos`; gives the number and where it ends.
pub open spec fn parse_u16(s: Seq<u8>, pos: int) -> Result<(u16, int), DecodeError> {
    if 0 <= pos && pos + 2 <= s.len() {
        Ok((spec_u16_from_le_bytes(s.subrange(pos, pos + 2)), pos + 2))
    } else {
        Err(DecodeError::UnexpectedEnd)
    }
}

/// Reads a 64-bit number at `pos`; gives the number and where it ends.
pub open spec fn parse_u64(s: Seq<u8>, pos: int) -> Result<(u64, int), DecodeError> {
    if 0 <= pos && pos + 8 <= s.len() {
        Ok((spec_u64_from_le_bytes(s.subrange(pos, pos + 8)), pos + 8))
    } else {
        Err(DecodeError::UnexpectedEnd)
    }
}

/// Reads a signed 32-bit number at `pos`; gives the number and where it ends.
pub open spec fn parse_i32(s: Seq<u8>, pos: int) -> Result<(i32, int), DecodeError> {
    if 0 <= pos && pos + 4 <= s.len() {
        Ok((bits_i32(spec_u32_from_le_bytes(s.subrange(pos, pos + 4))), pos + 4))
    } else {
        Err(DecodeError::UnexpectedEnd)
    }
}

/// Reads a signed 64-bit number at `pos`; gives the number and where it ends.
pub open spec fn parse_i64(s: Seq<u8>, pos: int) -> Result<(i64, int), DecodeError> {
    if 0 <= pos && pos + 8 <= s.len() {
        Ok((bits_i64(spec_u64_from_le_bytes(s.subrange(pos, pos + 8))), pos + 8))
    } else {
        Err(DecodeError::UnexpectedEnd)
    }
}

/// Reads a string at `pos`; gives its characters and where it ends.
pub open spec fn parse_str(s: Seq<u8>, pos: int) -> Result<(Seq<char>, int), DecodeError> {
    match parse_u64(s, pos) {
        Err(e) => Err(e),
        Ok((n, p)) => if p + n > s.len() {
            Err(DecodeError::UnexpectedEnd)
        } else if !valid_utf8(s.subrange(p, p + n)) {
            Err(DecodeError::InvalidUtf8)
        } else {
            Ok((decode_utf8(s.subrange(p, p + n)), p + n))
        },
    }
}

/// The `n` signed 64-bit numbers that start at `pos`.
pub open spec fn i64s_at(s: Seq<u8>, pos: int, n: nat) -> Seq<i64> {
    Seq::new(
        n,
        |i: int| bits_i64(spec_u64_from_le_bytes(s.subrange(pos + 8 * i, pos + 8 * i + 8))),
    )
}

/// Reads a list of signed 64-bit numbers at `pos`: their count, then the
/// numbers; gives the list and where it ends.
pub open spec fn parse_i64s(s: Seq<u8>, pos: int) -> Result<(Seq<i64>, int), DecodeError> {
    match parse_u64(s, pos) {
        Err(e) => Err(e),
        Ok((n, p)) => if p + 8 * n > s.len() {
            Err(DecodeError::UnexpectedEnd)
        } else {
            Ok((i64s_at(s, p, n as nat), p + 8 * n))
        },
    }
}

/// The length of an encoded list of 64-bit numbers, and where in it each
/// number stands.
pub proof fn lemma_i64s_bytes(xs: Seq<i64>)
    ensures
        i64s_bytes(xs).len() == 8 * xs.len(),
        forall|i: int|
            0 <= i < xs.len() ==> #[trigger] i64s_bytes(xs).subrange(8 * i, 8 * i + 8) == i64_bytes(
                xs[i],
            ),
    decreases xs.len(),
{
    lemma_auto_spec_u64_to_from_le_bytes();
    if xs.len() > 0 {
        let front = xs.drop_last();
        lemma_i64s_bytes(front);
        let all = i64s_bytes(xs);
        assert(all == i64s_bytes(front) + i64_bytes(xs.last()));
        assert forall|i: int| 0 <= i < xs.len() implies #[trigger] all.subrange(8 * i, 8 * i + 8)
            == i64_bytes(xs[i]) by {
            if i < front.len() {
                assert(all.subrange(8 * i, 8 * i + 8) =~= i64s_bytes(front).subrange(
                    8 * i,
                    8 * i + 8,
                ));
                assert(front[i] == xs[i]);
            } else {
                assert(all.subrange(8 * i, 8 * i + 8) =~= i64_bytes(xs.last()));
            }
        }
    }
}

/// Appends `src` to `out`.
pub fn put_bytes(out: &mut Vec<u8>, src: &[u8])
    ensures
        final(out)@ == old(out)@ + src@,
{
    let mut i: usize = 0;
    while i < src.len()
        invariant
            i <= src@.len(),
            out@ == old(out)@ + src@.take(i as int),
        decreases src.len() - i,
    {
        out.push(src[i]);
        proof {
            assert(src@.take(i + 1) =~= src@.take(i as int).push(src@[i as int]));
            assert(out@ =~= old(out)@ + src@.take(i + 1));
        }
        i += 1;
    }
    assert(src@.take(i as int) =~= src@);
}

/// Appends a 16-bit number to `out`.
pub fn put_u16(out: &mut Vec<u8>, x: u16)
    ensures
        final(out)@ == old(out)@ + u16_bytes(x),
{
    let mut bytes = u16_to_le_bytes(x);
    out.append(&mut bytes);
}

/// Appends a 64-bit number to `out`.
pub fn put_u64(out: &mut Vec<u8>, x: u64)
    ensures
        final(out)@ == old(out)@ + u64_bytes(x),
{
    let mut bytes = u64_to_le_bytes(x);
    out.append(&mut bytes);
}

/// Appends a signed 32-bit number to `out`.
pub fn put_i32(out: &mut Vec<u8>, x: i32)
    ensures
        final(out)@ == old(out)@ + i32_bytes(x),
{
    let bits: u32 = if x >= 0 {
        x as u32
    } else {
        (x as i64 + 0x1_0000_0000) as u32
    };
    let mut bytes = u32_to_le_bytes(bits);
    out.append(&mut bytes);
}

/// Appends a signed 64-bit number to `out`.
pub fn put_i64(out: &mut Vec<u8>, x: i64)
    ensures
        final(out)@ == old(out)@ + i64_bytes(x),
{
    let bits: u64 = if x >= 0 {
        x as u64
    } else {
        (x as i128 + 0x1_0000_0000_0000_0000) as u64
    };
    let mut bytes = u64_to_le_bytes(bits);
    out.append(&mut bytes);
}

/// Appends a string to `out`.
pub fn put_str(out: &mut Vec<u8>, s: &str)
    ensures
        final(out)@ == old(out)@ + str_bytes(s@),
        encode_utf8(s@).len() <= usize::MAX,
{
    let bytes = s.as_bytes();
    put_u64(out, bytes.len() as u64);
    put_bytes(out, bytes);
    assert(out@ =~= old(out)@ + str_bytes(s@));
}

/// Reads a 16-bit number at `pos`.
pub fn get_u16(bytes: &[u8], pos: usize) -> (r: Result<(u16, usize), DecodeError>)
    ensures
        match (r, parse_u16(bytes@, pos as int)) {
            (Ok((x, end)), Ok((y, to))) => x == y && end == to,
            (Err(e), Err(f)) => e == f,
            _ => false,
        },
{
    if pos > bytes.len() || bytes.len() - pos < 2 {
        return Err(DecodeError::UnexpectedEnd);
    }
    Ok((u16_from_le_bytes(slice_subrange(bytes, pos, pos + 2)), pos + 2))
}

/// Reads a 64-bit number at `pos`.
pub fn get_u64(bytes: &[u8], pos: usize) -> (r: Result<(u64, usize), DecodeError>)
    ensures
        match (r, parse_u64(bytes@, pos as int)) {
            (Ok((x, end)), Ok((y, to))) => x == y && end == to,
            (Err(e), Err(f)) => e == f,
            _ => false,
        },
{
    if pos > bytes.len() || bytes.len() - pos < 8 {
        return Err(DecodeError::UnexpectedEnd);
    }
    Ok((u64_from_le_bytes(slice_subrange(bytes, pos, pos + 8)), pos + 8))
}

/// Reads a signed 32-bit number at `pos`.
pub fn get_i32(bytes: &[u8], pos: usize) -> (r: Result<(i32, usize), DecodeError>)
    ensures
        match (r, parse_i32(bytes@, pos as int)) {
            (Ok((x, end)), Ok((y, to))) => x == y && end == to,
            (Err(e), Err(f)) => e == f,
            _ => false,
        },
{
    if pos > bytes.len() || bytes.len() - pos < 4 {
        return Err(DecodeError::UnexpectedEnd);
    }
    let bits: u32 = u32_from_le_bytes(slice_subrange(bytes, pos, pos + 4));
    let x: i32 = if bits < 0x8000_0000 {
        bits as i32
    } else {
        (bits as i64 - 0x1_0000_0000) as i32
    };
    Ok((x, pos + 4))
}

/// Reads a signed 64-bit number at `pos`.
pub fn get_i64(bytes: &[u8], pos: usize) -> (r: Result<(i64, usize), DecodeError>)
    ensures
        match (r, parse_i64(bytes@, pos as int)) {
            (Ok((x, end)), Ok((y, to))) => x == y && end == to,
            (Err(e), Err(f)) => e == f,
            _ => false,
        },
{
    if pos > bytes.len() || bytes.len() - pos < 8 {
        return Err(DecodeError::UnexpectedEnd);
    }
    let bits: u64 = u64_from_le_bytes(slice_subrange(bytes, pos, pos + 8));
    let x: i64 = if bits < 0x8000_0000_0000_0000 {
        bits as i64
    } else {
        (bits as i128 - 0x1_0000_0000_0000_0000) as i64
    };
    Ok((x, pos + 8))
}

/// Turns bytes into a string, where they are valid UTF-8. This stands on
/// `String::from_utf8` of the standard library, which accepts exactly the
/// valid encodings and keeps the bytes as they are.
#[verifier::external_body]
fn string_from_utf8(bytes: Vec<u8>) -> (r: Option<String>)
    ensures
        match r {
            Some(s) => valid_utf8(bytes@) && s@ == decode_utf8(bytes@),
            None => !valid_utf8(bytes@),
        },
{
    String::from_utf8(bytes).ok()
}

/// Reads a string at `pos`.
pub fn get_str(bytes: &[u8], pos: usize) -> (r: Result<(String, usize), DecodeError>)
    ensures
        match (r, parse_str(bytes@, pos as int)) {
            (Ok((x, end)), Ok((y, to))) => x@ == y && end == to,
            (Err(e), Err(f)) => e == f,
            _ => false,
        },
{
    let (n, p) = match get_u64(bytes, pos) {
        Ok(found) => found,
        Err(e) => {
            return Err(e);
        },
    };
    if n > (bytes.len() - p) as u64 {
        return Err(DecodeError::UnexpectedEnd);
    }
    let end: usize = p + n as usize;
    let raw = slice_to_vec(slice_subrange(bytes, p, end));
    match string_from_utf8(raw) {
        Some(s) => Ok((s, end)),
        None => Err(DecodeError::InvalidUtf8),
    }
}

/// Reads a list of signed 64-bit numbers at `pos`.
pub fn get_i64s(bytes: &[u8], pos: usize) -> (r: Result<(Vec<i64>, usize), DecodeError>)
    ensures
        match (r, parse_i64s(bytes@, pos as int)) {
            (Ok((x, end)), Ok((y, to))) => x@ == y && end == to,
            (Err(e), Err(f)) => e == f,
            _ => false,
        },
{
    let (n, p) = match get_u64(bytes, pos) {
        Ok(found) => found,
        Err(e) => {
            return Err(e);
        },
    };
    if n > ((bytes.len() - p) / 8) as u64 {
        return Err(DecodeError::UnexpectedEnd);
    }
    let count: usize = n as usize;
    let total: usize = bytes.len();
    let mut out: Vec<i64> = Vec::new();
    let mut i: usize = 0;
    while i < count
        invariant
            i <= count,
            total == bytes@.len(),
            p + 8 * count <= total,
            out@ == i64s_at(bytes@, p as int, i as nat),
        decreases count - i,
    {
        let at: usize = p + 8 * i;
        let (x, _) = match get_i64(bytes, at) {
            Ok(found) => found,
            Err(e) => {
                return Err(e);
            },
        };
        out.push(x);
        assert(out@ =~= i64s_at(bytes@, p as int, (i + 1) as nat));
        i += 1;
    }
    Ok((out, p + 8 * count))
}

/// What `put_u16` wrote, `parse_u16` reads.
pub proof fn lemma_parse_u16(s: Seq<u8>, pos: int, x: u16)
    requires
        0 <= pos,
        pos + 2 <= s.len(),
        s.subrange(pos, pos + 2) == u16_bytes(x),
    ensures
        parse_u16(s, pos) == Ok::<(u16, int), DecodeError>((x, pos + 2)),
{
    lemma_auto_spec_u16_to_from_le_bytes();
    assert(spec_u16_to_le_bytes(x).len() == 2);
}

/// What `put_u64` wrote, `parse_u64` reads.
pub proof fn lemma_parse_u64(s: Seq<u8>, pos: int, x: u64)
    requires
        0 <= pos,
        pos + 8 <= s.len(),
        s.subrange(pos, pos + 8) == u64_bytes(x),
    ensures
        parse_u64(s, pos) == Ok::<(u64, int), DecodeError>((x, pos + 8)),
{
    lemma_auto_spec_u64_to_from_le_bytes();
}

/// What `put_i32` wrote, `parse_i32` reads.
pub proof fn lemma_parse_i32(s: Seq<u8>, pos: int, x: i32)
    requires
        0 <= pos,
        pos + 4 <= s.len(),
        s.subrange(pos, pos + 4) == i32_bytes(x),
    ensures
        parse_i32(s, pos) == Ok::<(i32, int), DecodeError>((x, pos + 4)),
{
    lemma_auto_spec_u32_to_from_le_bytes();
    assert(spec_u32_to_le_bytes(i32_bits(x)).len() == 4);
}

/// What `put_str` wrote, `parse_str` reads.
pub proof fn lemma_parse_str(s: Seq<u8>, pos: int, chars: Seq<char>)
    requires
        0 <= pos,
        encode_utf8(chars).len() <= u64::MAX,
        pos + str_bytes(chars).len() <= s.len(),
        s.subrange(pos, pos + str_bytes(chars).len()) == str_bytes(chars),
    ensures
        parse_str(s, pos) == Ok::<(Seq<char>, int), DecodeError>(
            (chars, pos + str_bytes(chars).len()),
        ),
        str_bytes(chars).len() == 8 + encode_utf8(chars).len(),
{
    lemma_auto_spec_u64_to_from_le_bytes();
    let body = encode_utf8(chars);
    let n = body.len() as u64;
    let whole = str_bytes(chars);
    assert(u64_bytes(n).len() == 8);
    assert(s.subrange(pos, pos + 8) =~= whole.subrange(0, 8));
    assert(whole.subrange(0, 8) =~= u64_bytes(n));
    assert(s.subrange(pos + 8, pos + 8 + n) =~= whole.subrange(8, 8 + n));
    assert(whole.subrange(8, 8 + n) =~= body);
    encode_utf8_valid_utf8(chars);
    encode_utf8_decode_utf8(chars);
}

/// A list of numbers that was written as its count and then the numbers,
/// `parse_i64s` reads.
pub proof fn lemma_parse_i64s(s: Seq<u8>, pos: int, xs: Seq<i64>)
    requires
        0 <= pos,
        xs.len() <= u64::MAX,
        pos + 8 + 8 * xs.len() <= s.len(),
        s.subrange(pos, pos + 8 + 8 * xs.len()) == u64_bytes(xs.len() as u64) + i64s_bytes(xs),
    ensures
        parse_i64s(s, pos) == Ok::<(Seq<i64>, int), DecodeError>((xs, pos + 8 + 8 * xs.len())),
{
    lemma_auto_spec_u64_to_from_le_bytes();
    lemma_i64s_bytes(xs);
    let n = xs.len() as u64;
    let whole = u64_bytes(n) + i64s_bytes(xs);
    assert(s.subrange(pos, pos + 8) =~= whole.subrange(0, 8));
    assert(whole.subrange(0, 8) =~= u64_bytes(n));
    let p = pos + 8;
    let sub = s.subrange(pos, pos + 8 + 8 * xs.len());
    assert forall|i: int| 0 <= i < xs.len() implies #[trigger] i64s_at(s, p, xs.len())[i] == xs[i] by {
        let piece = s.subrange(p + 8 * i, p + 8 * i + 8);
        let chunk = i64s_bytes(xs).subrange(8 * i, 8 * i + 8);
        assert forall|j: int| 0 <= j < 8 implies piece[j] == chunk[j] by {
            assert(piece[j] == sub[8 + 8 * i + j]);
            assert(whole[8 + 8 * i + j] == i64s_bytes(xs)[8 * i + j]);
        }
        assert(piece =~= chunk);
        assert(chunk == i64_bytes(xs[i]));
    }
    assert(i64s_at(s, p, xs.len()) =~= xs);
}

} // verus!
