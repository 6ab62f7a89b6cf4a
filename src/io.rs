use vstd::prelude::*;
use vstd::bytes::*;
use crate::error::{PakError, PakResult, is_invalid};
use crate::text::string_of;

verus! {

/// Message of the error raised when a read runs past the end of its data.
pub open spec fn truncated_msg() -> Seq<char> {
    "unexpected end of data"@
}

fn truncated<T>() -> (r: PakResult<T>)
    ensures
        is_invalid(r, truncated_msg()),
{
    Err(PakError::Invalid(String::from_str("unexpected end of data")))
}

/// Appends `v` to `out` as 4 little-endian bytes.
pub fn write_u32(out: &mut Vec<u8>, v: u32)
    ensures
        final(out)@ == old(out)@ + spec_u32_to_le_bytes(v),
{
    let b = u32_to_le_bytes(v);
    out.extend_from_slice(b.as_slice());
}

/// Appends `v` to `out` as 8 little-endian bytes.
pub fn write_u64(out: &mut Vec<u8>, v: u64)
    ensures
        final(out)@ == old(out)@ + spec_u64_to_le_bytes(v),
{
    let b = u64_to_le_bytes(v);
    out.extend_from_slice(b.as_slice());
}

/// Reads the next `N` bytes of `buf` at `*pos` and advances `*pos` past them.
pub fn read_exact<const N: usize>(buf: &[u8], pos: &mut usize) -> (r: PakResult<[u8; N]>)
    ensures
        *old(pos) + N <= buf@.len() ==> r is Ok && r->Ok_0@ == buf@.subrange(
            *old(pos) as int,
            *old(pos) + N,
        ) && *final(pos) == *old(pos) + N,
        *old(pos) + N > buf@.len() ==> is_invalid(r, truncated_msg()) && *final(pos) == *old(pos),
{
    if N > buf.len() || *pos > buf.len() - N {
        return truncated();
    }
    let mut out = [0u8; N];
    let start = *pos;
    let mut i: usize = 0;
    while i < N
        invariant
            start + N <= buf@.len(),
            buf@.len() <= usize::MAX,
            i <= N,
            out@.len() == N,
            forall|k: int| 0 <= k < i ==> out@[k] == buf@[start + k],
        decreases N - i,
    {
        out[i] = buf[start + i];
        i += 1;
    }
    assert(out@ =~= buf@.subrange(start as int, start + N));
    *pos = start + N;
    Ok(out)
}

/// Reads one byte of `buf` at `*pos`.
pub fn read_u8(buf: &[u8], pos: &mut usize) -> (r: PakResult<u8>)
    ensures
        *old(pos) + 1 <= buf@.len() ==> r == Ok::<u8, PakError>(buf@[*old(pos) as int])
            && *final(pos) == *old(pos) + 1,
        *old(pos) + 1 > buf@.len() ==> is_invalid(r, truncated_msg()) && *final(pos) == *old(pos),
{
    if *pos >= buf.len() {
        return truncated();
    }
    let b = buf[*pos];
    *pos = *pos + 1;
    Ok(b)
}

/// Reads a little-endian `u16` of `buf` at `*pos`.
pub fn read_u16(buf: &[u8], pos: &mut usize) -> (r: PakResult<u16>)
    ensures
        *old(pos) + 2 <= buf@.len() ==> r == Ok::<u16, PakError>(
            spec_u16_from_le_bytes(buf@.subrange(*old(pos) as int, *old(pos) + 2)),
        ) && *final(pos) == *old(pos) + 2,
        *old(pos) + 2 > buf@.len() ==> is_invalid(r, truncated_msg()) && *final(pos) == *old(pos),
{
    if buf.len() < 2 || *pos > buf.len() - 2 {
        return truncated();
    }
    let start = *pos;
    let v = u16_from_le_bytes(&buf[start..start + 2]);
    *pos = start + 2;
    Ok(v)
}

/// Reads a little-endian `u32` of `buf` at `*pos`.
pub fn read_u32(buf: &[u8], pos: &mut usize) -> (r: PakResult<u32>)
    ensures
        *old(pos) + 4 <= buf@.len() ==> r == Ok::<u32, PakError>(
            spec_u32_from_le_bytes(buf@.subrange(*old(pos) as int, *old(pos) + 4)),
        ) && *final(pos) == *old(pos) + 4,
        *old(pos) + 4 > buf@.len() ==> is_invalid(r, truncated_msg()) && *final(pos) == *old(pos),
{
    if buf.len() < 4 || *pos > buf.len() - 4 {
        return truncated();
    }
    let start = *pos;
    let v = u32_from_le_bytes(&buf[start..start + 4]);
    *pos = start + 4;
    Ok(v)
}

/// Reads a little-endian `u64` of `buf` at `*pos`.
pub fn read_u64(buf: &[u8], pos: &mut usize) -> (r: PakResult<u64>)
    ensures
        *old(pos) + 8 <= buf@.len() ==> r == Ok::<u64, PakError>(
            spec_u64_from_le_bytes(buf@.subrange(*old(pos) as int, *old(pos) + 8)),
        ) && *final(pos) == *old(pos) + 8,
        *old(pos) + 8 > buf@.len() ==> is_invalid(r, truncated_msg()) && *final(pos) == *old(pos),
{
    if buf.len() < 8 || *pos > buf.len() - 8 {
        return truncated();
    }
    let start = *pos;
    let v = u64_from_le_bytes(&buf[start..start + 8]);
    *pos = start + 8;
    Ok(v)
}

/// Lowercase hexadecimal digit of a value below 16.
pub open spec fn hex_digit(d: u8) -> char {
    if d < 10 {
        (d + 48) as char
    } else {
        (d + 87) as char
    }
}

/// Lowercase hexadecimal text of `b`: two digits per byte, high nibble first.
pub open spec fn hex_of(b: Seq<u8>) -> Seq<char> {
    Seq::new(
        2 * b.len(),
        |i: int|
            if i % 2 == 0 {
                hex_digit(b[i / 2] >> 4)
            } else {
                hex_digit(b[i / 2] & 0xF)
            },
    )
}

fn hex_char(d: u8) -> (c: char)
    requires
        d < 16,
    ensures
        c == hex_digit(d),
{
    if d < 10 {
        (d + 48) as char
    } else {
        (d + 87) as char
    }
}

/// The 64-character lowercase hexadecimal form of a 32-byte digest.
pub fn hex32(v: &[u8; 32]) -> (r: String)
    ensures
        r@ == hex_of(v@),
{
    let mut out: Vec<char> = Vec::new();
    let mut i: usize = 0;
    while i < 32
        invariant
            i <= 32,
            v@.len() == 32,
            out@ =~= hex_of(v@.subrange(0, i as int)),
        decreases 32 - i,
    {
        let b = v[i];
        assert(b >> 4 < 16) by (bit_vector);
        assert(b & 0xF < 16) by (bit_vector);
        out.push(hex_char(b >> 4));
        out.push(hex_char(b & 0xF));
        i += 1;
        assert(out@ =~= hex_of(v@.subrange(0, i as int)));
    }
    assert(v@.subrange(0, 32) =~= v@);
    string_of(out)
}

} // verus!
