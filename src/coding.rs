//! Little-endian fixed-width integers and byte-slice helpers.
use vstd::bytes::*;
use vstd::prelude::*;
use vstd::slice::*;

verus! {

/// The bytes of `s` from `off` on, `n` of them.
pub open spec fn window(s: Seq<u8>, off: int, n: int) -> Seq<u8> {
    s.subrange(off, off + n)
}

/// Appends `v` as four little-endian bytes.
pub fn put_u32(buf: &mut Vec<u8>, v: u32)
    ensures
        final(buf)@ == old(buf)@ + spec_u32_to_le_bytes(v),
{
    let mut b = u32_to_le_bytes(v);
    buf.append(&mut b);
}

/// Appends `v` as eight little-endian bytes.
pub fn put_u64(buf: &mut Vec<u8>, v: u64)
    ensures
        final(buf)@ == old(buf)@ + spec_u64_to_le_bytes(v),
{
    let mut b = u64_to_le_bytes(v);
    buf.append(&mut b);
}

/// Appends `v` as two little-endian bytes.
pub fn put_u16(buf: &mut Vec<u8>, v: u16)
    ensures
        final(buf)@ == old(buf)@ + spec_u16_to_le_bytes(v),
{
    let mut b = u16_to_le_bytes(v);
    buf.append(&mut b);
}

/// Appends every byte of `src`.
pub fn put_bytes(buf: &mut Vec<u8>, src: &[u8])
    ensures
        final(buf)@ == old(buf)@ + src@,
{
    let mut b = slice_to_vec(src);
    buf.append(&mut b);
}

/// Reads four little-endian bytes at `off`, if they are all there.
pub fn get_u32(s: &[u8], off: usize) -> (r: Option<u32>)
    ensures
        r == (if off + 4 <= s@.len() {
            Some(spec_u32_from_le_bytes(window(s@, off as int, 4)))
        } else {
            None::<u32>
        }),
{
    if off > s.len() || s.len() - off < 4 {
        None
    } else {
        Some(u32_from_le_bytes(slice_subrange(s, off, off + 4)))
    }
}

/// Reads eight little-endian bytes at `off`, if they are all there.
pub fn get_u64(s: &[u8], off: usize) -> (r: Option<u64>)
    ensures
        r == (if off + 8 <= s@.len() {
            Some(spec_u64_from_le_bytes(window(s@, off as int, 8)))
        } else {
            None::<u64>
        }),
{
    if off > s.len() || s.len() - off < 8 {
        None
    } else {
        Some(u64_from_le_bytes(slice_subrange(s, off, off + 8)))
    }
}

/// Reads two little-endian bytes at `off`, if they are both there.
pub fn get_u16(s: &[u8], off: usize) -> (r: Option<u16>)
    ensures
        r == (if off + 2 <= s@.len() {
            Some(spec_u16_from_le_bytes(window(s@, off as int, 2)))
        } else {
            None::<u16>
        }),
{
    if off > s.len() || s.len() - off < 2 {
        None
    } else {
        Some(u16_from_le_bytes(slice_subrange(s, off, off + 2)))
    }
}

} // verus!
