//! Block handles, the table footer, and block trailers with their checksum.
use crate::block::Block;
use crate::block_format::decode_block;
use crate::coding::{get_u32, get_u64, put_bytes, put_u64, window};
use crate::comparator::KeyOrder;
use crate::error::ErrorKind;
use vstd::bytes::*;
use vstd::prelude::*;

verus! {

/// `0xdb4775248b80fb57`, the last eight bytes of every table.
pub const TABLE_MAGIC_NUMBER: u64 = 0xdb4775248b80fb57;

/// Two handles and the magic number.
pub const FOOTER_LEN: usize = 40;

/// A compression byte and a CRC-32C after each block.
pub const TRAILER_SIZE: usize = 5;

/// The CRC-32C (Castagnoli) checksum of a byte string.
pub uninterp spec fn crc32c_of(data: Seq<u8>) -> u32;

/// Relies on `crc::crc32::checksum_castagnoli`: a CRC-32C of the bytes,
/// which depends on the bytes alone.
#[verifier::external_body]
pub(crate) fn crc32c(data: &[u8]) -> (r: u32)
    ensures
        r == crc32c_of(data@),
{
    crc::crc32::checksum_castagnoli(data)
}

/// The encoded form of a handle: offset, then size.
pub open spec fn handle_bytes(offset: u64, size: u64) -> Seq<u8> {
    spec_u64_to_le_bytes(offset) + spec_u64_to_le_bytes(size)
}

/// The encoded footer.
pub open spec fn footer_bytes(index_offset: u64, index_size: u64, meta_offset: u64, meta_size: u64) -> Seq<u8> {
    handle_bytes(index_offset, index_size) + handle_bytes(meta_offset, meta_size)
        + spec_u64_to_le_bytes(TABLE_MAGIC_NUMBER)
}

/// The `u64` stored at `off`.
pub open spec fn u64_at(s: Seq<u8>, off: int) -> u64 {
    spec_u64_from_le_bytes(window(s, off, 8))
}

/// Where a block is: its offset in the file and its size without trailer.
#[derive(Debug)]
pub struct BlockHandle {
    pub size: Option<u64>,
    pub offset: Option<u64>,
}

impl BlockHandle {
    pub open spec fn is_set(&self) -> bool {
        self.size.is_some() && self.offset.is_some()
    }

    /// A handle with neither field set.
    pub fn new() -> (r: BlockHandle)
        ensures
            r.size.is_none(),
            r.offset.is_none(),
    {
        BlockHandle { size: None, offset: None }
    }

    pub fn from(size: u64, offset: u64) -> (r: BlockHandle)
        ensures
            r.size == Some(size),
            r.offset == Some(offset),
    {
        BlockHandle { size: Some(size), offset: Some(offset) }
    }

    /// Decodes the first sixteen bytes of `input`.
    pub fn decode_from(input: &[u8]) -> (r: Option<BlockHandle>)
        ensures
            r.is_some() <==> input@.len() >= 16,
            r.is_some() ==> r.unwrap().offset == Some(u64_at(input@, 0)) && r.unwrap().size == Some(
                u64_at(input@, 8),
            ),
    {
        match (get_u64(input, 0), get_u64(input, 8)) {
            (Some(offset), Some(size)) => Some(BlockHandle { size: Some(size), offset: Some(offset) }),
            _ => None,
        }
    }

    pub fn set_size(&mut self, v: u64)
        ensures
            final(self).size == Some(v),
            final(self).offset == old(self).offset,
    {
        self.size = Some(v)
    }

    pub fn set_offset(&mut self, v: u64)
        ensures
            final(self).offset == Some(v),
            final(self).size == old(self).size,
    {
        self.offset = Some(v)
    }

    pub fn offset(&self) -> (r: u64)
        requires
            self.offset.is_some(),
        ensures
            r == self.offset.unwrap(),
    {
        self.offset.unwrap()
    }

    pub fn size(&self) -> (r: u64)
        requires
            self.size.is_some(),
        ensures
            r == self.size.unwrap(),
    {
        self.size.unwrap()
    }

    /// Offset, then size, eight little-endian bytes each.
    pub fn encode(&self) -> (r: Vec<u8>)
        requires
            self.is_set(),
        ensures
            r@ == handle_bytes(self.offset.unwrap(), self.size.unwrap()),
    {
        let mut v: Vec<u8> = Vec::new();
        put_u64(&mut v, self.offset.unwrap());
        put_u64(&mut v, self.size.unwrap());
        v
    }
}

/// A handle decodes back to the offset and size it was made from.
pub proof fn lemma_handle_round_trip(offset: u64, size: u64, rest: Seq<u8>)
    ensures
        u64_at(handle_bytes(offset, size) + rest, 0) == offset,
        u64_at(handle_bytes(offset, size) + rest, 8) == size,
        handle_bytes(offset, size).len() == 16,
{
    lemma_auto_spec_u64_to_from_le_bytes();
    let s = handle_bytes(offset, size) + rest;
    assert(window(s, 0, 8) =~= spec_u64_to_le_bytes(offset));
    assert(window(s, 8, 8) =~= spec_u64_to_le_bytes(size));
}

/// The fixed-length record at the end of a table.
pub struct Footer {
    pub index_block_handle: BlockHandle,
    pub metaindex_block_handle: BlockHandle,
}

impl Footer {
    pub fn new(ibh: BlockHandle, mbh: BlockHandle) -> (r: Footer)
        ensures
            r.index_block_handle == ibh,
            r.metaindex_block_handle == mbh,
    {
        Footer { index_block_handle: ibh, metaindex_block_handle: mbh }
    }

    /// Decodes a footer; `Corruption` when it is short or its magic is wrong.
    pub fn decode(input: &[u8]) -> (r: Result<Footer, ErrorKind>)
        ensures
            match r {
                Ok(f) => input@.len() >= FOOTER_LEN && u64_at(input@, 32) == TABLE_MAGIC_NUMBER
                    && f.index_block_handle.offset == Some(u64_at(input@, 0))
                    && f.index_block_handle.size == Some(u64_at(input@, 8))
                    && f.metaindex_block_handle.offset == Some(u64_at(input@, 16))
                    && f.metaindex_block_handle.size == Some(u64_at(input@, 24)),
                Err(e) => e == ErrorKind::Corruption && (input@.len() < FOOTER_LEN || u64_at(input@, 32)
                    != TABLE_MAGIC_NUMBER),
            },
    {
        if input.len() < FOOTER_LEN {
            return Err(ErrorKind::Corruption);
        }
        let magic = get_u64(input, 32).unwrap();
        if magic != TABLE_MAGIC_NUMBER {
            return Err(ErrorKind::Corruption);
        }
        let io = get_u64(input, 0).unwrap();
        let is = get_u64(input, 8).unwrap();
        let mo = get_u64(input, 16).unwrap();
        let ms = get_u64(input, 24).unwrap();
        Ok(Footer {
            index_block_handle: BlockHandle { size: Some(is), offset: Some(io) },
            metaindex_block_handle: BlockHandle { size: Some(ms), offset: Some(mo) },
        })
    }

    /// Both handles, then the magic number: forty bytes.
    pub fn encode(&self) -> (r: Vec<u8>)
        requires
            self.index_block_handle.is_set(),
            self.metaindex_block_handle.is_set(),
        ensures
            r@ == footer_bytes(
                self.index_block_handle.offset.unwrap(),
                self.index_block_handle.size.unwrap(),
                self.metaindex_block_handle.offset.unwrap(),
                self.metaindex_block_handle.size.unwrap(),
            ),
    {
        let mut v = self.index_block_handle.encode();
        let m = self.metaindex_block_handle.encode();
        put_bytes(&mut v, m.as_slice());
        put_u64(&mut v, TABLE_MAGIC_NUMBER);
        proof {
            assert(v@ =~= footer_bytes(
                self.index_block_handle.offset.unwrap(),
                self.index_block_handle.size.unwrap(),
                self.metaindex_block_handle.offset.unwrap(),
                self.metaindex_block_handle.size.unwrap(),
            ));
        }
        v
    }
}

/// A footer decodes back to the handles it was made from.
pub proof fn lemma_footer_round_trip(io: u64, is: u64, mo: u64, ms: u64)
    ensures
        footer_bytes(io, is, mo, ms).len() == FOOTER_LEN,
        u64_at(footer_bytes(io, is, mo, ms), 0) == io,
        u64_at(footer_bytes(io, is, mo, ms), 8) == is,
        u64_at(footer_bytes(io, is, mo, ms), 16) == mo,
        u64_at(footer_bytes(io, is, mo, ms), 24) == ms,
        u64_at(footer_bytes(io, is, mo, ms), 32) == TABLE_MAGIC_NUMBER,
{
    lemma_auto_spec_u64_to_from_le_bytes();
    let s = footer_bytes(io, is, mo, ms);
    assert(window(s, 0, 8) =~= spec_u64_to_le_bytes(io));
    assert(window(s, 8, 8) =~= spec_u64_to_le_bytes(is));
    assert(window(s, 16, 8) =~= spec_u64_to_le_bytes(mo));
    assert(window(s, 24, 8) =~= spec_u64_to_le_bytes(ms));
    assert(window(s, 32, 8) =~= spec_u64_to_le_bytes(TABLE_MAGIC_NUMBER));
}

/// The block stored at `offset` with `size` content bytes, if its trailer
/// is there, its checksum matches and its content decodes.
pub open spec fn read_block_spec(file: Seq<u8>, offset: int, size: int) -> Option<Seq<(Seq<u8>, Seq<u8>)>> {
    if offset < 0 || size < 0 || offset + size + TRAILER_SIZE > file.len() {
        None
    } else if file[offset + size] != 0 {
        None
    } else if spec_u32_from_le_bytes(window(file, offset + size + 1, 4)) != crc32c_of(
        file.subrange(offset, offset + size + 1),
    ) {
        None
    } else {
        decode_block(file.subrange(offset, offset + size))
    }
}

/// Reads and checks the block that `handle` points to; `Corruption` when it
/// is out of range, its checksum or compression byte is wrong, or it does
/// not decode.
pub fn read_block(file: &[u8], handle: &BlockHandle, order: KeyOrder) -> (r: Result<Block, ErrorKind>)
    requires
        handle.is_set(),
    ensures
        match read_block_spec(file@, handle.offset.unwrap() as int, handle.size.unwrap() as int) {
            Some(es) => r.is_ok() && r.unwrap().view() == es && r.unwrap().spec_order() == order,
            None => r == Err::<Block, ErrorKind>(ErrorKind::Corruption),
        },
{
    let off = handle.offset.unwrap();
    let size = handle.size.unwrap();
    let len = file.len() as u64;
    if off > len || size > len - off || len - off - size < 5 {
        return Err(ErrorKind::Corruption);
    }
    let off = off as usize;
    let size = size as usize;
    if file[off + size] != 0 {
        return Err(ErrorKind::Corruption);
    }
    let stored = get_u32(file, off + size + 1).unwrap();
    let actual = crc32c(vstd::slice::slice_subrange(file, off, off + size + 1));
    if stored != actual {
        return Err(ErrorKind::Corruption);
    }
    let content = vstd::slice::slice_to_vec(vstd::slice::slice_subrange(file, off, off + size));
    Block::with_order(content, order)
}

} // verus!
