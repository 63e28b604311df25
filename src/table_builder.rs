//! Lays a sorted run of entries out as a table: data blocks with trailers,
//! an (empty) metaindex block, the index block and the footer.
use crate::block::sorted_entries;
use crate::block_builder::BlockBuilder;
use crate::block_format::{block_bytes, entries_fit, EntrySpec};
use crate::coding::{put_bytes, put_u32};
use crate::comparator::{compare_keys, key_lt, KeyOrder};
use crate::error::ErrorKind;
use crate::format::{crc32c, crc32c_of, footer_bytes, handle_bytes, BlockHandle, Footer};
use std::cmp::Ordering;
use vstd::bytes::*;
use vstd::prelude::*;

verus! {

/// A data block is closed once its size reaches this many bytes.
pub const BLOCK_SIZE: usize = 4096;

/// The longest key or value that a table takes: two of them and a full
/// block still fit a block's `u32` size.
pub const MAX_ENTRY_LEN: usize = 0x7fff_f000;

/// The trailer after a block's content: compression byte 0, then the
/// CRC-32C of the content and that byte.
pub open spec fn trailer_bytes(content: Seq<u8>) -> Seq<u8> {
    seq![0u8] + spec_u32_to_le_bytes(crc32c_of(content + seq![0u8]))
}

/// A block's content followed by its trailer.
pub open spec fn framed(content: Seq<u8>) -> Seq<u8> {
    content + trailer_bytes(content)
}

/// The data blocks, each framed, one after another.
pub open spec fn data_file(blocks: Seq<Seq<EntrySpec>>) -> Seq<u8>
    decreases blocks.len(),
{
    if blocks.len() == 0 {
        Seq::empty()
    } else {
        data_file(blocks.drop_last()) + framed(block_bytes(blocks.last()))
    }
}

/// Where data block `i` starts.
pub open spec fn block_offset(blocks: Seq<Seq<EntrySpec>>, i: int) -> int {
    data_file(blocks.take(i)).len() as int
}

/// The index: for each data block, its last key and its handle.
pub open spec fn index_entries(blocks: Seq<Seq<EntrySpec>>) -> Seq<EntrySpec> {
    Seq::new(
        blocks.len(),
        |i: int|
            (
                blocks[i].last().0,
                handle_bytes(block_offset(blocks, i) as u64, block_bytes(blocks[i]).len() as u64),
            ),
    )
}

/// All entries of the blocks, in order.
pub open spec fn flatten(blocks: Seq<Seq<EntrySpec>>) -> Seq<EntrySpec>
    decreases blocks.len(),
{
    if blocks.len() == 0 {
        Seq::empty()
    } else {
        flatten(blocks.drop_last()) + blocks.last()
    }
}

/// The whole table that holds `blocks`: data, metaindex, index, footer.
pub open spec fn table_file(blocks: Seq<Seq<EntrySpec>>) -> Seq<u8> {
    let d = data_file(blocks);
    let meta = block_bytes(Seq::empty());
    let index = block_bytes(index_entries(blocks));
    let moff = d.len();
    let ioff = moff + framed(meta).len();
    d + framed(meta) + framed(index) + footer_bytes(
        ioff as u64,
        index.len() as u64,
        moff as u64,
        meta.len() as u64,
    )
}

/// What entries cost a table at most: 64 bytes each, plus key and value.
pub open spec fn charge(es: Seq<EntrySpec>) -> int
    decreases es.len(),
{
    if es.len() == 0 {
        0
    } else {
        charge(es.drop_last()) + 64 + es.last().0.len() + es.last().1.len()
    }
}

/// Charges add up, and every entry costs at least 64.
pub proof fn lemma_charge_add(a: Seq<EntrySpec>, b: Seq<EntrySpec>)
    ensures
        charge(a + b) == charge(a) + charge(b),
        charge(b) >= 64 * b.len(),
    decreases b.len(),
{
    if b.len() == 0 {
        assert(a + b =~= a);
    } else {
        lemma_charge_add(a, b.drop_last());
        assert((a + b).drop_last() =~= a + b.drop_last());
        assert((a + b).last() == b.last());
    }
}

/// Each block holds at least one entry and its encoding fits a `u32` size.
pub open spec fn blocks_sound(blocks: Seq<Seq<EntrySpec>>) -> bool {
    forall|i: int|
        0 <= i < blocks.len() ==> #[trigger] blocks[i].len() > 0 && entries_fit(blocks[i])
            && block_bytes(blocks[i]).len() <= u32::MAX
}

/// Appends `content` and its trailer; the handle says where the content went.
pub fn write_framed(writer: &mut TableWriter, content: &[u8]) -> (h: BlockHandle)
    requires
        old(writer).view().len() < 0x1_0000_0000_0000_0000,
    ensures
        final(writer).view() == old(writer).view() + framed(content@),
        h.offset == Some(old(writer).view().len() as u64),
        h.size == Some(content@.len() as u64),
{
    let offset = writer.offset();
    let mut framed_content = vstd::slice::slice_to_vec(content);
    framed_content.push(0u8);
    let crc = crc32c(framed_content.as_slice());
    let mut trailer: Vec<u8> = Vec::new();
    trailer.push(0u8);
    put_u32(&mut trailer, crc);
    writer.write(content);
    writer.write(trailer.as_slice());
    proof {
        assert(framed_content@ =~= content@ + seq![0u8]);
        assert(trailer@ =~= trailer_bytes(content@));
        assert(final(writer).view() =~= old(writer).view() + framed(content@));
    }
    BlockHandle::from(content.len() as u64, offset)
}

/// Collects the bytes of a table as they are written.
pub struct TableWriter {
    inner: Vec<u8>,
}

impl TableWriter {
    pub closed spec fn view(&self) -> Seq<u8> {
        self.inner@
    }

    pub fn new() -> (r: TableWriter)
        ensures
            r.view() == Seq::<u8>::empty(),
    {
        TableWriter { inner: Vec::new() }
    }

    /// Appends `content`; returns how many bytes were written.
    pub fn write(&mut self, content: &[u8]) -> (r: usize)
        ensures
            final(self).view() == old(self).view() + content@,
            r == content@.len(),
    {
        put_bytes(&mut self.inner, content);
        content.len()
    }

    /// How many bytes have been written.
    pub fn offset(&self) -> (r: u64)
        ensures
            r == self.view().len(),
    {
        self.inner.len() as u64
    }

    /// The bytes written.
    pub fn into_inner(self) -> (r: Vec<u8>)
        ensures
            r@ == self.view(),
    {
        self.inner
    }
}

/// Builds a table from entries added in strictly ascending key order.
pub struct TableBuilder {
    writer: TableWriter,
    data_block: BlockBuilder,
    index_block: BlockBuilder,
    last_key: Vec<u8>,
    count: usize,
    order: KeyOrder,
    blocks: Ghost<Seq<Seq<EntrySpec>>>,
}

impl TableBuilder {
    /// The entries added so far.
    pub closed spec fn view(&self) -> Seq<EntrySpec> {
        flatten(self.blocks@) + self.data_block.view()
    }

    /// The data blocks written so far.
    pub closed spec fn spec_blocks(&self) -> Seq<Seq<EntrySpec>> {
        self.blocks@
    }

    /// The entries of the block being filled.
    pub closed spec fn spec_pending(&self) -> Seq<EntrySpec> {
        self.data_block.view()
    }

    pub closed spec fn wf(&self) -> bool {
        &&& self.wf_core()
        &&& self.data_block.spec_estimated_size() < BLOCK_SIZE
        &&& self.writer.view().len() < 0x8000_0000_0000 + 0x2_0000_0000
    }

    closed spec fn wf_core(&self) -> bool {
        let blocks = self.blocks@;
        let es = flatten(blocks) + self.data_block.view();
        &&& self.data_block.wf()
        &&& self.index_block.wf()
        &&& !self.data_block.is_finished()
        &&& !self.index_block.is_finished()
        &&& self.writer.view() == data_file(blocks)
        &&& self.index_block.view() == index_entries(blocks)
        &&& blocks_sound(blocks)
        &&& self.count == es.len()
        &&& (es.len() > 0 ==> self.last_key@ == es.last().0)
        &&& sorted_entries(self.order, es)
        &&& forall|i: int| 0 <= i < es.len() ==> #[trigger] es[i].0.len() <= MAX_ENTRY_LEN && es[i].1.len() <= MAX_ENTRY_LEN
        &&& self.data_block.spec_estimated_size() < BLOCK_SIZE + 16 + 2 * MAX_ENTRY_LEN
        &&& (self.data_block.view().len() > 0 ==> self.index_block.spec_estimated_size() + 32
            + self.last_key@.len() <= u32::MAX)
        &&& self.writer.view().len() < 0x1000_0000_0000_0000
        &&& self.data_block.spec_estimated_size() + 48 * self.data_block.view().len() <= 8 + charge(
            self.data_block.view(),
        )
        &&& self.writer.view().len() <= charge(flatten(blocks))
        &&& self.index_block.spec_estimated_size() <= 8 + charge(flatten(blocks))
    }

    /// A table whose entries so far, with one more key, cost at most a
    /// `u32`'s worth has room for that key.
    pub proof fn lemma_room(&self, key_len: int)
        requires
            self.wf(),
            key_len >= 0,
            charge(self.view()) + 40 + key_len <= u32::MAX,
        ensures
            self.has_room(key_len),
    {
        lemma_charge_add(flatten(self.blocks@), self.data_block.view());
        lemma_charge_add(Seq::<EntrySpec>::empty(), self.view());
    }

    /// How the table's keys must be ordered.
    pub closed spec fn spec_order(&self) -> KeyOrder {
        self.order
    }

    /// The size the index block would have now.
    pub closed spec fn spec_index_size(&self) -> int {
        self.index_block.spec_estimated_size()
    }

    /// Whether the table has room for one more key of `key_len` bytes: its
    /// index entry still fits the index block, the file is below 128 TiB,
    /// and the entry count can grow.
    pub open spec fn has_room(&self, key_len: int) -> bool {
        &&& self.spec_index_size() + 32 + key_len <= u32::MAX
        &&& self.spec_written().len() < 0x8000_0000_0000
        &&& self.view().len() < usize::MAX
    }

    /// A builder for keys in byte-wise order.
    pub fn new() -> (r: TableBuilder)
        ensures
            r.wf(),
            r.view() == Seq::<EntrySpec>::empty(),
            r.spec_order() == KeyOrder::Bytewise,
    {
        TableBuilder::with_order(KeyOrder::Bytewise)
    }

    /// A builder for keys in `order`.
    pub fn with_order(order: KeyOrder) -> (r: TableBuilder)
        ensures
            r.wf(),
            r.view() == Seq::<EntrySpec>::empty(),
            r.spec_order() == order,
    {
        let r = TableBuilder {
            writer: TableWriter::new(),
            data_block: BlockBuilder::new(),
            index_block: BlockBuilder::new(),
            last_key: Vec::new(),
            count: 0,
            order,
            blocks: Ghost(Seq::empty()),
        };
        proof {
            assert(index_entries(Seq::<Seq<EntrySpec>>::empty()) =~= Seq::<EntrySpec>::empty());
            assert(flatten(Seq::<Seq<EntrySpec>>::empty()) + Seq::<EntrySpec>::empty() =~= Seq::<EntrySpec>::empty());
        }
        r
    }

    /// The bytes written so far.
    pub closed spec fn spec_written(&self) -> Seq<u8> {
        self.writer.view()
    }

    /// The data blocks once the block being filled is closed.
    pub open spec fn final_blocks(&self) -> Seq<Seq<EntrySpec>> {
        if self.spec_pending().len() == 0 {
            self.spec_blocks()
        } else {
            self.spec_blocks().push(self.spec_pending())
        }
    }

    /// Closes the block being filled, if it holds anything, and indexes it.
    fn flush(&mut self)
        requires
            old(self).wf_core(),
            old(self).writer.view().len() < 0x8000_0000_0000 + 0x2_0000_0000,
        ensures
            final(self).wf_core(),
            final(self).order == old(self).order,
            final(self).data_block.spec_estimated_size() == 8,
            final(self).view() == old(self).view(),
            final(self).spec_blocks() == old(self).final_blocks(),
            final(self).spec_pending().len() == 0,
            final(self).writer.view().len() <= old(self).writer.view().len() + BLOCK_SIZE + 2
                * MAX_ENTRY_LEN + 64,
            old(self).spec_pending().len() == 0 ==> *final(self) == *old(self),
    {
        proof {
            self.data_block.lemma_size_fits();
            lemma_auto_spec_u32_to_from_le_bytes();
            lemma_auto_spec_u64_to_from_le_bytes();
        }
        if self.data_block.empty() {
            return;
        }
        let ghost blocks = self.blocks@;
        let ghost pending = self.data_block.view();
        let ghost n = blocks.len() as int;
        proof {
            assert(pending.len() > 0);
            assert(self.index_block.spec_estimated_size() + 32 + self.last_key@.len() <= u32::MAX);
        }
        let content = self.data_block.build();
        proof {
            crate::block_format::lemma_u32s_bytes_len(Seq::<u32>::empty());
        }
        let h = write_framed(&mut self.writer, content.as_slice());
        let hb = h.encode();
        self.index_block.add(self.last_key.as_slice(), hb.as_slice());
        self.data_block = BlockBuilder::new();
        let ghost nb = blocks.push(pending);
        self.blocks = Ghost(nb);
        proof {
            assert(nb.drop_last() =~= blocks);
            assert(nb.take(n) =~= blocks);
            assert forall|i: int| 0 <= i < n implies #[trigger] block_offset(nb, i) == block_offset(blocks, i) by {
                assert(nb.take(i) =~= blocks.take(i));
            }
            assert(index_entries(nb) =~= index_entries(blocks).push((self.last_key@, hb@)));
            assert(flatten(nb) + Seq::<EntrySpec>::empty() =~= flatten(blocks) + pending);
            assert(flatten(nb) == flatten(blocks) + pending);
            lemma_charge_add(flatten(blocks), pending);
            lemma_charge_add(pending.drop_last(), seq![pending.last()]);
            assert(pending.drop_last() + seq![pending.last()] =~= pending);
            lemma_charge_add(Seq::<EntrySpec>::empty(), pending.drop_last());
            assert((flatten(blocks) + pending).last() == pending.last());
            assert(self.data_block.view() =~= Seq::<EntrySpec>::empty());
            lemma_auto_spec_u32_to_from_le_bytes();
            assert(blocks_sound(nb)) by {
                assert forall|i: int| 0 <= i < nb.len() implies #[trigger] nb[i].len() > 0 && entries_fit(nb[i])
                    && block_bytes(nb[i]).len() <= u32::MAX by {
                    if i < n {
                        assert(nb[i] == blocks[i]);
                    } else {
                        let es = flatten(blocks) + pending;
                        assert forall|j: int| 0 <= j < pending.len() implies #[trigger] pending[j].0.len() <= u32::MAX
                            && pending[j].1.len() <= u32::MAX by {
                            let k = flatten(blocks).len() + j;
                            assert(es[k] == pending[j]);
                            assert(es[k].0.len() <= MAX_ENTRY_LEN && es[k].1.len() <= MAX_ENTRY_LEN);
                        }
                    }
                }
            }
        }
    }

    /// Adds an entry. `InvalidArgument` when its key does not sort after the
    /// last one, when the key or value is longer than `MAX_ENTRY_LEN`, or when
    /// the table has no room left for it.
    pub fn add(&mut self, key: &[u8], value: &[u8]) -> (r: Result<(), ErrorKind>)
        requires
            old(self).wf(),
        ensures
            final(self).wf(),
            final(self).spec_order() == old(self).spec_order(),
            r.is_ok() <==> (key@.len() <= MAX_ENTRY_LEN && value@.len() <= MAX_ENTRY_LEN && (old(self).view().len()
                == 0 || key_lt(old(self).spec_order(), old(self).view().last().0, key@)) && old(self).has_room(
                key@.len() as int,
            )),
            r.is_ok() ==> final(self).view() == old(self).view().push((key@, value@)),
            r.is_err() ==> r == Err::<(), ErrorKind>(ErrorKind::InvalidArgument) && final(self).view()
                == old(self).view(),
    {
        if key.len() > MAX_ENTRY_LEN || value.len() > MAX_ENTRY_LEN {
            return Err(ErrorKind::InvalidArgument);
        }
        if self.count > 0 {
            match compare_keys(self.order, self.last_key.as_slice(), key) {
                Ordering::Less => {},
                _ => {
                    return Err(ErrorKind::InvalidArgument);
                },
            }
        }
        proof {
            self.index_block.lemma_size_fits();
        }
        if self.index_block.estimated_current_size() as u64 + 32 + key.len() as u64 > u32::MAX as u64
            || self.writer.offset() >= 0x8000_0000_0000 || self.count == usize::MAX {
            return Err(ErrorKind::InvalidArgument);
        }
        let ghost es = self.view();
        let ghost blocks = self.blocks@;
        let ghost pending = self.data_block.view();
        self.data_block.add(key, value);
        proof {
            assert(self.data_block.view().drop_last() =~= pending);
        }
        self.last_key = vstd::slice::slice_to_vec(key);
        self.count = self.count + 1;
        proof {
            let es2 = es.push((key@, value@));
            assert(flatten(blocks) + self.data_block.view() =~= es2);
            assert(sorted_entries(self.order, es2)) by {
                assert forall|i: int, j: int| 0 <= i < j < es2.len() implies key_lt(self.order, 
                    #[trigger] es2[i].0,
                    #[trigger] es2[j].0,
                ) by {
                    if j == es.len() {
                        if i < es.len() - 1 {
                            crate::comparator::lemma_key_trans(self.order, es[i].0, es[es.len() - 1].0, key@);
                        }
                    }
                }
            }
        }
        if self.data_block.estimated_current_size() >= BLOCK_SIZE {
            self.flush();
        }
        Ok(())
    }

    /// The bytes written so far.
    pub fn size(&self) -> (r: usize)
        ensures
            r == self.spec_written().len(),
    {
        self.writer.inner.len()
    }

    /// Closes the last data block and writes the metaindex block, the index
    /// block and the footer; returns the whole table.
    #[verifier::rlimit(40)]
    #[verifier::spinoff_prover]
    pub fn build(self) -> (r: Vec<u8>)
        requires
            self.wf(),
        ensures
            r@ == table_file(self.final_blocks()),
            flatten(self.final_blocks()) == self.view(),
            blocks_sound(self.final_blocks()),
            sorted_entries(self.spec_order(), self.view()),
            r@.len() < 0x1_0000_0000_0000_0000,
            entries_fit(index_entries(self.final_blocks())),
            block_bytes(index_entries(self.final_blocks())).len() <= u32::MAX,
    {
        proof {
            lemma_auto_spec_u32_to_from_le_bytes();
        }
        let mut b = self;
        b.flush();
        let ghost blocks = b.blocks@;
        let ghost d = b.writer.view();
        proof {
            b.index_block.lemma_size_fits();
        }
        let mut meta = BlockBuilder::new();
        let meta_content = meta.build();
        let mh = write_framed(&mut b.writer, meta_content.as_slice());
        let ghost dm = b.writer.view();
        let index_content = b.index_block.build();
        let ih = write_framed(&mut b.writer, index_content.as_slice());
        let ghost dmi = b.writer.view();
        let footer = Footer::new(ih, mh);
        let fb = footer.encode();
        b.writer.write(fb.as_slice());
        proof {
            assert(flatten(blocks) + Seq::<EntrySpec>::empty() =~= flatten(blocks));
            assert(d == data_file(blocks));
            assert(dm == d + framed(block_bytes(Seq::<EntrySpec>::empty())));
            assert(dmi == dm + framed(block_bytes(index_entries(blocks))));
            assert(b.writer.view() == dmi + fb@);
            lemma_auto_spec_u64_to_from_le_bytes();
            assert(fb@.len() == 40);
            assert(dmi.len() == dm.len() + index_content@.len() + 5);
        }
        b.writer.into_inner()
    }
}

} // verus!
