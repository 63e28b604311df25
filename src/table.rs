//! Opens a table held in memory and looks keys up in it.
use crate::block::{lemma_seek_at, lemma_seek_first, seek_entries, seek_entry, sorted_entries, Block};
use crate::block_format::{
    block_bytes, decode_block, entries_fit, lemma_block_round_trip, EntrySpec,
};
use crate::coding::window;
use crate::comparator::{key_le, key_lt, lemma_key_cmp_basics, lemma_key_trans, KeyOrder};
use crate::error::ErrorKind;
use crate::format::{
    crc32c_of, footer_bytes, handle_bytes, lemma_footer_round_trip, lemma_handle_round_trip,
    read_block, read_block_spec, u64_at, BlockHandle, Footer, FOOTER_LEN, TABLE_MAGIC_NUMBER,
};
use crate::table_builder::{
    block_offset, blocks_sound, data_file, flatten, framed, index_entries, table_file,
};
use vstd::bytes::*;
use vstd::prelude::*;

verus! {

/// The footer of a table: its last forty bytes.
pub open spec fn footer_of(file: Seq<u8>) -> Seq<u8> {
    file.skip(file.len() - FOOTER_LEN)
}

/// The index entries of a table, if its footer and index block are sound.
pub open spec fn table_index(file: Seq<u8>) -> Option<Seq<EntrySpec>> {
    if file.len() < FOOTER_LEN {
        None
    } else if u64_at(footer_of(file), 32) != TABLE_MAGIC_NUMBER {
        None
    } else {
        read_block_spec(file, u64_at(footer_of(file), 0) as int, u64_at(footer_of(file), 8) as int)
    }
}

/// What a lookup of `t` gives, given the table's index: `Err` when the data
/// block that the index points to is unsound.
pub open spec fn table_get_spec(ord: KeyOrder, file: Seq<u8>, index: Seq<EntrySpec>, t: Seq<u8>) -> Result<Option<Seq<u8>>, ErrorKind> {
    match seek_entries(ord, index, t) {
        None => Ok(None),
        Some(h) => if h.len() < 16 {
            Err(ErrorKind::Corruption)
        } else {
            match read_block_spec(file, u64_at(h, 0) as int, u64_at(h, 8) as int) {
                None => Err(ErrorKind::Corruption),
                Some(es) => Ok(seek_entries(ord, es, t)),
            }
        },
    }
}

/// A framed block reads back as its content decodes.
pub proof fn lemma_read_framed(prefix: Seq<u8>, content: Seq<u8>, suffix: Seq<u8>)
    ensures
        read_block_spec(prefix + framed(content) + suffix, prefix.len() as int, content.len() as int)
            == decode_block(content),
{
    lemma_auto_spec_u32_to_from_le_bytes();
    let file = prefix + framed(content) + suffix;
    let off = prefix.len() as int;
    let size = content.len() as int;
    assert(file[off + size] == 0u8);
    assert(window(file, off + size + 1, 4) =~= spec_u32_to_le_bytes(crc32c_of(content + seq![0u8])));
    assert(file.subrange(off, off + size + 1) =~= content + seq![0u8]);
    assert(file.subrange(off, off + size) =~= content);
}

/// The data of the first `m` blocks starts the data of all of them.
pub proof fn lemma_data_file_prefix(blocks: Seq<Seq<EntrySpec>>, m: int)
    requires
        0 <= m <= blocks.len(),
    ensures
        data_file(blocks.take(m)).len() <= data_file(blocks).len(),
        data_file(blocks).take(data_file(blocks.take(m)).len() as int) == data_file(blocks.take(m)),
    decreases blocks.len(),
{
    if m == blocks.len() {
        assert(blocks.take(m) =~= blocks);
        assert(data_file(blocks).take(data_file(blocks).len() as int) =~= data_file(blocks));
    } else {
        let b2 = blocks.drop_last();
        lemma_data_file_prefix(b2, m);
        assert(b2.take(m) =~= blocks.take(m));
        assert(data_file(blocks) == data_file(b2) + framed(block_bytes(blocks.last())));
        assert(data_file(blocks).take(data_file(blocks.take(m)).len() as int) =~= data_file(b2).take(
            data_file(blocks.take(m)).len() as int,
        ));
    }
}

/// The entries of the first `m` blocks start the entries of all of them.
pub proof fn lemma_flatten_prefix(blocks: Seq<Seq<EntrySpec>>, m: int)
    requires
        0 <= m <= blocks.len(),
    ensures
        flatten(blocks.take(m)).len() <= flatten(blocks).len(),
        flatten(blocks).take(flatten(blocks.take(m)).len() as int) == flatten(blocks.take(m)),
    decreases blocks.len(),
{
    if m == blocks.len() {
        assert(blocks.take(m) =~= blocks);
        assert(flatten(blocks).take(flatten(blocks).len() as int) =~= flatten(blocks));
    } else {
        let b2 = blocks.drop_last();
        lemma_flatten_prefix(b2, m);
        assert(b2.take(m) =~= blocks.take(m));
        assert(flatten(blocks).take(flatten(blocks.take(m)).len() as int) =~= flatten(b2).take(
            flatten(blocks.take(m)).len() as int,
        ));
    }
}

/// Block `i` sits in the data where the index says.
pub proof fn lemma_block_in_file(blocks: Seq<Seq<EntrySpec>>, i: int, rest: Seq<u8>)
    requires
        0 <= i < blocks.len(),
    ensures
        read_block_spec(data_file(blocks) + rest, block_offset(blocks, i), block_bytes(blocks[i]).len() as int)
            == decode_block(block_bytes(blocks[i])),
{
    let p = data_file(blocks.take(i));
    let q = data_file(blocks.take(i + 1));
    assert(blocks.take(i + 1).drop_last() =~= blocks.take(i));
    assert(q == p + framed(block_bytes(blocks[i])));
    lemma_data_file_prefix(blocks, i + 1);
    let file = data_file(blocks) + rest;
    let suffix = file.skip(q.len() as int);
    assert(file =~= p + framed(block_bytes(blocks[i])) + suffix);
    lemma_read_framed(p, block_bytes(blocks[i]), suffix);
}

/// Block `k`'s entries sit in the flattened entries where they start.
pub proof fn lemma_block_in_flatten(blocks: Seq<Seq<EntrySpec>>, k: int, m: int)
    requires
        0 <= k < blocks.len(),
        0 <= m < blocks[k].len(),
    ensures
        flatten(blocks.take(k)).len() + m < flatten(blocks).len(),
        flatten(blocks)[flatten(blocks.take(k)).len() + m] == blocks[k][m],
{
    assert(blocks.take(k + 1).drop_last() =~= blocks.take(k));
    assert(flatten(blocks.take(k + 1)) == flatten(blocks.take(k)) + blocks[k]);
    lemma_flatten_prefix(blocks, k + 1);
    let s = flatten(blocks.take(k)).len() + m;
    assert(flatten(blocks).take(flatten(blocks.take(k + 1)).len() as int)[s] == flatten(blocks.take(k + 1))[s]);
}

/// When the target sorts after the last key of each of the first `i`
/// blocks, it sorts after every entry of those blocks.
pub proof fn lemma_prefix_below(ord: KeyOrder, blocks: Seq<Seq<EntrySpec>>, i: int, t: Seq<u8>)
    requires
        0 <= i <= blocks.len(),
        blocks_sound(blocks),
        sorted_entries(ord, flatten(blocks)),
        forall|k: int| 0 <= k < i ==> !key_le(ord, t, (#[trigger] blocks[k]).last().0),
    ensures
        forall|j: int| 0 <= j < flatten(blocks.take(i)).len() ==> !key_le(ord, t, #[trigger] flatten(blocks)[j].0),
    decreases i,
{
    if i > 0 {
        lemma_prefix_below(ord, blocks, i - 1, t);
        let k = i - 1;
        let start = flatten(blocks.take(k)).len() as int;
        let len = blocks[k].len() as int;
        assert(blocks.take(i).drop_last() =~= blocks.take(k));
        assert(flatten(blocks.take(i)) == flatten(blocks.take(k)) + blocks[k]);
        assert forall|j: int| 0 <= j < flatten(blocks.take(i)).len() implies !key_le(ord, t, #[trigger] flatten(blocks)[j].0) by {
            if j >= start {
                let m = j - start;
                lemma_block_in_flatten(blocks, k, m);
                lemma_block_in_flatten(blocks, k, len - 1);
                let f = flatten(blocks);
                let last = blocks[k].last().0;
                assert(blocks[k][len - 1] == blocks[k].last());
                lemma_key_cmp_basics(ord, t, last);
                lemma_key_cmp_basics(ord, last, t);
                assert(key_lt(ord, last, t));
                if m < len - 1 {
                    assert(key_lt(ord, f[j].0, f[start + len - 1].0));
                    lemma_key_trans(ord, f[j].0, last, t);
                } else {
                    assert(f[j].0 == last);
                }
                lemma_key_cmp_basics(ord, f[j].0, t);
                lemma_key_cmp_basics(ord, t, f[j].0);
            }
        }
    } else {
        assert(blocks.take(0) =~= Seq::<Seq<EntrySpec>>::empty());
    }
}

/// What a table needs of its blocks to read back: each block sound, all
/// entries sorted, and an index block that fits.
pub open spec fn table_sound(ord: KeyOrder, blocks: Seq<Seq<EntrySpec>>) -> bool {
    &&& blocks_sound(blocks)
    &&& sorted_entries(ord, flatten(blocks))
    &&& entries_fit(index_entries(blocks))
    &&& block_bytes(index_entries(blocks)).len() <= u32::MAX
    &&& table_file(blocks).len() < 0x1_0000_0000_0000_0000
}

/// A table built from sorted entries opens to the index of its blocks, and
/// looking a key up in it gives what a seek over all its entries gives:
/// the value of the smallest key at or after the target, or nothing.
#[verifier::spinoff_prover]
pub proof fn lemma_table_round_trip(ord: KeyOrder, blocks: Seq<Seq<EntrySpec>>, t: Seq<u8>)
    requires
        table_sound(ord, blocks),
    ensures
        table_index(table_file(blocks)) == Some(index_entries(blocks)),
        table_get_spec(ord, table_file(blocks), index_entries(blocks), t) == Ok::<Option<Seq<u8>>, ErrorKind>(
            seek_entries(ord, flatten(blocks), t),
        ),
{
    let d = data_file(blocks);
    let meta = block_bytes(Seq::<EntrySpec>::empty());
    let idx = index_entries(blocks);
    let ib = block_bytes(idx);
    let moff = d.len();
    let ioff = moff + framed(meta).len();
    let footer = footer_bytes(ioff as u64, ib.len() as u64, moff as u64, meta.len() as u64);
    let file = table_file(blocks);
    assert(file == d + framed(meta) + framed(ib) + footer);
    lemma_footer_round_trip(ioff as u64, ib.len() as u64, moff as u64, meta.len() as u64);
    lemma_auto_spec_u32_to_from_le_bytes();
    assert(framed(ib).len() == ib.len() + 5);
    assert(footer_of(file) =~= footer);
    assert(ioff as u64 == ioff);
    assert(file =~= (d + framed(meta)) + framed(ib) + footer);
    lemma_read_framed(d + framed(meta), ib, footer);
    lemma_block_round_trip(idx);
    assert(table_index(file) == Some(idx));
    let f = flatten(blocks);
    let n = blocks.len() as int;
    lemma_seek_first(ord, idx, t);
    lemma_seek_first(ord, f, t);
    match seek_entries(ord, idx, t) {
        Some(h) => {
            let i = choose|i: int|
                0 <= i < idx.len() && idx[i].1 == h && key_le(ord, t, #[trigger] idx[i].0) && forall|j: int|
                    0 <= j < i ==> !key_le(ord, t, #[trigger] idx[j].0);
            let off = block_offset(blocks, i);
            let len = block_bytes(blocks[i]).len() as int;
            lemma_data_file_prefix(blocks, i);
            assert(h == handle_bytes(off as u64, len as u64));
            lemma_handle_round_trip(off as u64, len as u64, Seq::empty());
            assert(h + Seq::<u8>::empty() =~= h);
            assert(u64_at(h, 0) == off);
            assert(u64_at(h, 8) == len);
            let rest = framed(meta) + framed(ib) + footer;
            assert(file =~= d + rest);
            lemma_block_in_file(blocks, i, rest);
            lemma_block_round_trip(blocks[i]);
            let bk = blocks[i];
            lemma_seek_first(ord, bk, t);
            assert(bk[bk.len() - 1] == bk.last());
            assert(key_le(ord, t, bk[bk.len() - 1].0));
            match seek_entries(ord, bk, t) {
                Some(w) => {
                    let m = choose|m: int|
                        0 <= m < bk.len() && bk[m].1 == w && key_le(ord, t, #[trigger] bk[m].0) && forall|j: int|
                            0 <= j < m ==> !key_le(ord, t, #[trigger] bk[j].0);
                    let start = flatten(blocks.take(i)).len() as int;
                    lemma_block_in_flatten(blocks, i, m);
                    assert forall|k: int| 0 <= k < i implies !key_le(ord, t, (#[trigger] blocks[k]).last().0) by {
                        assert(idx[k].0 == blocks[k].last().0);
                    }
                    lemma_prefix_below(ord, blocks, i, t);
                    assert forall|j: int| 0 <= j < start + m implies !key_le(ord, t, #[trigger] f[j].0) by {
                        if j >= start {
                            lemma_block_in_flatten(blocks, i, j - start);
                        }
                    }
                    lemma_seek_at(ord, f, t, start + m);
                },
                None => {},
            }
        },
        None => {
            assert forall|k: int| 0 <= k < n implies !key_le(ord, t, (#[trigger] blocks[k]).last().0) by {
                assert(idx[k].0 == blocks[k].last().0);
            }
            lemma_prefix_below(ord, blocks, n, t);
            assert(blocks.take(n) =~= blocks);
            match seek_entries(ord, f, t) {
                Some(v) => {
                    let j = choose|j: int|
                        0 <= j < f.len() && f[j].1 == v && key_le(ord, t, #[trigger] f[j].0) && forall|k: int|
                            0 <= k < j ==> !key_le(ord, t, #[trigger] f[k].0);
                },
                None => {},
            }
        },
    }
}

/// The block that handle bytes `h` point to, if it reads back.
pub open spec fn block_at(file: Seq<u8>, h: Seq<u8>) -> Option<Seq<EntrySpec>> {
    if h.len() < 16 {
        None
    } else {
        read_block_spec(file, u64_at(h, 0) as int, u64_at(h, 8) as int)
    }
}

/// The entries of the blocks that the index names, in index order, if
/// every one of them reads back.
pub open spec fn table_entries(file: Seq<u8>, index: Seq<EntrySpec>) -> Option<Seq<EntrySpec>>
    decreases index.len(),
{
    if index.len() == 0 {
        Some(Seq::empty())
    } else {
        match (table_entries(file, index.drop_last()), block_at(file, index.last().1)) {
            (Some(a), Some(b)) => Some(a + b),
            _ => None,
        }
    }
}

proof fn lemma_table_entries_prefix(file: Seq<u8>, index: Seq<EntrySpec>, k: int)
    requires
        0 <= k <= index.len(),
        table_entries(file, index.take(k)).is_none(),
    ensures
        table_entries(file, index).is_none(),
    decreases index.len() - k,
{
    if k < index.len() {
        assert(index.take(k + 1).drop_last() =~= index.take(k));
        lemma_table_entries_prefix(file, index, k + 1);
    } else {
        assert(index.take(k) =~= index);
    }
}

/// Iterating a table built from sorted entries gives back every entry, in order.
#[verifier::spinoff_prover]
pub proof fn lemma_table_iter_round_trip(ord: KeyOrder, blocks: Seq<Seq<EntrySpec>>)
    requires
        table_sound(ord, blocks),
    ensures
        table_entries(table_file(blocks), index_entries(blocks)) == Some(flatten(blocks)),
{
    lemma_table_entries_upto(ord, blocks, blocks.len() as int);
    assert(blocks.take(blocks.len() as int) =~= blocks);
    assert(index_entries(blocks).take(blocks.len() as int) =~= index_entries(blocks));
}

proof fn lemma_table_entries_upto(ord: KeyOrder, blocks: Seq<Seq<EntrySpec>>, k: int)
    requires
        table_sound(ord, blocks),
        0 <= k <= blocks.len(),
    ensures
        table_entries(table_file(blocks), index_entries(blocks).take(k)) == Some(flatten(blocks.take(k))),
    decreases k,
{
    let idx = index_entries(blocks);
    let file = table_file(blocks);
    if k == 0 {
        assert(idx.take(0) =~= Seq::<EntrySpec>::empty());
        assert(blocks.take(0) =~= Seq::<Seq<EntrySpec>>::empty());
    } else {
        lemma_table_entries_upto(ord, blocks, k - 1);
        let i = k - 1;
        assert(idx.take(k).drop_last() =~= idx.take(i));
        assert(idx.take(k).last() == idx[i]);
        let off = block_offset(blocks, i);
        let len = block_bytes(blocks[i]).len() as int;
        lemma_data_file_prefix(blocks, i);
        let h = idx[i].1;
        assert(h == handle_bytes(off as u64, len as u64));
        lemma_handle_round_trip(off as u64, len as u64, Seq::empty());
        assert(h + Seq::<u8>::empty() =~= h);
        let d = data_file(blocks);
        let meta = block_bytes(Seq::<EntrySpec>::empty());
        let ib = block_bytes(idx);
        let moff = d.len();
        let ioff = moff + framed(meta).len();
        let footer = footer_bytes(ioff as u64, ib.len() as u64, moff as u64, meta.len() as u64);
        let rest = framed(meta) + framed(ib) + footer;
        assert(file =~= d + rest);
        lemma_block_in_file(blocks, i, rest);
        lemma_block_round_trip(blocks[i]);
        assert(block_at(file, h) == Some(blocks[i]));
        assert(blocks.take(k).drop_last() =~= blocks.take(i));
        assert(blocks.take(k).last() == blocks[i]);
    }
}

/// The first entry at or after `t` in the data block that the index names
/// for `t`, key and value; `Err` when that block is unsound.
pub open spec fn table_get_entry_spec(ord: KeyOrder, file: Seq<u8>, index: Seq<EntrySpec>, t: Seq<u8>) -> Result<Option<EntrySpec>, ErrorKind> {
    match seek_entries(ord, index, t) {
        None => Ok(None),
        Some(h) => if h.len() < 16 {
            Err(ErrorKind::Corruption)
        } else {
            match read_block_spec(file, u64_at(h, 0) as int, u64_at(h, 8) as int) {
                None => Err(ErrorKind::Corruption),
                Some(es) => Ok(seek_entry(ord, es, t)),
            }
        },
    }
}

/// An opened table.
pub struct Table {
    file: Vec<u8>,
    index_block: Block,
}

impl Table {
    /// The bytes of the table.
    pub closed spec fn spec_file(&self) -> Seq<u8> {
        self.file@
    }

    /// The entries of its index block.
    pub closed spec fn spec_index(&self) -> Seq<EntrySpec> {
        self.index_block.view()
    }

    /// How the table's keys are ordered.
    pub closed spec fn spec_order(&self) -> KeyOrder {
        self.index_block.spec_order()
    }

    /// Reads the footer and the index block of a table whose keys sort
    /// byte-wise; `Corruption` unless both are sound.
    pub fn open(file: Vec<u8>) -> (r: Result<Table, ErrorKind>)
        ensures
            match table_index(file@) {
                Some(index) => r.is_ok() && r.unwrap().spec_file() == file@ && r.unwrap().spec_index()
                    == index && r.unwrap().spec_order() == KeyOrder::Bytewise,
                None => r == Err::<Table, ErrorKind>(ErrorKind::Corruption),
            },
    {
        Table::open_with(file, KeyOrder::Bytewise)
    }

    /// Reads the footer and the index block of a table whose keys sort by
    /// `order`; `Corruption` unless both are sound.
    pub fn open_with(file: Vec<u8>, order: KeyOrder) -> (r: Result<Table, ErrorKind>)
        ensures
            match table_index(file@) {
                Some(index) => r.is_ok() && r.unwrap().spec_file() == file@ && r.unwrap().spec_index()
                    == index && r.unwrap().spec_order() == order,
                None => r == Err::<Table, ErrorKind>(ErrorKind::Corruption),
            },
    {
        let n = file.len();
        if n < FOOTER_LEN {
            return Err(ErrorKind::Corruption);
        }
        let fslice = vstd::slice::slice_subrange(file.as_slice(), n - FOOTER_LEN, n);
        proof {
            assert(fslice@ =~= footer_of(file@));
        }
        let footer = match Footer::decode(fslice) {
            Ok(f) => f,
            Err(e) => {
                return Err(e);
            },
        };
        let index_block = match read_block(file.as_slice(), &footer.index_block_handle, order) {
            Ok(b) => b,
            Err(e) => {
                return Err(e);
            },
        };
        Ok(Table { file, index_block })
    }

    /// Looks `key` up: the value of the first entry at or after it, in the
    /// data block that the index names; `Corruption` when that block is unsound.
    pub fn get(&self, key: &[u8]) -> (r: Result<Option<Vec<u8>>, ErrorKind>)
        ensures
            match table_get_spec(self.spec_order(), self.spec_file(), self.spec_index(), key@) {
                Ok(Some(v)) => r.is_ok() && r.unwrap().is_some() && r.unwrap().unwrap()@ == v,
                Ok(None) => r.is_ok() && r.unwrap().is_none(),
                Err(e) => r == Err::<Option<Vec<u8>>, ErrorKind>(e),
            },
    {
        match self.index_block.seek(key) {
            None => Ok(None),
            Some(h) => {
                let handle = match BlockHandle::decode_from(h.as_slice()) {
                    Some(handle) => handle,
                    None => {
                        return Err(ErrorKind::Corruption);
                    },
                };
                match read_block(self.file.as_slice(), &handle, self.index_block.order()) {
                    Ok(block) => Ok(block.seek(key)),
                    Err(e) => Err(e),
                }
            },
        }
    }

    /// Like `get`, but gives the entry found, key and value.
    pub fn get_entry(&self, key: &[u8]) -> (r: Result<Option<(Vec<u8>, Vec<u8>)>, ErrorKind>)
        ensures
            match table_get_entry_spec(self.spec_order(), self.spec_file(), self.spec_index(), key@) {
                Ok(Some(e)) => r.is_ok() && r.unwrap().is_some() && (r.unwrap().unwrap().0@, r.unwrap().unwrap().1@) == e,
                Ok(None) => r.is_ok() && r.unwrap().is_none(),
                Err(e) => r == Err::<Option<(Vec<u8>, Vec<u8>)>, ErrorKind>(e),
            },
    {
        match self.index_block.seek(key) {
            None => Ok(None),
            Some(h) => {
                let handle = match BlockHandle::decode_from(h.as_slice()) {
                    Some(handle) => handle,
                    None => {
                        return Err(ErrorKind::Corruption);
                    },
                };
                match read_block(self.file.as_slice(), &handle, self.index_block.order()) {
                    Ok(block) => Ok(block.seek_entry(key)),
                    Err(e) => Err(e),
                }
            },
        }
    }

    /// Every entry of the table: the data blocks in index order, each in
    /// order; `Corruption` when a block that the index names does not read back.
    pub fn iter(&self) -> (r: Result<TableIterator, ErrorKind>)
        ensures
            match table_entries(self.spec_file(), self.spec_index()) {
                Some(es) => r.is_ok() && r.unwrap().view() == es && r.unwrap().position() == 0,
                None => r == Err::<TableIterator, ErrorKind>(ErrorKind::Corruption),
            },
    {
        let ghost idx = self.index_block.view();
        let ghost file = self.file@;
        let mut index = self.index_block.iter();
        let mut entries: Vec<(Vec<u8>, Vec<u8>)> = Vec::new();
        let n = self.index_block.view_len();
        let mut i: usize = 0;
        proof {
            assert(idx.take(0) =~= Seq::<EntrySpec>::empty());
            assert(crate::block::entries_view(entries@) =~= Seq::<EntrySpec>::empty());
        }
        while i < n
            invariant
                idx == self.index_block.view(),
                file == self.file@,
                index.view() == idx,
                index.position() == i,
                n == idx.len(),
                i <= n,
                table_entries(file, idx.take(i as int)) == Some(crate::block::entries_view(entries@)),
            decreases n - i,
        {
            let (_, h) = index.next().unwrap();
            proof {
                assert(idx.take(i + 1).drop_last() =~= idx.take(i as int));
                assert(idx.take(i + 1).last() == idx[i as int]);
            }
            let handle = match BlockHandle::decode_from(h.as_slice()) {
                Some(handle) => handle,
                None => {
                    proof {
                        lemma_table_entries_prefix(file, idx, i + 1);
                    }
                    return Err(ErrorKind::Corruption);
                },
            };
            let block = match read_block(self.file.as_slice(), &handle, self.index_block.order()) {
                Ok(block) => block,
                Err(e) => {
                    proof {
                        lemma_table_entries_prefix(file, idx, i + 1);
                    }
                    return Err(e);
                },
            };
            let ghost before = crate::block::entries_view(entries@);
            let mut it = block.iter();
            let m = block.view_len();
            let mut j: usize = 0;
            proof {
                assert(block.view().take(0) =~= Seq::<EntrySpec>::empty());
                assert(before + block.view().take(0) =~= before);
            }
            while j < m
                invariant
                    it.view() == block.view(),
                    it.position() == j,
                    m == block.view().len(),
                    j <= m,
                    crate::block::entries_view(entries@) == before + block.view().take(j as int),
                decreases m - j,
            {
                let e = it.next().unwrap();
                let ghost prev = entries@;
                entries.push(e);
                proof {
                    assert(crate::block::entries_view(entries@) =~= crate::block::entries_view(prev).push(
                        (e.0@, e.1@),
                    ));
                    assert(before + block.view().take(j + 1) =~= (before + block.view().take(j as int)).push(
                        block.view()[j as int],
                    ));
                }
                j = j + 1;
            }
            proof {
                assert(block.view().take(m as int) =~= block.view());
            }
            i = i + 1;
        }
        proof {
            assert(idx.take(n as int) =~= idx);
        }
        Ok(TableIterator { entries, current: 0 })
    }
}

/// Walks a table's entries: the data blocks in index order, each entry in order.
pub struct TableIterator {
    entries: Vec<(Vec<u8>, Vec<u8>)>,
    current: usize,
}

impl TableIterator {
    /// All entries of the table.
    pub closed spec fn view(&self) -> Seq<EntrySpec> {
        crate::block::entries_view(self.entries@)
    }

    /// How many entries have been handed out.
    pub closed spec fn position(&self) -> int {
        self.current as int
    }

    /// The next entry, if any.
    pub fn next(&mut self) -> (r: Option<(Vec<u8>, Vec<u8>)>)
        requires
            old(self).position() <= old(self).view().len(),
        ensures
            final(self).view() == old(self).view(),
            final(self).position() <= final(self).view().len(),
            old(self).position() < old(self).view().len() ==> r.is_some() && (r.unwrap().0@, r.unwrap().1@)
                == old(self).view()[old(self).position()] && final(self).position() == old(self).position() + 1,
            old(self).position() == old(self).view().len() ==> r.is_none() && final(self).position()
                == old(self).position(),
    {
        if self.current < self.entries.len() {
            let i = self.current;
            let k = vstd::slice::slice_to_vec(self.entries[i].0.as_slice());
            let v = vstd::slice::slice_to_vec(self.entries[i].1.as_slice());
            self.current = i + 1;
            Some((k, v))
        } else {
            None
        }
    }
}

} // verus!
