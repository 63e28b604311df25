//! Reads a block back: its entries in order, and a seek by key.
use crate::block_format::{
    block_restart_count, block_restart_offset, decode_block, decode_entries, u32_at, EntrySpec,
};
use crate::coding::{get_u32, put_bytes, window};
use crate::comparator::{compare_keys, key_le, key_lt, lemma_key_cmp_basics, KeyOrder};
use crate::error::ErrorKind;
use std::cmp::Ordering;
use vstd::prelude::*;

verus! {

/// The bytes of each key and value, in order.
pub open spec fn entries_view(v: Seq<(Vec<u8>, Vec<u8>)>) -> Seq<EntrySpec> {
    Seq::new(v.len(), |i: int| (v[i].0@, v[i].1@))
}

/// `acc` followed by what a decode gave, if it succeeded.
pub open spec fn prepend(acc: Seq<EntrySpec>, o: Option<Seq<EntrySpec>>) -> Option<Seq<EntrySpec>> {
    match o {
        Some(r) => Some(acc + r),
        None => None,
    }
}

/// The value of the first entry whose key is at or after `target`.
pub open spec fn seek_entries(ord: KeyOrder, es: Seq<EntrySpec>, target: Seq<u8>) -> Option<Seq<u8>>
    decreases es.len(),
{
    if es.len() == 0 {
        None
    } else if key_le(ord, target, es[0].0) {
        Some(es[0].1)
    } else {
        seek_entries(ord, es.drop_first(), target)
    }
}

/// The first entry whose key is at or after `target`, key and value.
pub open spec fn seek_entry(ord: KeyOrder, es: Seq<EntrySpec>, target: Seq<u8>) -> Option<EntrySpec>
    decreases es.len(),
{
    if es.len() == 0 {
        None
    } else if key_le(ord, target, es[0].0) {
        Some(es[0])
    } else {
        seek_entry(ord, es.drop_first(), target)
    }
}

/// A seek finds the first entry whose key is at or after the target.
pub proof fn lemma_seek_first(ord: KeyOrder, es: Seq<EntrySpec>, t: Seq<u8>)
    ensures
        match seek_entries(ord, es, t) {
            Some(v) => exists|i: int|
                0 <= i < es.len() && es[i].1 == v && key_le(ord, t, #[trigger] es[i].0) && forall|j: int|
                    0 <= j < i ==> !key_le(ord, t, #[trigger] es[j].0),
            None => forall|j: int| 0 <= j < es.len() ==> !key_le(ord, t, #[trigger] es[j].0),
        },
    decreases es.len(),
{
    if es.len() > 0 {
        let rest = es.drop_first();
        lemma_seek_first(ord, rest, t);
        if !key_le(ord, t, es[0].0) {
            match seek_entries(ord, rest, t) {
                Some(v) => {
                    let i = choose|i: int|
                        0 <= i < rest.len() && rest[i].1 == v && key_le(ord, t, #[trigger] rest[i].0) && forall|j: int|
                            0 <= j < i ==> !key_le(ord, t, #[trigger] rest[j].0);
                    assert(es[i + 1] == rest[i]);
                    assert forall|j: int| 0 <= j < i + 1 implies !key_le(ord, t, #[trigger] es[j].0) by {
                        if j > 0 {
                            assert(es[j] == rest[j - 1]);
                        }
                    }
                },
                None => {
                    assert forall|j: int| 0 <= j < es.len() implies !key_le(ord, t, #[trigger] es[j].0) by {
                        if j > 0 {
                            assert(es[j] == rest[j - 1]);
                        }
                    }
                },
            }
        }
    }
}

/// The seek result is fixed by the first entry at or after the target.
pub proof fn lemma_seek_at(ord: KeyOrder, es: Seq<EntrySpec>, t: Seq<u8>, i: int)
    requires
        0 <= i < es.len(),
        key_le(ord, t, es[i].0),
        forall|j: int| 0 <= j < i ==> !key_le(ord, t, #[trigger] es[j].0),
    ensures
        seek_entries(ord, es, t) == Some(es[i].1),
{
    lemma_seek_first(ord, es, t);
    match seek_entries(ord, es, t) {
        Some(v) => {
            let k = choose|k: int|
                0 <= k < es.len() && es[k].1 == v && key_le(ord, t, #[trigger] es[k].0) && forall|j: int|
                    0 <= j < k ==> !key_le(ord, t, #[trigger] es[j].0);
            if k < i {
                assert(!key_le(ord, t, es[k].0));
            }
            if k > i {
                assert(!key_le(ord, t, es[i].0));
            }
        },
        None => {
            assert(!key_le(ord, t, es[i].0));
        },
    }
}

/// Keys strictly ascending.
pub open spec fn sorted_entries(ord: KeyOrder, es: Seq<EntrySpec>) -> bool {
    forall|i: int, j: int| 0 <= i < j < es.len() ==> key_lt(ord, #[trigger] es[i].0, #[trigger] es[j].0)
}

/// On sorted entries a seek finds the smallest key at or after the target,
/// and finds nothing only when every key sorts before it.
pub proof fn lemma_seek_smallest(ord: KeyOrder, es: Seq<EntrySpec>, t: Seq<u8>)
    requires
        sorted_entries(ord, es),
    ensures
        match seek_entries(ord, es, t) {
            Some(v) => exists|i: int|
                0 <= i < es.len() && #[trigger] es[i].1 == v && key_le(ord, t, es[i].0) && forall|j: int|
                    0 <= j < es.len() && key_le(ord, t, #[trigger] es[j].0) ==> key_le(ord, es[i].0, es[j].0),
            None => forall|j: int| 0 <= j < es.len() ==> !key_le(ord, t, #[trigger] es[j].0),
        },
    decreases es.len(),
{
    if es.len() > 0 {
        let rest = es.drop_first();
        assert(sorted_entries(ord, rest)) by {
            assert forall|i: int, j: int| 0 <= i < j < rest.len() implies key_lt(ord, 
                #[trigger] rest[i].0,
                #[trigger] rest[j].0,
            ) by {
                assert(rest[i] == es[i + 1] && rest[j] == es[j + 1]);
            }
        }
        lemma_seek_smallest(ord, rest, t);
        if key_le(ord, t, es[0].0) {
            assert forall|j: int| 0 <= j < es.len() && key_le(ord, t, #[trigger] es[j].0) implies key_le(ord, 
                es[0].0,
                es[j].0,
            ) by {
                if j > 0 {
                    assert(key_lt(ord, es[0].0, es[j].0));
                } else {
                    lemma_key_cmp_basics(ord, es[0].0, es[0].0);
                }
            }
        } else {
            match seek_entries(ord, rest, t) {
                Some(v) => {
                    let i = choose|i: int|
                        0 <= i < rest.len() && #[trigger] rest[i].1 == v && key_le(ord, t, rest[i].0)
                            && forall|j: int|
                            0 <= j < rest.len() && key_le(ord, t, #[trigger] rest[j].0) ==> key_le(ord, 
                                rest[i].0,
                                rest[j].0,
                            );
                    assert(es[i + 1] == rest[i]);
                    assert forall|j: int| 0 <= j < es.len() && key_le(ord, t, #[trigger] es[j].0) implies key_le(ord, 
                        es[i + 1].0,
                        es[j].0,
                    ) by {
                        if j > 0 {
                            assert(rest[j - 1] == es[j]);
                        }
                    }
                },
                None => {
                    assert forall|j: int| 0 <= j < es.len() implies !key_le(ord, t, #[trigger] es[j].0) by {
                        if j > 0 {
                            assert(rest[j - 1] == es[j]);
                        }
                    }
                },
            }
        }
    }
}

/// A block built from sorted entries reads back as those entries, and a
/// seek on it finds the smallest key at or after the target.
pub proof fn lemma_block_build_then_read(ord: KeyOrder, es: Seq<EntrySpec>, t: Seq<u8>)
    requires
        crate::block_format::entries_fit(es),
        crate::block_format::block_bytes(es).len() <= u32::MAX,
        sorted_entries(ord, es),
    ensures
        decode_block(crate::block_format::block_bytes(es)) == Some(es),
        match seek_entries(ord, es, t) {
            Some(v) => exists|i: int|
                0 <= i < es.len() && #[trigger] es[i].1 == v && key_le(ord, t, es[i].0) && forall|j: int|
                    0 <= j < es.len() && key_le(ord, t, #[trigger] es[j].0) ==> key_le(ord, es[i].0, es[j].0),
            None => forall|j: int| 0 <= j < es.len() ==> !key_le(ord, t, #[trigger] es[j].0),
        },
{
    crate::block_format::lemma_block_round_trip(es);
    lemma_seek_smallest(ord, es, t);
}

/// A copy of a list of entries.
pub fn copy_entries(v: &Vec<(Vec<u8>, Vec<u8>)>) -> (r: Vec<(Vec<u8>, Vec<u8>)>)
    ensures
        entries_view(r@) == entries_view(v@),
{
    let mut r: Vec<(Vec<u8>, Vec<u8>)> = Vec::new();
    let mut i: usize = 0;
    while i < v.len()
        invariant
            i <= v@.len(),
            r@.len() == i,
            entries_view(r@) == entries_view(v@.take(i as int)),
        decreases v@.len() - i,
    {
        let k = vstd::slice::slice_to_vec(v[i].0.as_slice());
        let x = vstd::slice::slice_to_vec(v[i].1.as_slice());
        let ghost old_r = r@;
        r.push((k, x));
        proof {
            let a = entries_view(r@);
            let b = entries_view(v@.take(i + 1));
            assert(entries_view(old_r).len() == i);
            assert forall|j: int| 0 <= j < a.len() implies a[j] == b[j] by {
                if j < i {
                    assert(r@[j] == old_r[j]);
                    assert(entries_view(old_r)[j] == entries_view(v@.take(i as int))[j]);
                }
            }
            assert(a =~= b);
        }
        i = i + 1;
    }
    proof {
        assert(v@.take(i as int) =~= v@);
    }
    r
}

/// The position and value of the first entry at or after `target`.
fn seek_from(ord: KeyOrder, es: &Vec<(Vec<u8>, Vec<u8>)>, target: &[u8]) -> (r: (usize, Option<Vec<u8>>))
    ensures
        r.1.is_some() ==> r.0 < es@.len() && seek_entry(ord, entries_view(es@), target@) == Some(
            entries_view(es@)[r.0 as int],
        ) && r.1.unwrap()@ == entries_view(es@)[r.0 as int].1,
        r.1.is_none() ==> seek_entry(ord, entries_view(es@), target@).is_none(),
        match r.1 {
            Some(v) => seek_entries(ord, entries_view(es@), target@) == Some(v@),
            None => seek_entries(ord, entries_view(es@), target@).is_none(),
        },
{
    let mut i: usize = 0;
    proof {
        assert(entries_view(es@).skip(0) =~= entries_view(es@));
    }
    while i < es.len()
        invariant
            i <= es@.len(),
            seek_entries(ord, entries_view(es@), target@) == seek_entries(ord, 
                entries_view(es@).skip(i as int),
                target@,
            ),
            seek_entry(ord, entries_view(es@), target@) == seek_entry(ord, entries_view(es@).skip(i as int), target@),
        decreases es@.len() - i,
    {
        let ghost rest = entries_view(es@).skip(i as int);
        proof {
            assert(entries_view(es@).len() == es@.len());
            assert(rest.len() > 0);
            assert(entries_view(es@)[i as int] == (es@[i as int].0@, es@[i as int].1@));
            assert(rest[0] == (es@[i as int].0@, es@[i as int].1@));
        }
        match compare_keys(ord, target, es[i].0.as_slice()) {
            Ordering::Greater => {},
            _ => {
                return (i, Some(vstd::slice::slice_to_vec(es[i].1.as_slice())));
            },
        }
        proof {
            assert(rest.drop_first() =~= entries_view(es@).skip(i + 1));
        }
        i = i + 1;
    }
    (i, None)
}

/// A decoded block.
pub struct Block {
    entries: Vec<(Vec<u8>, Vec<u8>)>,
    order: KeyOrder,
    restart_count: usize,
    size: usize,
}

impl Block {
    /// The entries of the block, in order.
    pub closed spec fn view(&self) -> Seq<EntrySpec> {
        entries_view(self.entries@)
    }

    pub closed spec fn spec_restart_count(&self) -> int {
        self.restart_count as int
    }

    /// How the block's keys are ordered.
    pub closed spec fn spec_order(&self) -> KeyOrder {
        self.order
    }

    /// Decodes a finished block whose keys sort byte-wise; fails with
    /// `Corruption` unless its trailer and every entry are sound.
    pub fn new(inner: Vec<u8>) -> (r: Result<Block, ErrorKind>)
        ensures
            match decode_block(inner@) {
                Some(es) => r.is_ok() && r.unwrap().view() == es && r.unwrap().spec_restart_count()
                    == block_restart_count(inner@) && r.unwrap().spec_order() == KeyOrder::Bytewise,
                None => r == Err::<Block, ErrorKind>(ErrorKind::Corruption),
            },
    {
        Block::with_order(inner, KeyOrder::Bytewise)
    }

    /// Decodes a finished block whose keys sort by `order`; fails with
    /// `Corruption` unless its trailer and every entry are sound.
    pub fn with_order(inner: Vec<u8>, order: KeyOrder) -> (r: Result<Block, ErrorKind>)
        ensures
            match decode_block(inner@) {
                Some(es) => r.is_ok() && r.unwrap().view() == es && r.unwrap().spec_restart_count()
                    == block_restart_count(inner@) && r.unwrap().spec_order() == order,
                None => r == Err::<Block, ErrorKind>(ErrorKind::Corruption),
            },
    {
        let n = inner.len();
        if n < 4 {
            return Err(ErrorKind::Corruption);
        }
        let cnt = get_u32(inner.as_slice(), n - 4).unwrap();
        if (cnt as u64 + 1) * 4 > n as u64 {
            return Err(ErrorKind::Corruption);
        }
        let off: usize = n - ((cnt as usize + 1) * 4);
        proof {
            assert(block_restart_offset(inner@) == Some(off as int));
        }
        match decode_run(inner.as_slice(), off) {
            Some(entries) => Ok(Block { entries, order, restart_count: cnt as usize, size: n }),
            None => Err(ErrorKind::Corruption),
        }
    }

    /// How the block's keys are ordered.
    pub fn order(&self) -> (r: KeyOrder)
        ensures
            r == self.spec_order(),
    {
        self.order
    }

    /// The number of entries.
    pub fn view_len(&self) -> (r: usize)
        ensures
            r == self.view().len(),
    {
        self.entries.len()
    }

    /// The number of restart points.
    pub fn restart_count(&self) -> (r: usize)
        ensures
            r == self.spec_restart_count(),
    {
        self.restart_count
    }

    /// The size in bytes of the encoded block.
    pub fn size(&self) -> usize {
        self.size
    }

    /// The value of the first entry whose key is at or after `target`; for
    /// sorted entries, the smallest such key.
    pub fn seek(&self, target: &[u8]) -> (r: Option<Vec<u8>>)
        ensures
            match r {
                Some(v) => seek_entries(self.spec_order(), self.view(), target@) == Some(v@),
                None => seek_entries(self.spec_order(), self.view(), target@).is_none(),
            },
    {
        seek_from(self.order, &self.entries, target).1
    }

    /// The first entry whose key is at or after `target`, key and value.
    pub fn seek_entry(&self, target: &[u8]) -> (r: Option<(Vec<u8>, Vec<u8>)>)
        ensures
            match r {
                Some(e) => seek_entry(self.spec_order(), self.view(), target@) == Some((e.0@, e.1@)),
                None => seek_entry(self.spec_order(), self.view(), target@).is_none(),
            },
    {
        let (i, r) = seek_from(self.order, &self.entries, target);
        match r {
            Some(v) => Some((vstd::slice::slice_to_vec(self.entries[i].0.as_slice()), v)),
            None => None,
        }
    }

    /// An iterator over the entries, from the first.
    pub fn iter(&self) -> (r: BlockIterator)
        ensures
            r.view() == self.view(),
            r.position() == 0,
            r.spec_order() == self.spec_order(),
    {
        BlockIterator::new(self)
    }
}

/// Decodes the entries in `b[0..off]`.
fn decode_run(b: &[u8], off: usize) -> (r: Option<Vec<(Vec<u8>, Vec<u8>)>>)
    requires
        off <= b@.len(),
    ensures
        match decode_entries(b@.take(off as int), Seq::empty()) {
            Some(es) => r.is_some() && entries_view(r.unwrap()@) == es,
            None => r.is_none(),
        },
{
    let ghost data = b@.take(off as int);
    let mut acc: Vec<(Vec<u8>, Vec<u8>)> = Vec::new();
    let mut last_key: Vec<u8> = Vec::new();
    let mut pos: usize = 0;
    proof {
        assert(data.skip(0) =~= data);
        assert(entries_view(acc@) =~= Seq::<EntrySpec>::empty());
        assert(prepend(Seq::empty(), decode_entries(data, Seq::empty()))
            == decode_entries(data, Seq::empty()));
        match decode_entries(data, Seq::empty()) {
            Some(x) => { assert(Seq::<EntrySpec>::empty() + x =~= x); },
            None => {},
        }
    }
    while pos < off
        invariant
            pos <= off,
            off <= b@.len(),
            data == b@.take(off as int),
            decode_entries(data, Seq::empty()) == prepend(
                entries_view(acc@),
                decode_entries(data.skip(pos as int), last_key@),
            ),
        decreases off - pos,
    {
        let ghost d = data.skip(pos as int);
        if off - pos < 12 {
            return None;
        }
        let shared = get_u32(b, pos).unwrap() as usize;
        let unshared = get_u32(b, pos + 4).unwrap() as usize;
        let vlen = get_u32(b, pos + 8).unwrap() as usize;
        proof {
            assert(window(b@, pos as int, 4) =~= window(d, 0, 4));
            assert(window(b@, pos + 4, 4) =~= window(d, 4, 4));
            assert(window(b@, pos + 8, 4) =~= window(d, 8, 4));
            assert(shared == u32_at(d, 0));
            assert(unshared == u32_at(d, 4));
            assert(vlen == u32_at(d, 8));
        }
        if shared > last_key.len() || 12 + unshared as u64 + vlen as u64 > (off - pos) as u64 {
            return None;
        }
        let mut key = vstd::slice::slice_to_vec(vstd::slice::slice_subrange(last_key.as_slice(), 0, shared));
        put_bytes(&mut key, vstd::slice::slice_subrange(b, pos + 12, pos + 12 + unshared));
        let value = vstd::slice::slice_to_vec(
            vstd::slice::slice_subrange(b, pos + 12 + unshared, pos + 12 + unshared + vlen),
        );
        let next = pos + 12 + unshared + vlen;
        proof {
            assert(key@ =~= last_key@.take(shared as int) + d.subrange(12, 12 + unshared));
            assert(value@ =~= d.subrange(12 + unshared, 12 + unshared + vlen));
            assert(d.skip(12 + unshared + vlen) =~= data.skip(next as int));
        }
        let ghost old_acc = entries_view(acc@);
        acc.push((key, value));
        last_key = vstd::slice::slice_to_vec(acc[acc.len() - 1].0.as_slice());
        pos = next;
        proof {
            assert(entries_view(acc@) =~= old_acc.push((key@, value@)));
            match decode_entries(data.skip(pos as int), last_key@) {
                Some(x) => {
                    assert(old_acc + (seq![(key@, value@)] + x) =~= old_acc.push((key@, value@))
                        + x);
                },
                None => {},
            }
        }
    }
    proof {
        assert(data.skip(pos as int) =~= Seq::<u8>::empty());
        assert(entries_view(acc@) + Seq::<EntrySpec>::empty() =~= entries_view(acc@));
    }
    Some(acc)
}

/// Walks the entries of a block in order.
pub struct BlockIterator {
    entries: Vec<(Vec<u8>, Vec<u8>)>,
    order: KeyOrder,
    current: usize,
}

impl BlockIterator {
    /// All entries of the block.
    pub closed spec fn view(&self) -> Seq<EntrySpec> {
        entries_view(self.entries@)
    }

    /// How many entries have been handed out.
    pub closed spec fn position(&self) -> int {
        self.current as int
    }

    /// How the block's keys are ordered.
    pub closed spec fn spec_order(&self) -> KeyOrder {
        self.order
    }

    pub fn new(block: &Block) -> (r: BlockIterator)
        ensures
            r.view() == block.view(),
            r.position() == 0,
            r.spec_order() == block.spec_order(),
    {
        BlockIterator { entries: copy_entries(&block.entries), order: block.order, current: 0 }
    }

    /// The next entry, if any.
    pub fn next(&mut self) -> (r: Option<(Vec<u8>, Vec<u8>)>)
        requires
            old(self).position() <= old(self).view().len(),
        ensures
            final(self).view() == old(self).view(),
            final(self).position() <= final(self).view().len(),
            old(self).position() < old(self).view().len() ==> r.is_some() && (r.unwrap().0@, r.unwrap().1@)
                == old(self).view()[old(self).position()] && final(self).position() == old(self).position() + 1,
            old(self).position() == old(self).view().len() ==> r.is_none() && final(self).position()
                == old(self).position(),
    {
        if self.current < self.entries.len() {
            let i = self.current;
            let k = vstd::slice::slice_to_vec(self.entries[i].0.as_slice());
            let v = vstd::slice::slice_to_vec(self.entries[i].1.as_slice());
            self.current = i + 1;
            Some((k, v))
        } else {
            None
        }
    }

    /// The value of the first entry whose key is at or after `target`; the
    /// iterator then stands after that entry.
    pub fn seek(&mut self, target: &[u8]) -> (r: Option<Vec<u8>>)
        ensures
            final(self).view() == old(self).view(),
            final(self).position() <= final(self).view().len(),
            match r {
                Some(v) => seek_entries(old(self).spec_order(), old(self).view(), target@) == Some(v@),
                None => seek_entries(old(self).spec_order(), old(self).view(), target@).is_none(),
            },
    {
        let (i, r) = seek_from(self.order, &self.entries, target);
        self.current = if r.is_some() && i < self.entries.len() {
            i + 1
        } else {
            self.entries.len()
        };
        r
    }
}

} // verus!
