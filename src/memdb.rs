//! The memtable: entries kept sorted in internal-key order.
use crate::comparator::{
    compare_bytes, ikey_order, lemma_ikey_order_antisym, lemma_ikey_order_trans, lemma_lex_cmp_equal,
};
use crate::block_format::EntrySpec;
use crate::ikey::{
    clone_ikey, compare_ikeys, encode_ikey, kind_code, pack_trailer, InternalKey, KeyKind, MAX_SEQUENCE,
};
use std::cmp::Ordering;
use vstd::bytes::*;
use vstd::prelude::*;

verus! {

/// An entry as the memtable sees it: user key, trailer, value.
pub type MemEntrySpec = (Seq<u8>, u64, Seq<u8>);

/// What a lookup finds for a key.
#[derive(Debug, PartialEq, Eq)]
pub enum LookupResult {
    Value(Vec<u8>),
    Deleted,
}

/// A lookup result as byte strings: `Some(v)` for a value, `None` for a tombstone.
pub open spec fn lookup_view(r: LookupResult) -> Option<Seq<u8>> {
    match r {
        LookupResult::Value(v) => Some(v@),
        LookupResult::Deleted => None,
    }
}

/// Entries in internal-key order (equal keys may repeat).
pub open spec fn mem_sorted(es: Seq<MemEntrySpec>) -> bool {
    forall|i: int, j: int|
        0 <= i < j < es.len() ==> ikey_order(#[trigger] es[i].0, es[i].1, #[trigger] es[j].0, es[j].1)
            != Ordering::Greater
}

/// The first entry at or after `(u, t)` in internal-key order.
pub open spec fn mem_seek(es: Seq<MemEntrySpec>, u: Seq<u8>, t: u64) -> Option<MemEntrySpec>
    decreases es.len(),
{
    if es.len() == 0 {
        None
    } else if ikey_order(es[0].0, es[0].1, u, t) != Ordering::Less {
        Some(es[0])
    } else {
        mem_seek(es.drop_first(), u, t)
    }
}

/// What a lookup of `(u, t)` finds: `None` when no entry for `u` is at or
/// after it; else `Some(Some(value))` for a value, `Some(None)` for a tombstone.
pub open spec fn mem_get(es: Seq<MemEntrySpec>, u: Seq<u8>, t: u64) -> Option<Option<Seq<u8>>> {
    match mem_seek(es, u, t) {
        Some(e) => if e.0 == u {
            if e.1 % 256 == 0 {
                Some(Some(e.2))
            } else {
                Some(None)
            }
        } else {
            None
        },
        None => None,
    }
}

/// Where an insert puts `e`: before the first entry that sorts after it.
pub open spec fn insert_point(es: Seq<MemEntrySpec>, e: MemEntrySpec) -> int
    decreases es.len(),
{
    if es.len() == 0 {
        0
    } else if ikey_order(es[0].0, es[0].1, e.0, e.1) == Ordering::Greater {
        0
    } else {
        1 + insert_point(es.drop_first(), e)
    }
}

/// `es` with `e` inserted after every entry that does not sort after it.
pub open spec fn mem_insert(es: Seq<MemEntrySpec>, e: MemEntrySpec) -> Seq<MemEntrySpec> {
    es.insert(insert_point(es, e), e)
}

/// The insert point is the first entry that sorts after `e`.
pub proof fn lemma_insert_point(es: Seq<MemEntrySpec>, e: MemEntrySpec, p: int)
    requires
        0 <= p <= es.len(),
        forall|j: int| 0 <= j < p ==> ikey_order(#[trigger] es[j].0, es[j].1, e.0, e.1) != Ordering::Greater,
        p < es.len() ==> ikey_order(es[p].0, es[p].1, e.0, e.1) == Ordering::Greater,
    ensures
        insert_point(es, e) == p,
    decreases p,
{
    if p > 0 {
        let rest = es.drop_first();
        assert forall|j: int| 0 <= j < p - 1 implies ikey_order(#[trigger] rest[j].0, rest[j].1, e.0, e.1)
            != Ordering::Greater by {
            assert(rest[j] == es[j + 1]);
        }
        if p < es.len() {
            assert(rest[p - 1] == es[p]);
        }
        lemma_insert_point(rest, e, p - 1);
        assert(ikey_order(es[0].0, es[0].1, e.0, e.1) != Ordering::Greater);
    }
}

/// The encoded internal key of user key `u` with trailer `t`.
pub open spec fn encode_entry_key(u: Seq<u8>, t: u64) -> Seq<u8> {
    spec_u32_to_le_bytes(u.len() as u32) + u + spec_u64_to_le_bytes(t)
}

/// An encoded key gives back its user key and trailer.
pub proof fn lemma_encode_entry_key(u: Seq<u8>, t: u64)
    requires
        u.len() <= u32::MAX - 12,
    ensures
        encode_entry_key(u, t).len() == u.len() + 12,
        crate::comparator::encoded_user_key(encode_entry_key(u, t)) == u,
        crate::comparator::encoded_trailer(encode_entry_key(u, t)) == t,
{
    lemma_auto_spec_u32_to_from_le_bytes();
    lemma_auto_spec_u64_to_from_le_bytes();
    let e = encode_entry_key(u, t);
    assert(crate::comparator::encoded_user_key(e) =~= u);
    assert(crate::coding::window(e, e.len() - 8, 8) =~= spec_u64_to_le_bytes(t));
}

/// Each entry with its key encoded, in order.
pub open spec fn encoded_entries(es: Seq<MemEntrySpec>) -> Seq<EntrySpec> {
    Seq::new(es.len(), |i: int| (encode_entry_key(es[i].0, es[i].1), es[i].2))
}

/// The memtable's entries, as contracts see them.
pub open spec fn mem_view(v: Seq<(InternalKey, Vec<u8>)>) -> Seq<MemEntrySpec> {
    Seq::new(
        v.len(),
        |i: int| (v[i].0.spec_user_key(), pack_trailer(v[i].0.spec_seq(), v[i].0.spec_kind()), v[i].1@),
    )
}

/// The in-memory sorted table of recent writes.
pub struct MemDB {
    entries: Vec<(InternalKey, Vec<u8>)>,
    usage: usize,
}

impl MemDB {
    pub closed spec fn view(&self) -> Seq<MemEntrySpec> {
        mem_view(self.entries@)
    }

    /// The entries with their keys in encoded form.
    pub open spec fn encoded_view(&self) -> Seq<EntrySpec> {
        encoded_entries(self.view())
    }

    /// The bytes taken by keys and values so far.
    pub closed spec fn spec_usage(&self) -> int {
        self.usage as int
    }

    pub closed spec fn wf(&self) -> bool {
        &&& forall|i: int| 0 <= i < self.entries@.len() ==> (#[trigger] self.entries@[i]).0.wf()
        &&& mem_sorted(self.view())
    }

    /// A sound memtable's entries are sorted and carry valid kinds, so the
    /// lookup laws below apply to it.
    pub proof fn lemma_view_sound(&self)
        requires
            self.wf(),
        ensures
            mem_sorted(self.view()),
            mem_kinds_valid(self.view()),
    {
        assert forall|j: int| 0 <= j < self.view().len() implies (#[trigger] self.view()[j]).1 % 256 <= 1 by {
            let k = self.entries@[j].0;
            assert(k.wf());
            crate::ikey::lemma_encoded_parts(k.spec_user_key(), k.spec_seq(), k.spec_kind());
        }
    }

    /// Every key in the memtable is the encoding of a sound internal key.
    pub proof fn lemma_keys_sound(&self, i: int)
        requires
            self.wf(),
            0 <= i < self.view().len(),
        ensures
            crate::version_edit::is_ikey_encoding(self.encoded_view()[i].0),
            self.view()[i].0.len() <= u32::MAX - 12,
    {
        let k = self.entries@[i].0;
        assert(k.wf());
        assert(encode_ikey(k.spec_user_key(), k.spec_seq(), k.spec_kind()) == self.encoded_view()[i].0);
    }

    pub fn new() -> (r: MemDB)
        ensures
            r.wf(),
            r.view() == Seq::<MemEntrySpec>::empty(),
            r.spec_usage() == 0,
    {
        let r = MemDB { entries: Vec::new(), usage: 0 };
        proof {
            assert(r.view() =~= Seq::<MemEntrySpec>::empty());
        }
        r
    }

    /// Whether the memtable holds no entry.
    pub fn empty(&self) -> (r: bool)
        ensures
            r == (self.view().len() == 0),
    {
        self.entries.len() == 0
    }

    /// A counter of the bytes added, which never decreases; it drives rotation.
    pub fn approximately_size(&self) -> (r: usize)
        ensures
            r == self.spec_usage(),
    {
        self.usage
    }

    /// Looks up the newest entry for `key`'s user key that sorts at or after
    /// `key`: the value, the tombstone, or `None` when there is none.
    pub fn get(&self, key: &InternalKey) -> (r: Option<LookupResult>)
        requires
            self.wf(),
            key.wf(),
        ensures
            match mem_get(
                self.view(),
                key.spec_user_key(),
                pack_trailer(key.spec_seq(), key.spec_kind()),
            ) {
                Some(o) => r.is_some() && lookup_view(r.unwrap()) == o,
                None => r.is_none(),
            },
    {
        let ghost u = key.spec_user_key();
        let ghost t = pack_trailer(key.spec_seq(), key.spec_kind());
        let mut i: usize = 0;
        proof {
            assert(self.view().skip(0) =~= self.view());
        }
        while i < self.entries.len()
            invariant
                self.wf(),
                key.wf(),
                i <= self.entries@.len(),
                u == key.spec_user_key(),
                t == pack_trailer(key.spec_seq(), key.spec_kind()),
                mem_seek(self.view(), u, t) == mem_seek(self.view().skip(i as int), u, t),
            decreases self.entries@.len() - i,
        {
            let ghost rest = self.view().skip(i as int);
            proof {
                assert(rest[0] == self.view()[i as int]);
                assert(self.view()[i as int].0 == self.entries@[i as int].0.spec_user_key());
                assert(self.view()[i as int].1 == pack_trailer(
                    self.entries@[i as int].0.spec_seq(),
                    self.entries@[i as int].0.spec_kind(),
                ));
                assert(self.view()[i as int].2 == self.entries@[i as int].1@);
                assert(self.entries@[i as int].0.wf());
            }
            match compare_ikeys(&self.entries[i].0, key) {
                Ordering::Less => {},
                _ => {
                    let e = &self.entries[i];
                    match compare_bytes(e.0.user_key_ref(), key.user_key_ref()) {
                        Ordering::Equal => {
                            proof {
                                lemma_lex_cmp_equal(e.0.spec_user_key(), u);
                            }
                            match e.0.kind() {
                                KeyKind::Value => {
                                    return Some(
                                        LookupResult::Value(vstd::slice::slice_to_vec(e.1.as_slice())),
                                    );
                                },
                                KeyKind::Delete => {
                                    return Some(LookupResult::Deleted);
                                },
                            }
                        },
                        _ => {
                            proof {
                                lemma_lex_cmp_equal(e.0.spec_user_key(), u);
                            }
                            return None;
                        },
                    }
                },
            }
            proof {
                assert(rest.drop_first() =~= self.view().skip(i + 1));
            }
            i = i + 1;
        }
        None
    }

    /// An iterator over the entries in internal-key order, each key encoded.
    pub fn iter(&self) -> (r: MemDBIterator)
        requires
            self.wf(),
        ensures
            r.view() == self.encoded_view(),
            r.position() == 0,
    {
        let mut items: Vec<(Vec<u8>, Vec<u8>)> = Vec::new();
        let mut i: usize = 0;
        while i < self.entries.len()
            invariant
                self.wf(),
                i <= self.entries@.len(),
                items@.len() == i,
                forall|j: int| 0 <= j < i ==> (#[trigger] items@[j]).0@ == self.entries@[j].0.spec_encoded()
                    && items@[j].1@ == self.entries@[j].1@,
            decreases self.entries@.len() - i,
        {
            proof {
                assert(self.entries@[i as int].0.wf());
            }
            let k = self.entries[i].0.inner();
            let v = vstd::slice::slice_to_vec(self.entries[i].1.as_slice());
            items.push((k, v));
            i = i + 1;
        }
        let r = MemDBIterator { items, current: 0 };
        proof {
            assert forall|j: int| 0 <= j < r.view().len() implies r.view()[j] == self.encoded_view()[j] by {
                assert(self.view()[j].0 == self.entries@[j].0.spec_user_key());
            }
            assert(r.view() =~= self.encoded_view());
        }
        r
    }

    /// Inserts an entry after every entry that does not sort after it.
    pub fn add(&mut self, ikey: &InternalKey, value: &[u8])
        requires
            old(self).wf(),
            ikey.wf(),
        ensures
            final(self).wf(),
            final(self).view() == mem_insert(
                old(self).view(),
                (ikey.spec_user_key(), pack_trailer(ikey.spec_seq(), ikey.spec_kind()), value@),
            ),
            final(self).spec_usage() == if old(self).spec_usage() + ikey.spec_user_key().len() + value@.len()
                + 12 > usize::MAX {
                usize::MAX as int
            } else {
                old(self).spec_usage() + ikey.spec_user_key().len() + value@.len() + 12
            },
    {
        let ghost es = self.view();
        let ghost e = (ikey.spec_user_key(), pack_trailer(ikey.spec_seq(), ikey.spec_kind()), value@);
        let mut p: usize = 0;
        while p < self.entries.len()
            invariant
                self.wf(),
                ikey.wf(),
                self.view() == es,
                e == (ikey.spec_user_key(), pack_trailer(ikey.spec_seq(), ikey.spec_kind()), value@),
                p <= self.entries@.len(),
                forall|j: int| 0 <= j < p ==> ikey_order(#[trigger] es[j].0, es[j].1, e.0, e.1) != Ordering::Greater,
            ensures
                self.wf(),
                self.view() == es,
                p <= self.entries@.len(),
                forall|j: int| 0 <= j < p ==> ikey_order(#[trigger] es[j].0, es[j].1, e.0, e.1) != Ordering::Greater,
                p < self.entries@.len() ==> ikey_order(es[p as int].0, es[p as int].1, e.0, e.1) == Ordering::Greater,
            decreases self.entries@.len() - p,
        {
            proof {
                assert(es[p as int].0 == self.entries@[p as int].0.spec_user_key());
                assert(es[p as int].1 == pack_trailer(
                    self.entries@[p as int].0.spec_seq(),
                    self.entries@[p as int].0.spec_kind(),
                ));
                assert(self.entries@[p as int].0.wf());
            }
            match compare_ikeys(&self.entries[p].0, ikey) {
                Ordering::Greater => {
                    break;
                },
                _ => {},
            }
            p = p + 1;
        }
        let k = clone_ikey(ikey);
        let v = vstd::slice::slice_to_vec(value);
        let ghost old_entries = self.entries@;
        self.entries.insert(p, (k, v));
        proof {
            let ne = self.view();
            lemma_insert_point(es, e, p as int);
            assert(ne =~= es.insert(p as int, e));
            assert forall|i: int| 0 <= i < self.entries@.len() implies (#[trigger] self.entries@[i]).0.wf() by {
                if i < p {
                    assert(self.entries@[i] == old_entries[i]);
                } else if i > p {
                    assert(self.entries@[i] == old_entries[i - 1]);
                }
            }
            assert forall|i: int, j: int| 0 <= i < j < ne.len() implies ikey_order(
                #[trigger] ne[i].0,
                ne[i].1,
                #[trigger] ne[j].0,
                ne[j].1,
            ) != Ordering::Greater by {
                if j < p {
                    assert(ne[i] == es[i] && ne[j] == es[j]);
                } else if j == p {
                    assert(ne[i] == es[i]);
                } else if i == p {
                    assert(ne[j] == es[j - 1]);
                    lemma_ikey_order_antisym(es[p as int].0, es[p as int].1, e.0, e.1);
                    if j - 1 > p {
                        lemma_ikey_order_trans(e.0, e.1, es[p as int].0, es[p as int].1, es[j - 1].0, es[j - 1].1);
                    }
                } else if i < p {
                    assert(ne[i] == es[i] && ne[j] == es[j - 1]);
                } else {
                    assert(ne[i] == es[i - 1] && ne[j] == es[j - 1]);
                }
            }
        }
        let kl = ikey.user_key_ref().len() + 12;
        let add = if value.len() > usize::MAX - kl {
            usize::MAX
        } else {
            value.len() + kl
        };
        self.usage = if self.usage > usize::MAX - add {
            usize::MAX
        } else {
            self.usage + add
        };
    }
}

/// Walks the memtable's entries in internal-key order.
pub struct MemDBIterator {
    items: Vec<(Vec<u8>, Vec<u8>)>,
    current: usize,
}

impl MemDBIterator {
    /// The number of entries.
    pub fn len(&self) -> (r: usize)
        ensures
            r == self.view().len(),
    {
        self.items.len()
    }

    /// All entries, keys encoded.
    pub closed spec fn view(&self) -> Seq<EntrySpec> {
        crate::block::entries_view(self.items@)
    }

    /// How many entries have been handed out.
    pub closed spec fn position(&self) -> int {
        self.current as int
    }

    /// The next entry, if any.
    pub fn next(&mut self) -> (r: Option<(Vec<u8>, Vec<u8>)>)
        requires
            old(self).position() <= old(self).view().len(),
        ensures
            final(self).view() == old(self).view(),
            final(self).position() <= final(self).view().len(),
            old(self).position() < old(self).view().len() ==> r.is_some() && (r.unwrap().0@, r.unwrap().1@)
                == old(self).view()[old(self).position()] && final(self).position() == old(self).position() + 1,
            old(self).position() == old(self).view().len() ==> r.is_none() && final(self).position()
                == old(self).position(),
    {
        if self.current < self.items.len() {
            let i = self.current;
            let k = vstd::slice::slice_to_vec(self.items[i].0.as_slice());
            let v = vstd::slice::slice_to_vec(self.items[i].1.as_slice());
            self.current = i + 1;
            Some((k, v))
        } else {
            None
        }
    }
}

/// The seek stops at the first entry that is not before the target.
pub proof fn lemma_mem_seek_at(es: Seq<MemEntrySpec>, u: Seq<u8>, t: u64, i: int)
    requires
        0 <= i < es.len(),
        ikey_order(es[i].0, es[i].1, u, t) != Ordering::Less,
        forall|j: int| 0 <= j < i ==> ikey_order(#[trigger] es[j].0, es[j].1, u, t) == Ordering::Less,
    ensures
        mem_seek(es, u, t) == Some(es[i]),
    decreases i,
{
    if i > 0 {
        let rest = es.drop_first();
        assert forall|j: int| 0 <= j < i - 1 implies ikey_order(#[trigger] rest[j].0, rest[j].1, u, t)
            == Ordering::Less by {
            assert(rest[j] == es[j + 1]);
        }
        lemma_mem_seek_at(rest, u, t, i - 1);
        assert(ikey_order(es[0].0, es[0].1, u, t) == Ordering::Less);
    }
}

/// Trailers carry a kind code of 0 or 1.
pub open spec fn mem_kinds_valid(es: Seq<MemEntrySpec>) -> bool {
    forall|j: int| 0 <= j < es.len() ==> (#[trigger] es[j]).1 % 256 <= 1
}

/// A lookup at snapshot `snap` finds the newest entry for the key among those
/// written at or before `snap`: its value, or not-found for a tombstone.
pub proof fn lemma_mem_get_newest(es: Seq<MemEntrySpec>, k: Seq<u8>, snap: u64, i: int)
    requires
        mem_sorted(es),
        mem_kinds_valid(es),
        snap <= MAX_SEQUENCE,
        0 <= i < es.len(),
        es[i].0 == k,
        es[i].1 / 256 <= snap,
        forall|j: int| 0 <= j < es.len() && (#[trigger] es[j]).0 == k && es[j].1 / 256 <= snap ==> es[j].1 <= es[i].1,
        forall|j: int| 0 <= j < es.len() && j != i && (#[trigger] es[j]).0 == k ==> es[j].1 != es[i].1,
    ensures
        mem_get(es, k, pack_trailer(snap, KeyKind::Delete)) == Some(
            if es[i].1 % 256 == 0 {
                Some(es[i].2)
            } else {
                None
            },
        ),
{
    let t = pack_trailer(snap, KeyKind::Delete);
    assert(t == snap * 256 + 1);
    assert(es[i].1 % 256 <= 1);
    assert(es[i].1 <= t);
    lemma_lex_cmp_equal(k, k);
    assert(ikey_order(es[i].0, es[i].1, k, t) != Ordering::Less);
    assert forall|j: int| 0 <= j < i implies ikey_order(#[trigger] es[j].0, es[j].1, k, t) == Ordering::Less by {
        assert(ikey_order(es[j].0, es[j].1, es[i].0, es[i].1) != Ordering::Greater);
        lemma_lex_cmp_equal(es[j].0, k);
        crate::comparator::lemma_lex_cmp_antisym(es[j].0, k);
        if es[j].0 == k {
            assert(es[j].1 >= es[i].1);
            assert(es[j].1 != es[i].1);
            if es[j].1 / 256 <= snap {
                assert(es[j].1 <= es[i].1);
            }
            assert(es[j].1 > t);
        }
    }
    lemma_mem_seek_at(es, k, t, i);
}

/// A later write of a key hides an earlier one from snapshots at or after
/// it; snapshots between the two still see the earlier one.
pub proof fn lemma_snapshot_monotonic(
    es: Seq<MemEntrySpec>,
    k: Seq<u8>,
    i1: int,
    i2: int,
    snap: u64,
)
    requires
        mem_sorted(es),
        mem_kinds_valid(es),
        snap <= MAX_SEQUENCE,
        0 <= i1 < es.len(),
        0 <= i2 < es.len(),
        es[i1].0 == k && es[i2].0 == k,
        es[i1].1 % 256 == 0 && es[i2].1 % 256 == 0,
        es[i1].1 / 256 < es[i2].1 / 256,
        forall|j: int| 0 <= j < es.len() && j != i1 && j != i2 && (#[trigger] es[j]).0 == k ==> es[j].1 / 256
            > snap,
        snap >= es[i1].1 / 256,
    ensures
        snap >= es[i2].1 / 256 ==> mem_get(es, k, pack_trailer(snap, KeyKind::Delete)) == Some(
            Some(es[i2].2),
        ),
        snap < es[i2].1 / 256 ==> mem_get(es, k, pack_trailer(snap, KeyKind::Delete)) == Some(
            Some(es[i1].2),
        ),
{
    if snap >= es[i2].1 / 256 {
        lemma_mem_get_newest(es, k, snap, i2);
    } else {
        lemma_mem_get_newest(es, k, snap, i1);
    }
}

/// A tombstone for a key at sequence `s` makes the key not found at every
/// snapshot from `s` on, until a later write of it, whatever came before.
pub proof fn lemma_tombstone_masks(es: Seq<MemEntrySpec>, k: Seq<u8>, i: int, snap: u64)
    requires
        mem_sorted(es),
        mem_kinds_valid(es),
        snap <= MAX_SEQUENCE,
        0 <= i < es.len(),
        es[i].0 == k,
        es[i].1 % 256 == kind_code(KeyKind::Delete),
        es[i].1 / 256 <= snap,
        forall|j: int| 0 <= j < es.len() && j != i && (#[trigger] es[j]).0 == k ==> es[j].1 / 256 < es[i].1
            / 256 || es[j].1 / 256 > snap,
    ensures
        mem_get(es, k, pack_trailer(snap, KeyKind::Delete)) == Some(None::<Seq<u8>>),
{
    lemma_mem_get_newest(es, k, snap, i);
}

} // verus!
