//! The layout of a block: prefix-compressed entries, then the restart points.
//!
//! An entry is `u32 shared | u32 unshared | u32 value_len | key[shared..] | value`;
//! every `RESTART_INTERVAL`-th entry is a restart point with `shared == 0`.
//! After the entries come the restart offsets (`u32` each) and their count.
use crate::coding::window;
use vstd::bytes::*;
use vstd::prelude::*;

verus! {

/// Entries between two restart points.
pub const RESTART_INTERVAL: usize = 16;

/// A key and its value, as byte strings.
pub type EntrySpec = (Seq<u8>, Seq<u8>);

/// The length of the longest common prefix of `a` and `b`.
pub open spec fn lcp(a: Seq<u8>, b: Seq<u8>) -> nat
    decreases a.len(),
{
    if a.len() == 0 || b.len() == 0 || a[0] != b[0] {
        0
    } else {
        1 + lcp(a.drop_first(), b.drop_first())
    }
}

/// How many key bytes entry `i` shares with entry `i - 1`.
pub open spec fn shared_at(es: Seq<EntrySpec>, i: int) -> nat {
    if i % (RESTART_INTERVAL as int) == 0 {
        0
    } else {
        lcp(es[i].0, es[i - 1].0)
    }
}

/// The bytes of one entry that shares `shared` key bytes with its predecessor.
pub open spec fn entry_bytes(shared: nat, key: Seq<u8>, value: Seq<u8>) -> Seq<u8> {
    spec_u32_to_le_bytes(shared as u32) + spec_u32_to_le_bytes((key.len() - shared) as u32)
        + spec_u32_to_le_bytes(value.len() as u32) + key.skip(shared as int) + value
}

/// The bytes of entries `lo..hi` of `es`.
pub open spec fn encode_range(es: Seq<EntrySpec>, lo: int, hi: int) -> Seq<u8>
    decreases hi - lo,
{
    if hi <= lo {
        Seq::empty()
    } else {
        encode_range(es, lo, hi - 1) + entry_bytes(shared_at(es, hi - 1), es[hi - 1].0, es[hi - 1].1)
    }
}

/// The number of restart points of a block of `n` entries (at least one).
pub open spec fn restart_count_of(n: nat) -> nat {
    if n == 0 {
        1
    } else {
        (((n - 1) as int) / (RESTART_INTERVAL as int) + 1) as nat
    }
}

/// The offsets of the restart points.
pub open spec fn restart_offsets(es: Seq<EntrySpec>) -> Seq<u32> {
    Seq::new(
        restart_count_of(es.len()),
        |j: int| encode_range(es, 0, j * (RESTART_INTERVAL as int)).len() as u32,
    )
}

/// Each `u32` of `s`, little-endian, in order.
pub open spec fn u32s_bytes(s: Seq<u32>) -> Seq<u8>
    decreases s.len(),
{
    if s.len() == 0 {
        Seq::empty()
    } else {
        u32s_bytes(s.drop_last()) + spec_u32_to_le_bytes(s.last())
    }
}

/// The finished block that holds `es`.
pub open spec fn block_bytes(es: Seq<EntrySpec>) -> Seq<u8> {
    encode_range(es, 0, es.len() as int) + u32s_bytes(restart_offsets(es)) + spec_u32_to_le_bytes(
        restart_count_of(es.len()) as u32,
    )
}

/// The `u32` stored at `off`.
pub open spec fn u32_at(s: Seq<u8>, off: int) -> int {
    spec_u32_from_le_bytes(window(s, off, 4)) as int
}

/// Decodes a run of entries; `prev` is the key of the entry before them.
pub open spec fn decode_entries(data: Seq<u8>, prev: Seq<u8>) -> Option<Seq<EntrySpec>>
    decreases data.len(),
{
    if data.len() == 0 {
        Some(Seq::empty())
    } else if data.len() < 12 {
        None
    } else {
        let shared = u32_at(data, 0);
        let unshared = u32_at(data, 4);
        let vlen = u32_at(data, 8);
        if shared > prev.len() || 12 + unshared + vlen > data.len() {
            None
        } else {
            let key = prev.take(shared) + data.subrange(12, 12 + unshared);
            let value = data.subrange(12 + unshared, 12 + unshared + vlen);
            match decode_entries(data.skip(12 + unshared + vlen), key) {
                Some(rest) => Some(seq![(key, value)] + rest),
                None => None,
            }
        }
    }
}

/// The number of restart points that a block's last four bytes give.
pub open spec fn block_restart_count(b: Seq<u8>) -> int {
    u32_at(b, b.len() - 4)
}

/// Where the restart array of a block starts, if its trailer is sound.
pub open spec fn block_restart_offset(b: Seq<u8>) -> Option<int> {
    if b.len() < 4 {
        None
    } else if (block_restart_count(b) + 1) * 4 > b.len() {
        None
    } else {
        Some(b.len() - (block_restart_count(b) + 1) * 4)
    }
}

/// The entries that a block holds, if it decodes.
pub open spec fn decode_block(b: Seq<u8>) -> Option<Seq<EntrySpec>> {
    match block_restart_offset(b) {
        Some(off) => decode_entries(b.take(off), Seq::empty()),
        None => None,
    }
}


/// A byte string of `u32` fields is four bytes for each.
pub proof fn lemma_u32s_bytes_len(s: Seq<u32>)
    ensures
        u32s_bytes(s).len() == 4 * s.len(),
    decreases s.len(),
{
    lemma_auto_spec_u32_to_from_le_bytes();
    if s.len() > 0 {
        lemma_u32s_bytes_len(s.drop_last());
    }
}

/// The longest common prefix is a prefix of both strings.
pub proof fn lemma_lcp(a: Seq<u8>, b: Seq<u8>)
    ensures
        lcp(a, b) <= a.len(),
        lcp(a, b) <= b.len(),
        a.take(lcp(a, b) as int) == b.take(lcp(a, b) as int),
    decreases a.len(),
{
    if a.len() == 0 || b.len() == 0 || a[0] != b[0] {
        assert(a.take(0) =~= b.take(0));
    } else {
        lemma_lcp(a.drop_first(), b.drop_first());
        let n = lcp(a, b) as int;
        assert(a.take(n) =~= seq![a[0]] + a.drop_first().take(n - 1));
        assert(b.take(n) =~= seq![b[0]] + b.drop_first().take(n - 1));
    }
}

/// Entries `lo..hi` are entry `lo` followed by entries `lo + 1..hi`.
pub proof fn lemma_encode_range_front(es: Seq<EntrySpec>, lo: int, hi: int)
    requires
        lo < hi,
    ensures
        encode_range(es, lo, hi) == entry_bytes(shared_at(es, lo), es[lo].0, es[lo].1)
            + encode_range(es, lo + 1, hi),
    decreases hi - lo,
{
    if hi - 1 > lo {
        lemma_encode_range_front(es, lo, hi - 1);
        assert(encode_range(es, lo, hi) =~= entry_bytes(shared_at(es, lo), es[lo].0, es[lo].1)
            + encode_range(es, lo + 1, hi));
    } else {
        assert(encode_range(es, lo, lo) =~= Seq::<u8>::empty());
        assert(encode_range(es, lo + 1, hi) =~= Seq::<u8>::empty());
        assert(encode_range(es, lo, hi) =~= entry_bytes(shared_at(es, lo), es[lo].0, es[lo].1));
    }
}

/// One entry decodes back to its key and value, given the key before it.
pub proof fn lemma_decode_one(shared: nat, key: Seq<u8>, value: Seq<u8>, prev: Seq<u8>, rest: Seq<u8>)
    requires
        shared <= key.len(),
        shared <= prev.len(),
        prev.take(shared as int) == key.take(shared as int),
        key.len() <= u32::MAX,
        value.len() <= u32::MAX,
    ensures
        decode_entries(entry_bytes(shared, key, value) + rest, prev) == match decode_entries(
            rest,
            key,
        ) {
            Some(r) => Some(seq![(key, value)] + r),
            None => None::<Seq<EntrySpec>>,
        },
{
    lemma_auto_spec_u32_to_from_le_bytes();
    let data = entry_bytes(shared, key, value) + rest;
    let un = key.len() - shared;
    let h0 = spec_u32_to_le_bytes(shared as u32);
    let h1 = spec_u32_to_le_bytes(un as u32);
    let h2 = spec_u32_to_le_bytes(value.len() as u32);
    assert(window(data, 0, 4) =~= h0);
    assert(window(data, 4, 4) =~= h1);
    assert(window(data, 8, 4) =~= h2);
    assert(u32_at(data, 0) == shared);
    assert(u32_at(data, 4) == un);
    assert(u32_at(data, 8) == value.len());
    assert(data.subrange(12, 12 + un) =~= key.skip(shared as int));
    assert(prev.take(shared as int) + key.skip(shared as int) =~= key) by {
        assert(key.take(shared as int) + key.skip(shared as int) =~= key);
    }
    assert(data.subrange(12 + un, 12 + un + value.len()) =~= value);
    assert(data.skip(12 + un + value.len()) =~= rest);
}

/// The key before entry `i`, as a decoder sees it.
pub open spec fn prev_key(es: Seq<EntrySpec>, i: int) -> Seq<u8> {
    if i == 0 {
        Seq::empty()
    } else {
        es[i - 1].0
    }
}

/// Keys and values whose lengths fit a `u32` field.
pub open spec fn entries_fit(es: Seq<EntrySpec>) -> bool {
    forall|i: int| 0 <= i < es.len() ==> #[trigger] es[i].0.len() <= u32::MAX && es[i].1.len()
        <= u32::MAX
}

/// Entries `i..` decode back to themselves.
pub proof fn lemma_decode_encode_from(es: Seq<EntrySpec>, i: int)
    requires
        0 <= i <= es.len(),
        entries_fit(es),
    ensures
        decode_entries(encode_range(es, i, es.len() as int), prev_key(es, i)) == Some(es.skip(i)),
    decreases es.len() - i,
{
    if i == es.len() {
        assert(encode_range(es, i, i) =~= Seq::<u8>::empty());
        assert(es.skip(i) =~= Seq::<EntrySpec>::empty());
    } else {
        lemma_encode_range_front(es, i, es.len() as int);
        lemma_decode_encode_from(es, i + 1);
        let sh = shared_at(es, i);
        if i % (RESTART_INTERVAL as int) != 0 {
            lemma_lcp(es[i].0, es[i - 1].0);
        } else {
            assert(prev_key(es, i).take(0) =~= es[i].0.take(0));
        }
        assert(es[i].0.len() <= u32::MAX && es[i].1.len() <= u32::MAX);
        lemma_decode_one(sh, es[i].0, es[i].1, prev_key(es, i), encode_range(es, i + 1, es.len() as int));
        assert(seq![(es[i].0, es[i].1)] + es.skip(i + 1) =~= es.skip(i));
    }
}

/// A finished block decodes to exactly the entries that were added.
pub proof fn lemma_block_round_trip(es: Seq<EntrySpec>)
    requires
        entries_fit(es),
        block_bytes(es).len() <= u32::MAX,
    ensures
        decode_block(block_bytes(es)) == Some(es),
{
    lemma_auto_spec_u32_to_from_le_bytes();
    let b = block_bytes(es);
    let body = encode_range(es, 0, es.len() as int);
    let offs = restart_offsets(es);
    let cnt = restart_count_of(es.len());
    lemma_u32s_bytes_len(offs);
    assert(window(b, b.len() - 4, 4) =~= spec_u32_to_le_bytes(cnt as u32));
    assert(block_restart_count(b) == cnt);
    assert(block_restart_offset(b) == Some(body.len() as int));
    assert(b.take(body.len() as int) =~= body);
    lemma_decode_encode_from(es, 0);
    assert(es.skip(0) =~= es);
}

} // verus!
