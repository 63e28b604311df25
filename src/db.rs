//! The engine's in-memory core: sequence numbers, the mutable and the
//! immutable memtable, the write path, the read path, and replay of the
//! write-ahead log. Files are written and read by the caller, which hands
//! over the log records.
use crate::batch::{batch_bytes, decode_batch, ops_sound, OpSpec, WriteBatch};
use crate::error::ErrorKind;
use crate::flush::distinct_keys;
use crate::ikey::{pack_trailer, InternalKey, KeyKind, MAX_SEQUENCE};
use crate::memdb::{
    insert_point, lookup_view, mem_get, mem_insert, LookupResult, MemDB, MemEntrySpec,
};
use vstd::prelude::*;

verus! {

/// The default size at which the mutable memtable is rotated.
pub const DEFAULT_WRITE_BUFFER_SIZE: usize = 4 * 1024 * 1024;

/// The memtable entries that a batch starting at sequence `seq` inserts.
pub open spec fn batch_entries(seq: int, ops: Seq<OpSpec>) -> Seq<MemEntrySpec> {
    Seq::new(ops.len(), |i: int| (ops[i].1, pack_trailer((seq + i) as u64, ops[i].0), ops[i].2))
}

/// Entries inserted one after another.
pub open spec fn insert_all(es: Seq<MemEntrySpec>, add: Seq<MemEntrySpec>) -> Seq<MemEntrySpec>
    decreases add.len(),
{
    if add.len() == 0 {
        es
    } else {
        mem_insert(insert_all(es, add.drop_last()), add.last())
    }
}

/// A batch that can be applied after sequence `last`: every key non-empty
/// and short enough, and sequence numbers left for every operation.
pub open spec fn batch_ok(last: u64, ops: Seq<OpSpec>) -> bool {
    &&& ops_sound(ops)
    &&& forall|i: int| 0 <= i < ops.len() ==> 0 < (#[trigger] ops[i]).1.len() <= u32::MAX - 12
    &&& last + ops.len() <= MAX_SEQUENCE
    &&& ops.len() <= u32::MAX
}

/// Whether `batch` can be applied after sequence `last`.
pub fn check_batch(last: u64, batch: &WriteBatch) -> (r: bool)
    ensures
        r == batch_ok(last, batch@),
{
    let n = batch.count();
    if last > MAX_SEQUENCE || n as u64 > MAX_SEQUENCE - last || n > u32::MAX as usize {
        return false;
    }
    let mut i: usize = 0;
    while i < n
        invariant
            n == batch@.len(),
            i <= n,
            forall|j: int| 0 <= j < i ==> 0 < (#[trigger] batch@[j]).1.len() <= u32::MAX - 12 && batch@[j].2.len()
                <= u32::MAX && (batch@[j].0 == KeyKind::Delete ==> batch@[j].2.len() == 0),
        decreases n - i,
    {
        let (kind, key, value) = batch.op(i);
        if key.len() == 0 || key.len() > (u32::MAX - 12) as usize || value.len() > u32::MAX as usize {
            return false;
        }
        match kind {
            KeyKind::Delete => {
                if value.len() != 0 {
                    return false;
                }
            },
            KeyKind::Value => {},
        }
        i = i + 1;
    }
    true
}

/// The memtable and last sequence after applying `ops` after `last`.
pub open spec fn commit_state(mem: Seq<MemEntrySpec>, last: u64, ops: Seq<OpSpec>) -> (Seq<MemEntrySpec>, u64) {
    (insert_all(mem, batch_entries(last + 1, ops)), (last + ops.len()) as u64)
}

/// The memtable and last sequence after replaying a log record, if it
/// decodes to a batch that fits.
pub open spec fn replay_state(mem: Seq<MemEntrySpec>, last: u64, record: Seq<u8>) -> Option<(Seq<MemEntrySpec>, u64)> {
    match decode_batch(record) {
        None => None,
        Some((seq, ops)) => if seq == 0 || seq <= last || !batch_ok((seq - 1) as u64, ops) {
            None
        } else {
            Some(
                (
                    insert_all(mem, batch_entries(seq as int, ops)),
                    if last >= seq + ops.len() - 1 {
                        last
                    } else {
                        (seq + ops.len() - 1) as u64
                    },
                ),
            )
        },
    }
}

/// Memtable entries with distinct internal keys and sequences up to `last`.
pub open spec fn mem_ok(es: Seq<MemEntrySpec>, last: int) -> bool {
    &&& distinct_keys(es)
    &&& forall|i: int| 0 <= i < es.len() ==> (#[trigger] es[i]).1 / 256 <= last
}

proof fn lemma_insert_point_range(es: Seq<MemEntrySpec>, e: MemEntrySpec)
    ensures
        0 <= insert_point(es, e) <= es.len(),
    decreases es.len(),
{
    if es.len() > 0 {
        lemma_insert_point_range(es.drop_first(), e);
    }
}

/// Inserting an entry newer than every entry keeps keys distinct.
proof fn lemma_insert_fresh(es: Seq<MemEntrySpec>, e: MemEntrySpec, last: int)
    requires
        mem_ok(es, last),
        last < e.1 / 256,
    ensures
        mem_ok(mem_insert(es, e), (e.1 / 256) as int),
{
    lemma_insert_point_range(es, e);
    let p = insert_point(es, e);
    let r = mem_insert(es, e);
    assert(r == es.insert(p, e));
    assert forall|i: int| 0 <= i < r.len() implies (#[trigger] r[i]).1 / 256 <= e.1 / 256 by {
        if i < p {
            assert(r[i] == es[i]);
        } else if i > p {
            assert(r[i] == es[i - 1]);
        }
    }
    assert forall|i: int, j: int| 0 <= i < j < r.len() implies (#[trigger] r[i]).0 != (#[trigger] r[j]).0 || r[i].1
        != r[j].1 by {
        if i == p {
            assert(r[j] == es[j - 1]);
        } else if j == p {
            assert(r[i] == es[i]);
        } else {
            let a = if i < p { i } else { i - 1 };
            let b = if j < p { j } else { j - 1 };
            assert(r[i] == es[a] && r[j] == es[b]);
        }
    }
}

/// Inserting the first `m` operations of a batch that starts after `last`
/// keeps keys distinct, with sequences up to the last one inserted.
proof fn lemma_insert_batch(es: Seq<MemEntrySpec>, last: int, seq: int, ops: Seq<OpSpec>, m: int)
    requires
        mem_ok(es, last),
        0 <= last < seq,
        seq <= u64::MAX,
        batch_ok((seq - 1) as u64, ops),
        0 <= m <= ops.len(),
    ensures
        mem_ok(insert_all(es, batch_entries(seq, ops).take(m)), if m == 0 { last } else { seq + m - 1 }),
    decreases m,
{
    let all = batch_entries(seq, ops);
    if m == 0 {
        assert(all.take(0) =~= Seq::<MemEntrySpec>::empty());
    } else {
        lemma_insert_batch(es, last, seq, ops, m - 1);
        assert(all.take(m).drop_last() =~= all.take(m - 1));
        let e = all[m - 1];
        assert(all.take(m).last() == e);
        crate::ikey::lemma_encoded_parts(Seq::empty(), (seq + m - 1) as u64, ops[m - 1].0);
        assert(e.1 / 256 == seq + m - 1);
        lemma_insert_fresh(insert_all(es, all.take(m - 1)), e, if m - 1 == 0 { last } else { seq + m - 2 });
    }
}

/// Replaying the log record that the write path made for a batch gives
/// the state that applying the batch gave: every operation of an
/// acknowledged batch is there again after recovery, under its sequence.
pub proof fn lemma_replay_restores(mem: Seq<MemEntrySpec>, last: u64, ops: Seq<OpSpec>)
    requires
        batch_ok(last, ops),
    ensures
        replay_state(mem, last, batch_bytes((last + 1) as u64, ops)) == Some(commit_state(mem, last, ops)),
{
    crate::batch::lemma_batch_round_trip((last + 1) as u64, ops);
}

/// What a lookup of `key` at snapshot `snap` finds: the mutable memtable
/// first, then the immutable one; a tombstone or nothing gives `None`.
pub open spec fn db_get(mem: Seq<MemEntrySpec>, imm: Option<Seq<MemEntrySpec>>, key: Seq<u8>, snap: u64) -> Option<Seq<u8>> {
    let t = pack_trailer(snap, KeyKind::Delete);
    match mem_get(mem, key, t) {
        Some(o) => o,
        None => match imm {
            Some(i) => match mem_get(i, key, t) {
                Some(o) => o,
                None => None,
            },
            None => None,
        },
    }
}

/// The state after replaying `recs` in order, stopping at the first record
/// that does not replay, and how many were replayed.
pub open spec fn replay_seq(mem: Seq<MemEntrySpec>, last: u64, recs: Seq<Seq<u8>>) -> (Seq<MemEntrySpec>, u64, nat)
    decreases recs.len(),
{
    if recs.len() == 0 {
        (mem, last, 0)
    } else {
        match replay_state(mem, last, recs[0]) {
            None => (mem, last, 0),
            Some((m, l)) => {
                let t = replay_seq(m, l, recs.drop_first());
                (t.0, t.1, t.2 + 1)
            },
        }
    }
}

/// The state after committing the batches `bs` in order.
pub open spec fn commit_all(mem: Seq<MemEntrySpec>, last: u64, bs: Seq<Seq<OpSpec>>) -> (Seq<MemEntrySpec>, u64)
    decreases bs.len(),
{
    if bs.len() == 0 {
        (mem, last)
    } else {
        let s = commit_state(mem, last, bs[0]);
        commit_all(s.0, s.1, bs.drop_first())
    }
}

/// Every batch fits after the ones before it.
pub open spec fn batches_ok(last: u64, bs: Seq<Seq<OpSpec>>) -> bool
    decreases bs.len(),
{
    bs.len() == 0 || (batch_ok(last, bs[0]) && batches_ok((last + bs[0].len()) as u64, bs.drop_first()))
}

/// The log records that the write path makes for the batches `bs`.
pub open spec fn wal_records(last: u64, bs: Seq<Seq<OpSpec>>) -> Seq<Seq<u8>>
    decreases bs.len(),
{
    if bs.len() == 0 {
        Seq::empty()
    } else {
        seq![batch_bytes((last + 1) as u64, bs[0])] + wal_records((last + bs[0].len()) as u64, bs.drop_first())
    }
}

/// Durability: replaying the log that a run of acknowledged batches wrote,
/// on the state they started from, replays every record and gives back
/// the memtable and last sequence that applying them gave.
pub proof fn lemma_wal_restores(mem: Seq<MemEntrySpec>, last: u64, bs: Seq<Seq<OpSpec>>)
    requires
        batches_ok(last, bs),
    ensures
        replay_seq(mem, last, wal_records(last, bs)) == (commit_all(mem, last, bs).0, commit_all(mem, last, bs).1, bs.len()),
    decreases bs.len(),
{
    if bs.len() > 0 {
        lemma_replay_restores(mem, last, bs[0]);
        let s = commit_state(mem, last, bs[0]);
        lemma_wal_restores(s.0, s.1, bs.drop_first());
        let recs = wal_records(last, bs);
        assert(recs[0] == batch_bytes((last + 1) as u64, bs[0]));
        assert(recs.drop_first() =~= wal_records(s.1, bs.drop_first()));
    }
}

/// What the write path must do before a write.
#[derive(Debug, PartialEq, Eq, Structural)]
pub enum RoomAction {
    /// The mutable memtable has room: write.
    Ready,
    /// The memtable was moved to the immutable slot: start a new log and
    /// compact the immutable memtable, then write.
    Rotated,
    /// The immutable slot is still occupied: compact it first.
    WaitForFlush,
}

/// The engine's in-memory state.
pub struct Db {
    mem: MemDB,
    imm: Option<MemDB>,
    last_sequence: u64,
    write_buffer_size: usize,
}

impl Db {
    pub closed spec fn spec_mem(&self) -> Seq<MemEntrySpec> {
        self.mem@
    }

    pub closed spec fn spec_imm(&self) -> Option<Seq<MemEntrySpec>> {
        match self.imm {
            Some(m) => Some(m@),
            None => None,
        }
    }

    pub closed spec fn spec_last_sequence(&self) -> u64 {
        self.last_sequence
    }

    /// The mutable memtable's byte counter.
    pub closed spec fn spec_mem_usage(&self) -> int {
        self.mem.spec_usage()
    }

    pub closed spec fn spec_write_buffer_size(&self) -> int {
        self.write_buffer_size as int
    }

    pub closed spec fn wf(&self) -> bool {
        &&& self.mem.wf()
        &&& (self.imm.is_some() ==> self.imm.unwrap().wf())
        &&& self.last_sequence <= MAX_SEQUENCE
        &&& mem_ok(self.mem@, self.last_sequence as int)
        &&& (self.imm.is_some() ==> mem_ok(self.imm.unwrap()@, self.last_sequence as int))
    }

    /// The memtables of a sound store never hold one internal key twice.
    pub proof fn lemma_distinct(&self)
        requires
            self.wf(),
        ensures
            distinct_keys(self.spec_mem()),
            self.spec_imm().is_some() ==> distinct_keys(self.spec_imm().unwrap()),
            self.spec_last_sequence() <= MAX_SEQUENCE,
    {
    }

    /// An empty store that rotates its memtable past `write_buffer_size` bytes.
    pub fn new(write_buffer_size: usize) -> (r: Db)
        ensures
            r.wf(),
            r.spec_mem() == Seq::<MemEntrySpec>::empty(),
            r.spec_imm().is_none(),
            r.spec_last_sequence() == 0,
            r.spec_write_buffer_size() == write_buffer_size,
    {
        Db { mem: MemDB::new(), imm: None, last_sequence: 0, write_buffer_size }
    }

    /// An empty store whose last handed-out sequence is `last_sequence`.
    pub fn starting_at(write_buffer_size: usize, last_sequence: u64) -> (r: Db)
        requires
            last_sequence <= MAX_SEQUENCE,
        ensures
            r.wf(),
            r.spec_mem() == Seq::<MemEntrySpec>::empty(),
            r.spec_imm().is_none(),
            r.spec_last_sequence() == last_sequence,
            r.spec_write_buffer_size() == write_buffer_size,
    {
        Db { mem: MemDB::new(), imm: None, last_sequence, write_buffer_size }
    }

    /// The last sequence number handed out.
    pub fn last_sequence(&self) -> (r: u64)
        ensures
            r == self.spec_last_sequence(),
            self.wf() ==> r <= MAX_SEQUENCE,
    {
        self.last_sequence
    }

    /// The log record for `batch`, to append (and flush) before `commit`.
    /// `InvalidArgument` for an empty or overlong key, or when sequence
    /// numbers would run out; nothing changes.
    pub fn prepare(&self, batch: &WriteBatch) -> (r: Result<Vec<u8>, ErrorKind>)
        requires
            self.wf(),
        ensures
            r.is_ok() <==> batch_ok(self.spec_last_sequence(), batch@),
            r.is_ok() ==> r.unwrap()@ == batch_bytes((self.spec_last_sequence() + 1) as u64, batch@),
            r.is_err() ==> r == Err::<Vec<u8>, ErrorKind>(ErrorKind::InvalidArgument),
    {
        if !check_batch(self.last_sequence, batch) {
            return Err(ErrorKind::InvalidArgument);
        }
        Ok(batch.encode(self.last_sequence + 1))
    }

    /// Applies a prepared batch: operation `i` goes into the mutable
    /// memtable under sequence `last + 1 + i`, and the last sequence moves
    /// on by the number of operations (not at all for an empty batch).
    pub fn commit(&mut self, batch: &WriteBatch)
        requires
            old(self).wf(),
            batch_ok(old(self).spec_last_sequence(), batch@),
        ensures
            final(self).wf(),
            (final(self).spec_mem(), final(self).spec_last_sequence()) == commit_state(
                old(self).spec_mem(),
                old(self).spec_last_sequence(),
                batch@,
            ),
            final(self).spec_imm() == old(self).spec_imm(),
            final(self).spec_write_buffer_size() == old(self).spec_write_buffer_size(),
    {
        let seq = self.last_sequence + 1;
        let ghost old_mem = self.mem@;
        insert_batch(&mut self.mem, batch, seq);
        self.last_sequence = self.last_sequence + batch.count() as u64;
        proof {
            let all = batch_entries(seq as int, batch@);
            lemma_insert_batch(old_mem, old(self).spec_last_sequence() as int, seq as int, batch@, batch@.len() as int);
            assert(all.take(batch@.len() as int) =~= all);
            if self.imm.is_some() {
                assert(mem_ok(self.imm.unwrap()@, self.last_sequence as int));
            }
        }
    }

    /// Replays a log record found at recovery: its operations go into the
    /// mutable memtable under the record's own sequence numbers, and the
    /// last sequence becomes the largest seen. `Corruption` when the record
    /// does not decode to a batch that fits or its sequence is not past the
    /// last one; nothing changes then.
    pub fn replay(&mut self, record: &[u8]) -> (r: Result<(), ErrorKind>)
        requires
            old(self).wf(),
        ensures
            final(self).wf(),
            match replay_state(old(self).spec_mem(), old(self).spec_last_sequence(), record@) {
                Some((m, l)) => r.is_ok() && final(self).spec_mem() == m && final(self).spec_last_sequence() == l,
                None => r == Err::<(), ErrorKind>(ErrorKind::Corruption) && final(self).spec_mem() == old(self).spec_mem()
                    && final(self).spec_last_sequence() == old(self).spec_last_sequence(),
            },
            final(self).spec_imm() == old(self).spec_imm(),
    {
        let (seq, batch) = match WriteBatch::decode(record) {
            Ok(x) => x,
            Err(e) => {
                return Err(e);
            },
        };
        if seq == 0 || seq <= self.last_sequence {
            return Err(ErrorKind::Corruption);
        }
        if !check_batch(seq - 1, &batch) {
            return Err(ErrorKind::Corruption);
        }
        let ghost old_mem = self.mem@;
        insert_batch(&mut self.mem, &batch, seq);
        let top = seq - 1 + batch.count() as u64;
        if self.last_sequence < top {
            self.last_sequence = top;
        }
        proof {
            let all = batch_entries(seq as int, batch@);
            lemma_insert_batch(old_mem, old(self).spec_last_sequence() as int, seq as int, batch@, batch@.len() as int);
            assert(all.take(batch@.len() as int) =~= all);
            if self.imm.is_some() {
                assert(mem_ok(self.imm.unwrap()@, self.last_sequence as int));
            }
        }
        Ok(())
    }

    /// Looks `key` up at the last sequence.
    pub fn get(&self, key: &[u8]) -> (r: Option<Vec<u8>>)
        requires
            self.wf(),
            key@.len() <= u32::MAX - 12,
        ensures
            match db_get(self.spec_mem(), self.spec_imm(), key@, self.spec_last_sequence()) {
                Some(v) => r.is_some() && r.unwrap()@ == v,
                None => r.is_none(),
            },
    {
        self.get_at(key, self.last_sequence)
    }

    /// Looks `key` up as of sequence `snapshot`.
    pub fn get_at(&self, key: &[u8], snapshot: u64) -> (r: Option<Vec<u8>>)
        requires
            self.wf(),
            key@.len() <= u32::MAX - 12,
            snapshot <= MAX_SEQUENCE,
        ensures
            match db_get(self.spec_mem(), self.spec_imm(), key@, snapshot) {
                Some(v) => r.is_some() && r.unwrap()@ == v,
                None => r.is_none(),
            },
    {
        let lookup = InternalKey::new_delete_key(key, snapshot);
        match self.mem.get(&lookup) {
            Some(LookupResult::Value(v)) => Some(v),
            Some(LookupResult::Deleted) => None,
            None => match &self.imm {
                Some(imm) => match imm.get(&lookup) {
                    Some(LookupResult::Value(v)) => Some(v),
                    _ => None,
                },
                None => None,
            },
        }
    }

    /// Makes room for a write: rotates the memtable once it has outgrown the
    /// write buffer, unless the immutable slot is still occupied.
    pub fn make_room_for_write(&mut self) -> (r: RoomAction)
        requires
            old(self).wf(),
        ensures
            final(self).wf(),
            final(self).spec_last_sequence() == old(self).spec_last_sequence(),
            final(self).spec_write_buffer_size() == old(self).spec_write_buffer_size(),
            old(self).spec_mem_usage() <= old(self).spec_write_buffer_size() ==> r == RoomAction::Ready
                && final(self).spec_mem() == old(self).spec_mem() && final(self).spec_imm() == old(self).spec_imm(),
            old(self).spec_mem_usage() > old(self).spec_write_buffer_size() && old(self).spec_imm().is_some()
                ==> r == RoomAction::WaitForFlush && final(self).spec_mem() == old(self).spec_mem()
                && final(self).spec_imm() == old(self).spec_imm(),
            old(self).spec_mem_usage() > old(self).spec_write_buffer_size() && old(self).spec_imm().is_none()
                ==> r == RoomAction::Rotated && final(self).spec_imm() == Some(old(self).spec_mem())
                && final(self).spec_mem() == Seq::<MemEntrySpec>::empty(),
    {
        if !self.needs_rotation() {
            return RoomAction::Ready;
        }
        if self.rotate() {
            RoomAction::Rotated
        } else {
            RoomAction::WaitForFlush
        }
    }

    /// Replays the records of one log in order, stopping at the first that
    /// does not replay (a torn or corrupt tail); gives how many replayed.
    pub fn replay_log(&mut self, records: &Vec<Vec<u8>>) -> (r: usize)
        requires
            old(self).wf(),
        ensures
            final(self).wf(),
            final(self).spec_imm() == old(self).spec_imm(),
            ({
                let t = replay_seq(old(self).spec_mem(), old(self).spec_last_sequence(), Seq::new(records@.len(), |i: int| records@[i]@));
                final(self).spec_mem() == t.0 && final(self).spec_last_sequence() == t.1 && r == t.2
            }),
    {
        let ghost recs = Seq::new(records@.len(), |i: int| records@[i]@);
        let ghost total = replay_seq(self.spec_mem(), self.spec_last_sequence(), recs);
        let mut i: usize = 0;
        proof {
            assert(recs.skip(0) =~= recs);
        }
        while i < records.len()
            invariant_except_break
                ({
                    let t = replay_seq(self.spec_mem(), self.spec_last_sequence(), recs.skip(i as int));
                    t.0 == total.0 && t.1 == total.1 && t.2 + i == total.2
                }),
            invariant
                self.wf(),
                self.spec_imm() == old(self).spec_imm(),
                recs == Seq::new(records@.len(), |i: int| records@[i]@),
                i <= records@.len(),
            ensures
                self.spec_mem() == total.0 && self.spec_last_sequence() == total.1 && i == total.2,
            decreases records@.len() - i,
        {
            let ghost rest = recs.skip(i as int);
            proof {
                assert(rest[0] == records@[i as int]@);
                assert(rest.drop_first() =~= recs.skip(i + 1));
            }
            match self.replay(records[i].as_slice()) {
                Ok(()) => {},
                Err(_) => {
                    break;
                },
            }
            i = i + 1;
        }
        proof {
            if i == records.len() {
                assert(recs.skip(i as int) =~= Seq::<Seq<u8>>::empty());
            }
        }
        i
    }

    /// Looks `key` up at the last sequence in the memtables alone: the
    /// value or tombstone found, or `None` when neither memtable has an
    /// entry for it (then the tables decide).
    pub fn lookup(&self, key: &[u8]) -> (r: Option<LookupResult>)
        requires
            self.wf(),
            key@.len() <= u32::MAX - 12,
        ensures
            ({
                let t = pack_trailer(self.spec_last_sequence(), KeyKind::Delete);
                match mem_get(self.spec_mem(), key@, t) {
                    Some(o) => r.is_some() && lookup_view(r.unwrap()) == o,
                    None => match self.spec_imm() {
                        Some(i) => match mem_get(i, key@, t) {
                            Some(o) => r.is_some() && lookup_view(r.unwrap()) == o,
                            None => r.is_none(),
                        },
                        None => r.is_none(),
                    },
                }
            }),
    {
        let lookup = InternalKey::new_delete_key(key, self.last_sequence);
        match self.mem.get(&lookup) {
            Some(x) => Some(x),
            None => match &self.imm {
                Some(imm) => imm.get(&lookup),
                None => None,
            },
        }
    }

    /// Whether the mutable memtable has outgrown the write buffer.
    pub fn needs_rotation(&self) -> (r: bool)
        ensures
            r == (self.spec_mem_usage() > self.spec_write_buffer_size()),
    {
        self.mem.approximately_size() > self.write_buffer_size
    }

    /// Moves the mutable memtable to the immutable slot and starts a fresh
    /// one; refuses (and changes nothing) while the slot is still occupied.
    pub fn rotate(&mut self) -> (r: bool)
        requires
            old(self).wf(),
        ensures
            final(self).wf(),
            r == old(self).spec_imm().is_none(),
            r ==> final(self).spec_imm() == Some(old(self).spec_mem()) && final(self).spec_mem()
                == Seq::<MemEntrySpec>::empty(),
            !r ==> final(self).spec_imm() == old(self).spec_imm() && final(self).spec_mem() == old(self).spec_mem(),
            final(self).spec_last_sequence() == old(self).spec_last_sequence(),
            final(self).spec_write_buffer_size() == old(self).spec_write_buffer_size(),
    {
        if self.imm.is_some() {
            return false;
        }
        let mut other = MemDB::new();
        core::mem::swap(&mut self.mem, &mut other);
        self.imm = Some(other);
        true
    }

    /// Takes the immutable memtable out once it has been written to a table.
    pub fn take_immutable(&mut self) -> (r: Option<MemDB>)
        requires
            old(self).wf(),
        ensures
            final(self).wf(),
            final(self).spec_imm().is_none(),
            r.is_some() == old(self).spec_imm().is_some(),
            r.is_some() ==> Some(r.unwrap()@) == old(self).spec_imm() && r.unwrap().wf() && distinct_keys(
                r.unwrap()@,
            ),
            final(self).spec_mem() == old(self).spec_mem(),
            final(self).spec_last_sequence() == old(self).spec_last_sequence(),
    {
        self.imm.take()
    }

    /// The immutable memtable, if any.
    pub fn immutable(&self) -> (r: Option<&MemDB>)
        ensures
            r.is_some() == self.spec_imm().is_some(),
            r.is_some() ==> Some(r.unwrap()@) == self.spec_imm(),
    {
        self.imm.as_ref()
    }
}

/// Inserts the operations of `batch` under sequences `seq`, `seq + 1`, ...
fn insert_batch(mem: &mut MemDB, batch: &WriteBatch, seq: u64)
    requires
        old(mem).wf(),
        seq >= 1,
        batch_ok((seq - 1) as u64, batch@),
    ensures
        final(mem).wf(),
        final(mem)@ == insert_all(old(mem)@, batch_entries(seq as int, batch@)),
{
    let n = batch.count();
    let mut i: usize = 0;
    proof {
        assert(batch_entries(seq as int, batch@).take(0) =~= Seq::<MemEntrySpec>::empty());
    }
    while i < n
        invariant
            n == batch@.len(),
            i <= n,
            seq >= 1,
            batch_ok((seq - 1) as u64, batch@),
            mem.wf(),
            mem@ == insert_all(old(mem)@, batch_entries(seq as int, batch@).take(i as int)),
        decreases n - i,
    {
        let (kind, key, value) = batch.op(i);
        proof {
            assert(0 < batch@[i as int].1.len() <= u32::MAX - 12);
        }
        let k = InternalKey::new_with_kind(key, seq + i as u64, kind);
        mem.add(&k, value);
        proof {
            let all = batch_entries(seq as int, batch@);
            assert(all.take(i + 1).drop_last() =~= all.take(i as int));
            assert(all.take(i + 1).last() == all[i as int]);
        }
        i = i + 1;
    }
    proof {
        assert(batch_entries(seq as int, batch@).take(n as int) =~= batch_entries(seq as int, batch@));
    }
}

} // verus!
