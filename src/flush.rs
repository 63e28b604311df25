//! Turning a memtable into a level-0 table, and the decisions of recovery:
//! which logs to replay and the edit that installs what they held.
use crate::block_format::EntrySpec;
use crate::comparator::{key_lt, KeyOrder};
use crate::error::ErrorKind;
use crate::filename::{parse_name, parse_spec, FileKind, FileType};
use crate::ikey::InternalKey;
use crate::memdb::{encoded_entries, MemDB};
use crate::metadata::{FileMetaData, FileSpec};
use crate::table::table_sound;
use crate::table_builder::{charge, flatten, lemma_charge_add, table_file, TableBuilder, MAX_ENTRY_LEN};
use crate::version_edit::{empty_edit, files_view, EditSpec, VersionEdit};
use vstd::prelude::*;

verus! {

/// What a level-0 table built from `entries` as file `num` satisfies: its
/// bytes are the table of some blocks that hold the entries in order, and
/// its metadata names the file, its size and its first and last keys.
pub open spec fn level0_table(entries: Seq<EntrySpec>, num: u64, bytes: Seq<u8>, meta: FileSpec) -> bool {
    &&& exists|blocks: Seq<Seq<EntrySpec>>|
        #[trigger] table_file(blocks) == bytes && flatten(blocks) == entries && table_sound(KeyOrder::Internal, blocks)
    &&& meta.num == num
    &&& meta.size == bytes.len()
    &&& meta.level == 0
    &&& meta.smallest == entries[0].0
    &&& meta.largest == entries.last().0
}

/// Entries strictly ascending in internal-key order.
pub open spec fn strictly_ascending(es: Seq<EntrySpec>) -> bool {
    forall|i: int| 0 < i < es.len() ==> key_lt(KeyOrder::Internal, #[trigger] es[i - 1].0, es[i].0)
}

/// Entries that a level-0 table takes: strictly ascending in internal-key
/// order, each key and value at most `MAX_ENTRY_LEN` bytes, and all of them
/// together costing at most a `u32`'s worth (`charge`).
pub open spec fn level0_fits(es: Seq<EntrySpec>) -> bool {
    &&& strictly_ascending(es)
    &&& forall|i: int| 0 <= i < es.len() ==> #[trigger] es[i].0.len() <= MAX_ENTRY_LEN && es[i].1.len() <= MAX_ENTRY_LEN
    &&& charge(es) <= u32::MAX
}

/// No two entries share a user key and trailer.
pub open spec fn distinct_keys(es: Seq<crate::memdb::MemEntrySpec>) -> bool {
    forall|i: int, j: int| 0 <= i < j < es.len() ==> (#[trigger] es[i]).0 != (#[trigger] es[j]).0 || es[i].1 != es[j].1
}

/// A sound memtable without repeated internal keys is strictly ascending
/// in internal-key order once encoded.
pub proof fn lemma_memtable_ascending(mem: &MemDB)
    requires
        mem.wf(),
        distinct_keys(mem@),
    ensures
        strictly_ascending(encoded_entries(mem@)),
{
    mem.lemma_view_sound();
    let es = encoded_entries(mem@);
    assert forall|i: int| 0 < i < es.len() implies key_lt(KeyOrder::Internal, #[trigger] es[i - 1].0, es[i].0) by {
        let a = mem@[i - 1];
        let b = mem@[i];
        mem.lemma_keys_sound(i - 1);
        mem.lemma_keys_sound(i);
        crate::memdb::lemma_encode_entry_key(a.0, a.1);
        crate::memdb::lemma_encode_entry_key(b.0, b.1);
        assert(crate::comparator::ikey_order(a.0, a.1, b.0, b.1) != std::cmp::Ordering::Greater);
        crate::comparator::lemma_ikey_order_antisym(a.0, a.1, b.0, b.1);
    }
}

/// Entries small enough for one level-0 table: each key and value at most
/// `MAX_ENTRY_LEN` bytes, all together costing at most a `u32`'s worth.
pub open spec fn level0_sizes_fit(es: Seq<EntrySpec>) -> bool {
    &&& forall|i: int| 0 <= i < es.len() ==> #[trigger] es[i].0.len() <= MAX_ENTRY_LEN && es[i].1.len() <= MAX_ENTRY_LEN
    &&& charge(es) <= u32::MAX
}

/// A sound memtable without repeated internal keys (as every memtable of
/// a sound `Db` is) whose entries are small enough flushes to a table.
pub proof fn lemma_level0_succeeds(mem: &MemDB)
    requires
        mem.wf(),
        distinct_keys(mem@),
        level0_sizes_fit(encoded_entries(mem@)),
    ensures
        level0_fits(encoded_entries(mem@)),
{
    lemma_memtable_ascending(mem);
}

/// Writes the memtable's entries, in order, as a table in internal-key
/// order numbered `num`. `Ok(None)` exactly for an empty memtable: nothing
/// is written. A non-empty memtable whose entries `level0_fits` always
/// gives the table; `InvalidArgument` comes only for entries that do not.
#[verifier::spinoff_prover]
pub fn build_level0_table(mem: &MemDB, num: u64) -> (r: Result<Option<(Vec<u8>, FileMetaData)>, ErrorKind>)
    requires
        mem.wf(),
    ensures
        (r == Ok::<Option<(Vec<u8>, FileMetaData)>, ErrorKind>(None)) <==> mem@.len() == 0,
        r.is_err() ==> r == Err::<Option<(Vec<u8>, FileMetaData)>, ErrorKind>(ErrorKind::InvalidArgument)
            && mem@.len() > 0 && !level0_fits(encoded_entries(mem@)),
        mem@.len() > 0 && level0_fits(encoded_entries(mem@)) ==> r matches Ok(Some(_)),
        match r {
            Ok(Some((bytes, meta))) => meta.wf() && level0_table(encoded_entries(mem@), num, bytes@, meta@),
            _ => true,
        },
{
    if mem.empty() {
        return Ok(None);
    }
    let ghost es = encoded_entries(mem@);
    let mut it = mem.iter();
    let mut tb = TableBuilder::with_order(KeyOrder::Internal);
    let n = it.len();
    let mut i: usize = 0;
    let mut first: Vec<u8> = Vec::new();
    let mut last: Vec<u8> = Vec::new();
    proof {
        assert(es.take(0) =~= Seq::<EntrySpec>::empty());
    }
    while i < n
        invariant
            mem.wf(),
            es == encoded_entries(mem@),
            it.view() == es,
            it.position() == i,
            n == es.len(),
            n > 0,
            i <= n,
            tb.wf(),
            tb.spec_order() == KeyOrder::Internal,
            tb.view().len() == i,
            tb.view() == es.take(i as int),
            i > 0 ==> first@ == es[0].0 && last@ == es[i - 1].0,
        decreases n - i,
    {
        let (k, v) = it.next().unwrap();
        proof {
            if level0_fits(es) {
                assert(es.take(i + 1) =~= es.take(i as int).push(es[i as int]));
                assert(es.take(i + 1).drop_last() =~= es.take(i as int));
                assert(es =~= es.take(i + 1) + es.skip(i + 1));
                lemma_charge_add(es.take(i + 1), es.skip(i + 1));
                assert(k@.len() <= MAX_ENTRY_LEN && v@.len() <= MAX_ENTRY_LEN);
                tb.lemma_room(k@.len() as int);
                if i > 0 {
                    assert(tb.view().last() == es[i - 1]);
                    assert(key_lt(KeyOrder::Internal, es[i - 1].0, es[i as int].0));
                }
            }
        }
        match tb.add(k.as_slice(), v.as_slice()) {
            Ok(()) => {},
            Err(e) => {
                return Err(e);
            },
        }
        proof {
            assert(es.take(i + 1) =~= es.take(i as int).push(es[i as int]));
        }
        if i == 0 {
            first = vstd::slice::slice_to_vec(k.as_slice());
        }
        last = k;
        i = i + 1;
    }
    proof {
        assert(es.take(n as int) =~= es);
    }
    let ghost blocks = tb.final_blocks();
    let bytes = tb.build();
    proof {
        mem.lemma_keys_sound(0);
        mem.lemma_keys_sound(n - 1);
    }
    let smallest = match InternalKey::from(first.as_slice()) {
        Some(k) => k,
        None => {
            return Err(ErrorKind::InvalidArgument);
        },
    };
    let largest = match InternalKey::from(last.as_slice()) {
        Some(k) => k,
        None => {
            return Err(ErrorKind::InvalidArgument);
        },
    };
    let meta = FileMetaData::new(num, bytes.len() as u64, smallest, largest, 0);
    proof {
        assert(table_file(blocks) == bytes@ && flatten(blocks) == es && table_sound(KeyOrder::Internal, blocks));
    }
    Ok(Some((bytes, meta)))
}

/// The name denotes the log numbered `n`.
pub open spec fn names_log(s: Seq<u8>, n: u64) -> bool {
    match parse_spec(s) {
        Some(t) => t.kind == FileKind::Log && t.num == n,
        None => false,
    }
}

/// Inserts `x` into the strictly ascending `v`, unless it is there.
#[verifier::spinoff_prover]
fn insert_sorted(v: &mut Vec<u64>, x: u64)
    requires
        forall|i: int| 0 < i < old(v)@.len() ==> old(v)@[i - 1] < #[trigger] old(v)@[i],
    ensures
        forall|i: int| 0 < i < final(v)@.len() ==> final(v)@[i - 1] < #[trigger] final(v)@[i],
        forall|y: u64| final(v)@.contains(y) <==> (old(v)@.contains(y) || y == x),
{
    let mut p: usize = 0;
    while p < v.len() && v[p] < x
        invariant
            p <= v@.len(),
            *v == *old(v),
            forall|j: int| 0 <= j < p ==> v@[j] < x,
        decreases v@.len() - p,
    {
        p = p + 1;
    }
    proof {
        assert forall|a: int, b: int| 0 <= a < b < v@.len() implies v@[a] < v@[b] by {
            lemma_ascending(v@, a, b);
        }
    }
    if p < v.len() && v[p] == x {
        proof {
            assert(v@[p as int] == x);
            assert(v@.contains(x));
            assert(v@ == old(v)@);
            assert forall|y: u64| v@.contains(y) <==> (old(v)@.contains(y) || y == x) by {
                if y == x {
                    assert(v@.contains(x));
                }
            }
        }
        return;
    }
    let ghost old_v = v@;
    assert(old_v == old(v)@);
    v.insert(p, x);
    proof {
        assert(v@ == old_v.insert(p as int, x));
        lemma_insert_keeps_order(old_v, p as int, x);
        lemma_insert_contents(old_v, p as int, x);
        assert forall|y: u64| v@.contains(y) <==> (old(v)@.contains(y) || y == x) by {
            assert(old_v.insert(p as int, x).contains(y) <==> (old_v.contains(y) || y == x));
        }
    }
}

/// Inserting `x` where it belongs keeps a sequence strictly ascending.
proof fn lemma_insert_keeps_order(v: Seq<u64>, p: int, x: u64)
    requires
        0 <= p <= v.len(),
        forall|i: int| 0 < i < v.len() ==> v[i - 1] < #[trigger] v[i],
        forall|j: int| 0 <= j < p ==> v[j] < x,
        p < v.len() ==> x < v[p],
    ensures
        forall|i: int| 0 < i < v.insert(p, x).len() ==> v.insert(p, x)[i - 1] < #[trigger] v.insert(p, x)[i],
{
    let r = v.insert(p, x);
    assert forall|i: int| 0 < i < r.len() implies r[i - 1] < #[trigger] r[i] by {
        if i < p {
            assert(r[i - 1] == v[i - 1] && r[i] == v[i]);
        } else if i == p {
            assert(r[i - 1] == v[i - 1] && r[i] == x);
        } else if i == p + 1 {
            assert(r[i - 1] == x && r[i] == v[p]);
        } else {
            assert(r[i - 1] == v[i - 2] && r[i] == v[i - 1]);
        }
    }
}

/// What an insert holds: what was there, and `x`.
proof fn lemma_insert_contents(v: Seq<u64>, p: int, x: u64)
    requires
        0 <= p <= v.len(),
    ensures
        forall|y: u64| v.insert(p, x).contains(y) <==> (v.contains(y) || y == x),
{
    let r = v.insert(p, x);
    assert forall|y: u64| r.contains(y) implies (v.contains(y) || y == x) by {
        let k = choose|k: int| 0 <= k < r.len() && r[k] == y;
        if k < p {
            assert(v[k] == y);
        } else if k > p {
            assert(v[k - 1] == y);
        }
    }
    assert forall|y: u64| (v.contains(y) || y == x) implies r.contains(y) by {
        if y == x {
            assert(r[p] == x);
        } else {
            let k = choose|k: int| 0 <= k < v.len() && v[k] == y;
            if k < p {
                assert(r[k] == y);
            } else {
                assert(r[k + 1] == y);
            }
        }
    }
}

proof fn lemma_ascending(v: Seq<u64>, a: int, b: int)
    requires
        forall|i: int| 0 < i < v.len() ==> v[i - 1] < #[trigger] v[i],
        0 <= a < b < v.len(),
    ensures
        v[a] < v[b],
    decreases b - a,
{
    if b - a > 1 {
        lemma_ascending(v, a, b - 1);
        assert(v[b - 1] < v[b]);
    } else {
        assert(v[b - 1] < v[b]);
    }
}

/// The numbers of the logs among `names` to replay at recovery: every log
/// numbered at least `log_number`, ascending, each once.
#[verifier::spinoff_prover]
pub fn logs_to_replay(names: &Vec<Vec<u8>>, log_number: u64) -> (r: Vec<u64>)
    ensures
        forall|i: int| 0 < i < r@.len() ==> r@[i - 1] < #[trigger] r@[i],
        forall|n: u64| r@.contains(n) <==> (n >= log_number && exists|i: int|
            0 <= i < names@.len() && names_log(#[trigger] names@[i]@, n)),
{
    let mut r: Vec<u64> = Vec::new();
    let mut i: usize = 0;
    while i < names.len()
        invariant
            i <= names@.len(),
            forall|k: int| 0 < k < r@.len() ==> r@[k - 1] < #[trigger] r@[k],
            forall|n: u64| r@.contains(n) <==> (n >= log_number && exists|j: int|
                0 <= j < i && names_log(#[trigger] names@[j]@, n)),
        decreases names@.len() - i,
    {
        let ghost before = r@;
        match parse_name(names[i].as_slice()) {
            Some(FileType::Log(_, num)) => {
                if num >= log_number {
                    insert_sorted(&mut r, num);
                }
            },
            _ => {},
        }
        proof {
            assert forall|n: u64| r@.contains(n) <==> (n >= log_number && exists|j: int|
                0 <= j < i + 1 && names_log(#[trigger] names@[j]@, n)) by {
                if exists|j: int| 0 <= j < i && names_log(#[trigger] names@[j]@, n) {
                    let j = choose|j: int| 0 <= j < i && names_log(#[trigger] names@[j]@, n);
                    assert(0 <= j < i + 1);
                }
                if exists|j: int| 0 <= j < i + 1 && names_log(#[trigger] names@[j]@, n) {
                    let j = choose|j: int| 0 <= j < i + 1 && names_log(#[trigger] names@[j]@, n);
                    if j < i {
                        assert(exists|j2: int| 0 <= j2 < i && names_log(#[trigger] names@[j2]@, n));
                    }
                }
            }
        }
        i = i + 1;
    }
    r
}

/// The edit that installs level-0 tables (none, one, or one per replayed
/// log) and names the log from which writes now go: what recovery and
/// memtable compaction hand to `log_and_apply`.
pub fn level0_edit(tables: Vec<FileMetaData>, log_number: u64) -> (r: VersionEdit)
    requires
        forall|i: int| 0 <= i < tables@.len() ==> (#[trigger] tables@[i]).wf() && tables@[i].level == 0,
    ensures
        r.wf(),
        r@ == (EditSpec { log_number, files: files_view(tables@), ..empty_edit() }),
{
    let mut edit = VersionEdit::new(0);
    edit.log_number = log_number;
    edit.files = tables;
    proof {
        assert(edit@.deleted =~= Seq::<FileSpec>::empty());
    }
    edit
}

} // verus!
