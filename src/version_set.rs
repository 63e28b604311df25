//! The store's counters and its current version; what to write to the
//! manifest, how to rebuild from it, and which files are obsolete.
use crate::compaction::LEVEL;
use crate::error::ErrorKind;
use crate::filename::{parse_name, parse_spec, FileKind, FileType};
use crate::metadata::FileSpec;
use crate::version::{
    all_nums, apply_all, apply_edit, contains_u64, edit_levels_ok, Version, VersionBuilder,
};
use crate::version_edit::{decode_items, edit_bytes, empty_edit, EditSpec, VersionEdit};
use vstd::prelude::*;

verus! {

/// Whether a file survives the sweep: names that are not the store's,
/// `CURRENT` and its staging files, logs from `log_number` on, manifests
/// from `manifest_number` on, and tables that the live set holds.
pub open spec fn survives(name: Seq<u8>, log_number: u64, manifest_number: u64, live: Seq<u64>) -> bool {
    match parse_spec(name) {
        None => true,
        Some(t) => match t.kind {
            FileKind::Log => t.num >= log_number,
            FileKind::Manifest => t.num >= manifest_number,
            FileKind::Table => live.contains(t.num),
            FileKind::Current => true,
            FileKind::Temp => true,
        },
    }
}

/// Whether the file called `name` is kept by the sweep.
pub fn keep_file(name: &[u8], log_number: u64, manifest_number: u64, live: &Vec<u64>) -> (r: bool)
    ensures
        r == survives(name@, log_number, manifest_number, live@),
{
    match parse_name(name) {
        None => true,
        Some(FileType::Log(_, n)) => n >= log_number,
        Some(FileType::Manifest(_, n)) => n >= manifest_number,
        Some(FileType::Table(_, n)) => contains_u64(live, n),
        Some(FileType::Current(_)) => true,
        Some(FileType::TempFileName(_, _)) => true,
    }
}

/// The names among `names` that the sweep deletes, in order; every name
/// left is a log from `log_number` on, a manifest from `manifest_number`
/// on, a live table, `CURRENT` or its staging file, or not the store's.
pub fn obsolete_files(names: &Vec<Vec<u8>>, log_number: u64, manifest_number: u64, live: &Vec<u64>) -> (r: Vec<usize>)
    ensures
        forall|k: int| 0 <= k < r@.len() ==> (#[trigger] r@[k]) < names@.len(),
        forall|i: int| 0 <= i < names@.len() ==> (r@.contains(i as usize) <==> !survives(
            #[trigger] names@[i]@,
            log_number,
            manifest_number,
            live@,
        )),
{
    let mut r: Vec<usize> = Vec::new();
    let mut i: usize = 0;
    while i < names.len()
        invariant
            i <= names@.len(),
            forall|k: int| 0 <= k < r@.len() ==> (#[trigger] r@[k]) < i,
            forall|j: int| 0 <= j < i ==> (r@.contains(j as usize) <==> !survives(
                #[trigger] names@[j]@,
                log_number,
                manifest_number,
                live@,
            )),
        decreases names@.len() - i,
    {
        let ghost before = r@;
        if !keep_file(names[i].as_slice(), log_number, manifest_number, live) {
            r.push(i);
        }
        proof {
            assert forall|j: int| 0 <= j < i + 1 implies (r@.contains(j as usize) <==> !survives(
                #[trigger] names@[j]@,
                log_number,
                manifest_number,
                live@,
            )) by {
                if r@.contains(j as usize) {
                    let k = choose|k: int| 0 <= k < r@.len() && r@[k] == j as usize;
                    if k < before.len() {
                        assert(before.contains(j as usize));
                    }
                }
                if j < i && before.contains(j as usize) {
                    let k = choose|k: int| 0 <= k < before.len() && before[k] == j as usize;
                    assert(r@[k] == j as usize);
                }
                if j == i && !survives(names@[j]@, log_number, manifest_number, live@) {
                    assert(r@[r@.len() - 1] == j as usize);
                }
            }
        }
        i = i + 1;
    }
    r
}

/// A file left by the sweep is a current log or manifest, a live table,
/// `CURRENT` or its staging file, or a name that is not the store's.
pub proof fn lemma_sweep_leaves_only_live(name: Seq<u8>, log_number: u64, manifest_number: u64, live: Seq<u64>)
    requires
        survives(name, log_number, manifest_number, live),
    ensures
        parse_spec(name).is_none() || {
            let t = parse_spec(name).unwrap();
            ||| t.kind == FileKind::Log && t.num >= log_number
            ||| t.kind == FileKind::Manifest && t.num >= manifest_number
            ||| t.kind == FileKind::Table && live.contains(t.num)
            ||| t.kind == FileKind::Current
            ||| t.kind == FileKind::Temp
        },
{
}

/// The edits that manifest records hold, if every record decodes.
pub open spec fn decode_all(records: Seq<Seq<u8>>) -> Option<Seq<EditSpec>>
    decreases records.len(),
{
    if records.len() == 0 {
        Some(Seq::empty())
    } else {
        match (decode_all(records.drop_last()), decode_items(records.last(), empty_edit())) {
            (Some(es), Some(e)) => Some(es.push(e)),
            _ => None,
        }
    }
}

/// The last non-zero value of a counter over the edits (0 if none).
pub open spec fn last_set(es: Seq<EditSpec>, which: int) -> u64
    decreases es.len(),
{
    if es.len() == 0 {
        0
    } else {
        let e = es.last();
        let v = if which == 0 {
            e.log_number
        } else if which == 1 {
            e.prev_log_number
        } else if which == 2 {
            e.next_file_number
        } else {
            e.last_sequence
        };
        if v != 0 {
            v
        } else {
            last_set(es.drop_last(), which)
        }
    }
}

/// The version with no file.
pub open spec fn empty_version() -> Seq<Seq<FileSpec>> {
    Seq::new(LEVEL as nat, |l: int| Seq::<FileSpec>::empty())
}

/// Every edit names existing levels only.
pub open spec fn all_levels_ok(es: Seq<EditSpec>) -> bool {
    forall|i: int| 0 <= i < es.len() ==> edit_levels_ok(#[trigger] es[i])
}

/// `n` raised to one past `m` when `m` is not below it.
pub open spec fn mark_used(n: int, m: int) -> int {
    if n <= m {
        m + 1
    } else {
        n
    }
}

/// `n` raised past every number of `nums`.
pub open spec fn mark_all(n: int, nums: Seq<u64>) -> int
    decreases nums.len(),
{
    if nums.len() == 0 {
        n
    } else {
        mark_used(mark_all(n, nums.drop_last()), nums.last() as int)
    }
}

/// `mark_all` is at least `n` and above every number it marked.
pub proof fn lemma_mark_all(n: int, nums: Seq<u64>)
    ensures
        mark_all(n, nums) >= n,
        forall|i: int| 0 <= i < nums.len() ==> nums[i] < mark_all(n, nums),
    decreases nums.len(),
{
    if nums.len() > 0 {
        lemma_mark_all(n, nums.drop_last());
        assert forall|i: int| 0 <= i < nums.len() implies nums[i] < mark_all(n, nums) by {
            if i < nums.len() - 1 {
                assert(nums.drop_last()[i] == nums[i]);
            }
        }
    }
}

/// The version that recovery rebuilds from the manifest's edits: each
/// applied in turn to the empty version.
pub open spec fn recovered_version(es: Seq<EditSpec>) -> Seq<Seq<FileSpec>> {
    apply_all(empty_version(), es)
}

/// The manifest number that recovery takes: past the recorded next file
/// number, both log numbers and every file of the recovered version.
pub open spec fn recovered_manifest_number(es: Seq<EditSpec>) -> int {
    mark_all(
        mark_used(mark_used(last_set(es, 2) as int, last_set(es, 0) as int), last_set(es, 1) as int),
        all_nums(recovered_version(es)),
    )
}

/// Whether recovery from these records succeeds: every record decodes,
/// every edit names existing levels, and file numbers are left.
pub open spec fn recover_ok(records: Seq<Seq<u8>>) -> bool {
    match decode_all(records) {
        Some(es) => all_levels_ok(es) && recovered_manifest_number(es) < u64::MAX,
        None => false,
    }
}

/// The numbers of the files of every version of `vs`, version by version.
pub open spec fn live_nums(vs: Seq<Seq<Seq<FileSpec>>>) -> Seq<u64>
    decreases vs.len(),
{
    if vs.len() == 0 {
        Seq::empty()
    } else {
        live_nums(vs.drop_last()) + all_nums(vs.last())
    }
}

/// The counters of the store and its versions, oldest first; the last one
/// is current. Older versions stay while a reader may hold them.
pub struct VersionSet {
    pub manifest_file_number: u64,
    pub log_number: u64,
    pub next_file_number: u64,
    pub prev_log_number: u64,
    pub last_sequence: u64,
    pub versions: Vec<Version>,
    pub manifest_open: bool,
}

impl VersionSet {
    /// The files of the current version.
    pub closed spec fn spec_current(&self) -> Seq<Seq<FileSpec>> {
        self.versions@.last().view()
    }

    /// The files of every version held, oldest first.
    pub closed spec fn spec_versions(&self) -> Seq<Seq<Seq<FileSpec>>> {
        Seq::new(self.versions@.len(), |i: int| self.versions@[i].view())
    }

    pub closed spec fn wf(&self) -> bool {
        &&& self.versions@.len() > 0
        &&& forall|i: int| 0 <= i < self.versions@.len() ==> (#[trigger] self.versions@[i]).wf()
    }

    /// Whether the manifest has been started (its baseline written).
    pub closed spec fn spec_manifest_open(&self) -> bool {
        self.manifest_open
    }

    pub fn new() -> (r: VersionSet)
        ensures
            r.wf(),
            r.next_file_number == 2,
            r.log_number == 0,
            r.prev_log_number == 0,
            r.last_sequence == 0,
            r.manifest_file_number == 0,
            !r.spec_manifest_open(),
            forall|l: int| 0 <= l < LEVEL ==> (#[trigger] r.spec_current()[l]).len() == 0,
            r.spec_current().len() == LEVEL,
            r.spec_versions().len() == 1,
    {
        let mut versions: Vec<Version> = Vec::new();
        versions.push(Version::new());
        VersionSet {
            manifest_file_number: 0,
            log_number: 0,
            next_file_number: 2,
            prev_log_number: 0,
            last_sequence: 0,
            versions,
            manifest_open: false,
        }
    }

    /// The current version.
    pub fn current(&self) -> (r: &Version)
        requires
            self.wf(),
        ensures
            r@ == self.spec_current(),
            r.wf(),
    {
        &self.versions[self.versions.len() - 1]
    }

    /// Lets go of every version but the current one.
    pub fn release_older(&mut self)
        requires
            old(self).wf(),
        ensures
            final(self).wf(),
            final(self).spec_versions() == seq![old(self).spec_current()],
            final(self).spec_current() == old(self).spec_current(),
            final(self).log_number == old(self).log_number,
            final(self).next_file_number == old(self).next_file_number,
            final(self).manifest_file_number == old(self).manifest_file_number,
            final(self).spec_manifest_open() == old(self).spec_manifest_open(),
    {
        let n = self.versions.len();
        let cur = self.versions.remove(n - 1);
        let mut versions: Vec<Version> = Vec::new();
        versions.push(cur);
        self.versions = versions;
        proof {
            assert(self.spec_versions() =~= seq![old(self).spec_current()]);
        }
    }

    /// Hands out the next file number.
    pub fn next_file_num(&mut self) -> (r: u64)
        requires
            old(self).next_file_number < u64::MAX,
        ensures
            r == old(self).next_file_number,
            final(self).next_file_number == old(self).next_file_number + 1,
            final(self).log_number == old(self).log_number,
            final(self).last_sequence == old(self).last_sequence,
            final(self).spec_current() == old(self).spec_current(),
            final(self).wf() == old(self).wf(),
    {
        let r = self.next_file_number;
        self.next_file_number = r + 1;
        r
    }

    /// Makes sure `num` will not be handed out again.
    pub fn mark_file_num_used(&mut self, num: u64)
        requires
            num < u64::MAX,
        ensures
            final(self).next_file_number == if old(self).next_file_number <= num {
                (num + 1) as u64
            } else {
                old(self).next_file_number
            },
            final(self).log_number == old(self).log_number,
            final(self).spec_current() == old(self).spec_current(),
            final(self).wf() == old(self).wf(),
    {
        if self.next_file_number <= num {
            self.next_file_number = num + 1;
        }
    }

    pub fn set_last_sequence(&mut self, v: u64)
        ensures
            final(self).last_sequence == v,
            final(self).spec_current() == old(self).spec_current(),
            final(self).spec_versions() == old(self).spec_versions(),
            final(self).wf() == old(self).wf(),
            final(self).log_number == old(self).log_number,
            final(self).prev_log_number == old(self).prev_log_number,
            final(self).next_file_number == old(self).next_file_number,
            final(self).manifest_file_number == old(self).manifest_file_number,
            final(self).spec_manifest_open() == old(self).spec_manifest_open(),
    {
        self.last_sequence = v;
    }

    /// The numbers of the files that the versions held refer to.
    pub fn live_files(&self) -> (r: Vec<u64>)
        requires
            self.wf(),
        ensures
            r@ == live_nums(self.spec_versions()),
    {
        let mut r: Vec<u64> = Vec::new();
        let mut i: usize = 0;
        proof {
            assert(self.spec_versions().take(0) =~= Seq::<Seq<Seq<FileSpec>>>::empty());
        }
        while i < self.versions.len()
            invariant
                self.wf(),
                i <= self.versions@.len(),
                r@ == live_nums(self.spec_versions().take(i as int)),
            decreases self.versions@.len() - i,
        {
            let mut nums = self.versions[i].file_numbers();
            r.append(&mut nums);
            proof {
                let vs = self.spec_versions();
                assert(vs.take(i + 1).drop_last() =~= vs.take(i as int));
                assert(vs.take(i + 1).last() == self.versions@[i as int].view());
            }
            i = i + 1;
        }
        proof {
            assert(self.spec_versions().take(i as int) =~= self.spec_versions());
        }
        r
    }

    /// Installs `edit`: fills in its log number (when unset), next file
    /// number and last sequence from the counters, makes the new current
    /// version, and updates the counters from it. Returns the manifest
    /// records to append, in order: on the first install a baseline edit
    /// with every file of the version before, then the edit itself.
    /// `Corruption` when a file of the edit names a level that does not
    /// exist; nothing changes then.
    pub fn log_and_apply(&mut self, edit: &mut VersionEdit) -> (r: Result<Vec<Vec<u8>>, ErrorKind>)
        requires
            old(self).wf(),
            old(edit).wf(),
        ensures
            final(self).wf(),
            final(edit).wf(),
            edit_levels_ok(old(edit)@) <==> r.is_ok(),
            r.is_ok() ==> {
                let recs = r.unwrap()@;
                &&& final(edit)@.files == old(edit)@.files
                &&& final(edit)@.deleted == old(edit)@.deleted
                &&& final(edit).log_number == (if old(edit).log_number == 0 {
                    old(self).log_number
                } else {
                    old(edit).log_number
                })
                &&& final(edit).next_file_number == old(self).next_file_number
                &&& final(edit).last_sequence == old(self).last_sequence
                &&& final(edit).prev_log_number == old(edit).prev_log_number
                &&& recs.len() == (if old(self).spec_manifest_open() {
                    1int
                } else {
                    2int
                })
                &&& recs.last()@ == edit_bytes(final(edit)@)
                &&& final(self).spec_current() == apply_edit(old(self).spec_current(), final(edit)@)
                &&& final(self).spec_versions() == old(self).spec_versions().push(final(self).spec_current())
                &&& final(self).spec_manifest_open()
                &&& final(self).log_number == (if final(edit).log_number != 0 {
                    final(edit).log_number
                } else {
                    old(self).log_number
                })
                &&& final(self).prev_log_number == (if final(edit).prev_log_number != 0 {
                    final(edit).prev_log_number
                } else {
                    old(self).prev_log_number
                })
                &&& final(self).next_file_number == old(self).next_file_number
                &&& final(self).last_sequence == old(self).last_sequence
                &&& final(self).manifest_file_number == old(self).manifest_file_number
            },
            r.is_err() ==> r == Err::<Vec<Vec<u8>>, ErrorKind>(ErrorKind::Corruption) && *final(self)
                == *old(self) && *final(edit) == *old(edit),
    {
        let mut builder = VersionBuilder::new();
        match builder.apply(edit) {
            Err(e) => {
                return Err(e);
            },
            Ok(()) => {},
        }
        if edit.log_number == 0 {
            edit.log_number = self.log_number;
        }
        edit.next_file_number = self.next_file_number;
        edit.last_sequence = self.last_sequence;
        let mut records: Vec<Vec<u8>> = Vec::new();
        if !self.manifest_open {
            let base = snapshot_edit(self.current());
            records.push(base.encode());
            self.manifest_open = true;
        }
        records.push(edit.encode());
        let v = builder.save_to(self.current());
        proof {
            assert forall|l: int| 0 <= l < LEVEL implies #[trigger] v@[l] == apply_edit(old(self).spec_current(), edit@)[l] by {
                assert(Seq::<FileSpec>::empty() + crate::version::added_at(edit@, l) =~= crate::version::added_at(edit@, l));
                assert(Seq::<u64>::empty() + crate::version::deleted_at(edit@, l) =~= crate::version::deleted_at(edit@, l));
            }
            assert(v@ =~= apply_edit(old(self).spec_current(), edit@));
        }
        let ghost old_versions = self.versions@;
        self.versions.push(v);
        proof {
            assert forall|i: int| 0 <= i < self.versions@.len() implies (#[trigger] self.versions@[i]).wf() by {
                if i < old_versions.len() {
                    assert(self.versions@[i] == old_versions[i]);
                }
            }
            assert(self.spec_versions() =~= old(self).spec_versions().push(v@));
        }
        if edit.log_number != 0 {
            self.log_number = edit.log_number;
        }
        if edit.prev_log_number != 0 {
            self.prev_log_number = edit.prev_log_number;
        }
        Ok(records)
    }
}

impl VersionSet {
    /// Rebuilds the current version and the counters from the manifest's
    /// records: each edit is applied in turn to the empty version, the
    /// counters take the last value an edit set, and the next file number
    /// is raised past both log numbers and every file of the version; the
    /// manifest takes that number. Succeeds exactly when `recover_ok`;
    /// `Corruption` otherwise.
    pub fn recover(&mut self, records: &Vec<Vec<u8>>) -> (r: Result<(), ErrorKind>)
        requires
            old(self).wf(),
        ensures
            final(self).wf(),
            r.is_ok() <==> recover_ok(Seq::new(records@.len(), |i: int| records@[i]@)),
            r.is_err() ==> r == Err::<(), ErrorKind>(ErrorKind::Corruption),
            r.is_ok() ==> {
                let es = decode_all(Seq::new(records@.len(), |i: int| records@[i]@)).unwrap();
                &&& final(self).spec_current() == recovered_version(es)
                &&& final(self).spec_versions().len() == 1
                &&& final(self).log_number == last_set(es, 0)
                &&& final(self).prev_log_number == last_set(es, 1)
                &&& final(self).last_sequence == last_set(es, 3)
                &&& final(self).manifest_file_number == recovered_manifest_number(es)
                &&& final(self).next_file_number == final(self).manifest_file_number + 1
                &&& !final(self).spec_manifest_open()
                &&& forall|i: int| 0 <= i < all_nums(final(self).spec_current()).len() ==> #[trigger] all_nums(
                    final(self).spec_current(),
                )[i] < final(self).manifest_file_number
            },
    {
        let ghost recs = Seq::new(records@.len(), |i: int| records@[i]@);
        let mut v = Version::new();
        let mut log_number: u64 = 0;
        let mut prev_log_number: u64 = 0;
        let mut next_file_number: u64 = 0;
        let mut last_sequence: u64 = 0;
        let ghost mut es: Seq<EditSpec> = Seq::empty();
        let mut i: usize = 0;
        proof {
            assert(recs.take(0) =~= Seq::<Seq<u8>>::empty());
            assert forall|l: int| 0 <= l < LEVEL implies #[trigger] v@[l] == empty_version()[l] by {
                assert(v@[l] =~= Seq::<FileSpec>::empty());
            }
            assert(v@ =~= empty_version());
        }
        while i < records.len()
            invariant
                recs == Seq::new(records@.len(), |i: int| records@[i]@),
                i <= records@.len(),
                self.wf(),
                *self == *old(self),
                v.wf(),
                decode_all(recs.take(i as int)) == Some(es),
                all_levels_ok(es),
                v@ == apply_all(empty_version(), es),
                log_number == last_set(es, 0),
                prev_log_number == last_set(es, 1),
                next_file_number == last_set(es, 2),
                last_sequence == last_set(es, 3),
            decreases records@.len() - i,
        {
            let mut edit = VersionEdit::new(0);
            proof {
                assert(edit@ == empty_edit());
                assert(recs.take(i + 1).drop_last() =~= recs.take(i as int));
                assert(recs.take(i + 1).last() == records@[i as int]@);
            }
            match edit.decode_from(records[i].as_slice()) {
                Err(e) => {
                    proof {
                        assert(decode_all(recs.take(i + 1)).is_none());
                        lemma_decode_all_prefix(recs, i + 1);
                    }
                    return Err(e);
                },
                Ok(()) => {},
            }
            let ghost e = edit@;
            let mut builder = VersionBuilder::new();
            match builder.apply(&edit) {
                Err(err) => {
                    proof {
                        let es2 = es.push(e);
                        assert(decode_all(recs.take(i + 1)) == Some(es2));
                        lemma_decode_all_extend(recs, i + 1, es2, es.len() as int);
                    }
                    return Err(err);
                },
                Ok(()) => {},
            }
            let nv = builder.save_to(&v);
            proof {
                assert forall|l: int| 0 <= l < LEVEL implies #[trigger] nv@[l] == apply_edit(v@, e)[l] by {
                    assert(Seq::<FileSpec>::empty() + crate::version::added_at(e, l) =~= crate::version::added_at(e, l));
                    assert(Seq::<u64>::empty() + crate::version::deleted_at(e, l) =~= crate::version::deleted_at(e, l));
                }
                assert(nv@ =~= apply_edit(v@, e));
            }
            v = nv;
            if edit.log_number != 0 {
                log_number = edit.log_number;
            }
            if edit.prev_log_number != 0 {
                prev_log_number = edit.prev_log_number;
            }
            if edit.next_file_number != 0 {
                next_file_number = edit.next_file_number;
            }
            if edit.last_sequence != 0 {
                last_sequence = edit.last_sequence;
            }
            proof {
                let es2 = es.push(e);
                assert(es2.drop_last() =~= es);
                assert(all_levels_ok(es2)) by {
                    assert forall|j: int| 0 <= j < es2.len() implies edit_levels_ok(#[trigger] es2[j]) by {
                        if j < es.len() {
                            assert(es2[j] == es[j]);
                        }
                    }
                }
                es = es2;
            }
            i = i + 1;
        }
        proof {
            assert(recs.take(i as int) =~= recs);
        }
        let ghost base = mark_used(mark_used(next_file_number as int, log_number as int), prev_log_number as int);
        if log_number == u64::MAX || prev_log_number == u64::MAX {
            proof {
                lemma_mark_all(base, all_nums(v@));
            }
            return Err(ErrorKind::Corruption);
        }
        let nums = v.file_numbers();
        let mut next = next_file_number;
        if next <= log_number {
            next = log_number + 1;
        }
        if next <= prev_log_number {
            next = prev_log_number + 1;
        }
        let mut k: usize = 0;
        proof {
            assert(nums@.take(0) =~= Seq::<u64>::empty());
        }
        while k < nums.len()
            invariant
                self.wf(),
                *self == *old(self),
                recs == Seq::new(records@.len(), |i: int| records@[i]@),
                decode_all(recs) == Some(es),
                all_levels_ok(es),
                v@ == apply_all(empty_version(), es),
                log_number == last_set(es, 0),
                prev_log_number == last_set(es, 1),
                next_file_number == last_set(es, 2),
                last_sequence == last_set(es, 3),
                base == mark_used(mark_used(next_file_number as int, log_number as int), prev_log_number as int),
                k <= nums@.len(),
                nums@ == all_nums(v@),
                next as int == mark_all(base, nums@.take(k as int)),
            decreases nums@.len() - k,
        {
            proof {
                assert(nums@.take(k + 1).drop_last() =~= nums@.take(k as int));
            }
            if nums[k] == u64::MAX {
                proof {
                    lemma_mark_all(mark_all(base, nums@.take(k + 1)), nums@.skip(k + 1));
                    lemma_mark_all_split(base, nums@, k + 1);
                }
                return Err(ErrorKind::Corruption);
            }
            if next <= nums[k] {
                next = nums[k] + 1;
            }
            k = k + 1;
        }
        proof {
            assert(nums@.take(k as int) =~= nums@);
            lemma_mark_all(base, nums@);
        }
        if next == u64::MAX {
            return Err(ErrorKind::Corruption);
        }
        self.manifest_file_number = next;
        self.next_file_number = next + 1;
        self.last_sequence = last_sequence;
        self.log_number = log_number;
        self.prev_log_number = prev_log_number;
        let mut versions: Vec<Version> = Vec::new();
        versions.push(v);
        self.versions = versions;
        self.manifest_open = false;
        proof {
            assert(self.spec_versions() =~= seq![v@]);
        }
        Ok(())
    }
}

/// Marking more numbers only raises the mark.
proof fn lemma_mark_all_split(n: int, nums: Seq<u64>, k: int)
    requires
        0 <= k <= nums.len(),
    ensures
        mark_all(n, nums) >= mark_all(n, nums.take(k)),
    decreases nums.len(),
{
    if k < nums.len() {
        lemma_mark_all_split(n, nums.drop_last(), k);
        assert(nums.drop_last().take(k) =~= nums.take(k));
    } else {
        assert(nums.take(k) =~= nums);
    }
}

/// A decoded prefix whose edit `j` names a missing level makes recovery fail.
proof fn lemma_decode_all_extend(recs: Seq<Seq<u8>>, n: int, es: Seq<EditSpec>, j: int)
    requires
        0 <= n <= recs.len(),
        decode_all(recs.take(n)) == Some(es),
        0 <= j < es.len(),
        !edit_levels_ok(es[j]),
    ensures
        !recover_ok(recs),
    decreases recs.len() - n,
{
    if n < recs.len() {
        assert(recs.take(n + 1).drop_last() =~= recs.take(n));
        match decode_all(recs.take(n + 1)) {
            Some(es2) => {
                assert(es2.drop_last() == es);
                assert(es2[j] == es[j]);
                lemma_decode_all_extend(recs, n + 1, es2, j);
            },
            None => {
                lemma_decode_all_prefix(recs, n + 1);
            },
        }
    } else {
        assert(recs.take(n) =~= recs);
    }
}

/// Once a prefix of the records fails to decode, all of them do.
proof fn lemma_decode_all_prefix(recs: Seq<Seq<u8>>, n: int)
    requires
        0 <= n <= recs.len(),
        decode_all(recs.take(n)).is_none(),
    ensures
        decode_all(recs).is_none(),
    decreases recs.len() - n,
{
    if n < recs.len() {
        assert(recs.take(n + 1).drop_last() =~= recs.take(n));
        lemma_decode_all_prefix(recs, n + 1);
    } else {
        assert(recs.take(n) =~= recs);
    }
}

/// An edit that adds every file of `v`: the manifest's baseline.
fn snapshot_edit(v: &Version) -> (r: VersionEdit)
    requires
        v.wf(),
    ensures
        r.wf(),
{
    let mut edit = VersionEdit::new(0);
    let mut l: usize = 0;
    while l < LEVEL
        invariant
            v.wf(),
            edit.wf(),
            l <= LEVEL,
        decreases LEVEL - l,
    {
        let fs = v.files_at(l);
        let mut i: usize = 0;
        while i < fs.len()
            invariant
                edit.wf(),
                i <= fs@.len(),
                forall|j: int| 0 <= j < fs@.len() ==> (#[trigger] fs@[j]).wf(),
            decreases fs@.len() - i,
        {
            edit.add_file(crate::metadata::clone_meta(&fs[i]));
            i = i + 1;
        }
        l = l + 1;
    }
    edit
}

} // verus!
