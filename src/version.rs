//! Versions: the table files of each level, and how edits change them.
use crate::compaction::LEVEL;
use crate::error::ErrorKind;
use crate::metadata::{clone_meta, FileMetaData, FileSpec};
use crate::comparator::{
    compare_bytes, encoded_trailer, encoded_user_key, lemma_lex_cmp_antisym, lemma_lex_cmp_equal, lex_le,
    lex_lt,
};
use crate::ikey::lemma_encoded_parts;
use crate::version_edit::{files_view, EditSpec, VersionEdit};
use crate::ikey::MAX_SEQUENCE;
use crate::memdb::LookupResult;
use crate::table::table_get_entry_spec;
use crate::table_cache::{slot_of, TableCache};
use std::cmp::Ordering;
use vstd::prelude::*;

verus! {

/// The files of `fs` whose numbers are not in `del`.
pub open spec fn keep(fs: Seq<FileSpec>, del: Seq<u64>) -> Seq<FileSpec> {
    fs.filter(|f: FileSpec| !del.contains(f.num))
}

/// The files an edit adds at level `l`.
pub open spec fn added_at(e: EditSpec, l: int) -> Seq<FileSpec> {
    e.files.filter(|f: FileSpec| f.level == l)
}

/// The numbers of the files an edit deletes at level `l`.
pub open spec fn deleted_at(e: EditSpec, l: int) -> Seq<u64> {
    e.deleted.filter(|f: FileSpec| f.level == l).map_values(|f: FileSpec| f.num)
}

/// The version that `e` makes of `v`: at each level, the files kept, then
/// the files added, less those deleted.
pub open spec fn apply_edit(v: Seq<Seq<FileSpec>>, e: EditSpec) -> Seq<Seq<FileSpec>> {
    Seq::new(LEVEL as nat, |l: int| keep(v[l] + added_at(e, l), deleted_at(e, l)))
}

/// The edits applied one after another.
pub open spec fn apply_all(v: Seq<Seq<FileSpec>>, es: Seq<EditSpec>) -> Seq<Seq<FileSpec>>
    decreases es.len(),
{
    if es.len() == 0 {
        v
    } else {
        apply_edit(apply_all(v, es.drop_last()), es.last())
    }
}

/// The levels of a list of level vectors.
pub open spec fn levels_view(v: Seq<Vec<FileMetaData>>) -> Seq<Seq<FileSpec>> {
    Seq::new(v.len(), |l: int| files_view(v[l]@))
}

/// An immutable snapshot of the files of each level.
pub struct Version {
    files: Vec<Vec<FileMetaData>>,
}

impl Version {
    pub closed spec fn view(&self) -> Seq<Seq<FileSpec>> {
        levels_view(self.files@)
    }

    pub closed spec fn wf(&self) -> bool {
        &&& self.files@.len() == LEVEL
        &&& forall|l: int, i: int| 0 <= l < LEVEL && 0 <= i < self.files@[l]@.len() ==> (#[trigger] self.files@[l]@[i]).wf()
    }

    /// A version with no file.
    pub fn new() -> (r: Version)
        ensures
            r.wf(),
            r.view().len() == LEVEL,
            forall|l: int| 0 <= l < LEVEL ==> (#[trigger] r.view()[l]).len() == 0,
    {
        Version { files: empty_levels() }
    }

    /// The files of `level`.
    pub fn files_at(&self, level: usize) -> (r: &Vec<FileMetaData>)
        requires
            self.wf(),
            level < LEVEL,
        ensures
            files_view(r@) == self.view()[level as int],
            forall|i: int| 0 <= i < r@.len() ==> (#[trigger] r@[i]).wf(),
    {
        &self.files[level]
    }

    /// The numbers of all files, level by level.
    pub fn file_numbers(&self) -> (r: Vec<u64>)
        requires
            self.wf(),
        ensures
            r@ == all_nums(self.view()),
    {
        let mut r: Vec<u64> = Vec::new();
        let mut l: usize = 0;
        proof {
            assert(self.view().take(0) =~= Seq::<Seq<FileSpec>>::empty());
        }
        while l < LEVEL
            invariant
                self.wf(),
                l <= LEVEL,
                r@ == all_nums(self.view().take(l as int)),
            decreases LEVEL - l,
        {
            let fs = &self.files[l];
            let mut i: usize = 0;
            let ghost before = r@;
            proof {
                assert(files_view(fs@).take(0).map_values(|f: FileSpec| f.num) =~= Seq::<u64>::empty());
            }
            while i < fs.len()
                invariant
                    self.wf(),
                    l < LEVEL,
                    fs == &self.files@[l as int],
                    i <= fs@.len(),
                    r@ == before + files_view(fs@).take(i as int).map_values(|f: FileSpec| f.num),
                decreases fs@.len() - i,
            {
                r.push(fs[i].file_num);
                proof {
                    assert(files_view(fs@).take(i + 1).map_values(|f: FileSpec| f.num) =~= files_view(fs@).take(
                        i as int,
                    ).map_values(|f: FileSpec| f.num).push(fs@[i as int].file_num));
                }
                i = i + 1;
            }
            proof {
                let v = self.view();
                assert(v.take(l + 1).drop_last() =~= v.take(l as int));
                assert(files_view(fs@).take(i as int) =~= v[l as int]);
                assert(r@ =~= all_nums(v.take(l + 1)));
            }
            l = l + 1;
        }
        proof {
            assert(self.view().take(LEVEL as int) =~= self.view());
        }
        r
    }
}

/// The numbers of the files of every level, level by level.
pub open spec fn all_nums(v: Seq<Seq<FileSpec>>) -> Seq<u64>
    decreases v.len(),
{
    if v.len() == 0 {
        Seq::empty()
    } else {
        all_nums(v.drop_last()) + v.last().map_values(|f: FileSpec| f.num)
    }
}

/// What a builder holds after `es`: the files added at level `l`, in order.
pub open spec fn acc_added(es: Seq<EditSpec>, l: int) -> Seq<FileSpec>
    decreases es.len(),
{
    if es.len() == 0 {
        Seq::empty()
    } else {
        acc_added(es.drop_last(), l) + added_at(es.last(), l)
    }
}

/// What a builder holds after `es`: the numbers deleted at level `l`.
pub open spec fn acc_deleted(es: Seq<EditSpec>, l: int) -> Seq<u64>
    decreases es.len(),
{
    if es.len() == 0 {
        Seq::empty()
    } else {
        acc_deleted(es.drop_last(), l) + deleted_at(es.last(), l)
    }
}

/// The version a builder makes of `base` after taking in `es`.
pub open spec fn replay(base: Seq<Seq<FileSpec>>, es: Seq<EditSpec>) -> Seq<Seq<FileSpec>> {
    Seq::new(LEVEL as nat, |l: int| keep(base[l] + acc_added(es, l), acc_deleted(es, l)))
}

/// No edit adds a file whose number an earlier edit deleted at that level.
pub open spec fn no_readd(es: Seq<EditSpec>) -> bool {
    forall|i: int, j: int, l: int, k: int|
        0 <= i < j < es.len() && 0 <= l < LEVEL && 0 <= k < added_at(es[j], l).len() ==> !(#[trigger] deleted_at(es[i], l)).contains(
            #[trigger] added_at(es[j], l)[k].num,
        )
}

proof fn lemma_contains_concat(a: Seq<u64>, b: Seq<u64>, x: u64)
    ensures
        (a + b).contains(x) <==> (a.contains(x) || b.contains(x)),
{
    if (a + b).contains(x) {
        let k = choose|k: int| 0 <= k < (a + b).len() && (a + b)[k] == x;
        if k >= a.len() {
            assert(b[k - a.len()] == x);
        }
    }
    if a.contains(x) {
        let k = choose|k: int| 0 <= k < a.len() && a[k] == x;
        assert((a + b)[k] == x);
    }
    if b.contains(x) {
        let k = choose|k: int| 0 <= k < b.len() && b[k] == x;
        assert((a + b)[a.len() + k] == x);
    }
}

proof fn lemma_keep_union(fs: Seq<FileSpec>, d1: Seq<u64>, d2: Seq<u64>)
    ensures
        keep(fs, d1 + d2) == keep(keep(fs, d1), d2),
    decreases fs.len(),
{
    reveal(Seq::filter);
    if fs.len() > 0 {
        lemma_keep_union(fs.drop_last(), d1, d2);
        lemma_contains_concat(d1, d2, fs.last().num);
        let k1 = keep(fs.drop_last(), d1);
        if !d1.contains(fs.last().num) {
            assert(keep(fs, d1) == k1.push(fs.last()));
            assert(keep(fs, d1).drop_last() =~= k1);
        } else {
            assert(keep(fs, d1) == k1);
        }
    }
}

proof fn lemma_keep_disjoint(fs: Seq<FileSpec>, d: Seq<u64>)
    requires
        forall|k: int| 0 <= k < fs.len() ==> !d.contains(#[trigger] fs[k].num),
    ensures
        keep(fs, d) == fs,
    decreases fs.len(),
{
    reveal(Seq::filter);
    if fs.len() > 0 {
        assert(!d.contains(fs[fs.len() - 1].num));
        lemma_keep_disjoint(fs.drop_last(), d);
        assert(fs.drop_last().push(fs.last()) =~= fs);
    } else {
        assert(keep(fs, d) =~= fs);
    }
}

proof fn lemma_acc_added_not_deleted(es: Seq<EditSpec>, e: EditSpec, l: int)
    requires
        0 <= l < LEVEL,
        no_readd(es.push(e)),
    ensures
        forall|k: int| 0 <= k < added_at(e, l).len() ==> !acc_deleted(es, l).contains(#[trigger] added_at(e, l)[k].num),
    decreases es.len(),
{
    let all = es.push(e);
    if es.len() > 0 {
        let es2 = es.drop_last();
        assert(no_readd(es2.push(e))) by {
            assert forall|i: int, j: int, l2: int, k: int|
                0 <= i < j < es2.push(e).len() && 0 <= l2 < LEVEL && 0 <= k < added_at(es2.push(e)[j], l2).len()
                implies !(#[trigger] deleted_at(es2.push(e)[i], l2)).contains(
                #[trigger] added_at(es2.push(e)[j], l2)[k].num,
            ) by {
                let jj = if j == es2.len() { es.len() as int } else { j };
                assert(es2.push(e)[i] == all[i]);
                assert(es2.push(e)[j] == all[jj]);
            }
        }
        lemma_acc_added_not_deleted(es2, e, l);
        assert forall|k: int| 0 <= k < added_at(e, l).len() implies !acc_deleted(es, l).contains(
            #[trigger] added_at(e, l)[k].num,
        ) by {
            let x = added_at(e, l)[k].num;
            lemma_contains_concat(acc_deleted(es2, l), deleted_at(es.last(), l), x);
            assert(all[es.len() - 1] == es.last());
            assert(all[es.len() as int] == e);
        }
    }
}

/// Replaying a manifest (every edit taken into one builder, then the base
/// version saved through it) gives the version that applying the same
/// edits one after another gives, when no edit re-adds a deleted file.
#[verifier::spinoff_prover]
pub proof fn lemma_manifest_replay(base: Seq<Seq<FileSpec>>, es: Seq<EditSpec>)
    requires
        base.len() == LEVEL,
        no_readd(es),
    ensures
        replay(base, es) == apply_all(base, es),
    decreases es.len(),
{
    if es.len() == 0 {
        assert forall|l: int| 0 <= l < LEVEL implies #[trigger] replay(base, es)[l] == base[l] by {
            assert(base[l] + Seq::<FileSpec>::empty() =~= base[l]);
            lemma_keep_disjoint(base[l], Seq::empty());
        }
        assert(replay(base, es) =~= base);
    } else {
        let es2 = es.drop_last();
        let e = es.last();
        assert(es2.push(e) =~= es);
        assert(no_readd(es2)) by {
            assert forall|i: int, j: int, l: int, k: int|
                0 <= i < j < es2.len() && 0 <= l < LEVEL && 0 <= k < added_at(es2[j], l).len() implies !(#[trigger] deleted_at(
                es2[i],
                l,
            )).contains(#[trigger] added_at(es2[j], l)[k].num) by {
                assert(es2[i] == es[i] && es2[j] == es[j]);
            }
        }
        lemma_manifest_replay(base, es2);
        assert forall|l: int| 0 <= l < LEVEL implies #[trigger] replay(base, es)[l] == apply_all(base, es)[l] by {
            let x = base[l];
            let aa = acc_added(es2, l);
            let dd = acc_deleted(es2, l);
            let a = added_at(e, l);
            let d = deleted_at(e, l);
            assert(acc_added(es, l) == aa + a);
            assert(acc_deleted(es, l) == dd + d);
            assert(x + (aa + a) =~= (x + aa) + a);
            Seq::filter_distributes_over_add(x + aa, a, |f: FileSpec| !(dd + d).contains(f.num));
            lemma_keep_union(x + aa, dd, d);
            lemma_keep_union(a, dd, d);
            lemma_acc_added_not_deleted(es2, e, l);
            lemma_keep_disjoint(a, dd);
            assert(replay(base, es2)[l] == keep(x + aa, dd));
            let v = apply_all(base, es2);
            assert(v[l] == keep(x + aa, dd));
            Seq::filter_distributes_over_add(v[l], a, |f: FileSpec| !d.contains(f.num));
        }
        assert(replay(base, es) =~= apply_all(base, es));
    }
}

/// Every file of the edit names a level below `LEVEL`.
pub open spec fn edit_levels_ok(e: EditSpec) -> bool {
    &&& forall|i: int| 0 <= i < e.files.len() ==> (#[trigger] e.files[i]).level < LEVEL
    &&& forall|i: int| 0 <= i < e.deleted.len() ==> (#[trigger] e.deleted[i]).level < LEVEL
}

/// Whether `x` is in `v`.
pub fn contains_u64(v: &Vec<u64>, x: u64) -> (r: bool)
    ensures
        r == v@.contains(x),
{
    let mut i: usize = 0;
    while i < v.len()
        invariant
            i <= v@.len(),
            forall|j: int| 0 <= j < i ==> v@[j] != x,
        decreases v@.len() - i,
    {
        if v[i] == x {
            return true;
        }
        i = i + 1;
    }
    false
}

/// Takes in edits, then makes a version of a base version from them.
pub struct VersionBuilder {
    added: Vec<Vec<FileMetaData>>,
    deleted: Vec<Vec<u64>>,
}

impl VersionBuilder {
    /// The files added so far, per level.
    pub closed spec fn spec_added(&self) -> Seq<Seq<FileSpec>> {
        levels_view(self.added@)
    }

    /// The numbers deleted so far, per level.
    pub closed spec fn spec_deleted(&self) -> Seq<Seq<u64>> {
        Seq::new(self.deleted@.len(), |l: int| self.deleted@[l]@)
    }

    pub closed spec fn wf(&self) -> bool {
        &&& self.added@.len() == LEVEL
        &&& self.deleted@.len() == LEVEL
        &&& forall|l: int, i: int| 0 <= l < LEVEL && 0 <= i < self.added@[l]@.len() ==> (#[trigger] self.added@[l]@[i]).wf()
    }

    pub fn new() -> (r: VersionBuilder)
        ensures
            r.wf(),
            forall|l: int| 0 <= l < LEVEL ==> (#[trigger] r.spec_added()[l]) == Seq::<FileSpec>::empty(),
            forall|l: int| 0 <= l < LEVEL ==> (#[trigger] r.spec_deleted()[l]) == Seq::<u64>::empty(),
    {
        let added = empty_levels();
        let mut deleted: Vec<Vec<u64>> = Vec::new();
        let mut i: usize = 0;
        while i < LEVEL
            invariant
                i <= LEVEL,
                deleted@.len() == i,
                forall|l: int| 0 <= l < i ==> (#[trigger] deleted@[l])@.len() == 0,
            decreases LEVEL - i,
        {
            deleted.push(Vec::new());
            i = i + 1;
        }
        let r = VersionBuilder { added, deleted };
        proof {
            assert forall|l: int| 0 <= l < LEVEL implies (#[trigger] r.spec_added()[l]) == Seq::<FileSpec>::empty() by {
                assert(r.spec_added()[l] =~= Seq::<FileSpec>::empty());
            }
            assert forall|l: int| 0 <= l < LEVEL implies (#[trigger] r.spec_deleted()[l]) == Seq::<u64>::empty() by {
                assert(r.spec_deleted()[l] =~= Seq::<u64>::empty());
            }
        }
        r
    }

    /// Takes in an edit; `Corruption` when one of its files names a level
    /// that does not exist, and then nothing is taken in.
    pub fn apply(&mut self, edit: &VersionEdit) -> (r: Result<(), ErrorKind>)
        requires
            old(self).wf(),
            edit.wf(),
        ensures
            final(self).wf(),
            edit_levels_ok(edit@) ==> r.is_ok() && (forall|l: int| 0 <= l < LEVEL ==> (#[trigger] final(self).spec_added()[l])
                == old(self).spec_added()[l] + added_at(edit@, l)) && (forall|l: int| 0 <= l < LEVEL ==> (#[trigger] final(self).spec_deleted()[l])
                == old(self).spec_deleted()[l] + deleted_at(edit@, l)),
            !edit_levels_ok(edit@) ==> r == Err::<(), ErrorKind>(ErrorKind::Corruption) && *final(self) == *old(self),
    {
        let mut i: usize = 0;
        while i < edit.files.len()
            invariant
                i <= edit.files@.len(),
                self.wf(),
                *self == *old(self),
                forall|j: int| 0 <= j < i ==> (#[trigger] edit.files@[j]).level < LEVEL,
            decreases edit.files@.len() - i,
        {
            if edit.files[i].level >= LEVEL as u64 {
                proof {
                    assert(edit@.files[i as int].level >= LEVEL);
                }
                return Err(ErrorKind::Corruption);
            }
            i = i + 1;
        }
        let mut i: usize = 0;
        while i < edit.deleted_files.len()
            invariant
                i <= edit.deleted_files@.len(),
                self.wf(),
                *self == *old(self),
                forall|j: int| 0 <= j < i ==> (#[trigger] edit.deleted_files@[j]).level < LEVEL,
            decreases edit.deleted_files@.len() - i,
        {
            if edit.deleted_files[i].level >= LEVEL as u64 {
                proof {
                    assert(edit@.deleted[i as int].level >= LEVEL);
                }
                return Err(ErrorKind::Corruption);
            }
            i = i + 1;
        }
        let ghost e = edit@;
        let mut new_added: Vec<Vec<FileMetaData>> = Vec::new();
        let mut new_deleted: Vec<Vec<u64>> = Vec::new();
        let mut l: usize = 0;
        while l < LEVEL
            invariant
                self.wf(),
                edit.wf(),
                e == edit@,
                l <= LEVEL,
                new_added@.len() == l,
                new_deleted@.len() == l,
                forall|k: int| 0 <= k < l ==> files_view(#[trigger] new_added@[k]@) == self.spec_added()[k] + added_at(e, k),
                forall|k: int| 0 <= k < l ==> (#[trigger] new_deleted@[k])@ == self.spec_deleted()[k] + deleted_at(e, k),
                forall|k: int, i: int| 0 <= k < l && 0 <= i < new_added@[k]@.len() ==> (#[trigger] new_added@[k]@[i]).wf(),
            decreases LEVEL - l,
        {
            let (fs, ds) = level_after(&self.added[l], &self.deleted[l], edit, l as u64);
            proof {
                assert(self.added@[l as int]@.len() >= 0);
            }
            new_added.push(fs);
            new_deleted.push(ds);
            l = l + 1;
        }
        self.added = new_added;
        self.deleted = new_deleted;
        proof {
            assert forall|k: int| 0 <= k < LEVEL implies (#[trigger] self.spec_added()[k]) == old(self).spec_added()[k] + added_at(e, k) by {}
            assert forall|k: int| 0 <= k < LEVEL implies (#[trigger] self.spec_deleted()[k]) == old(self).spec_deleted()[k] + deleted_at(e, k) by {}
        }
        Ok(())
    }
}

impl VersionBuilder {
    /// The version made of `base`: at each level its files and then the
    /// files taken in, less every file whose number was deleted there.
    pub fn save_to(&self, base: &Version) -> (r: Version)
        requires
            self.wf(),
            base.wf(),
        ensures
            r.wf(),
            r.view() == Seq::new(
                LEVEL as nat,
                |l: int| keep(base.view()[l] + self.spec_added()[l], self.spec_deleted()[l]),
            ),
    {
        let mut files: Vec<Vec<FileMetaData>> = Vec::new();
        let mut l: usize = 0;
        while l < LEVEL
            invariant
                self.wf(),
                base.wf(),
                l <= LEVEL,
                files@.len() == l,
                forall|k: int| 0 <= k < l ==> files_view(#[trigger] files@[k]@) == keep(
                    base.view()[k] + self.spec_added()[k],
                    self.spec_deleted()[k],
                ),
                forall|k: int, i: int| 0 <= k < l && 0 <= i < files@[k]@.len() ==> (#[trigger] files@[k]@[i]).wf(),
            decreases LEVEL - l,
        {
            let kept = keep_files(&base.files[l], &self.added[l], &self.deleted[l]);
            files.push(kept);
            l = l + 1;
        }
        let r = Version { files };
        proof {
            assert(r.view() =~= Seq::new(
                LEVEL as nat,
                |l: int| keep(base.view()[l] + self.spec_added()[l], self.spec_deleted()[l]),
            ));
        }
        r
    }
}

/// The files of `a` and then of `b` whose numbers are not in `del`.
fn keep_files(a: &Vec<FileMetaData>, b: &Vec<FileMetaData>, del: &Vec<u64>) -> (r: Vec<FileMetaData>)
    requires
        forall|i: int| 0 <= i < a@.len() ==> (#[trigger] a@[i]).wf(),
        forall|i: int| 0 <= i < b@.len() ==> (#[trigger] b@[i]).wf(),
    ensures
        files_view(r@) == keep(files_view(a@) + files_view(b@), del@),
        forall|i: int| 0 <= i < r@.len() ==> (#[trigger] r@[i]).wf(),
{
    let ghost both = files_view(a@) + files_view(b@);
    let mut r: Vec<FileMetaData> = Vec::new();
    let mut i: usize = 0;
    let n = a.len();
    let m = b.len();
    proof {
        reveal(Seq::filter);
        assert(both.take(0) =~= Seq::<FileSpec>::empty());
        assert(files_view(r@) =~= keep(both.take(0), del@));
    }
    while i < n
        invariant
            n == a@.len(),
            m == b@.len(),
            both == files_view(a@) + files_view(b@),
            forall|j: int| 0 <= j < a@.len() ==> (#[trigger] a@[j]).wf(),
            i <= n,
            files_view(r@) == keep(both.take(i as int), del@),
            forall|j: int| 0 <= j < r@.len() ==> (#[trigger] r@[j]).wf(),
        decreases n - i,
    {
        let f = &a[i];
        proof {
            assert(both[i as int] == f@);
            reveal(Seq::filter);
            assert(both.take(i + 1).drop_last() =~= both.take(i as int));
            assert(both.take(i + 1).last() == f@);
        }
        let ghost before = files_view(r@);
        if !contains_u64(del, f.file_num) {
            r.push(clone_meta(f));
            proof {
                assert(files_view(r@) =~= before.push(f@));
            }
        }
        i = i + 1;
    }
    let mut j: usize = 0;
    while j < m
        invariant
            n == a@.len(),
            m == b@.len(),
            both == files_view(a@) + files_view(b@),
            forall|k: int| 0 <= k < b@.len() ==> (#[trigger] b@[k]).wf(),
            j <= m,
            files_view(r@) == keep(both.take(n + j), del@),
            forall|k: int| 0 <= k < r@.len() ==> (#[trigger] r@[k]).wf(),
        decreases m - j,
    {
        let f = &b[j];
        proof {
            assert(both[n + j] == f@);
            reveal(Seq::filter);
            assert(both.take(n + j + 1).drop_last() =~= both.take(n + j));
            assert(both.take(n + j + 1).last() == f@);
        }
        let ghost before = files_view(r@);
        if !contains_u64(del, f.file_num) {
            r.push(clone_meta(f));
            proof {
                assert(files_view(r@) =~= before.push(f@));
            }
        }
        j = j + 1;
    }
    proof {
        assert(both.take(n + j) =~= both);
    }
    r
}

/// The files and deleted numbers of level `l` after taking in `edit`.
fn level_after(files: &Vec<FileMetaData>, deleted: &Vec<u64>, edit: &VersionEdit, l: u64) -> (r: (Vec<FileMetaData>, Vec<u64>))
    requires
        forall|i: int| 0 <= i < files@.len() ==> (#[trigger] files@[i]).wf(),
        edit.wf(),
    ensures
        files_view(r.0@) == files_view(files@) + added_at(edit@, l as int),
        r.1@ == deleted@ + deleted_at(edit@, l as int),
        forall|i: int| 0 <= i < r.0@.len() ==> (#[trigger] r.0@[i]).wf(),
{
    let ghost e = edit@;
    let mut fs: Vec<FileMetaData> = Vec::new();
    let mut i: usize = 0;
    while i < files.len()
        invariant
            i <= files@.len(),
            forall|j: int| 0 <= j < files@.len() ==> (#[trigger] files@[j]).wf(),
            fs@.len() == i,
            files_view(fs@) == files_view(files@.take(i as int)),
            forall|j: int| 0 <= j < fs@.len() ==> (#[trigger] fs@[j]).wf(),
        decreases files@.len() - i,
    {
        let ghost old_fs = fs@;
        let c = clone_meta(&files[i]);
        fs.push(c);
        proof {
            assert forall|j: int| 0 <= j < fs@.len() implies files_view(fs@)[j] == files_view(files@.take(i + 1))[j] by {
                if j < i {
                    assert(fs@[j] == old_fs[j]);
                    assert(files_view(old_fs)[j] == files_view(files@.take(i as int))[j]);
                }
            }
            assert(files_view(fs@) =~= files_view(files@.take(i + 1)));
        }
        i = i + 1;
    }
    proof {
        assert(files@.take(i as int) =~= files@);
        reveal(Seq::filter);
        assert(e.files.take(0).filter(|f: FileSpec| f.level == l as int) =~= Seq::<FileSpec>::empty());
        assert(files_view(fs@) =~= files_view(files@) + e.files.take(0).filter(|f: FileSpec| f.level == l as int));
    }
    let mut i: usize = 0;
    while i < edit.files.len()
        invariant
            edit.wf(),
            e == edit@,
            i <= edit.files@.len(),
            files_view(fs@) == files_view(files@) + e.files.take(i as int).filter(|f: FileSpec| f.level == l as int),
            forall|j: int| 0 <= j < fs@.len() ==> (#[trigger] fs@[j]).wf(),
        decreases edit.files@.len() - i,
    {
        let ghost before = files_view(fs@);
        proof {
            assert(e.files[i as int] == edit.files@[i as int]@);
            assert(edit.files@[i as int].wf());
            reveal(Seq::filter);
            assert(e.files.take(i + 1).drop_last() =~= e.files.take(i as int));
        }
        if edit.files[i].level == l {
            fs.push(clone_meta(&edit.files[i]));
            proof {
                assert(files_view(fs@) =~= before.push(e.files[i as int]));
            }
        }
        i = i + 1;
    }
    proof {
        assert(e.files.take(i as int) =~= e.files);
    }
    let mut ds: Vec<u64> = vstd::slice::slice_to_vec(deleted.as_slice());
    let mut i: usize = 0;
    proof {
        reveal(Seq::filter);
        assert(e.deleted.take(0).filter(|f: FileSpec| f.level == l as int) =~= Seq::<FileSpec>::empty());
        assert(ds@ =~= deleted@ + e.deleted.take(0).filter(|f: FileSpec| f.level == l as int).map_values(|f: FileSpec| f.num));
    }
    while i < edit.deleted_files.len()
        invariant
            e == edit@,
            i <= edit.deleted_files@.len(),
            ds@ == deleted@ + e.deleted.take(i as int).filter(|f: FileSpec| f.level == l as int).map_values(|f: FileSpec| f.num),
        decreases edit.deleted_files@.len() - i,
    {
        let ghost before = ds@;
        proof {
            assert(e.deleted[i as int] == edit.deleted_files@[i as int]@);
            reveal(Seq::filter);
            assert(e.deleted.take(i + 1).drop_last() =~= e.deleted.take(i as int));
        }
        if edit.deleted_files[i].level == l {
            ds.push(edit.deleted_files[i].file_num);
            proof {
                assert(ds@ =~= deleted@ + e.deleted.take(i + 1).filter(|f: FileSpec| f.level == l as int).map_values(|f: FileSpec| f.num));
            }
        } else {
            proof {
                assert(ds@ =~= deleted@ + e.deleted.take(i + 1).filter(|f: FileSpec| f.level == l as int).map_values(|f: FileSpec| f.num));
            }
        }
        i = i + 1;
    }
    proof {
        assert(e.deleted.take(i as int) =~= e.deleted);
    }
    (fs, ds)
}

/// The smallest user key of a file.
pub open spec fn low_key(f: FileSpec) -> Seq<u8> {
    encoded_user_key(f.smallest)
}

/// The largest user key of a file.
pub open spec fn high_key(f: FileSpec) -> Seq<u8> {
    encoded_user_key(f.largest)
}

/// The file's user-key range meets `[lo, hi]`.
pub open spec fn overlaps(f: FileSpec, lo: Seq<u8>, hi: Seq<u8>) -> bool {
    !lex_lt(high_key(f), lo) && !lex_lt(hi, low_key(f))
}

/// The file's user-key range lies within `[lo, hi]`.
pub open spec fn inside(f: FileSpec, lo: Seq<u8>, hi: Seq<u8>) -> bool {
    lex_le(lo, low_key(f)) && lex_le(high_key(f), hi)
}

/// How many files lie within `[lo, hi]`.
pub open spec fn count_inside(fs: Seq<FileSpec>, lo: Seq<u8>, hi: Seq<u8>) -> nat
    decreases fs.len(),
{
    if fs.len() == 0 {
        0
    } else {
        count_inside(fs.drop_last(), lo, hi) + if inside(fs.last(), lo, hi) { 1nat } else { 0nat }
    }
}

proof fn lemma_count_grows(fs: Seq<FileSpec>, lo: Seq<u8>, hi: Seq<u8>, lo2: Seq<u8>, hi2: Seq<u8>, k: int)
    requires
        forall|i: int| 0 <= i < fs.len() && inside(#[trigger] fs[i], lo, hi) ==> inside(fs[i], lo2, hi2),
    ensures
        count_inside(fs, lo, hi) <= count_inside(fs, lo2, hi2),
        0 <= k < fs.len() && !inside(fs[k], lo, hi) && inside(fs[k], lo2, hi2) ==> count_inside(fs, lo, hi)
            < count_inside(fs, lo2, hi2),
        count_inside(fs, lo2, hi2) <= fs.len(),
    decreases fs.len(),
{
    if fs.len() > 0 {
        let d = fs.drop_last();
        assert forall|i: int| 0 <= i < d.len() && inside(#[trigger] d[i], lo, hi) implies inside(d[i], lo2, hi2) by {
            assert(d[i] == fs[i]);
        }
        if 0 <= k < fs.len() - 1 {
            assert(d[k] == fs[k]);
        }
        lemma_count_grows(d, lo, hi, lo2, hi2, k);
        assert(fs.last() == fs[fs.len() - 1]);
    }
}

proof fn lemma_max_below(fs: Seq<FileSpec>, u: Seq<u8>, below: int)
    ensures
        max_below(fs, u, below).is_some() ==> 0 <= max_below(fs, u, below).unwrap() < below,
    decreases fs.len(),
{
    if fs.len() > 0 {
        lemma_max_below(fs.drop_last(), u, below);
    }
}

proof fn lemma_ukeys(f: &FileMetaData)
    requires
        f.wf(),
    ensures
        low_key(f@) == f.smallest.spec_user_key(),
        high_key(f@) == f.largest.spec_user_key(),
{
    lemma_encoded_parts(f.smallest.spec_user_key(), f.smallest.spec_seq(), f.smallest.spec_kind());
    lemma_encoded_parts(f.largest.spec_user_key(), f.largest.spec_seq(), f.largest.spec_kind());
}

/// Whether `a` sorts strictly before `b`.
fn bytes_lt(a: &[u8], b: &[u8]) -> (r: bool)
    ensures
        r == lex_lt(a@, b@),
{
    match compare_bytes(a, b) {
        Ordering::Less => true,
        _ => false,
    }
}

/// No file meets `[a, b]` without lying within it.
pub open spec fn closed_range(fs: Seq<FileSpec>, a: Seq<u8>, b: Seq<u8>) -> bool {
    forall|i: int| 0 <= i < fs.len() && overlaps(#[trigger] fs[i], a, b) ==> inside(fs[i], a, b)
}

/// `[lo, hi]` lies within every range that holds `[left, right]` and that
/// no file sticks out of.
pub open spec fn least_range(fs: Seq<FileSpec>, left: Seq<u8>, right: Seq<u8>, lo: Seq<u8>, hi: Seq<u8>) -> bool {
    forall|a: Seq<u8>, b: Seq<u8>|
        #[trigger] closed_range(fs, a, b) && lex_le(a, left) && lex_le(right, b) ==> lex_le(a, lo) && lex_le(hi, b)
}

/// `found` is what a search of `level` for `[left, right]` returns when the
/// range it ends with is `[lo, hi]`: the files of the level that meet it, in
/// order. Above level 0 the range is `[left, right]`; at level 0 it holds
/// `[left, right]` and every file that meets it lies within it.
pub open spec fn overlap_answer(
    v: Seq<Seq<FileSpec>>,
    level: int,
    left: Seq<u8>,
    right: Seq<u8>,
    found: Seq<FileSpec>,
    lo: Seq<u8>,
    hi: Seq<u8>,
) -> bool {
    &&& found == v[level].filter(|f: FileSpec| overlaps(f, lo, hi))
    &&& level > 0 ==> lo == left && hi == right
    &&& level == 0 ==> lex_le(lo, left) && lex_le(right, hi) && forall|i: int|
        0 <= i < v[0].len() && overlaps(#[trigger] v[0][i], lo, hi) ==> inside(v[0][i], lo, hi)
    &&& level == 0 ==> least_range(v[0], left, right, lo, hi)
}

/// Whether the file's user-key range holds `u`.
fn file_holds(f: &FileMetaData, u: &[u8]) -> (r: bool)
    requires
        f.wf(),
    ensures
        r == holds_key(f@, u@),
{
    proof {
        lemma_ukeys(f);
        lemma_lex_cmp_antisym(f.smallest.spec_user_key(), u@);
        lemma_lex_cmp_antisym(u@, f.smallest.spec_user_key());
        lemma_lex_cmp_antisym(u@, f.largest.spec_user_key());
        lemma_lex_cmp_antisym(f.largest.spec_user_key(), u@);
    }
    !bytes_lt(u, f.smallest.user_key_ref()) && !bytes_lt(f.largest.user_key_ref(), u)
}

impl Version {
    /// The numbers of the files a lookup of `u` probes, in order.
    pub fn probe_order(&self, u: &[u8]) -> (r: Vec<u64>)
        requires
            self.wf(),
        ensures
            r@ == probe_order(self.view(), u@),
    {
        let fs0 = &self.files[0];
        let ghost v0 = files_view(fs0@);
        let mut r: Vec<u64> = Vec::new();
        let mut below: u128 = u64::MAX as u128 + 1;
        proof {
            assert(r@ + newest_first(v0, u@, below as int) =~= newest_first(v0, u@, u64::MAX as int + 1));
        }
        loop
            invariant
                self.wf(),
                fs0 == &self.files@[0],
                v0 == files_view(fs0@),
                v0 == self.view()[0],
                below <= u64::MAX as u128 + 1,
                r@ + newest_first(v0, u@, below as int) == newest_first(v0, u@, u64::MAX as int + 1),
            ensures
                r@ == newest_first(v0, u@, u64::MAX as int + 1),
            decreases below,
        {
            let mut best: Option<u64> = None;
            let mut i: usize = 0;
            proof {
                assert(v0.take(0) =~= Seq::<FileSpec>::empty());
            }
            while i < fs0.len()
                invariant
                    self.wf(),
                    fs0 == &self.files@[0],
                    v0 == files_view(fs0@),
                    i <= fs0@.len(),
                    best == max_below(v0.take(i as int), u@, below as int),
                decreases fs0@.len() - i,
            {
                let f = &fs0[i];
                proof {
                    assert(f.wf());
                    assert(v0[i as int] == f@);
                    assert(v0.take(i + 1).drop_last() =~= v0.take(i as int));
                    assert(v0.take(i + 1).last() == f@);
                }
                if file_holds(f, u) && (f.file_num as u128) < below {
                    best = match best {
                        Some(m) => Some(if m >= f.file_num { m } else { f.file_num }),
                        None => Some(f.file_num),
                    };
                }
                i = i + 1;
            }
            proof {
                assert(v0.take(i as int) =~= v0);
                lemma_max_below(v0, u@, below as int);
            }
            match best {
                None => {
                    proof {
                        assert(newest_first(v0, u@, below as int) =~= Seq::<u64>::empty());
                        assert(r@ + Seq::<u64>::empty() =~= r@);
                    }
                    break;
                },
                Some(m) => {
                    proof {
                        assert(r@.push(m) + newest_first(v0, u@, m as int) =~= r@ + newest_first(v0, u@, below as int));
                    }
                    r.push(m);
                    below = m as u128;
                },
            }
        }
        let mut l: usize = 1;
        let ghost head = r@;
        proof {
            assert(r@ + deeper_candidates(self.view(), u@, 1) == head + deeper_candidates(self.view(), u@, l as int));
        }
        while l < LEVEL
            invariant
                self.wf(),
                1 <= l <= LEVEL,
                head == newest_first(self.view()[0], u@, u64::MAX as int + 1),
                head + deeper_candidates(self.view(), u@, 1) == r@ + deeper_candidates(self.view(), u@, l as int),
            decreases LEVEL - l,
        {
            let fs = &self.files[l];
            let ghost vl = files_view(fs@);
            let ghost before = r@;
            let mut i: usize = 0;
            proof {
                reveal(Seq::filter);
                assert(vl.take(0).filter(|f: FileSpec| holds_key(f, u@)).map_values(|f: FileSpec| f.num) =~= Seq::<u64>::empty());
                assert(before + Seq::<u64>::empty() =~= before);
            }
            while i < fs.len()
                invariant
                    self.wf(),
                    l < LEVEL,
                    fs == &self.files@[l as int],
                    vl == files_view(fs@),
                    i <= fs@.len(),
                    r@ == before + vl.take(i as int).filter(|f: FileSpec| holds_key(f, u@)).map_values(|f: FileSpec| f.num),
                decreases fs@.len() - i,
            {
                let f = &fs[i];
                proof {
                    assert(f.wf());
                    assert(vl[i as int] == f@);
                    reveal(Seq::filter);
                    assert(vl.take(i + 1).drop_last() =~= vl.take(i as int));
                    assert(vl.take(i + 1).last() == f@);
                }
                let ghost prev = r@;
                if file_holds(f, u) {
                    r.push(f.file_num);
                    proof {
                        assert(r@ =~= before + vl.take(i + 1).filter(|g: FileSpec| holds_key(g, u@)).map_values(|g: FileSpec| g.num));
                    }
                } else {
                    proof {
                        assert(r@ =~= before + vl.take(i + 1).filter(|g: FileSpec| holds_key(g, u@)).map_values(|g: FileSpec| g.num));
                    }
                }
                i = i + 1;
            }
            proof {
                assert(vl.take(i as int) =~= vl);
                assert(vl == self.view()[l as int]);
                let lv = vl.filter(|f: FileSpec| holds_key(f, u@)).map_values(|f: FileSpec| f.num);
                assert(deeper_candidates(self.view(), u@, l as int) == lv + deeper_candidates(self.view(), u@, l + 1));
                assert(before + (lv + deeper_candidates(self.view(), u@, l + 1)) =~= (before + lv) + deeper_candidates(self.view(), u@, l + 1));
            }
            l = l + 1;
        }
        proof {
            assert(deeper_candidates(self.view(), u@, LEVEL as int) =~= Seq::<u64>::empty());
            assert(r@ + Seq::<u64>::empty() =~= r@);
        }
        r
    }

    /// Looks `user_key` up in the tables, as of sequence `snapshot`: probes
    /// the files in `probe_order` through `cache` and stops at the first
    /// whose first entry at or after the lookup key is for `user_key` (its
    /// value, or a tombstone) or that cannot be read. `InvalidArgument`
    /// when a file to probe is not in the cache.
    pub fn get(&self, user_key: &[u8], snapshot: u64, cache: &TableCache) -> (r: Result<Option<LookupResult>, ErrorKind>)
        requires
            self.wf(),
            user_key@.len() <= u32::MAX - 12,
            snapshot <= MAX_SEQUENCE,
        ensures
            ({
                let lookup = crate::ikey::encode_ikey(user_key@, snapshot, crate::ikey::KeyKind::Delete);
                match first_probe(*cache, probe_order(self.view(), user_key@), lookup, user_key@) {
                    Ok(None) => r == Ok::<Option<LookupResult>, ErrorKind>(None),
                    Ok(Some(o)) => r.is_ok() && r.unwrap().is_some() && crate::memdb::lookup_view(r.unwrap().unwrap()) == o,
                    Err(e) => r == Err::<Option<LookupResult>, ErrorKind>(e),
                }
            }),
    {
        let order = self.probe_order(user_key);
        let lookup = crate::ikey::make_key(user_key, snapshot, crate::ikey::KeyKind::Delete);
        let ghost full = order@;
        let mut i: usize = 0;
        proof {
            assert(order@.skip(0) =~= order@);
        }
        while i < order.len()
            invariant
                i <= order@.len(),
                full == order@,
                full == probe_order(self.view(), user_key@),
                lookup@ == crate::ikey::encode_ikey(user_key@, snapshot, crate::ikey::KeyKind::Delete),
                first_probe(*cache, full, lookup@, user_key@) == first_probe(*cache, full.skip(i as int), lookup@, user_key@),
            decreases order@.len() - i,
        {
            proof {
                assert(full.skip(i as int)[0] == order@[i as int]);
                assert(full.skip(i as int).drop_first() =~= full.skip(i + 1));
            }
            match cache.get_entry(lookup.as_slice(), order[i]) {
                Err(e) => {
                    return Err(e);
                },
                Ok(None) => {},
                Ok(Some((k, v))) => {
                    if k.len() >= 12 {
                        let uk = crate::comparator::extract_user_key(k.as_slice());
                        if crate::filename::bytes_eq(uk.as_slice(), user_key) {
                            let t = crate::comparator::extract_trailer(k.as_slice());
                            if t % 256 == 0 {
                                return Ok(Some(LookupResult::Value(v)));
                            } else {
                                return Ok(Some(LookupResult::Deleted));
                            }
                        }
                    }
                },
            }
            i = i + 1;
        }
        proof {
            assert(full.skip(i as int) =~= Seq::<u64>::empty());
        }
        Ok(None)
    }

    /// The files of `level` whose user-key range meets `[left, right]`, in
    /// order. At level 0, where files overlap, the range first widens to
    /// take in every file that meets it, until no file that meets it sticks
    /// out. An empty list for a level that does not exist.
    pub fn get_overlapping_inputs(&self, level: usize, left: &[u8], right: &[u8]) -> (r: Vec<FileMetaData>)
        requires
            self.wf(),
        ensures
            level >= LEVEL ==> r@.len() == 0,
            level < LEVEL ==> exists|lo: Seq<u8>, hi: Seq<u8>|
                #[trigger] overlap_answer(self.view(), level as int, left@, right@, files_view(r@), lo, hi),
    {
        if level >= LEVEL {
            return Vec::new();
        }
        let files = &self.files[level];
        let ghost fs = files_view(files@);
        let mut lo = vstd::slice::slice_to_vec(left);
        let mut hi = vstd::slice::slice_to_vec(right);
        proof {
            lemma_lex_cmp_equal(left@, left@);
            lemma_lex_cmp_equal(right@, right@);
        }
        proof {
            lemma_count_grows(fs, lo@, hi@, lo@, hi@, -1);
        }
        if level == 0 {
            loop
                invariant
                    self.wf(),
                    level == 0,
                    files == &self.files@[0],
                    fs == files_view(files@),
                    lex_le(lo@, left@),
                    lex_le(right@, hi@),
                    count_inside(fs, lo@, hi@) <= fs.len(),
                    least_range(fs, left@, right@, lo@, hi@),
                ensures
                    lex_le(lo@, left@),
                    lex_le(right@, hi@),
                    least_range(fs, left@, right@, lo@, hi@),
                    forall|i: int| 0 <= i < fs.len() && overlaps(#[trigger] fs[i], lo@, hi@) ==> inside(fs[i], lo@, hi@),
                decreases fs.len() - count_inside(fs, lo@, hi@),
            {
                let mut k: usize = 0;
                let mut found = false;
                while k < files.len()
                    invariant_except_break
                        !found,
                    invariant
                        self.wf(),
                        files == &self.files@[0],
                        fs == files_view(files@),
                        k <= files@.len(),
                        forall|i: int| 0 <= i < k && overlaps(#[trigger] fs[i], lo@, hi@) ==> inside(fs[i], lo@, hi@),
                    ensures
                        k <= files@.len(),
                        found ==> k < files@.len() && overlaps(fs[k as int], lo@, hi@) && !inside(fs[k as int], lo@, hi@),
                        !found ==> forall|i: int| 0 <= i < fs.len() && overlaps(#[trigger] fs[i], lo@, hi@) ==> inside(fs[i], lo@, hi@),
                    decreases files@.len() - k,
                {
                    let f = &files[k];
                    proof {
                        assert(f.wf());
                        lemma_ukeys(f);
                        assert(fs[k as int] == f@);
                    }
                    let s_key = f.smallest.user_key_ref();
                    let l_key = f.largest.user_key_ref();
                    let meets = !bytes_lt(l_key, lo.as_slice()) && !bytes_lt(hi.as_slice(), s_key);
                    let within = !bytes_lt(s_key, lo.as_slice()) && !bytes_lt(hi.as_slice(), l_key);
                    proof {
                        lemma_lex_cmp_antisym(s_key@, lo@);
                        lemma_lex_cmp_antisym(lo@, s_key@);
                        lemma_lex_cmp_antisym(l_key@, hi@);
                        lemma_lex_cmp_antisym(hi@, l_key@);
                    }
                    if meets && !within {
                        found = true;
                        break;
                    }
                    k = k + 1;
                }
                if !found {
                    break;
                }
                let f = &files[k];
                let ghost old_lo = lo@;
                let ghost old_hi = hi@;
                proof {
                    assert(f.wf());
                    lemma_ukeys(f);
                    assert(fs[k as int] == f@);
                }
                if bytes_lt(f.smallest.user_key_ref(), lo.as_slice()) {
                    lo = f.smallest.user_key();
                }
                if bytes_lt(hi.as_slice(), f.largest.user_key_ref()) {
                    hi = f.largest.user_key();
                }
                proof {
                    let s_key = f.smallest.spec_user_key();
                    let l_key = f.largest.spec_user_key();
                    lemma_lex_cmp_equal(lo@, lo@);
                    lemma_lex_cmp_equal(hi@, hi@);
                    lemma_lex_cmp_equal(s_key, old_lo);
                    lemma_lex_cmp_equal(old_hi, l_key);
                    lemma_lex_cmp_antisym(s_key, old_lo);
                    lemma_lex_cmp_antisym(old_lo, s_key);
                    lemma_lex_cmp_antisym(l_key, old_hi);
                    lemma_lex_cmp_antisym(old_hi, l_key);
                    // the new range holds the old one and the file
                    assert(lex_le(lo@, old_lo));
                    assert(lex_le(old_hi, hi@));
                    assert(lex_le(lo@, s_key));
                    assert(lex_le(l_key, hi@));
                    crate::comparator::lemma_lex_le_trans(lo@, old_lo, left@);
                    crate::comparator::lemma_lex_le_trans(right@, old_hi, hi@);
                    assert forall|i: int| 0 <= i < fs.len() && inside(#[trigger] fs[i], old_lo, old_hi) implies inside(fs[i], lo@, hi@) by {
                        crate::comparator::lemma_lex_le_trans(lo@, old_lo, low_key(fs[i]));
                        crate::comparator::lemma_lex_le_trans(high_key(fs[i]), old_hi, hi@);
                    }
                    lemma_count_grows(fs, old_lo, old_hi, lo@, hi@, k as int);
                    let f = fs[k as int];
                    assert forall|a: Seq<u8>, b: Seq<u8>|
                        #[trigger] closed_range(fs, a, b) && lex_le(a, left@) && lex_le(right@, b) implies lex_le(a, lo@)
                            && lex_le(hi@, b) by {
                        assert(lex_le(a, old_lo) && lex_le(old_hi, b));
                        lemma_lex_cmp_antisym(high_key(f), a);
                        lemma_lex_cmp_antisym(a, high_key(f));
                        lemma_lex_cmp_antisym(b, low_key(f));
                        lemma_lex_cmp_antisym(low_key(f), b);
                        if lex_lt(high_key(f), a) {
                            crate::comparator::lemma_key_trans(crate::comparator::KeyOrder::Bytewise, high_key(f), a, old_lo);
                        }
                        if lex_lt(b, low_key(f)) {
                            crate::comparator::lemma_key_trans(crate::comparator::KeyOrder::Bytewise, old_hi, b, low_key(f));
                        }
                        assert(overlaps(f, a, b));
                        assert(inside(f, a, b));
                        lemma_lex_cmp_equal(lo@, old_lo);
                        lemma_lex_cmp_equal(hi@, old_hi);
                    }
                }
            }
        }
        let mut r: Vec<FileMetaData> = Vec::new();
        let mut i: usize = 0;
        proof {
            reveal(Seq::filter);
            assert(fs.take(0).filter(|f: FileSpec| overlaps(f, lo@, hi@)) =~= Seq::<FileSpec>::empty());
            assert(files_view(r@) =~= Seq::<FileSpec>::empty());
        }
        while i < files.len()
            invariant
                self.wf(),
                level < LEVEL,
                files == &self.files@[level as int],
                fs == files_view(files@),
                i <= files@.len(),
                files_view(r@) == fs.take(i as int).filter(|f: FileSpec| overlaps(f, lo@, hi@)),
                forall|j: int| 0 <= j < r@.len() ==> (#[trigger] r@[j]).wf(),
                level > 0 ==> lo@ == left@ && hi@ == right@,
                level == 0 ==> lex_le(lo@, left@) && lex_le(right@, hi@) && forall|j: int|
                    0 <= j < fs.len() && overlaps(#[trigger] fs[j], lo@, hi@) ==> inside(fs[j], lo@, hi@),
                level == 0 ==> least_range(fs, left@, right@, lo@, hi@),
            decreases files@.len() - i,
        {
            let f = &files[i];
            proof {
                assert(f.wf());
                lemma_ukeys(f);
                assert(fs[i as int] == f@);
                reveal(Seq::filter);
                assert(fs.take(i + 1).drop_last() =~= fs.take(i as int));
                assert(fs.take(i + 1).last() == f@);
            }
            let ghost before = files_view(r@);
            if !bytes_lt(f.largest.user_key_ref(), lo.as_slice()) && !bytes_lt(hi.as_slice(), f.smallest.user_key_ref()) {
                r.push(crate::metadata::clone_meta(f));
                proof {
                    assert(files_view(r@) =~= before.push(f@));
                }
            }
            i = i + 1;
        }
        proof {
            assert(fs.take(i as int) =~= fs);
            assert(fs == self.view()[level as int]);
            let l = lo@;
            let h = hi@;
            assert(files_view(r@) == self.view()[level as int].filter(|f: FileSpec| overlaps(f, l, h)));
            assert(level > 0 ==> l == left@ && h == right@);
            assert(level == 0 ==> lex_le(l, left@) && lex_le(right@, h) && forall|j: int|
                0 <= j < self.view()[0].len() && overlaps(#[trigger] self.view()[0][j], l, h) ==> inside(
                    self.view()[0][j],
                    l,
                    h,
                ));
            assert(level == 0 ==> least_range(self.view()[0], left@, right@, l, h));
            assert(overlap_answer(self.view(), level as int, left@, right@, files_view(r@), l, h));
        }
        r
    }
}

/// The file's user-key range holds `u`.
pub open spec fn holds_key(f: FileSpec, u: Seq<u8>) -> bool {
    lex_le(low_key(f), u) && lex_le(u, high_key(f))
}

/// The largest number below `below` of a file of `fs` that holds `u`.
pub open spec fn max_below(fs: Seq<FileSpec>, u: Seq<u8>, below: int) -> Option<u64>
    decreases fs.len(),
{
    if fs.len() == 0 {
        None
    } else {
        let r = max_below(fs.drop_last(), u, below);
        let f = fs.last();
        if holds_key(f, u) && f.num < below {
            match r {
                Some(m) => Some(if m >= f.num { m } else { f.num }),
                None => Some(f.num),
            }
        } else {
            r
        }
    }
}

/// The numbers of the level-0 files that hold `u`, newest (largest) first,
/// all below `below`.
pub open spec fn newest_first(fs: Seq<FileSpec>, u: Seq<u8>, below: int) -> Seq<u64>
    decreases below,
{
    match max_below(fs, u, below) {
        Some(m) => if 0 <= m < below {
            seq![m] + newest_first(fs, u, m as int)
        } else {
            Seq::empty()
        },
        None => Seq::empty(),
    }
}

/// The numbers of the files of levels `l..` that hold `u`, level by level.
pub open spec fn deeper_candidates(v: Seq<Seq<FileSpec>>, u: Seq<u8>, l: int) -> Seq<u64>
    decreases LEVEL - l,
{
    if l >= LEVEL || l < 1 {
        Seq::empty()
    } else {
        v[l].filter(|f: FileSpec| holds_key(f, u)).map_values(|f: FileSpec| f.num) + deeper_candidates(v, u, l + 1)
    }
}

/// The files a lookup of `u` probes, in order: level 0 newest first, then
/// each deeper level.
pub open spec fn probe_order(v: Seq<Seq<FileSpec>>, u: Seq<u8>) -> Seq<u64> {
    newest_first(v[0], u, u64::MAX as int + 1) + deeper_candidates(v, u, 1)
}

/// What probing table `num` for `lookup` says of user key `u`: nothing,
/// a value (`Some(Some(v))`), a tombstone (`Some(None)`), or an error.
pub open spec fn probe_file(cache: TableCache, num: u64, lookup: Seq<u8>, u: Seq<u8>) -> Result<Option<Option<Seq<u8>>>, ErrorKind> {
    match slot_of(cache.spec_nums(), num) {
        None => Err(ErrorKind::InvalidArgument),
        Some(i) => match table_get_entry_spec(
            cache.spec_table(i).spec_order(),
            cache.spec_table(i).spec_file(),
            cache.spec_table(i).spec_index(),
            lookup,
        ) {
            Err(e) => Err(e),
            Ok(None) => Ok(None),
            Ok(Some(e)) => if e.0.len() >= 12 && encoded_user_key(e.0) == u {
                Ok(Some(if encoded_trailer(e.0) % 256 == 0 { Some(e.1) } else { None }))
            } else {
                Ok(None)
            },
        },
    }
}

/// The first probe, in `order`, that finds `u` or fails.
pub open spec fn first_probe(cache: TableCache, order: Seq<u64>, lookup: Seq<u8>, u: Seq<u8>) -> Result<Option<Option<Seq<u8>>>, ErrorKind>
    decreases order.len(),
{
    if order.len() == 0 {
        Ok(None)
    } else {
        match probe_file(cache, order[0], lookup, u) {
            Ok(None) => first_probe(cache, order.drop_first(), lookup, u),
            other => other,
        }
    }
}

/// `LEVEL` empty levels.
fn empty_levels() -> (r: Vec<Vec<FileMetaData>>)
    ensures
        r@.len() == LEVEL,
        forall|l: int| 0 <= l < LEVEL ==> (#[trigger] r@[l])@.len() == 0,
{
    let mut r: Vec<Vec<FileMetaData>> = Vec::new();
    let mut i: usize = 0;
    while i < LEVEL
        invariant
            i <= LEVEL,
            r@.len() == i,
            forall|l: int| 0 <= l < i ==> (#[trigger] r@[l])@.len() == 0,
        decreases LEVEL - i,
    {
        r.push(Vec::new());
        i = i + 1;
    }
    r
}

} // verus!
