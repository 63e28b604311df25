//! Opened tables, kept by file number.
use crate::error::ErrorKind;
use crate::filename::{name_spec, FileKind, FileType, NameSpec};
use crate::table::{table_get_entry_spec, table_get_spec, Table};
use vstd::prelude::*;

verus! {

/// An opened table and the size of its file.
pub struct TableAndFile {
    pub table: Table,
    pub size: u64,
}

/// How many tables a cache holds unless told otherwise.
pub const DEFAULT_TABLE_CACHE_SIZE: usize = 1000;

/// Tables opened so far, by file number, least recently used first; the
/// caller opens the files. Past its capacity the least recently used table
/// is let go.
pub struct TableCache {
    cache: Vec<(u64, TableAndFile)>,
    db_name: Vec<u8>,
    capacity: usize,
}

/// The position of the first entry for `num`, if any.
pub open spec fn slot_of(nums: Seq<u64>, num: u64) -> Option<int>
    decreases nums.len(),
{
    if nums.len() == 0 {
        None
    } else if nums.last() == num {
        match slot_of(nums.drop_last(), num) {
            Some(i) => Some(i),
            None => Some(nums.len() - 1),
        }
    } else {
        slot_of(nums.drop_last(), num)
    }
}

impl TableCache {
    /// The file numbers held, in the order they came in.
    pub closed spec fn spec_nums(&self) -> Seq<u64> {
        Seq::new(self.cache@.len(), |i: int| self.cache@[i].0)
    }

    /// The table held for slot `i`.
    pub closed spec fn spec_table(&self, i: int) -> Table {
        self.cache@[i].1.table
    }

    pub closed spec fn spec_db_name(&self) -> Seq<u8> {
        self.db_name@
    }

    /// The numbers and tables held, least recently used first.
    pub closed spec fn spec_entries(&self) -> Seq<(u64, Table)> {
        Seq::new(self.cache@.len(), |i: int| (self.cache@[i].0, self.cache@[i].1.table))
    }

    /// How many tables the cache holds at most.
    pub closed spec fn spec_capacity(&self) -> int {
        self.capacity as int
    }

    pub closed spec fn wf(&self) -> bool {
        1 <= self.capacity && self.cache@.len() <= self.capacity
    }

    /// An empty cache of `DEFAULT_TABLE_CACHE_SIZE` tables for the store in
    /// directory `name`.
    pub fn new(name: &[u8]) -> (r: TableCache)
        ensures
            r.wf(),
            r.spec_nums() == Seq::<u64>::empty(),
            r.spec_entries() == Seq::<(u64, Table)>::empty(),
            r.spec_db_name() == name@,
            r.spec_capacity() == DEFAULT_TABLE_CACHE_SIZE,
    {
        TableCache::with_capacity(name, DEFAULT_TABLE_CACHE_SIZE)
    }

    /// An empty cache of `capacity` tables for the store in directory `name`.
    pub fn with_capacity(name: &[u8], capacity: usize) -> (r: TableCache)
        requires
            capacity >= 1,
        ensures
            r.wf(),
            r.spec_nums() == Seq::<u64>::empty(),
            r.spec_entries() == Seq::<(u64, Table)>::empty(),
            r.spec_db_name() == name@,
            r.spec_capacity() == capacity,
    {
        let r = TableCache { cache: Vec::new(), db_name: vstd::slice::slice_to_vec(name), capacity };
        proof {
            assert(r.spec_nums() =~= Seq::<u64>::empty());
            assert(r.spec_entries() =~= Seq::<(u64, Table)>::empty());
        }
        r
    }

    /// The name of the file that holds table `file_number`.
    pub fn file_name(&self, file_number: u64) -> (r: Vec<u8>)
        ensures
            r@ == name_spec(NameSpec { kind: FileKind::Table, dir: self.spec_db_name(), num: file_number }),
    {
        let t = FileType::Table(vstd::slice::slice_to_vec(self.db_name.as_slice()), file_number);
        t.filename()
    }

    /// The slot of table `file_number`, if it is held.
    fn find_slot(&self, file_number: u64) -> (r: Option<usize>)
        ensures
            r.is_some() ==> slot_of(self.spec_nums(), file_number) == Some(r.unwrap() as int),
            r.is_none() ==> slot_of(self.spec_nums(), file_number).is_none(),
            r.is_some() ==> r.unwrap() < self.cache@.len(),
    {
        let mut i: usize = 0;
        while i < self.cache.len()
            invariant
                i <= self.cache@.len(),
                forall|j: int| 0 <= j < i ==> self.spec_nums()[j] != file_number,
            decreases self.cache@.len() - i,
        {
            if self.cache[i].0 == file_number {
                proof {
                    lemma_slot_first(self.spec_nums(), file_number, i as int);
                }
                return Some(i);
            }
            i = i + 1;
        }
        proof {
            lemma_slot_none(self.spec_nums(), file_number);
        }
        None
    }

    /// The table of `file_number`, if it is held.
    pub fn find_table(&self, file_number: u64) -> (r: Option<&Table>)
        ensures
            match slot_of(self.spec_nums(), file_number) {
                Some(i) => r.is_some() && *r.unwrap() == self.spec_table(i),
                None => r.is_none(),
            },
    {
        match self.find_slot(file_number) {
            Some(i) => Some(&self.cache[i].1.table),
            None => None,
        }
    }

    /// Marks table `file_number` as the most recently used; `false` (and no
    /// change) when it is not held.
    pub fn touch(&mut self, file_number: u64) -> (r: bool)
        requires
            old(self).wf(),
        ensures
            final(self).wf(),
            final(self).spec_capacity() == old(self).spec_capacity(),
            final(self).spec_db_name() == old(self).spec_db_name(),
            match slot_of(old(self).spec_nums(), file_number) {
                Some(i) => r && final(self).spec_entries() == old(self).spec_entries().remove(i).push(
                    old(self).spec_entries()[i],
                ),
                None => !r && final(self).spec_entries() == old(self).spec_entries(),
            },
    {
        let ghost e = self.spec_entries();
        match self.find_slot(file_number) {
            Some(i) => {
                let entry = self.cache.remove(i);
                self.cache.push(entry);
                proof {
                    assert(self.spec_entries() =~= e.remove(i as int).push(e[i as int]));
                }
                true
            },
            None => false,
        }
    }

    /// Uses table `file_number`: the one held, if any, else `table`, which
    /// is kept, letting go of the least recently used table when the cache
    /// is full. The table used becomes the most recently used.
    pub fn find_or_insert(&mut self, file_number: u64, size: u64, table: Table) -> (r: &Table)
        requires
            old(self).wf(),
        ensures
            final(self).wf(),
            final(self).spec_capacity() == old(self).spec_capacity(),
            final(self).spec_db_name() == old(self).spec_db_name(),
            match slot_of(old(self).spec_nums(), file_number) {
                Some(i) => final(self).spec_entries() == old(self).spec_entries().remove(i).push(
                    old(self).spec_entries()[i],
                ) && *r == old(self).spec_entries()[i].1,
                None => final(self).spec_entries() == (if old(self).spec_entries().len() == old(self).spec_capacity() {
                    old(self).spec_entries().drop_first()
                } else {
                    old(self).spec_entries()
                }).push((file_number, table)) && *r == table,
            },
            final(self).spec_nums().last() == file_number,
    {
        let ghost e = self.spec_entries();
        match self.find_slot(file_number) {
            Some(i) => {
                let entry = self.cache.remove(i);
                self.cache.push(entry);
                proof {
                    assert(self.spec_entries() =~= e.remove(i as int).push(e[i as int]));
                    lemma_slot_found(old(self).spec_nums(), file_number);
                    assert(old(self).spec_nums()[i as int] == e[i as int].0);
                }
            },
            None => {
                if self.cache.len() == self.capacity {
                    let _evicted = self.cache.remove(0);
                }
                self.cache.push((file_number, TableAndFile { table, size }));
                proof {
                    if e.len() == self.capacity {
                        assert(self.spec_entries() =~= e.drop_first().push((file_number, table)));
                    } else {
                        assert(self.spec_entries() =~= e.push((file_number, table)));
                    }
                }
            },
        }
        let n = self.cache.len() - 1;
        &self.cache[n].1.table
    }

    /// Looks `key` up in table `file_number`; `InvalidArgument` when that
    /// table is not held.
    pub fn get(&self, key: &[u8], file_number: u64) -> (r: Result<Option<Vec<u8>>, ErrorKind>)
        ensures
            match slot_of(self.spec_nums(), file_number) {
                None => r == Err::<Option<Vec<u8>>, ErrorKind>(ErrorKind::InvalidArgument),
                Some(i) => match table_get_spec(
                    self.spec_table(i).spec_order(),
                    self.spec_table(i).spec_file(), self.spec_table(i).spec_index(), key@) {
                    Ok(Some(v)) => r.is_ok() && r.unwrap().is_some() && r.unwrap().unwrap()@ == v,
                    Ok(None) => r.is_ok() && r.unwrap().is_none(),
                    Err(e) => r == Err::<Option<Vec<u8>>, ErrorKind>(e),
                },
            },
    {
        match self.find_table(file_number) {
            Some(t) => t.get(key),
            None => Err(ErrorKind::InvalidArgument),
        }
    }
}

impl TableCache {
    /// Like `get`, but gives the entry found, key and value.
    pub fn get_entry(&self, key: &[u8], file_number: u64) -> (r: Result<Option<(Vec<u8>, Vec<u8>)>, ErrorKind>)
        ensures
            match slot_of(self.spec_nums(), file_number) {
                None => r == Err::<Option<(Vec<u8>, Vec<u8>)>, ErrorKind>(ErrorKind::InvalidArgument),
                Some(i) => match table_get_entry_spec(
                    self.spec_table(i).spec_order(),
                    self.spec_table(i).spec_file(),
                    self.spec_table(i).spec_index(),
                    key@,
                ) {
                    Ok(Some(e)) => r.is_ok() && r.unwrap().is_some() && (r.unwrap().unwrap().0@, r.unwrap().unwrap().1@) == e,
                    Ok(None) => r.is_ok() && r.unwrap().is_none(),
                    Err(e) => r == Err::<Option<(Vec<u8>, Vec<u8>)>, ErrorKind>(e),
                },
            },
    {
        match self.find_table(file_number) {
            Some(t) => t.get_entry(key),
            None => Err(ErrorKind::InvalidArgument),
        }
    }
}

proof fn lemma_slot_first(nums: Seq<u64>, num: u64, i: int)
    requires
        0 <= i < nums.len(),
        nums[i] == num,
        forall|j: int| 0 <= j < i ==> nums[j] != num,
    ensures
        slot_of(nums, num) == Some(i),
    decreases nums.len(),
{
    if i < nums.len() - 1 {
        let d = nums.drop_last();
        lemma_slot_first(d, num, i);
    } else {
        lemma_slot_none(nums.drop_last(), num);
    }
}

proof fn lemma_slot_found(nums: Seq<u64>, num: u64)
    ensures
        slot_of(nums, num).is_some() ==> 0 <= slot_of(nums, num).unwrap() < nums.len() && nums[slot_of(
            nums,
            num,
        ).unwrap()] == num,
    decreases nums.len(),
{
    if nums.len() > 0 {
        lemma_slot_found(nums.drop_last(), num);
    }
}

proof fn lemma_slot_none(nums: Seq<u64>, num: u64)
    requires
        forall|j: int| 0 <= j < nums.len() ==> nums[j] != num,
    ensures
        slot_of(nums, num).is_none(),
    decreases nums.len(),
{
    if nums.len() > 0 {
        lemma_slot_none(nums.drop_last(), num);
    }
}

} // verus!
