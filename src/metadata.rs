//! What the manifest records of each table file.
use crate::ikey::{clone_ikey, InternalKey};
use vstd::prelude::*;

verus! {

/// A table file as the manifest sees it; keys in encoded form.
pub struct FileSpec {
    pub level: u64,
    pub num: u64,
    pub size: u64,
    pub smallest: Seq<u8>,
    pub largest: Seq<u8>,
}

/// A table file: its number, size, key range and level.
#[derive(Debug)]
pub struct FileMetaData {
    pub file_num: u64,
    pub file_size: u64,
    pub largest: InternalKey,
    pub smallest: InternalKey,
    pub level: u64,
}

/// A copy of `f`.
pub fn clone_meta(f: &FileMetaData) -> (r: FileMetaData)
    ensures
        r.view() == f.view(),
        r.wf() == f.wf(),
{
    FileMetaData {
        file_num: f.file_num,
        file_size: f.file_size,
        largest: clone_ikey(&f.largest),
        smallest: clone_ikey(&f.smallest),
        level: f.level,
    }
}

impl FileMetaData {
    pub open spec fn view(&self) -> FileSpec {
        FileSpec {
            level: self.level,
            num: self.file_num,
            size: self.file_size,
            smallest: self.smallest.spec_encoded(),
            largest: self.largest.spec_encoded(),
        }
    }

    pub open spec fn spec_smallest(&self) -> InternalKey {
        self.smallest
    }

    pub open spec fn spec_largest(&self) -> InternalKey {
        self.largest
    }

    pub open spec fn wf(&self) -> bool {
        self.smallest.wf() && self.largest.wf()
    }

    pub fn new(file_num: u64, file_size: u64, smallest: InternalKey, largest: InternalKey, level: u64) -> (r: FileMetaData)
        ensures
            r.file_num == file_num,
            r.file_size == file_size,
            r.level == level,
            r.smallest == smallest,
            r.largest == largest,
            r.wf() == (smallest.wf() && largest.wf()),
    {
        FileMetaData { file_num, file_size, largest, smallest, level }
    }

    pub fn largest(&self) -> (r: InternalKey)
        ensures
            r.spec_user_key() == self.spec_largest().spec_user_key(),
            r.spec_seq() == self.spec_largest().spec_seq(),
            r.spec_kind() == self.spec_largest().spec_kind(),
    {
        clone_ikey(&self.largest)
    }

    pub fn smallest(&self) -> (r: InternalKey)
        ensures
            r.spec_user_key() == self.spec_smallest().spec_user_key(),
            r.spec_seq() == self.spec_smallest().spec_seq(),
            r.spec_kind() == self.spec_smallest().spec_kind(),
    {
        clone_ikey(&self.smallest)
    }

    pub fn largest_ref(&self) -> (r: &InternalKey)
        ensures
            *r == self.spec_largest(),
    {
        &self.largest
    }

    pub fn smallest_ref(&self) -> (r: &InternalKey)
        ensures
            *r == self.spec_smallest(),
    {
        &self.smallest
    }
}

/// A field of a `FileMetaData` that a builder was not given.
#[derive(Clone, Copy, Debug, PartialEq, Eq, Structural)]
pub enum MissingField {
    FileNum,
    FileSize,
    Largest,
    Smallest,
}

/// Collects the fields of a `FileMetaData` one at a time.
pub struct FileMetaDataBuilder {
    file_num: Option<u64>,
    file_size: Option<u64>,
    largest: Option<InternalKey>,
    smallest: Option<InternalKey>,
}

impl FileMetaDataBuilder {
    pub closed spec fn spec_file_num(&self) -> Option<u64> {
        self.file_num
    }

    pub closed spec fn spec_file_size(&self) -> Option<u64> {
        self.file_size
    }

    pub closed spec fn spec_largest(&self) -> Option<InternalKey> {
        self.largest
    }

    pub closed spec fn spec_smallest(&self) -> Option<InternalKey> {
        self.smallest
    }

    pub fn new() -> (r: FileMetaDataBuilder)
        ensures
            r.spec_file_num().is_none(),
            r.spec_file_size().is_none(),
            r.spec_largest().is_none(),
            r.spec_smallest().is_none(),
    {
        FileMetaDataBuilder { file_num: None, file_size: None, largest: None, smallest: None }
    }

    pub fn file_num(&mut self, num: u64)
        ensures
            final(self).spec_file_num() == Some(num),
            final(self).spec_file_size() == old(self).spec_file_size(),
            final(self).spec_largest() == old(self).spec_largest(),
            final(self).spec_smallest() == old(self).spec_smallest(),
    {
        self.file_num = Some(num);
    }

    pub fn file_size(&mut self, size: u64)
        ensures
            final(self).spec_file_size() == Some(size),
            final(self).spec_file_num() == old(self).spec_file_num(),
            final(self).spec_largest() == old(self).spec_largest(),
            final(self).spec_smallest() == old(self).spec_smallest(),
    {
        self.file_size = Some(size);
    }

    pub fn largest(&mut self, largest: InternalKey)
        ensures
            final(self).spec_largest() == Some(largest),
            final(self).spec_file_num() == old(self).spec_file_num(),
            final(self).spec_file_size() == old(self).spec_file_size(),
            final(self).spec_smallest() == old(self).spec_smallest(),
    {
        self.largest = Some(largest);
    }

    pub fn smallest(&mut self, smallest: InternalKey)
        ensures
            final(self).spec_smallest() == Some(smallest),
            final(self).spec_file_num() == old(self).spec_file_num(),
            final(self).spec_file_size() == old(self).spec_file_size(),
            final(self).spec_largest() == old(self).spec_largest(),
    {
        self.smallest = Some(smallest);
    }

    /// The metadata at level 0; when a field was not set, the first one
    /// missing in the order file number, size, largest, smallest.
    pub fn build(self) -> (r: Result<FileMetaData, MissingField>)
        ensures
            (self.spec_file_num().is_some() && self.spec_file_size().is_some()
                && self.spec_largest().is_some() && self.spec_smallest().is_some()) <==> r.is_ok(),
            r.is_ok() ==> r.unwrap().file_num == self.spec_file_num().unwrap() && r.unwrap().file_size
                == self.spec_file_size().unwrap() && r.unwrap().spec_largest() == self.spec_largest().unwrap()
                && r.unwrap().spec_smallest() == self.spec_smallest().unwrap() && r.unwrap().level == 0,
            self.spec_file_num().is_none() ==> r == Err::<FileMetaData, MissingField>(MissingField::FileNum),
            self.spec_file_num().is_some() && self.spec_file_size().is_none() ==> r == Err::<FileMetaData, MissingField>(
                MissingField::FileSize,
            ),
            self.spec_file_num().is_some() && self.spec_file_size().is_some() && self.spec_largest().is_none()
                ==> r == Err::<FileMetaData, MissingField>(MissingField::Largest),
            self.spec_file_num().is_some() && self.spec_file_size().is_some() && self.spec_largest().is_some()
                && self.spec_smallest().is_none() ==> r == Err::<FileMetaData, MissingField>(MissingField::Smallest),
    {
        let file_num = match self.file_num {
            Some(n) => n,
            None => {
                return Err(MissingField::FileNum);
            },
        };
        let file_size = match self.file_size {
            Some(n) => n,
            None => {
                return Err(MissingField::FileSize);
            },
        };
        let largest = match self.largest {
            Some(k) => k,
            None => {
                return Err(MissingField::Largest);
            },
        };
        let smallest = match self.smallest {
            Some(k) => k,
            None => {
                return Err(MissingField::Smallest);
            },
        };
        Ok(FileMetaData { file_num, file_size, largest, smallest, level: 0 })
    }
}

} // verus!
