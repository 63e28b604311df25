//! The manifest record: a change to the set of table files and to the
//! store's counters, as a sequence of tagged items.
use crate::coding::{get_u64, put_bytes, put_u64, window};
use crate::error::ErrorKind;
use crate::format::u64_at;
use crate::ikey::{encode_ikey, InternalKey, MAX_SEQUENCE};
use crate::metadata::{FileMetaData, FileSpec};
use vstd::bytes::*;
use vstd::prelude::*;

verus! {

pub const TAG_COMPARATOR: u8 = 1;
pub const TAG_LOG_NUMBER: u8 = 2;
pub const TAG_NEXT_FILE_NUMBER: u8 = 3;
pub const TAG_LAST_SEQUENCE: u8 = 4;
pub const TAG_COMPACT_POINTER: u8 = 5;
pub const TAG_DELETED_FILE: u8 = 6;
pub const TAG_NEW_FILE: u8 = 7;
pub const TAG_PREV_LOG_NUMBER: u8 = 8;

/// An edit: counters (0 when absent) and the files added and deleted.
pub struct EditSpec {
    pub log_number: u64,
    pub prev_log_number: u64,
    pub next_file_number: u64,
    pub last_sequence: u64,
    pub files: Seq<FileSpec>,
    pub deleted: Seq<FileSpec>,
}

/// The edit with nothing in it.
pub open spec fn empty_edit() -> EditSpec {
    EditSpec {
        log_number: 0,
        prev_log_number: 0,
        next_file_number: 0,
        last_sequence: 0,
        files: Seq::empty(),
        deleted: Seq::empty(),
    }
}

/// A counter item, left out when the counter is 0.
pub open spec fn scalar_item(tag: u8, v: u64) -> Seq<u8> {
    if v == 0 {
        Seq::empty()
    } else {
        seq![tag] + spec_u64_to_le_bytes(v)
    }
}

/// A file item: level, number, size, then each key with its length.
pub open spec fn file_item(tag: u8, f: FileSpec) -> Seq<u8> {
    seq![tag] + spec_u64_to_le_bytes(f.level) + spec_u64_to_le_bytes(f.num) + spec_u64_to_le_bytes(f.size)
        + spec_u64_to_le_bytes(f.largest.len() as u64) + f.largest + spec_u64_to_le_bytes(
        f.smallest.len() as u64,
    ) + f.smallest
}

/// One file item per file, in order.
pub open spec fn files_bytes(tag: u8, fs: Seq<FileSpec>) -> Seq<u8>
    decreases fs.len(),
{
    if fs.len() == 0 {
        Seq::empty()
    } else {
        file_item(tag, fs[0]) + files_bytes(tag, fs.drop_first())
    }
}

/// The encoded edit.
pub open spec fn edit_bytes(e: EditSpec) -> Seq<u8> {
    scalar_item(TAG_LOG_NUMBER, e.log_number) + scalar_item(TAG_PREV_LOG_NUMBER, e.prev_log_number)
        + scalar_item(TAG_NEXT_FILE_NUMBER, e.next_file_number) + scalar_item(
        TAG_LAST_SEQUENCE,
        e.last_sequence,
    ) + files_bytes(TAG_NEW_FILE, e.files) + files_bytes(TAG_DELETED_FILE, e.deleted)
}

/// The bytes are the encoding of some internal key.
pub open spec fn is_ikey_encoding(s: Seq<u8>) -> bool {
    exists|u: Seq<u8>, q: u64, k: crate::ikey::KeyKind|
        u.len() <= u32::MAX - 12 && q <= MAX_SEQUENCE && #[trigger] encode_ikey(u, q, k) == s
}

/// The file item at the start of `data`, and its length, if it is sound.
pub open spec fn parse_file_item(data: Seq<u8>) -> Option<(FileSpec, int)> {
    if data.len() < 41 {
        None
    } else {
        let llen = u64_at(data, 25) as int;
        if 33 + llen + 8 > data.len() {
            None
        } else {
            let largest = data.subrange(33, 33 + llen);
            let slen = u64_at(data, 33 + llen) as int;
            if 41 + llen + slen > data.len() {
                None
            } else {
                let smallest = data.subrange(41 + llen, 41 + llen + slen);
                if !is_ikey_encoding(largest) || !is_ikey_encoding(smallest) {
                    None
                } else {
                    Some(
                        (
                            FileSpec {
                                level: u64_at(data, 1),
                                num: u64_at(data, 9),
                                size: u64_at(data, 17),
                                smallest,
                                largest,
                            },
                            41 + llen + slen,
                        ),
                    )
                }
            }
        }
    }
}

/// Applies the items of `data` to `acc`, in order; `None` on an unknown or
/// unsupported tag or a truncated item.
pub open spec fn decode_items(data: Seq<u8>, acc: EditSpec) -> Option<EditSpec>
    decreases data.len(),
{
    if data.len() == 0 {
        Some(acc)
    } else {
        let tag = data[0];
        if tag == TAG_LOG_NUMBER || tag == TAG_PREV_LOG_NUMBER || tag == TAG_NEXT_FILE_NUMBER || tag
            == TAG_LAST_SEQUENCE {
            if data.len() < 9 {
                None
            } else {
                let v = u64_at(data, 1);
                let acc2 = if tag == TAG_LOG_NUMBER {
                    EditSpec { log_number: v, ..acc }
                } else if tag == TAG_PREV_LOG_NUMBER {
                    EditSpec { prev_log_number: v, ..acc }
                } else if tag == TAG_NEXT_FILE_NUMBER {
                    EditSpec { next_file_number: v, ..acc }
                } else {
                    EditSpec { last_sequence: v, ..acc }
                };
                decode_items(data.skip(9), acc2)
            }
        } else if tag == TAG_NEW_FILE || tag == TAG_DELETED_FILE {
            match parse_file_item(data) {
                None => None,
                Some((f, n)) => {
                    let acc2 = if tag == TAG_NEW_FILE {
                        EditSpec { files: acc.files.push(f), ..acc }
                    } else {
                        EditSpec { deleted: acc.deleted.push(f), ..acc }
                    };
                    decode_items(data.skip(n), acc2)
                },
            }
        } else {
            None
        }
    }
}

/// Appending a file appends its item.
pub proof fn lemma_files_bytes_push(tag: u8, fs: Seq<FileSpec>, f: FileSpec)
    ensures
        files_bytes(tag, fs.push(f)) == files_bytes(tag, fs) + file_item(tag, f),
    decreases fs.len(),
{
    if fs.len() == 0 {
        assert(fs.push(f).drop_first() =~= Seq::<FileSpec>::empty());
        assert(fs.push(f)[0] == f);
        assert(files_bytes(tag, Seq::<FileSpec>::empty()) == Seq::<u8>::empty());
        assert(files_bytes(tag, fs.push(f)) =~= file_item(tag, f) + Seq::<u8>::empty());
        assert(files_bytes(tag, fs) =~= Seq::<u8>::empty());
    } else {
        assert(fs.push(f).drop_first() =~= fs.drop_first().push(f));
        lemma_files_bytes_push(tag, fs.drop_first(), f);
        assert(files_bytes(tag, fs.push(f)) =~= files_bytes(tag, fs) + file_item(tag, f));
    }
}

/// A counter item decodes to its value.
pub proof fn lemma_decode_scalar(tag: u8, v: u64, rest: Seq<u8>, acc: EditSpec)
    requires
        v != 0,
        tag == TAG_LOG_NUMBER || tag == TAG_PREV_LOG_NUMBER || tag == TAG_NEXT_FILE_NUMBER || tag
            == TAG_LAST_SEQUENCE,
    ensures
        decode_items(scalar_item(tag, v) + rest, acc) == decode_items(
            rest,
            if tag == TAG_LOG_NUMBER {
                EditSpec { log_number: v, ..acc }
            } else if tag == TAG_PREV_LOG_NUMBER {
                EditSpec { prev_log_number: v, ..acc }
            } else if tag == TAG_NEXT_FILE_NUMBER {
                EditSpec { next_file_number: v, ..acc }
            } else {
                EditSpec { last_sequence: v, ..acc }
            },
        ),
{
    lemma_auto_spec_u64_to_from_le_bytes();
    let d = scalar_item(tag, v) + rest;
    assert(window(d, 1, 8) =~= spec_u64_to_le_bytes(v));
    assert(d.skip(9) =~= rest);
}

/// A file item decodes to its file.
pub proof fn lemma_decode_file(tag: u8, f: FileSpec, rest: Seq<u8>, acc: EditSpec)
    requires
        tag == TAG_NEW_FILE || tag == TAG_DELETED_FILE,
        is_ikey_encoding(f.largest),
        is_ikey_encoding(f.smallest),
        f.largest.len() <= u32::MAX,
        f.smallest.len() <= u32::MAX,
    ensures
        decode_items(file_item(tag, f) + rest, acc) == decode_items(
            rest,
            if tag == TAG_NEW_FILE {
                EditSpec { files: acc.files.push(f), ..acc }
            } else {
                EditSpec { deleted: acc.deleted.push(f), ..acc }
            },
        ),
{
    lemma_auto_spec_u64_to_from_le_bytes();
    let d = file_item(tag, f) + rest;
    let ll = f.largest.len() as int;
    let sl = f.smallest.len() as int;
    assert(window(d, 1, 8) =~= spec_u64_to_le_bytes(f.level));
    assert(window(d, 9, 8) =~= spec_u64_to_le_bytes(f.num));
    assert(window(d, 17, 8) =~= spec_u64_to_le_bytes(f.size));
    assert(window(d, 25, 8) =~= spec_u64_to_le_bytes(ll as u64));
    assert(d.subrange(33, 33 + ll) =~= f.largest);
    assert(window(d, 33 + ll, 8) =~= spec_u64_to_le_bytes(sl as u64));
    assert(d.subrange(41 + ll, 41 + ll + sl) =~= f.smallest);
    assert(parse_file_item(d) == Some((f, 41 + ll + sl)));
    assert(d.skip(41 + ll + sl) =~= rest);
}

/// Keys that decode and lengths that fit.
pub open spec fn files_sound(fs: Seq<FileSpec>) -> bool {
    forall|i: int|
        0 <= i < fs.len() ==> is_ikey_encoding(#[trigger] fs[i].largest) && is_ikey_encoding(fs[i].smallest)
            && fs[i].largest.len() <= u32::MAX && fs[i].smallest.len() <= u32::MAX
}

/// A run of file items decodes to its files.
pub proof fn lemma_decode_files(tag: u8, fs: Seq<FileSpec>, rest: Seq<u8>, acc: EditSpec)
    requires
        tag == TAG_NEW_FILE || tag == TAG_DELETED_FILE,
        files_sound(fs),
    ensures
        decode_items(files_bytes(tag, fs) + rest, acc) == decode_items(
            rest,
            if tag == TAG_NEW_FILE {
                EditSpec { files: acc.files + fs, ..acc }
            } else {
                EditSpec { deleted: acc.deleted + fs, ..acc }
            },
        ),
    decreases fs.len(),
{
    if fs.len() == 0 {
        assert(files_bytes(tag, fs) + rest =~= rest);
        assert(acc.files + fs =~= acc.files);
        assert(acc.deleted + fs =~= acc.deleted);
    } else {
        let f = fs[0];
        let tail = fs.drop_first();
        assert(files_sound(tail)) by {
            assert forall|i: int| 0 <= i < tail.len() implies is_ikey_encoding(#[trigger] tail[i].largest)
                && is_ikey_encoding(tail[i].smallest) && tail[i].largest.len() <= u32::MAX
                && tail[i].smallest.len() <= u32::MAX by {
                assert(tail[i] == fs[i + 1]);
            }
        }
        assert(files_bytes(tag, fs) + rest =~= file_item(tag, f) + (files_bytes(tag, tail) + rest));
        lemma_decode_file(tag, f, files_bytes(tag, tail) + rest, acc);
        let acc2 = if tag == TAG_NEW_FILE {
            EditSpec { files: acc.files.push(f), ..acc }
        } else {
            EditSpec { deleted: acc.deleted.push(f), ..acc }
        };
        lemma_decode_files(tag, tail, rest, acc2);
        assert(acc.files.push(f) + tail =~= acc.files + fs);
        assert(acc.deleted.push(f) + tail =~= acc.deleted + fs);
    }
}

/// An encoded edit decodes back to itself.
#[verifier::rlimit(80)]
#[verifier::spinoff_prover]
pub proof fn lemma_edit_round_trip(e: EditSpec)
    requires
        files_sound(e.files),
        files_sound(e.deleted),
    ensures
        decode_items(edit_bytes(e), empty_edit()) == Some(e),
{
    let a0 = empty_edit();
    let s1 = scalar_item(TAG_LOG_NUMBER, e.log_number);
    let s2 = scalar_item(TAG_PREV_LOG_NUMBER, e.prev_log_number);
    let s3 = scalar_item(TAG_NEXT_FILE_NUMBER, e.next_file_number);
    let s4 = scalar_item(TAG_LAST_SEQUENCE, e.last_sequence);
    let fb = files_bytes(TAG_NEW_FILE, e.files);
    let db = files_bytes(TAG_DELETED_FILE, e.deleted);
    assert(edit_bytes(e) =~= s1 + (s2 + (s3 + (s4 + (fb + (db + Seq::<u8>::empty()))))));
    let a1 = EditSpec { log_number: e.log_number, ..a0 };
    let a2 = EditSpec { prev_log_number: e.prev_log_number, ..a1 };
    let a3 = EditSpec { next_file_number: e.next_file_number, ..a2 };
    let a4 = EditSpec { last_sequence: e.last_sequence, ..a3 };
    if e.log_number != 0 {
        lemma_decode_scalar(TAG_LOG_NUMBER, e.log_number, s2 + (s3 + (s4 + (fb + (db + Seq::<u8>::empty())))), a0);
    } else {
        assert(s1 + (s2 + (s3 + (s4 + (fb + (db + Seq::<u8>::empty()))))) =~= s2 + (s3 + (s4 + (fb + (db
            + Seq::<u8>::empty())))));
        assert(a1 == a0);
    }
    if e.prev_log_number != 0 {
        lemma_decode_scalar(TAG_PREV_LOG_NUMBER, e.prev_log_number, s3 + (s4 + (fb + (db + Seq::<u8>::empty()))), a1);
    } else {
        assert(s2 + (s3 + (s4 + (fb + (db + Seq::<u8>::empty())))) =~= s3 + (s4 + (fb + (db
            + Seq::<u8>::empty()))));
        assert(a2 == a1);
    }
    if e.next_file_number != 0 {
        lemma_decode_scalar(TAG_NEXT_FILE_NUMBER, e.next_file_number, s4 + (fb + (db + Seq::<u8>::empty())), a2);
    } else {
        assert(s3 + (s4 + (fb + (db + Seq::<u8>::empty()))) =~= s4 + (fb + (db + Seq::<u8>::empty())));
        assert(a3 == a2);
    }
    if e.last_sequence != 0 {
        lemma_decode_scalar(TAG_LAST_SEQUENCE, e.last_sequence, fb + (db + Seq::<u8>::empty()), a3);
    } else {
        assert(s4 + (fb + (db + Seq::<u8>::empty())) =~= fb + (db + Seq::<u8>::empty()));
        assert(a4 == a3);
    }
    lemma_decode_files(TAG_NEW_FILE, e.files, db + Seq::<u8>::empty(), a4);
    let a5 = EditSpec { files: a4.files + e.files, ..a4 };
    lemma_decode_files(TAG_DELETED_FILE, e.deleted, Seq::<u8>::empty(), a5);
    let a6 = EditSpec { deleted: a5.deleted + e.deleted, ..a5 };
    assert(a6.files =~= e.files);
    assert(a6.deleted =~= e.deleted);
    assert(a6 == e);
}

/// Appends a counter item unless the counter is 0.
fn put_scalar(buf: &mut Vec<u8>, tag: u8, v: u64)
    ensures
        final(buf)@ == old(buf)@ + scalar_item(tag, v),
{
    if v != 0 {
        buf.push(tag);
        put_u64(buf, v);
        proof {
            assert(final(buf)@ =~= old(buf)@ + scalar_item(tag, v));
        }
    } else {
        proof {
            assert(old(buf)@ + scalar_item(tag, v) =~= old(buf)@);
        }
    }
}

/// Appends one file item per file.
fn put_files(buf: &mut Vec<u8>, tag: u8, files: &Vec<FileMetaData>)
    requires
        forall|i: int| 0 <= i < files@.len() ==> (#[trigger] files@[i]).wf(),
    ensures
        final(buf)@ == old(buf)@ + files_bytes(tag, files_view(files@)),
{
    let mut i: usize = 0;
    proof {
        assert(files_view(files@).take(0) =~= Seq::<FileSpec>::empty());
        assert(old(buf)@ + files_bytes(tag, Seq::<FileSpec>::empty()) =~= old(buf)@);
    }
    while i < files.len()
        invariant
            i <= files@.len(),
            forall|j: int| 0 <= j < files@.len() ==> (#[trigger] files@[j]).wf(),
            buf@ == old(buf)@ + files_bytes(tag, files_view(files@).take(i as int)),
        decreases files@.len() - i,
    {
        let f = &files[i];
        let largest = f.largest.inner();
        let smallest = f.smallest.inner();
        buf.push(tag);
        put_u64(buf, f.level);
        put_u64(buf, f.file_num);
        put_u64(buf, f.file_size);
        put_u64(buf, largest.len() as u64);
        put_bytes(buf, largest.as_slice());
        put_u64(buf, smallest.len() as u64);
        put_bytes(buf, smallest.as_slice());
        proof {
            let fs = files_view(files@);
            lemma_files_bytes_push(tag, fs.take(i as int), fs[i as int]);
            assert(fs.take(i + 1) =~= fs.take(i as int).push(fs[i as int]));
            assert(fs[i as int] == f@);
        }
        i = i + 1;
    }
    proof {
        assert(files_view(files@).take(i as int) =~= files_view(files@));
    }
}

/// Decodes the file item at `pos`; gives the file and the item's length.
fn parse_file(record: &[u8], pos: usize) -> (r: Option<(FileMetaData, usize)>)
    requires
        pos < record@.len(),
    ensures
        match parse_file_item(record@.skip(pos as int)) {
            Some((f, n)) => r.is_some() && r.unwrap().0@ == f && r.unwrap().0.wf() && r.unwrap().1 == n,
            None => r.is_none(),
        },
{
    let ghost d = record@.skip(pos as int);
    let rem = record.len() - pos;
    if rem < 41 {
        return None;
    }
    let level = get_u64(record, pos + 1).unwrap();
    let num = get_u64(record, pos + 9).unwrap();
    let size = get_u64(record, pos + 17).unwrap();
    let llen = get_u64(record, pos + 25).unwrap();
    proof {
        assert(window(record@, pos + 1, 8) =~= window(d, 1, 8));
        assert(window(record@, pos + 9, 8) =~= window(d, 9, 8));
        assert(window(record@, pos + 17, 8) =~= window(d, 17, 8));
        assert(window(record@, pos + 25, 8) =~= window(d, 25, 8));
    }
    if llen > (rem - 41) as u64 {
        return None;
    }
    let llen = llen as usize;
    let largest = vstd::slice::slice_subrange(record, pos + 33, pos + 33 + llen);
    let slen = get_u64(record, pos + 33 + llen).unwrap();
    proof {
        assert(largest@ =~= d.subrange(33, 33 + llen));
        assert(window(record@, pos + 33 + llen, 8) =~= window(d, 33 + llen, 8));
    }
    if slen > (rem - 41 - llen) as u64 {
        return None;
    }
    let slen = slen as usize;
    let smallest = vstd::slice::slice_subrange(record, pos + 41 + llen, pos + 41 + llen + slen);
    proof {
        assert(smallest@ =~= d.subrange(41 + llen, 41 + llen + slen));
    }
    let lk = match InternalKey::from(largest) {
        Some(k) => k,
        None => {
            return None;
        },
    };
    let sk = match InternalKey::from(smallest) {
        Some(k) => k,
        None => {
            return None;
        },
    };
    let f = FileMetaData::new(num, size, sk, lk, level);
    Some((f, 41 + llen + slen))
}

/// The views of a list of files.
pub open spec fn files_view(v: Seq<FileMetaData>) -> Seq<FileSpec> {
    Seq::new(v.len(), |i: int| v[i]@)
}

/// A change to the version: files added and deleted, and counters.
pub struct VersionEdit {
    pub files: Vec<FileMetaData>,
    pub deleted_files: Vec<FileMetaData>,
    pub next_file_number: u64,
    pub last_sequence: u64,
    pub log_number: u64,
    pub prev_log_number: u64,
}

impl VersionEdit {
    pub open spec fn view(&self) -> EditSpec {
        EditSpec {
            log_number: self.log_number,
            prev_log_number: self.prev_log_number,
            next_file_number: self.next_file_number,
            last_sequence: self.last_sequence,
            files: files_view(self.files@),
            deleted: files_view(self.deleted_files@),
        }
    }

    /// Every file's keys are sound internal keys.
    pub open spec fn wf(&self) -> bool {
        &&& forall|i: int| 0 <= i < self.files@.len() ==> (#[trigger] self.files@[i]).wf()
        &&& forall|i: int| 0 <= i < self.deleted_files@.len() ==> (#[trigger] self.deleted_files@[i]).wf()
    }

    /// An edit that sets only the next file number.
    pub fn new(next_file_num: u64) -> (r: VersionEdit)
        ensures
            r.wf(),
            r.view() == (EditSpec { next_file_number: next_file_num, ..empty_edit() }),
    {
        let r = VersionEdit {
            files: Vec::new(),
            deleted_files: Vec::new(),
            next_file_number: next_file_num,
            log_number: 0,
            last_sequence: 0,
            prev_log_number: 0,
        };
        proof {
            assert(r.view().files =~= Seq::<FileSpec>::empty());
            assert(r.view().deleted =~= Seq::<FileSpec>::empty());
        }
        r
    }

    pub fn files(&self) -> (r: &Vec<FileMetaData>)
        ensures
            r == &self.files,
    {
        &self.files
    }

    pub fn deleted_files(&self) -> (r: &Vec<FileMetaData>)
        ensures
            r == &self.deleted_files,
    {
        &self.deleted_files
    }

    /// The record payload: counters that are set, new files, deleted files.
    pub fn encode(&self) -> (r: Vec<u8>)
        requires
            self.wf(),
        ensures
            r@ == edit_bytes(self.view()),
    {
        let mut r: Vec<u8> = Vec::new();
        put_scalar(&mut r, TAG_LOG_NUMBER, self.log_number);
        put_scalar(&mut r, TAG_PREV_LOG_NUMBER, self.prev_log_number);
        put_scalar(&mut r, TAG_NEXT_FILE_NUMBER, self.next_file_number);
        put_scalar(&mut r, TAG_LAST_SEQUENCE, self.last_sequence);
        put_files(&mut r, TAG_NEW_FILE, &self.files);
        put_files(&mut r, TAG_DELETED_FILE, &self.deleted_files);
        proof {
            assert(r@ =~= edit_bytes(self.view()));
        }
        r
    }

    /// Applies the items of `record` to this edit, in order. `Corruption` on
    /// an unknown or unsupported tag, a truncated item or a key that does
    /// not decode.
    pub fn decode_from(&mut self, record: &[u8]) -> (r: Result<(), ErrorKind>)
        requires
            old(self).wf(),
        ensures
            match decode_items(record@, old(self).view()) {
                Some(e) => r.is_ok() && final(self).view() == e && final(self).wf(),
                None => r == Err::<(), ErrorKind>(ErrorKind::Corruption),
            },
    {
        let n = record.len();
        let mut pos: usize = 0;
        proof {
            assert(record@.skip(0) =~= record@);
        }
        while pos < n
            invariant
                n == record@.len(),
                pos <= n,
                self.wf(),
                decode_items(record@, old(self).view()) == decode_items(record@.skip(pos as int), self.view()),
            decreases n - pos,
        {
            let ghost d = record@.skip(pos as int);
            let tag = record[pos];
            proof {
                assert(d[0] == tag);
            }
            if tag == TAG_LOG_NUMBER || tag == TAG_PREV_LOG_NUMBER || tag == TAG_NEXT_FILE_NUMBER || tag
                == TAG_LAST_SEQUENCE {
                if n - pos < 9 {
                    return Err(ErrorKind::Corruption);
                }
                let v = get_u64(record, pos + 1).unwrap();
                proof {
                    assert(window(record@, pos + 1, 8) =~= window(d, 1, 8));
                    assert(d.skip(9) =~= record@.skip(pos + 9));
                }
                if tag == TAG_LOG_NUMBER {
                    self.log_number = v;
                } else if tag == TAG_PREV_LOG_NUMBER {
                    self.prev_log_number = v;
                } else if tag == TAG_NEXT_FILE_NUMBER {
                    self.next_file_number = v;
                } else {
                    self.last_sequence = v;
                }
                pos = pos + 9;
            } else if tag == TAG_NEW_FILE || tag == TAG_DELETED_FILE {
                let (f, used) = match parse_file(record, pos) {
                    Some(x) => x,
                    None => {
                        return Err(ErrorKind::Corruption);
                    },
                };
                proof {
                    assert(d.skip(used as int) =~= record@.skip(pos + used));
                }
                let ghost fv = f@;
                let ghost old_files = self.files@;
                let ghost old_deleted = self.deleted_files@;
                if tag == TAG_NEW_FILE {
                    self.files.push(f);
                    proof {
                        assert(files_view(self.files@) =~= files_view(old_files).push(fv));
                        assert forall|i: int| 0 <= i < self.files@.len() implies (#[trigger] self.files@[i]).wf() by {
                            if i < old_files.len() {
                                assert(self.files@[i] == old_files[i]);
                            }
                        }
                    }
                } else {
                    self.deleted_files.push(f);
                    proof {
                        assert(files_view(self.deleted_files@) =~= files_view(old_deleted).push(fv));
                        assert forall|i: int| 0 <= i < self.deleted_files@.len() implies (#[trigger] self.deleted_files@[i]).wf() by {
                            if i < old_deleted.len() {
                                assert(self.deleted_files@[i] == old_deleted[i]);
                            }
                        }
                    }
                }
                pos = pos + used;
            } else {
                return Err(ErrorKind::Corruption);
            }
        }
        proof {
            assert(record@.skip(pos as int) =~= Seq::<u8>::empty());
        }
        Ok(())
    }

    /// Records a new file.
    pub fn add_file(&mut self, meta: FileMetaData)
        ensures
            final(self).view() == (EditSpec { files: old(self).view().files.push(meta@), ..old(self).view() }),
            old(self).wf() && meta.wf() ==> final(self).wf(),
    {
        self.files.push(meta);
        proof {
            assert(files_view(self.files@) =~= files_view(old(self).files@).push(meta@));
            if old(self).wf() && meta.wf() {
                assert forall|i: int| 0 <= i < self.files@.len() implies (#[trigger] self.files@[i]).wf() by {
                    if i < old(self).files@.len() {
                        assert(self.files@[i] == old(self).files@[i]);
                    }
                }
            }
        }
    }
}

} // verus!
