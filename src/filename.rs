//! Names of the files in a database directory.
//!
//! `NNNNNNN.log` (write-ahead log), `NNNNNNN.ldb` (table), `MANIFEST-NNNNNNN`,
//! `CURRENT`, and `CURRENT.NNNNNNN` (staging for an atomic rename); numbers
//! are decimal, zero-padded to seven digits.
use crate::coding::put_bytes;
use crate::comparator::{compare_bytes, lemma_lex_cmp_equal};
use std::cmp::Ordering;
use vstd::prelude::*;

verus! {

/// Numbers are padded to this many digits.
pub const NUMBER_WIDTH: usize = 7;

/// What a file is for.
#[derive(Clone, Copy, Debug, PartialEq, Eq, Structural)]
pub enum FileKind {
    Log,
    Current,
    Table,
    Manifest,
    Temp,
}

/// A file name in contracts: kind, directory bytes, number (0 for `CURRENT`).
pub struct NameSpec {
    pub kind: FileKind,
    pub dir: Seq<u8>,
    pub num: u64,
}

/// A file of the database, with the directory it lives in.
#[derive(Debug)]
pub enum FileType {
    Log(Vec<u8>, u64),
    Current(Vec<u8>),
    Table(Vec<u8>, u64),
    Manifest(Vec<u8>, u64),
    TempFileName(Vec<u8>, u64),
}

impl FileType {
    pub open spec fn view(&self) -> NameSpec {
        match self {
            FileType::Log(d, n) => NameSpec { kind: FileKind::Log, dir: d@, num: *n },
            FileType::Current(d) => NameSpec { kind: FileKind::Current, dir: d@, num: 0 },
            FileType::Table(d, n) => NameSpec { kind: FileKind::Table, dir: d@, num: *n },
            FileType::Manifest(d, n) => NameSpec { kind: FileKind::Manifest, dir: d@, num: *n },
            FileType::TempFileName(d, n) => NameSpec { kind: FileKind::Temp, dir: d@, num: *n },
        }
    }
}

/// The decimal digits of `n`, most significant first, with no padding.
pub open spec fn digits(n: nat) -> Seq<u8>
    decreases n,
{
    if n < 10 {
        seq![(n + 48) as u8]
    } else {
        digits(n / 10).push(((n % 10) + 48) as u8)
    }
}

/// `width` zero digits.
pub open spec fn zeros(width: int) -> Seq<u8> {
    Seq::new(width as nat, |i: int| 48u8)
}

/// `n` in decimal, left-padded with zeros to `NUMBER_WIDTH` digits.
pub open spec fn padded(n: nat) -> Seq<u8> {
    let d = digits(n);
    if d.len() >= NUMBER_WIDTH {
        d
    } else {
        zeros(NUMBER_WIDTH - d.len()) + d
    }
}

/// The value of a string of decimal digits.
pub open spec fn digits_value(s: Seq<u8>) -> nat
    decreases s.len(),
{
    if s.len() == 0 {
        0
    } else {
        digits_value(s.drop_last()) * 10 + (s.last() - 48) as nat
    }
}

pub open spec fn all_digits(s: Seq<u8>) -> bool {
    forall|i: int| 0 <= i < s.len() ==> 48 <= #[trigger] s[i] <= 57
}

/// `.log`
pub open spec fn log_suffix() -> Seq<u8> {
    seq![46u8, 108u8, 111u8, 103u8]
}

/// `.ldb`
pub open spec fn table_suffix() -> Seq<u8> {
    seq![46u8, 108u8, 100u8, 98u8]
}

/// `CURRENT`
pub open spec fn current_name() -> Seq<u8> {
    seq![67u8, 85u8, 82u8, 82u8, 69u8, 78u8, 84u8]
}

/// `CURRENT.`
pub open spec fn temp_prefix() -> Seq<u8> {
    current_name().push(46u8)
}

/// `MANIFEST-`
pub open spec fn manifest_prefix() -> Seq<u8> {
    seq![77u8, 65u8, 78u8, 73u8, 70u8, 69u8, 83u8, 84u8, 45u8]
}

/// The base name of a file (the part after the directory and `/`).
pub open spec fn base_spec(kind: FileKind, num: u64) -> Seq<u8> {
    match kind {
        FileKind::Log => padded(num as nat) + log_suffix(),
        FileKind::Current => current_name(),
        FileKind::Table => padded(num as nat) + table_suffix(),
        FileKind::Manifest => manifest_prefix() + padded(num as nat),
        FileKind::Temp => temp_prefix() + padded(num as nat),
    }
}

/// The full name of a file.
pub open spec fn name_spec(t: NameSpec) -> Seq<u8> {
    t.dir + seq![47u8] + base_spec(t.kind, t.num)
}

/// The position of the last `/`, if there is one.
pub open spec fn last_slash(s: Seq<u8>) -> Option<int>
    decreases s.len(),
{
    if s.len() == 0 {
        None
    } else if s.last() == 47u8 {
        Some(s.len() - 1)
    } else {
        last_slash(s.drop_last())
    }
}

/// A number field in canonical form: the padded decimal of a `u64`.
pub open spec fn number_field(s: Seq<u8>) -> Option<u64> {
    if all_digits(s) && digits_value(s) <= u64::MAX && padded(digits_value(s)) == s {
        Some(digits_value(s) as u64)
    } else {
        None
    }
}

/// What a base name denotes: kind and number.
pub open spec fn parse_base(b: Seq<u8>) -> Option<(FileKind, u64)> {
    if b == current_name() {
        Some((FileKind::Current, 0))
    } else if b.len() >= 8 && b.take(8) == temp_prefix() && number_field(b.skip(8)).is_some() {
        Some((FileKind::Temp, number_field(b.skip(8)).unwrap()))
    } else if b.len() >= 9 && b.take(9) == manifest_prefix() && number_field(b.skip(9)).is_some() {
        Some((FileKind::Manifest, number_field(b.skip(9)).unwrap()))
    } else if b.len() >= 4 && b.skip(b.len() - 4) == log_suffix() && number_field(b.take(b.len() - 4)).is_some() {
        Some((FileKind::Log, number_field(b.take(b.len() - 4)).unwrap()))
    } else if b.len() >= 4 && b.skip(b.len() - 4) == table_suffix() && number_field(b.take(b.len() - 4)).is_some() {
        Some((FileKind::Table, number_field(b.take(b.len() - 4)).unwrap()))
    } else {
        None
    }
}

/// What a full name denotes; `None` for a name that is not the store's.
pub open spec fn parse_spec(s: Seq<u8>) -> Option<NameSpec> {
    match last_slash(s) {
        None => None,
        Some(p) => match parse_base(s.skip(p + 1)) {
            None => None,
            Some((kind, num)) => Some(NameSpec { kind, dir: s.take(p), num }),
        },
    }
}

/// Appends the decimal digits of `n`.
fn put_digits(buf: &mut Vec<u8>, n: u64)
    ensures
        final(buf)@ == old(buf)@ + digits(n as nat),
    decreases n,
{
    if n < 10 {
        buf.push((n + 48) as u8);
        proof {
            assert(final(buf)@ =~= old(buf)@ + digits(n as nat));
        }
    } else {
        put_digits(buf, n / 10);
        buf.push((n % 10 + 48) as u8);
        proof {
            assert(final(buf)@ =~= old(buf)@ + digits(n as nat));
        }
    }
}

/// Appends `n` in decimal, zero-padded to `NUMBER_WIDTH` digits.
pub fn put_padded(buf: &mut Vec<u8>, n: u64)
    ensures
        final(buf)@ == old(buf)@ + padded(n as nat),
{
    let mut d: Vec<u8> = Vec::new();
    put_digits(&mut d, n);
    proof {
        assert(d@ =~= digits(n as nat));
    }
    let mut z: Vec<u8> = Vec::new();
    while z.len() + d.len() < NUMBER_WIDTH
        invariant
            z@ == zeros(z@.len() as int),
            z@.len() + d@.len() <= NUMBER_WIDTH || z@.len() == 0,
        decreases NUMBER_WIDTH - z@.len(),
    {
        z.push(48u8);
        proof {
            assert(z@ =~= zeros(z@.len() as int));
        }
    }
    put_bytes(buf, z.as_slice());
    put_bytes(buf, d.as_slice());
    proof {
        if d@.len() >= NUMBER_WIDTH {
            assert(z@ =~= Seq::<u8>::empty());
        }
        assert(final(buf)@ =~= old(buf)@ + padded(n as nat));
    }
}

/// Whether two byte strings are equal.
pub fn bytes_eq(a: &[u8], b: &[u8]) -> (r: bool)
    ensures
        r == (a@ == b@),
{
    proof {
        lemma_lex_cmp_equal(a@, b@);
    }
    match compare_bytes(a, b) {
        Ordering::Equal => true,
        _ => false,
    }
}

proof fn lemma_digits_value_grows(s: Seq<u8>, i: int)
    requires
        0 <= i <= s.len(),
        all_digits(s),
    ensures
        digits_value(s) >= digits_value(s.take(i)),
    decreases s.len() - i,
{
    if i < s.len() {
        lemma_digits_value_grows(s, i + 1);
        assert(s.take(i + 1).drop_last() =~= s.take(i));
    } else {
        assert(s.take(i) =~= s);
    }
}

/// Reads a canonical number field.
pub fn parse_number(s: &[u8]) -> (r: Option<u64>)
    ensures
        r == number_field(s@),
{
    let mut v: u64 = 0;
    let mut i: usize = 0;
    proof {
        assert(s@.take(0) =~= Seq::<u8>::empty());
    }
    while i < s.len()
        invariant
            i <= s@.len(),
            all_digits(s@.take(i as int)),
            v == digits_value(s@.take(i as int)),
        decreases s@.len() - i,
    {
        let c = s[i];
        if c < 48 || c > 57 {
            proof {
                assert(!all_digits(s@));
            }
            return None;
        }
        let d = (c - 48) as u64;
        proof {
            assert(s@.take(i + 1).drop_last() =~= s@.take(i as int));
            assert(all_digits(s@.take(i + 1)));
        }
        if v > (u64::MAX - d) / 10 {
            proof {
                if all_digits(s@) {
                    lemma_digits_value_grows(s@, i + 1);
                }
            }
            return None;
        }
        v = v * 10 + d;
        i = i + 1;
    }
    proof {
        assert(s@.take(i as int) =~= s@);
    }
    let mut p: Vec<u8> = Vec::new();
    put_padded(&mut p, v);
    proof {
        assert(p@ =~= padded(v as nat));
    }
    if bytes_eq(p.as_slice(), s) {
        Some(v)
    } else {
        None
    }
}

/// What a file name denotes; `None` for a name that is not the store's.
pub fn parse_name(filename: &[u8]) -> (r: Option<FileType>)
    ensures
        match parse_spec(filename@) {
            Some(t) => r.is_some() && r.unwrap()@ == t,
            None => r.is_none(),
        },
{
    let n = filename.len();
    let mut i: usize = n;
    proof {
        assert(filename@.take(n as int) =~= filename@);
    }
    while i > 0 && filename[i - 1] != 47u8
        invariant
            i <= n,
            n == filename@.len(),
            last_slash(filename@) == last_slash(filename@.take(i as int)),
        decreases i,
    {
        proof {
            assert(filename@.take(i as int).drop_last() =~= filename@.take(i - 1));
        }
        i = i - 1;
    }
    if i == 0 {
        proof {
            assert(filename@.take(0) =~= Seq::<u8>::empty());
        }
        return None;
    }
    let p = i - 1;
    let dir = vstd::slice::slice_to_vec(vstd::slice::slice_subrange(filename, 0, p));
    let b = vstd::slice::slice_subrange(filename, i, n);
    let bl = b.len();
    proof {
        assert(last_slash(filename@.take(i as int)) == Some(p as int));
        assert(b@ =~= filename@.skip(p + 1));
        assert(dir@ =~= filename@.take(p as int));
    }
    if bytes_eq(b, vec![67u8, 85u8, 82u8, 82u8, 69u8, 78u8, 84u8].as_slice()) {
        proof {
            assert(b@ == current_name());
        }
        return Some(FileType::Current(dir));
    }
    if bl >= 8 && bytes_eq(vstd::slice::slice_subrange(b, 0, 8), vec![67u8, 85u8, 82u8, 82u8, 69u8, 78u8, 84u8, 46u8].as_slice()) {
        let num = parse_number(vstd::slice::slice_subrange(b, 8, bl));
        proof {
            assert(b@.take(8) =~= b@.subrange(0, 8));
            assert(b@.skip(8) =~= b@.subrange(8, bl as int));
            assert(seq![67u8, 85u8, 82u8, 82u8, 69u8, 78u8, 84u8, 46u8] =~= temp_prefix());
        }
        if let Some(v) = num {
            return Some(FileType::TempFileName(dir, v));
        }
    }
    proof {
        assert(b@.take(8) =~= b@.subrange(0, 8));
        assert(seq![67u8, 85u8, 82u8, 82u8, 69u8, 78u8, 84u8, 46u8] =~= temp_prefix());
    }
    if bl >= 9 && bytes_eq(vstd::slice::slice_subrange(b, 0, 9), vec![77u8, 65u8, 78u8, 73u8, 70u8, 69u8, 83u8, 84u8, 45u8].as_slice()) {
        let num = parse_number(vstd::slice::slice_subrange(b, 9, bl));
        proof {
            assert(b@.take(9) =~= b@.subrange(0, 9));
            assert(b@.skip(9) =~= b@.subrange(9, bl as int));
        }
        if let Some(v) = num {
            return Some(FileType::Manifest(dir, v));
        }
    }
    proof {
        assert(b@.take(9) =~= b@.subrange(0, 9));
    }
    if bl >= 4 {
        let suffix = vstd::slice::slice_subrange(b, bl - 4, bl);
        let stem = vstd::slice::slice_subrange(b, 0, bl - 4);
        proof {
            assert(suffix@ =~= b@.skip(bl - 4));
            assert(stem@ =~= b@.take(bl - 4));
        }
        if bytes_eq(suffix, vec![46u8, 108u8, 111u8, 103u8].as_slice()) {
            if let Some(v) = parse_number(stem) {
                return Some(FileType::Log(dir, v));
            }
        }
        if bytes_eq(suffix, vec![46u8, 108u8, 100u8, 98u8].as_slice()) {
            if let Some(v) = parse_number(stem) {
                return Some(FileType::Table(dir, v));
            }
        }
    }
    None
}

/// A name that parses is exactly the name of what it denotes.
pub proof fn lemma_parse_sound(s: Seq<u8>)
    requires
        parse_spec(s).is_some(),
    ensures
        name_spec(parse_spec(s).unwrap()) == s,
{
    let p = last_slash(s).unwrap();
    lemma_last_slash(s);
    let b = s.skip(p + 1);
    let t = parse_spec(s).unwrap();
    assert(s =~= s.take(p) + seq![47u8] + b);
    if b == current_name() {
    } else if b.len() >= 8 && b.take(8) == temp_prefix() && number_field(b.skip(8)).is_some() {
        assert(b =~= b.take(8) + b.skip(8));
    } else if b.len() >= 9 && b.take(9) == manifest_prefix() && number_field(b.skip(9)).is_some() {
        assert(b =~= b.take(9) + b.skip(9));
    } else {
        assert(b =~= b.take(b.len() - 4) + b.skip(b.len() - 4));
    }
}

/// The last slash is a slash.
pub proof fn lemma_last_slash(s: Seq<u8>)
    ensures
        last_slash(s).is_some() ==> 0 <= last_slash(s).unwrap() < s.len() && s[last_slash(s).unwrap()] == 47u8,
    decreases s.len(),
{
    if s.len() > 0 && s.last() != 47u8 {
        lemma_last_slash(s.drop_last());
    }
}

impl FileType {
    /// Whether this is a write-ahead log.
    pub fn is_logfile(&self) -> (r: bool)
        ensures
            r == (self@.kind == FileKind::Log),
    {
        match self {
            FileType::Log(_, _) => true,
            _ => false,
        }
    }

    /// The file's full name.
    pub fn filename(&self) -> (r: Vec<u8>)
        ensures
            r@ == name_spec(self@),
    {
        let mut r: Vec<u8> = Vec::new();
        match self {
            FileType::Log(d, n) => {
                put_bytes(&mut r, d.as_slice());
                r.push(47u8);
                put_padded(&mut r, *n);
                put_bytes(&mut r, vec![46u8, 108u8, 111u8, 103u8].as_slice());
            },
            FileType::Current(d) => {
                put_bytes(&mut r, d.as_slice());
                r.push(47u8);
                put_bytes(&mut r, vec![67u8, 85u8, 82u8, 82u8, 69u8, 78u8, 84u8].as_slice());
            },
            FileType::Table(d, n) => {
                put_bytes(&mut r, d.as_slice());
                r.push(47u8);
                put_padded(&mut r, *n);
                put_bytes(&mut r, vec![46u8, 108u8, 100u8, 98u8].as_slice());
            },
            FileType::Manifest(d, n) => {
                put_bytes(&mut r, d.as_slice());
                r.push(47u8);
                put_bytes(&mut r, vec![77u8, 65u8, 78u8, 73u8, 70u8, 69u8, 83u8, 84u8, 45u8].as_slice());
                put_padded(&mut r, *n);
            },
            FileType::TempFileName(d, n) => {
                put_bytes(&mut r, d.as_slice());
                r.push(47u8);
                put_bytes(&mut r, vec![67u8, 85u8, 82u8, 82u8, 69u8, 78u8, 84u8, 46u8].as_slice());
                put_padded(&mut r, *n);
            },
        }
        proof {
            assert(r@ =~= name_spec(self@));
        }
        r
    }
}

} // verus!
