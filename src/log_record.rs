//! The record log shared by the write-ahead log and the manifest.
//!
//! A log is a run of 32 KiB blocks. A physical record is a 7-byte header
//! (`u32` CRC-32C of type and payload, `u16` length, `u8` type) and its
//! payload. A logical record that does not fit the rest of a block is cut
//! into FIRST, MIDDLE..., LAST fragments; fewer than 7 bytes left at the end
//! of a block are zero-filled and skipped.
use crate::coding::{get_u16, get_u32, put_bytes, put_u16, put_u32, window};
use crate::error::ErrorKind;
use crate::format::{crc32c, crc32c_of};
use vstd::bytes::*;
use vstd::prelude::*;

verus! {

pub const LOG_BLOCK_SIZE: usize = 32768;
pub const HEADER_SIZE: usize = 7;
pub const FULL: u8 = 1;
pub const FIRST: u8 = 2;
pub const MIDDLE: u8 = 3;
pub const LAST: u8 = 4;

/// A physical record: type, then payload.
pub open spec fn physical(t: u8, payload: Seq<u8>) -> Seq<u8> {
    spec_u32_to_le_bytes(crc32c_of(seq![t] + payload)) + spec_u16_to_le_bytes(payload.len() as u16)
        + seq![t] + payload
}

/// `n` zero bytes.
pub open spec fn zero_fill(n: int) -> Seq<u8> {
    Seq::new(n as nat, |i: int| 0u8)
}

/// The fragment type for a fragment that does or does not begin and end the record.
pub open spec fn frag_type(begin: bool, end: bool) -> u8 {
    if begin && end {
        FULL
    } else if begin {
        FIRST
    } else if end {
        LAST
    } else {
        MIDDLE
    }
}

/// What appending `data` writes when the current block already holds `off` bytes.
#[verifier::opaque]
pub open spec fn frame(off: int, data: Seq<u8>, begin: bool) -> Seq<u8>
    decreases 3 * data.len() + (if LOG_BLOCK_SIZE - off < HEADER_SIZE { 1int } else { 2int }),
{
    if off < 0 || off > LOG_BLOCK_SIZE {
        Seq::empty()
    } else {
        let left = LOG_BLOCK_SIZE - off;
        let pad = if left < HEADER_SIZE { zero_fill(left) } else { Seq::empty() };
        let off2 = if left < HEADER_SIZE { 0 } else { off };
        let avail = LOG_BLOCK_SIZE - off2 - HEADER_SIZE;
        let n = if data.len() < avail { data.len() as int } else { avail };
        let end = n == data.len();
        let here = pad + physical(frag_type(begin, end), data.take(n));
        if end {
            here
        } else {
            here + frame(off2 + HEADER_SIZE + n, data.skip(n), false)
        }
    }
}

/// Where the block offset stands after appending `data` at `off`.
#[verifier::opaque]
pub open spec fn offset_after(off: int, data: Seq<u8>) -> int
    decreases 3 * data.len() + (if LOG_BLOCK_SIZE - off < HEADER_SIZE { 1int } else { 2int }),
{
    if off < 0 || off > LOG_BLOCK_SIZE {
        off
    } else {
        let left = LOG_BLOCK_SIZE - off;
        let off2 = if left < HEADER_SIZE { 0 } else { off };
        let avail = LOG_BLOCK_SIZE - off2 - HEADER_SIZE;
        let n = if data.len() < avail { data.len() as int } else { avail };
        if n == data.len() {
            off2 + HEADER_SIZE + n
        } else {
            offset_after(off2 + HEADER_SIZE + n, data.skip(n))
        }
    }
}

/// One step of `frame` and `offset_after`, spelled out.
pub proof fn lemma_frame_step(off: int, data: Seq<u8>, begin: bool)
    requires
        0 <= off <= LOG_BLOCK_SIZE,
    ensures
        ({
            let left = LOG_BLOCK_SIZE - off;
            let pad = if left < HEADER_SIZE { zero_fill(left) } else { Seq::empty() };
            let off2 = if left < HEADER_SIZE { 0 } else { off };
            let avail = LOG_BLOCK_SIZE - off2 - HEADER_SIZE;
            let n = if data.len() < avail { data.len() as int } else { avail };
            let end = n == data.len();
            let here = pad + physical(frag_type(begin, end), data.take(n));
            &&& end ==> frame(off, data, begin) == here
            &&& end ==> offset_after(off, data) == off2 + HEADER_SIZE + n
            &&& !end ==> frame(off, data, begin) == here + frame(off2 + HEADER_SIZE + n, data.skip(n), false)
            &&& !end ==> offset_after(off, data) == offset_after(off2 + HEADER_SIZE + n, data.skip(n))
        }),
{
    reveal(frame);
    reveal(offset_after);
}

/// After a frame the block offset stays within a block, and it matches
/// where the frame ends, modulo the block size.
#[verifier::spinoff_prover]
pub proof fn lemma_frame_len(off: int, data: Seq<u8>, begin: bool)
    requires
        0 <= off <= LOG_BLOCK_SIZE,
    ensures
        0 <= offset_after(off, data) <= LOG_BLOCK_SIZE,
        (off + frame(off, data, begin).len()) % (LOG_BLOCK_SIZE as int) == offset_after(off, data) % (
        LOG_BLOCK_SIZE as int),
    decreases 3 * data.len() + (if LOG_BLOCK_SIZE - off < HEADER_SIZE { 1int } else { 2int }),
{
    lemma_frame_step(off, data, begin);
    lemma_auto_spec_u32_to_from_le_bytes();
    lemma_auto_spec_u16_to_from_le_bytes();
    let left = LOG_BLOCK_SIZE - off;
    let off2 = if left < HEADER_SIZE { 0 } else { off };
    let avail = LOG_BLOCK_SIZE - off2 - HEADER_SIZE;
    let n = if data.len() < avail { data.len() as int } else { avail };
    let end = n == data.len();
    let pad_len = if left < HEADER_SIZE { left } else { 0 };
    let here_len = pad_len + HEADER_SIZE + n;
    let b = LOG_BLOCK_SIZE as int;
    assert(physical(frag_type(begin, end), data.take(n)).len() == HEADER_SIZE + n);
    // off + here_len == off2 + 7 + n, or a whole block more
    assert(off + here_len == off2 + HEADER_SIZE + n || off + here_len == off2 + HEADER_SIZE + n + b);
    if !end {
        lemma_frame_len(off2 + HEADER_SIZE + n, data.skip(n), false);
        let rest = frame(off2 + HEADER_SIZE + n, data.skip(n), false);
        let m = offset_after(off, data);
        assert((off2 + HEADER_SIZE + n + rest.len()) % b == m % b);
        assert((off + here_len + rest.len()) % b == m % b) by (nonlinear_arith)
            requires
                off + here_len == off2 + HEADER_SIZE + n || off + here_len == off2 + HEADER_SIZE + n + b,
                (off2 + HEADER_SIZE + n + rest.len()) % b == m % b,
                b > 0,
        ;
    } else {
        assert((off + here_len) % b == (off2 + HEADER_SIZE + n) % b) by (nonlinear_arith)
            requires
                off + here_len == off2 + HEADER_SIZE + n || off + here_len == off2 + HEADER_SIZE + n + b,
                b > 0,
        ;
    }
}

/// Congruent positions stay congruent when both move by `k`.
proof fn lemma_mod_shift(x: int, y: int, k: int, b: int)
    requires
        b > 0,
        x % b == y % b,
    ensures
        (x + k) % b == (y + k) % b,
{
    vstd::arithmetic::div_mod::lemma_add_mod_noop(x, k, b);
    vstd::arithmetic::div_mod::lemma_add_mod_noop(y, k, b);
}

/// The first fragment of a frame parses back, wherever the frame sits in
/// the log, so long as its block offset matches its position.
#[verifier::spinoff_prover]
#[verifier::rlimit(60)]
pub proof fn lemma_phys_fragment(prefix: Seq<u8>, off: int, data: Seq<u8>, begin: bool, suffix: Seq<u8>)
    requires
        0 <= off <= LOG_BLOCK_SIZE,
        (prefix.len() as int) % (LOG_BLOCK_SIZE as int) == off % (LOG_BLOCK_SIZE as int),
    ensures
        ({
            let left = LOG_BLOCK_SIZE - off;
            let off2 = if left < HEADER_SIZE { 0 } else { off };
            let pad_len = if left < HEADER_SIZE { left } else { 0 };
            let avail = LOG_BLOCK_SIZE - off2 - HEADER_SIZE;
            let n = if data.len() < avail { data.len() as int } else { avail };
            let end = n == data.len();
            let file = prefix + frame(off, data, begin) + suffix;
            &&& phys_at(file, prefix.len() as int) == PhysSpec::Frag(
                frag_type(begin, end),
                data.take(n),
                prefix.len() + pad_len + HEADER_SIZE + n,
            )
            &&& prefix.len() + pad_len + HEADER_SIZE + n <= prefix.len() + frame(off, data, begin).len()
            &&& end ==> frame(off, data, begin).len() == pad_len + HEADER_SIZE + n
            &&& (prefix.len() + pad_len + HEADER_SIZE + n) % (LOG_BLOCK_SIZE as int) == (off2 + HEADER_SIZE
                + n) % (LOG_BLOCK_SIZE as int)
            &&& !end ==> frame(off, data, begin) == zero_fill(pad_len) + physical(frag_type(begin, end), data.take(n)) + frame(off2 + HEADER_SIZE + n, data.skip(n), false)
        }),
{
    lemma_frame_step(off, data, begin);
    lemma_auto_spec_u32_to_from_le_bytes();
    lemma_auto_spec_u16_to_from_le_bytes();
    let b = LOG_BLOCK_SIZE as int;
    let left = LOG_BLOCK_SIZE - off;
    let off2 = if left < HEADER_SIZE { 0 } else { off };
    let pad_len = if left < HEADER_SIZE { left } else { 0 };
    let avail = LOG_BLOCK_SIZE - off2 - HEADER_SIZE;
    let n = if data.len() < avail { data.len() as int } else { avail };
    let end = n == data.len();
    let t = frag_type(begin, end);
    let chunk = data.take(n);
    let pad = if left < HEADER_SIZE { zero_fill(left) } else { Seq::<u8>::empty() };
    assert(pad.len() == pad_len);
    let fr = frame(off, data, begin);
    let rest = if end { Seq::<u8>::empty() } else { frame(off2 + HEADER_SIZE + n, data.skip(n), false) };
    assert(fr =~= pad + physical(t, chunk) + rest);
    let file = prefix + fr + suffix;
    let pos = prefix.len() as int;
    let p = pos + pad_len;
    assert(file =~= (prefix + pad) + physical(t, chunk) + (rest + suffix));
    // the header sits at a block offset of off2
    if left >= HEADER_SIZE {
        vstd::arithmetic::div_mod::lemma_small_mod(off as nat, b as nat);
    } else if off < b {
        vstd::arithmetic::div_mod::lemma_small_mod(off as nat, b as nat);
        lemma_mod_shift(pos, off, b - off, b);
    }
    assert(p % b == off2);
    let ph = physical(t, chunk);
    assert(window(file, p, 4) =~= spec_u32_to_le_bytes(crc32c_of(seq![t] + chunk)));
    assert(window(file, p + 4, 2) =~= spec_u16_to_le_bytes(chunk.len() as u16));
    assert(file[p + 6] == t);
    assert(file.subrange(p + 7, p + 7 + n) =~= chunk);
    assert(phys_at(file, p) == PhysSpec::Frag(t, chunk, p + HEADER_SIZE + n));
    if left < HEADER_SIZE && left > 0 {
        assert(pos % b == off);
        assert(phys_at(file, pos) == phys_at(file, pos + left));
    }
    if left == 0 {
        assert(pos % b == 0) by (nonlinear_arith)
            requires
                pos % b == off % b,
                off == b,
                b > 0,
        ;
    }
    vstd::arithmetic::div_mod::lemma_small_mod(off2 as nat, b as nat);
    lemma_mod_shift(p, off2, HEADER_SIZE + n, b);
}

/// MIDDLE fragments and a LAST one collect back to the rest of a record.
#[verifier::spinoff_prover]
pub proof fn lemma_collect_frame(prefix: Seq<u8>, off: int, data: Seq<u8>, suffix: Seq<u8>, acc: Seq<u8>)
    requires
        0 <= off <= LOG_BLOCK_SIZE,
        (prefix.len() as int) % (LOG_BLOCK_SIZE as int) == off % (LOG_BLOCK_SIZE as int),
    ensures
        collect(prefix + frame(off, data, false) + suffix, prefix.len() as int, acc) == LogRead::Record(
            acc + data,
            prefix.len() + frame(off, data, false).len() as int,
        ),
    decreases 3 * data.len() + (if LOG_BLOCK_SIZE - off < HEADER_SIZE { 1int } else { 2int }),
{
    lemma_phys_fragment(prefix, off, data, false, suffix);
    let left = LOG_BLOCK_SIZE - off;
    let off2 = if left < HEADER_SIZE { 0 } else { off };
    let pad_len = if left < HEADER_SIZE { left } else { 0 };
    let avail = LOG_BLOCK_SIZE - off2 - HEADER_SIZE;
    let n = if data.len() < avail { data.len() as int } else { avail };
    let end = n == data.len();
    let file = prefix + frame(off, data, false) + suffix;
    let next = prefix.len() + pad_len + HEADER_SIZE + n;
    if end {
        assert(data.take(n) =~= data);
    } else {
        let here = zero_fill(pad_len) + physical(frag_type(false, end), data.take(n));
        let prefix2 = prefix + here;
        assert(physical(frag_type(false, end), data.take(n)).len() == HEADER_SIZE + n) by {
            lemma_auto_spec_u32_to_from_le_bytes();
            lemma_auto_spec_u16_to_from_le_bytes();
        }
        assert(prefix2.len() == next);
        let fr2 = frame(off2 + HEADER_SIZE + n, data.skip(n), false);
        assert(file =~= prefix2 + fr2 + suffix);
        lemma_collect_frame(prefix2, off2 + HEADER_SIZE + n, data.skip(n), suffix, acc + data.take(n));
        assert(acc + data.take(n) + data.skip(n) =~= acc + data);
    }
}

/// A frame reads back as the record it holds, and the reader stands after it.
#[verifier::spinoff_prover]
pub proof fn lemma_read_frame(prefix: Seq<u8>, off: int, data: Seq<u8>, suffix: Seq<u8>)
    requires
        0 <= off <= LOG_BLOCK_SIZE,
        (prefix.len() as int) % (LOG_BLOCK_SIZE as int) == off % (LOG_BLOCK_SIZE as int),
    ensures
        next_record(prefix + frame(off, data, true) + suffix, prefix.len() as int) == LogRead::Record(
            data,
            prefix.len() + frame(off, data, true).len() as int,
        ),
{
    lemma_phys_fragment(prefix, off, data, true, suffix);
    let left = LOG_BLOCK_SIZE - off;
    let off2 = if left < HEADER_SIZE { 0 } else { off };
    let pad_len = if left < HEADER_SIZE { left } else { 0 };
    let avail = LOG_BLOCK_SIZE - off2 - HEADER_SIZE;
    let n = if data.len() < avail { data.len() as int } else { avail };
    let end = n == data.len();
    let file = prefix + frame(off, data, true) + suffix;
    let next = prefix.len() + pad_len + HEADER_SIZE + n;
    if end {
        assert(data.take(n) =~= data);
    } else {
        let here = zero_fill(pad_len) + physical(frag_type(true, end), data.take(n));
        let prefix2 = prefix + here;
        assert(physical(frag_type(true, end), data.take(n)).len() == HEADER_SIZE + n) by {
            lemma_auto_spec_u32_to_from_le_bytes();
            lemma_auto_spec_u16_to_from_le_bytes();
        }
        let fr2 = frame(off2 + HEADER_SIZE + n, data.skip(n), false);
        assert(file =~= prefix2 + fr2 + suffix);
        lemma_frame_len(off2 + HEADER_SIZE + n, data.skip(n), false);
        lemma_collect_frame(prefix2, off2 + HEADER_SIZE + n, data.skip(n), suffix, data.take(n));
        assert(data.take(n) + data.skip(n) =~= data);
        assert(next < file.len());
    }
}

/// What a writer that starts on an empty log writes for `rs`, in order.
pub open spec fn log_bytes(rs: Seq<Seq<u8>>) -> Seq<u8>
    decreases rs.len(),
{
    if rs.len() == 0 {
        Seq::empty()
    } else {
        log_bytes(rs.drop_last()) + frame(log_off(rs.drop_last()), rs.last(), true)
    }
}

/// The writer's block offset after writing `rs` to an empty log.
pub open spec fn log_off(rs: Seq<Seq<u8>>) -> int
    decreases rs.len(),
{
    if rs.len() == 0 {
        0
    } else {
        offset_after(log_off(rs.drop_last()), rs.last())
    }
}

proof fn lemma_log_off(rs: Seq<Seq<u8>>)
    ensures
        0 <= log_off(rs) <= LOG_BLOCK_SIZE,
        (log_bytes(rs).len() as int) % (LOG_BLOCK_SIZE as int) == log_off(rs) % (LOG_BLOCK_SIZE as int),
    decreases rs.len(),
{
    if rs.len() > 0 {
        let r2 = rs.drop_last();
        lemma_log_off(r2);
        let off = log_off(r2);
        lemma_frame_len(off, rs.last(), true);
        let b = LOG_BLOCK_SIZE as int;
        let a = log_bytes(r2).len() as int;
        let f = frame(off, rs.last(), true).len() as int;
        let m = log_off(rs);
        lemma_mod_shift(a, off, f, b);
    }
}

proof fn lemma_log_prefix(rs: Seq<Seq<u8>>, m: int)
    requires
        0 <= m <= rs.len(),
    ensures
        log_bytes(rs.take(m)).len() <= log_bytes(rs).len(),
        log_bytes(rs).take(log_bytes(rs.take(m)).len() as int) == log_bytes(rs.take(m)),
    decreases rs.len(),
{
    if m == rs.len() {
        assert(rs.take(m) =~= rs);
        assert(log_bytes(rs).take(log_bytes(rs).len() as int) =~= log_bytes(rs));
    } else {
        let r2 = rs.drop_last();
        lemma_log_prefix(r2, m);
        assert(r2.take(m) =~= rs.take(m));
        assert(log_bytes(rs).take(log_bytes(rs.take(m)).len() as int) =~= log_bytes(r2).take(
            log_bytes(rs.take(m)).len() as int,
        ));
    }
}

/// A reader hands back exactly the records that the writer appended, in
/// order and whole, however block boundaries cut them; after the last one
/// it finds the end of the log.
pub proof fn lemma_log_round_trip(rs: Seq<Seq<u8>>, k: int)
    requires
        0 <= k <= rs.len(),
    ensures
        k < rs.len() ==> next_record(log_bytes(rs), log_bytes(rs.take(k)).len() as int) == LogRead::Record(
            rs[k],
            log_bytes(rs.take(k + 1)).len() as int,
        ),
        k == rs.len() ==> next_record(log_bytes(rs), log_bytes(rs.take(k)).len() as int) == LogRead::End,
{
    if k < rs.len() {
        let pre = rs.take(k);
        let upto = rs.take(k + 1);
        assert(upto.drop_last() =~= pre);
        assert(upto.last() == rs[k]);
        lemma_log_off(pre);
        lemma_log_prefix(rs, k + 1);
        let whole = log_bytes(rs);
        let suffix = whole.skip(log_bytes(upto).len() as int);
        assert(whole =~= log_bytes(pre) + frame(log_off(pre), rs[k], true) + suffix);
        lemma_read_frame(log_bytes(pre), log_off(pre), rs[k], suffix);
    } else {
        assert(rs.take(k) =~= rs);
    }
}

/// Appends records to a log held in memory.
pub struct LogWriter {
    dest: Vec<u8>,
    block_offset: usize,
}

impl LogWriter {
    /// The bytes written so far.
    pub closed spec fn view(&self) -> Seq<u8> {
        self.dest@
    }

    /// How many bytes of the current block are used.
    pub closed spec fn spec_block_offset(&self) -> int {
        self.block_offset as int
    }

    pub closed spec fn wf(&self) -> bool {
        self.block_offset <= LOG_BLOCK_SIZE
    }

    /// A writer at the start of an empty log.
    pub fn new() -> (r: LogWriter)
        ensures
            r.wf(),
            r.view() == Seq::<u8>::empty(),
            r.spec_block_offset() == 0,
    {
        LogWriter { dest: Vec::new(), block_offset: 0 }
    }

    /// The bytes written.
    pub fn into_inner(self) -> (r: Vec<u8>)
        ensures
            r@ == self.view(),
    {
        self.dest
    }

    /// The bytes written so far.
    pub fn contents(&self) -> (r: &Vec<u8>)
        ensures
            r@ == self.view(),
    {
        &self.dest
    }

    /// Appends one logical record.
    #[verifier::rlimit(100)]
    #[verifier::spinoff_prover]
    pub fn add_record(&mut self, record: &[u8])
        requires
            old(self).wf(),
        ensures
            final(self).wf(),
            final(self).view() == old(self).view() + frame(old(self).spec_block_offset(), record@, true),
            final(self).spec_block_offset() == offset_after(old(self).spec_block_offset(), record@),
    {
        let mut pos: usize = 0;
        let mut begin = true;
        let n = record.len();
        let ghost start = self.dest@;
        let ghost off0 = self.block_offset as int;
        let ghost mut w: Seq<u8> = Seq::empty();
        proof {
            assert(record@.skip(0) =~= record@);
            assert(self.dest@ =~= start + w);
        }
        loop
            invariant_except_break
                self.wf(),
                pos <= n,
                n == record@.len(),
                begin ==> pos == 0,
                self.dest@ == start + w,
                frame(off0, record@, true) == w + frame(self.block_offset as int, record@.skip(pos as int), begin),
                offset_after(off0, record@) == offset_after(self.block_offset as int, record@.skip(pos as int)),
            ensures
                self.wf(),
                self.dest@ == start + frame(off0, record@, true),
                self.block_offset == offset_after(off0, record@),
            decreases 3 * (n - pos) + (if LOG_BLOCK_SIZE - self.block_offset < HEADER_SIZE { 1int } else { 2int }),
        {
            let ghost rest = record@.skip(pos as int);
            let ghost before = self.dest@;
            let ghost off = self.block_offset as int;
            proof {
                lemma_frame_step(off, rest, begin);
            }
            let left = LOG_BLOCK_SIZE - self.block_offset;
            if left < HEADER_SIZE {
                let mut z: usize = 0;
                while z < left
                    invariant
                        z <= left,
                        self.dest@ == before + zero_fill(z as int),
                    decreases left - z,
                {
                    self.dest.push(0u8);
                    proof {
                        assert(self.dest@ =~= before + zero_fill(z + 1));
                    }
                    z = z + 1;
                }
                self.block_offset = 0;
            }
            let avail = LOG_BLOCK_SIZE - self.block_offset - HEADER_SIZE;
            let take = if n - pos < avail {
                n - pos
            } else {
                avail
            };
            let end = pos + take == n;
            let t: u8 = if begin && end {
                FULL
            } else if begin {
                FIRST
            } else if end {
                LAST
            } else {
                MIDDLE
            };
            let payload = vstd::slice::slice_subrange(record, pos, pos + take);
            let mut typed: Vec<u8> = Vec::new();
            typed.push(t);
            put_bytes(&mut typed, payload);
            let crc = crc32c(typed.as_slice());
            put_u32(&mut self.dest, crc);
            put_u16(&mut self.dest, take as u16);
            self.dest.push(t);
            put_bytes(&mut self.dest, payload);
            self.block_offset = self.block_offset + HEADER_SIZE + take;
            let ghost pad = if LOG_BLOCK_SIZE - off < HEADER_SIZE {
                zero_fill(LOG_BLOCK_SIZE - off)
            } else {
                Seq::<u8>::empty()
            };
            let ghost here = pad + physical(t, rest.take(take as int));
            proof {
                assert(payload@ =~= rest.take(take as int));
                assert(typed@ =~= seq![t] + payload@);
                assert(self.dest@ =~= before + here);
                assert(rest.skip(take as int) =~= record@.skip(pos + take));
                assert(t == frag_type(begin, end));
                w = w + here;
                assert(self.dest@ =~= start + w);
            }
            pos = pos + take;
            begin = false;
            if end {
                break;
            }
            proof {
                assert(take > 0 || LOG_BLOCK_SIZE - self.block_offset < HEADER_SIZE);
            }
        }
    }
}

/// A physical record as the reader sees it.
pub enum PhysSpec {
    /// Type, payload, and where the next physical record starts.
    Frag(u8, Seq<u8>, int),
    /// The log ends here (possibly inside a record).
    Eof,
    /// A bad checksum, a bad type, or a length past the block.
    Bad,
}

/// The physical record at `pos`, skipping the zero fill at a block's end.
pub open spec fn phys_at(data: Seq<u8>, pos: int) -> PhysSpec
    decreases data.len() - pos,
{
    if pos < 0 || pos >= data.len() {
        PhysSpec::Eof
    } else {
        let left = LOG_BLOCK_SIZE - pos % (LOG_BLOCK_SIZE as int);
        if left < HEADER_SIZE {
            if left > 0 && pos + left <= data.len() {
                phys_at(data, pos + left)
            } else {
                PhysSpec::Eof
            }
        } else if pos + HEADER_SIZE > data.len() {
            PhysSpec::Eof
        } else {
            let len = spec_u16_from_le_bytes(window(data, pos + 4, 2)) as int;
            let t = data[pos + 6];
            if HEADER_SIZE + len > left {
                PhysSpec::Bad
            } else if pos + HEADER_SIZE + len > data.len() {
                PhysSpec::Eof
            } else {
                let payload = data.subrange(pos + HEADER_SIZE, pos + HEADER_SIZE + len);
                if spec_u32_from_le_bytes(window(data, pos, 4)) != crc32c_of(seq![t] + payload) {
                    PhysSpec::Bad
                } else if t < FULL || t > LAST {
                    PhysSpec::Bad
                } else {
                    PhysSpec::Frag(t, payload, pos + HEADER_SIZE + len)
                }
            }
        }
    }
}

/// What reading a logical record gives.
pub enum LogRead {
    /// The record, and where the next one starts.
    Record(Seq<u8>, int),
    /// No further record: the log ends, maybe inside a record.
    End,
    /// A corrupt or out-of-order fragment.
    Bad,
}

/// Collects MIDDLE fragments after `acc` up to the LAST one.
pub open spec fn collect(data: Seq<u8>, pos: int, acc: Seq<u8>) -> LogRead
    decreases data.len() - pos,
{
    match phys_at(data, pos) {
        PhysSpec::Eof => LogRead::End,
        PhysSpec::Bad => LogRead::Bad,
        PhysSpec::Frag(t, p, next) => if next <= pos || next > data.len() {
            LogRead::Bad
        } else if t == MIDDLE {
            collect(data, next, acc + p)
        } else if t == LAST {
            LogRead::Record(acc + p, next)
        } else {
            LogRead::Bad
        },
    }
}

/// The logical record at `pos`.
pub open spec fn next_record(data: Seq<u8>, pos: int) -> LogRead {
    match phys_at(data, pos) {
        PhysSpec::Eof => LogRead::End,
        PhysSpec::Bad => LogRead::Bad,
        PhysSpec::Frag(t, p, next) => if t == FULL {
            LogRead::Record(p, next)
        } else if t == FIRST && pos < next <= data.len() {
            collect(data, next, p)
        } else {
            LogRead::Bad
        },
    }
}

/// A physical record found by the reader: type, payload bounds, next position.
enum Phys {
    Frag(u8, usize, usize, usize),
    Eof,
    Bad,
}

/// Reads the physical record at `pos`.
fn read_physical(data: &[u8], pos: usize) -> (r: Phys)
    ensures
        match (r, phys_at(data@, pos as int)) {
            (Phys::Frag(t, a, b, next), PhysSpec::Frag(st, sp, snext)) => t == st && a <= b <= data@.len()
                && data@.subrange(a as int, b as int) == sp && next == snext && pos < next <= data@.len(),
            (Phys::Eof, PhysSpec::Eof) => true,
            (Phys::Bad, PhysSpec::Bad) => true,
            _ => false,
        },
{
    let n = data.len();
    if pos >= n {
        return Phys::Eof;
    }
    let mut p = pos;
    let left0 = LOG_BLOCK_SIZE - pos % LOG_BLOCK_SIZE;
    if left0 < HEADER_SIZE {
        if left0 >= n - pos {
            proof {
                if pos + left0 == n {
                    assert(phys_at(data@, (pos + left0) as int) == PhysSpec::Eof);
                }
            }
            return Phys::Eof;
        }
        p = pos + left0;
    }
    let left = LOG_BLOCK_SIZE - p % LOG_BLOCK_SIZE;
    proof {
        assert(phys_at(data@, pos as int) == phys_at(data@, p as int));
    }
    if n - p < HEADER_SIZE {
        return Phys::Eof;
    }
    let len = get_u16(data, p + 4).unwrap() as usize;
    let t = data[p + 6];
    if HEADER_SIZE + len > left {
        return Phys::Bad;
    }
    if n - p - HEADER_SIZE < len {
        return Phys::Eof;
    }
    let stored = get_u32(data, p).unwrap();
    let mut typed: Vec<u8> = Vec::new();
    typed.push(t);
    put_bytes(&mut typed, vstd::slice::slice_subrange(data, p + HEADER_SIZE, p + HEADER_SIZE + len));
    proof {
        assert(typed@ =~= seq![t] + data@.subrange(p + HEADER_SIZE, p + HEADER_SIZE + len));
    }
    if stored != crc32c(typed.as_slice()) {
        return Phys::Bad;
    }
    if t < FULL || t > LAST {
        return Phys::Bad;
    }
    Phys::Frag(t, p + HEADER_SIZE, p + HEADER_SIZE + len, p + HEADER_SIZE + len)
}

/// Reads logical records from a log held in memory.
pub struct LogReader {
    data: Vec<u8>,
    pos: usize,
}

impl LogReader {
    pub closed spec fn spec_data(&self) -> Seq<u8> {
        self.data@
    }

    /// Where the next record starts.
    pub closed spec fn spec_pos(&self) -> int {
        self.pos as int
    }

    pub fn new(data: Vec<u8>) -> (r: LogReader)
        ensures
            r.spec_data() == data@,
            r.spec_pos() == 0,
    {
        LogReader { data, pos: 0 }
    }

    /// The next logical record: `Ok(None)` at the end of the log (a record
    /// cut short by the end is not handed out), `Corruption` for a bad
    /// checksum or a fragment out of order.
    pub fn read_record(&mut self) -> (r: Result<Option<Vec<u8>>, ErrorKind>)
        ensures
            final(self).spec_data() == old(self).spec_data(),
            match next_record(old(self).spec_data(), old(self).spec_pos()) {
                LogRead::Record(p, next) => r.is_ok() && r.unwrap().is_some() && r.unwrap().unwrap()@ == p
                    && final(self).spec_pos() == next,
                LogRead::End => r == Ok::<Option<Vec<u8>>, ErrorKind>(None) && final(self).spec_pos()
                    == old(self).spec_pos(),
                LogRead::Bad => r == Err::<Option<Vec<u8>>, ErrorKind>(ErrorKind::Corruption)
                    && final(self).spec_pos() == old(self).spec_pos(),
            },
    {
        let ghost data = self.data@;
        let start = self.pos;
        match read_physical(self.data.as_slice(), start) {
            Phys::Eof => Ok(None),
            Phys::Bad => Err(ErrorKind::Corruption),
            Phys::Frag(t, a, b, next) => {
                let payload = vstd::slice::slice_to_vec(vstd::slice::slice_subrange(self.data.as_slice(), a, b));
                if t == FULL {
                    self.pos = next;
                    return Ok(Some(payload));
                }
                if t != FIRST {
                    return Err(ErrorKind::Corruption);
                }
                let mut acc = payload;
                let mut p = next;
                loop
                    invariant
                        self.data@ == data,
                        old(self).spec_data() == data,
                        old(self).spec_pos() == start,
                        self.pos == start,
                        start < p <= data.len(),
                        next_record(data, start as int) == collect(data, p as int, acc@),
                    decreases data.len() - p,
                {
                    match read_physical(self.data.as_slice(), p) {
                        Phys::Eof => {
                            return Ok(None);
                        },
                        Phys::Bad => {
                            return Err(ErrorKind::Corruption);
                        },
                        Phys::Frag(t2, a2, b2, next2) => {
                            let ghost old_acc = acc@;
                            put_bytes(&mut acc, vstd::slice::slice_subrange(self.data.as_slice(), a2, b2));
                            if t2 == MIDDLE {
                                p = next2;
                            } else if t2 == LAST {
                                self.pos = next2;
                                return Ok(Some(acc));
                            } else {
                                return Err(ErrorKind::Corruption);
                            }
                        },
                    }
                }
            },
        }
    }
}

} // verus!
