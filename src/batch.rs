//! A write batch: operations applied together under consecutive sequence
//! numbers, and its encoding as a write-ahead-log record.
//!
//! `u64 sequence | u32 count | per op: u8 kind | u32 key_len | key
//! [| u32 value_len | value, for a value]`, all integers little-endian.
use crate::coding::{get_u32, get_u64, put_bytes, put_u32, put_u64, window};
use crate::error::ErrorKind;
use crate::ikey::{kind_code, KeyKind};
use vstd::bytes::*;
use vstd::prelude::*;

verus! {

/// An operation: kind, key, value (empty for a deletion).
pub type OpSpec = (KeyKind, Seq<u8>, Seq<u8>);

/// The bytes of one operation.
pub open spec fn op_bytes(op: OpSpec) -> Seq<u8> {
    seq![kind_code(op.0) as u8] + spec_u32_to_le_bytes(op.1.len() as u32) + op.1 + if op.0
        == KeyKind::Value {
        spec_u32_to_le_bytes(op.2.len() as u32) + op.2
    } else {
        Seq::empty()
    }
}

/// The bytes of the operations, in order.
pub open spec fn ops_bytes(ops: Seq<OpSpec>) -> Seq<u8>
    decreases ops.len(),
{
    if ops.len() == 0 {
        Seq::empty()
    } else {
        op_bytes(ops[0]) + ops_bytes(ops.drop_first())
    }
}

/// The record of a batch that starts at sequence `seq`.
pub open spec fn batch_bytes(seq: u64, ops: Seq<OpSpec>) -> Seq<u8> {
    spec_u64_to_le_bytes(seq) + spec_u32_to_le_bytes(ops.len() as u32) + ops_bytes(ops)
}

/// The `u32` stored at `off`.
pub open spec fn u32_field(s: Seq<u8>, off: int) -> int {
    spec_u32_from_le_bytes(window(s, off, 4)) as int
}

/// Decodes `count` operations that fill `data` exactly.
pub open spec fn decode_ops(data: Seq<u8>, count: nat) -> Option<Seq<OpSpec>>
    decreases count,
{
    if count == 0 {
        if data.len() == 0 {
            Some(Seq::empty())
        } else {
            None
        }
    } else if data.len() < 5 || data[0] > 1 {
        None
    } else {
        let klen = u32_field(data, 1);
        if 5 + klen > data.len() {
            None
        } else {
            let key = data.subrange(5, 5 + klen);
            if data[0] == 1 {
                match decode_ops(data.skip(5 + klen), (count - 1) as nat) {
                    Some(rest) => Some(seq![(KeyKind::Delete, key, Seq::<u8>::empty())] + rest),
                    None => None,
                }
            } else if 5 + klen + 4 > data.len() {
                None
            } else {
                let vlen = u32_field(data, 5 + klen);
                if 9 + klen + vlen > data.len() {
                    None
                } else {
                    let value = data.subrange(9 + klen, 9 + klen + vlen);
                    match decode_ops(data.skip(9 + klen + vlen), (count - 1) as nat) {
                        Some(rest) => Some(seq![(KeyKind::Value, key, value)] + rest),
                        None => None,
                    }
                }
            }
        }
    }
}

/// The sequence and operations of a record, if it decodes.
pub open spec fn decode_batch(data: Seq<u8>) -> Option<(u64, Seq<OpSpec>)> {
    if data.len() < 12 {
        None
    } else {
        match decode_ops(data.skip(12), u32_field(data, 8) as nat) {
            Some(ops) => Some((spec_u64_from_le_bytes(window(data, 0, 8)), ops)),
            None => None,
        }
    }
}

/// Operations whose keys and values fit their length fields; deletions
/// carry no value.
pub open spec fn ops_sound(ops: Seq<OpSpec>) -> bool {
    forall|i: int|
        0 <= i < ops.len() ==> (#[trigger] ops[i]).1.len() <= u32::MAX && ops[i].2.len() <= u32::MAX
            && (ops[i].0 == KeyKind::Delete ==> ops[i].2.len() == 0)
}

/// An encoded batch decodes back to its sequence and operations.
pub proof fn lemma_batch_round_trip(seq: u64, ops: Seq<OpSpec>)
    requires
        ops_sound(ops),
        ops.len() <= u32::MAX,
    ensures
        decode_batch(batch_bytes(seq, ops)) == Some((seq, ops)),
{
    lemma_auto_spec_u32_to_from_le_bytes();
    lemma_auto_spec_u64_to_from_le_bytes();
    let b = batch_bytes(seq, ops);
    assert(window(b, 0, 8) =~= spec_u64_to_le_bytes(seq));
    assert(window(b, 8, 4) =~= spec_u32_to_le_bytes(ops.len() as u32));
    assert(b.skip(12) =~= ops_bytes(ops));
    lemma_ops_round_trip(ops);
}

proof fn lemma_ops_round_trip(ops: Seq<OpSpec>)
    requires
        ops_sound(ops),
    ensures
        decode_ops(ops_bytes(ops), ops.len()) == Some(ops),
    decreases ops.len(),
{
    lemma_auto_spec_u32_to_from_le_bytes();
    if ops.len() == 0 {
        assert(ops =~= Seq::<OpSpec>::empty());
    } else {
        let op = ops[0];
        let rest = ops.drop_first();
        assert(ops_sound(rest)) by {
            assert forall|i: int| 0 <= i < rest.len() implies (#[trigger] rest[i]).1.len() <= u32::MAX
                && rest[i].2.len() <= u32::MAX && (rest[i].0 == KeyKind::Delete ==> rest[i].2.len() == 0) by {
                assert(rest[i] == ops[i + 1]);
            }
        }
        lemma_ops_round_trip(rest);
        let d = ops_bytes(ops);
        let tail = ops_bytes(rest);
        let kl = op.1.len() as int;
        assert(d == op_bytes(op) + tail);
        assert(window(d, 1, 4) =~= spec_u32_to_le_bytes(kl as u32));
        assert(d.subrange(5, 5 + kl) =~= op.1);
        if op.0 == KeyKind::Delete {
            assert(op.2 =~= Seq::<u8>::empty());
            assert(d.skip(5 + kl) =~= tail);
        } else {
            let vl = op.2.len() as int;
            assert(window(d, 5 + kl, 4) =~= spec_u32_to_le_bytes(vl as u32));
            assert(d.subrange(9 + kl, 9 + kl + vl) =~= op.2);
            assert(d.skip(9 + kl + vl) =~= tail);
        }
        assert(seq![op] + rest =~= ops);
    }
}

/// Operations to apply together.
pub struct WriteBatch {
    ops: Vec<(KeyKind, Vec<u8>, Vec<u8>)>,
}

impl WriteBatch {
    pub closed spec fn view(&self) -> Seq<OpSpec> {
        Seq::new(self.ops@.len(), |i: int| (self.ops@[i].0, self.ops@[i].1@, self.ops@[i].2@))
    }

    pub fn new() -> (r: WriteBatch)
        ensures
            r@ == Seq::<OpSpec>::empty(),
    {
        let r = WriteBatch { ops: Vec::new() };
        proof {
            assert(r@ =~= Seq::<OpSpec>::empty());
        }
        r
    }

    /// Adds a write of `value` under `key`.
    pub fn put(&mut self, key: &[u8], value: &[u8])
        ensures
            final(self)@ == old(self)@.push((KeyKind::Value, key@, value@)),
    {
        self.ops.push((KeyKind::Value, vstd::slice::slice_to_vec(key), vstd::slice::slice_to_vec(value)));
        proof {
            assert(final(self)@ =~= old(self)@.push((KeyKind::Value, key@, value@)));
        }
    }

    /// Adds a deletion of `key`.
    pub fn delete(&mut self, key: &[u8])
        ensures
            final(self)@ == old(self)@.push((KeyKind::Delete, key@, Seq::<u8>::empty())),
    {
        self.ops.push((KeyKind::Delete, vstd::slice::slice_to_vec(key), Vec::new()));
        proof {
            assert(final(self)@ =~= old(self)@.push((KeyKind::Delete, key@, Seq::<u8>::empty())));
        }
    }

    /// The number of operations.
    pub fn count(&self) -> (r: usize)
        ensures
            r == self@.len(),
    {
        self.ops.len()
    }

    /// Operation `i`: kind, key, value.
    pub fn op(&self, i: usize) -> (r: (KeyKind, &[u8], &[u8]))
        requires
            i < self@.len(),
        ensures
            r.0 == self@[i as int].0,
            r.1@ == self@[i as int].1,
            r.2@ == self@[i as int].2,
    {
        let op = &self.ops[i];
        (op.0, op.1.as_slice(), op.2.as_slice())
    }

    /// The log record of this batch when it starts at sequence `seq`.
    pub fn encode(&self, seq: u64) -> (r: Vec<u8>)
        requires
            ops_sound(self@),
            self@.len() <= u32::MAX,
        ensures
            r@ == batch_bytes(seq, self@),
    {
        let mut r: Vec<u8> = Vec::new();
        put_u64(&mut r, seq);
        put_u32(&mut r, self.ops.len() as u32);
        let ghost head = r@;
        let mut i: usize = 0;
        proof {
            assert(self@.skip(0) =~= self@);
        }
        while i < self.ops.len()
            invariant
                ops_sound(self@),
                i <= self@.len(),
                ops_bytes(self@) == r@.skip(head.len() as int) + ops_bytes(self@.skip(i as int)),
                r@.take(head.len() as int) == head,
                r@.len() >= head.len(),
            decreases self@.len() - i,
        {
            let ghost before = r@;
            let op = &self.ops[i];
            proof {
                assert(self@[i as int] == (op.0, op.1@, op.2@));
                assert(self@.skip(i as int)[0] == self@[i as int]);
                assert(self@.skip(i as int).drop_first() =~= self@.skip(i + 1));
            }
            r.push(op.0.code());
            put_u32(&mut r, op.1.len() as u32);
            put_bytes(&mut r, op.1.as_slice());
            match op.0 {
                KeyKind::Value => {
                    put_u32(&mut r, op.2.len() as u32);
                    put_bytes(&mut r, op.2.as_slice());
                },
                KeyKind::Delete => {},
            }
            proof {
                assert(r@ =~= before + op_bytes(self@[i as int]));
                assert(r@.skip(head.len() as int) =~= before.skip(head.len() as int) + op_bytes(self@[i as int]));
                assert(r@.take(head.len() as int) =~= before.take(head.len() as int));
            }
            i = i + 1;
        }
        proof {
            assert(self@.skip(i as int) =~= Seq::<OpSpec>::empty());
            assert(r@ =~= r@.take(head.len() as int) + r@.skip(head.len() as int));
            assert(head =~= spec_u64_to_le_bytes(seq) + spec_u32_to_le_bytes(self@.len() as u32));
        }
        r
    }

    /// Decodes a log record into its sequence and batch; `Corruption` unless
    /// it holds exactly the operations its count says.
    pub fn decode(data: &[u8]) -> (r: Result<(u64, WriteBatch), ErrorKind>)
        ensures
            match decode_batch(data@) {
                Some((seq, ops)) => r.is_ok() && r.unwrap().0 == seq && r.unwrap().1@ == ops,
                None => r == Err::<(u64, WriteBatch), ErrorKind>(ErrorKind::Corruption),
            },
    {
        let n = data.len();
        if n < 12 {
            return Err(ErrorKind::Corruption);
        }
        let seq = get_u64(data, 0).unwrap();
        let count = get_u32(data, 8).unwrap();
        let mut ops: Vec<(KeyKind, Vec<u8>, Vec<u8>)> = Vec::new();
        let mut pos: usize = 12;
        let mut left: u32 = count;
        let ghost whole = data@.skip(12);
        proof {
            assert(data@.skip(12) =~= data@.skip(pos as int));
            assert(Seq::new(ops@.len(), |i: int| (ops@[i].0, ops@[i].1@, ops@[i].2@)) =~= Seq::<OpSpec>::empty());
        }
        while left > 0
            invariant
                n == data@.len(),
                12 <= pos <= n,
                whole == data@.skip(12),
                count as int == u32_field(data@, 8),
                decode_ops(whole, count as nat) == match decode_ops(data@.skip(pos as int), left as nat) {
                    Some(rest) => Some(Seq::new(ops@.len(), |i: int| (ops@[i].0, ops@[i].1@, ops@[i].2@)) + rest),
                    None => None::<Seq<OpSpec>>,
                },
            decreases left,
        {
            let ghost d = data@.skip(pos as int);
            let ghost acc = Seq::new(ops@.len(), |i: int| (ops@[i].0, ops@[i].1@, ops@[i].2@));
            if n - pos < 5 || data[pos] > 1 {
                proof {
                    if n - pos >= 5 {
                        assert(d[0] == data@[pos as int]);
                    }
                    assert(decode_ops(d, left as nat).is_none());
                    assert(decode_ops(whole, count as nat).is_none());
                    assert(u32_field(data@, 8) == count);
                }
                return Err(ErrorKind::Corruption);
            }
            let tag = data[pos];
            let klen = get_u32(data, pos + 1).unwrap() as usize;
            proof {
                assert(d[0] == tag);
                assert(window(data@, pos + 1, 4) =~= window(d, 1, 4));
            }
            if klen > n - pos - 5 {
                proof {
                    assert(decode_ops(d, left as nat).is_none());
                    assert(u32_field(data@, 8) == count);
                }
                return Err(ErrorKind::Corruption);
            }
            let key = vstd::slice::slice_to_vec(vstd::slice::slice_subrange(data, pos + 5, pos + 5 + klen));
            proof {
                assert(key@ =~= d.subrange(5, 5 + klen));
            }
            if tag == 1 {
                proof {
                    assert(d.skip(5 + klen) =~= data@.skip(pos + 5 + klen));
                }
                ops.push((KeyKind::Delete, key, Vec::new()));
                pos = pos + 5 + klen;
                proof {
                    let acc2 = Seq::new(ops@.len(), |i: int| (ops@[i].0, ops@[i].1@, ops@[i].2@));
                    assert(acc2 =~= acc.push((KeyKind::Delete, d.subrange(5, 5 + klen as int), Seq::<u8>::empty())));
                    match decode_ops(data@.skip(pos as int), (left - 1) as nat) {
                        Some(rest) => {
                            assert(acc + (seq![(KeyKind::Delete, d.subrange(5, 5 + klen as int), Seq::<u8>::empty())] + rest) =~= acc2 + rest);
                        },
                        None => {},
                    }
                }
            } else {
                if n - pos - 5 - klen < 4 {
                    return Err(ErrorKind::Corruption);
                }
                let vlen = get_u32(data, pos + 5 + klen).unwrap() as usize;
                proof {
                    assert(window(data@, pos + 5 + klen, 4) =~= window(d, 5 + klen, 4));
                }
                if vlen > n - pos - 9 - klen {
                    return Err(ErrorKind::Corruption);
                }
                let value = vstd::slice::slice_to_vec(
                    vstd::slice::slice_subrange(data, pos + 9 + klen, pos + 9 + klen + vlen),
                );
                proof {
                    assert(value@ =~= d.subrange(9 + klen, 9 + klen + vlen));
                    assert(d.skip(9 + klen + vlen) =~= data@.skip(pos + 9 + klen + vlen));
                }
                ops.push((KeyKind::Value, key, value));
                pos = pos + 9 + klen + vlen;
                proof {
                    let acc2 = Seq::new(ops@.len(), |i: int| (ops@[i].0, ops@[i].1@, ops@[i].2@));
                    let op = (KeyKind::Value, d.subrange(5, 5 + klen as int), d.subrange(9 + klen, 9 + klen + vlen));
                    assert(acc2 =~= acc.push(op));
                    match decode_ops(data@.skip(pos as int), (left - 1) as nat) {
                        Some(rest) => {
                            assert(acc + (seq![op] + rest) =~= acc2 + rest);
                        },
                        None => {},
                    }
                }
            }
            left = left - 1;
        }
        if pos != n {
            return Err(ErrorKind::Corruption);
        }
        proof {
            assert(data@.skip(pos as int) =~= Seq::<u8>::empty());
            let acc = Seq::new(ops@.len(), |i: int| (ops@[i].0, ops@[i].1@, ops@[i].2@));
            assert(acc + Seq::<OpSpec>::empty() =~= acc);
        }
        let b = WriteBatch { ops };
        Ok((seq, b))
    }
}

} // verus!
