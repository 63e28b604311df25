//! Internal keys: a user key tagged with a sequence number and a kind.
//!
//! Encoded form: `u32 len(user_key) | user_key | u64 ((sequence << 8) | kind)`,
//! all integers little-endian.
use crate::coding::{get_u32, get_u64, put_bytes, put_u32, put_u64, window};
use crate::comparator::{compare_bytes, encoded_trailer, encoded_user_key, ikey_order};
use std::cmp::Ordering;
use vstd::bytes::*;
use vstd::prelude::*;

verus! {

/// The largest sequence number: sequences take the upper 56 bits of a trailer.
pub const MAX_SEQUENCE: u64 = 0x00ff_ffff_ffff_ffff;

/// Whether an entry holds a value or marks its key deleted.
#[derive(Clone, Copy, Debug, PartialEq, Eq, Structural)]
pub enum KeyKind {
    Value,
    Delete,
}

/// The code of a kind in the low byte of a trailer.
pub open spec fn kind_code(k: KeyKind) -> u64 {
    match k {
        KeyKind::Value => 0,
        KeyKind::Delete => 1,
    }
}

/// The kind with the given code, if there is one.
pub open spec fn kind_of_code(c: int) -> Option<KeyKind> {
    if c == 0 {
        Some(KeyKind::Value)
    } else if c == 1 {
        Some(KeyKind::Delete)
    } else {
        None
    }
}

/// `(sequence << 8) | kind`.
pub open spec fn pack_trailer(seq: u64, kind: KeyKind) -> u64 {
    (seq * 256 + kind_code(kind)) as u64
}

/// The encoded form of an internal key.
pub open spec fn encode_ikey(user_key: Seq<u8>, seq: u64, kind: KeyKind) -> Seq<u8> {
    spec_u32_to_le_bytes(user_key.len() as u32) + user_key + spec_u64_to_le_bytes(
        pack_trailer(seq, kind),
    )
}

impl KeyKind {
    /// The kind with code `v`; codes other than 0 and 1 are rejected.
    pub fn from(v: u8) -> (r: Option<KeyKind>)
        ensures
            r == kind_of_code(v as int),
    {
        if v == 0 {
            Some(KeyKind::Value)
        } else if v == 1 {
            Some(KeyKind::Delete)
        } else {
            None
        }
    }

    pub fn code(&self) -> (r: u8)
        ensures
            r as u64 == kind_code(*self),
    {
        match self {
            KeyKind::Value => 0,
            KeyKind::Delete => 1,
        }
    }
}

/// A user key with its sequence number and kind.
#[derive(Clone, Debug)]
pub struct InternalKey {
    user_key: Vec<u8>,
    seq: u64,
    kind: KeyKind,
}

impl InternalKey {
    pub closed spec fn spec_user_key(&self) -> Seq<u8> {
        self.user_key@
    }

    pub closed spec fn spec_seq(&self) -> u64 {
        self.seq
    }

    pub closed spec fn spec_kind(&self) -> KeyKind {
        self.kind
    }

    /// The key's length fits the prefix and its sequence fits 56 bits.
    pub open spec fn wf(&self) -> bool {
        self.spec_user_key().len() <= u32::MAX - 12 && self.spec_seq() <= MAX_SEQUENCE
    }

    /// The encoded form of this key.
    pub open spec fn spec_encoded(&self) -> Seq<u8> {
        encode_ikey(self.spec_user_key(), self.spec_seq(), self.spec_kind())
    }

    /// Decodes an encoded internal key; fails unless `inner` is exactly one
    /// well-formed encoding.
    pub fn from(inner: &[u8]) -> (r: Option<InternalKey>)
        ensures
            r.is_some() <==> exists|u: Seq<u8>, s: u64, k: KeyKind|
                u.len() <= u32::MAX - 12 && s <= MAX_SEQUENCE && #[trigger] encode_ikey(u, s, k)
                    == inner@,
            r.is_some() ==> r.unwrap().wf() && r.unwrap().spec_encoded() == inner@,
    {
        let n = inner.len();
        if n < 12 || n > u32::MAX as usize {
            proof {
                assert forall|u: Seq<u8>, s: u64, k: KeyKind|
                    u.len() <= u32::MAX - 12 && s <= MAX_SEQUENCE implies #[trigger] encode_ikey(
                    u,
                    s,
                    k,
                ) != inner@ by {
                    lemma_auto_spec_u32_to_from_le_bytes();
                    lemma_auto_spec_u64_to_from_le_bytes();
                }
            }
            return None;
        }
        let len = get_u32(inner, 0).unwrap();
        let t = get_u64(inner, n - 8).unwrap();
        if len as usize != n - 12 || t % 256 > 1 || t / 256 > MAX_SEQUENCE {
            proof {
                assert forall|u: Seq<u8>, s: u64, k: KeyKind|
                    u.len() <= u32::MAX - 12 && s <= MAX_SEQUENCE implies #[trigger] encode_ikey(
                    u,
                    s,
                    k,
                ) != inner@ by {
                    lemma_auto_spec_u32_to_from_le_bytes();
                    lemma_auto_spec_u64_to_from_le_bytes();
                    if encode_ikey(u, s, k) == inner@ {
                        let e = encode_ikey(u, s, k);
                        assert(window(e, 0, 4) =~= spec_u32_to_le_bytes(u.len() as u32));
                        assert(window(e, n - 8, 8) =~= spec_u64_to_le_bytes(pack_trailer(s, k)));
                    }
                }
            }
            return None;
        }
        let user_key = vstd::slice::slice_to_vec(vstd::slice::slice_subrange(inner, 4, n - 8));
        let kind = if t % 256 == 0 {
            KeyKind::Value
        } else {
            KeyKind::Delete
        };
        let r = InternalKey { user_key, seq: t / 256, kind };
        proof {
            lemma_auto_spec_u32_to_from_le_bytes();
            lemma_auto_spec_u64_to_from_le_bytes();
            assert(pack_trailer(t / 256, kind) == t);
            assert(window(inner@, 0, 4) =~= inner@.subrange(0, 4));
            assert(inner@ =~= window(inner@, 0, 4) + user_key@ + window(inner@, n - 8, 8));
            assert(r.spec_encoded() =~= inner@);
        }
        Some(r)
    }

    pub fn new_with_kind(user_key: &[u8], seq: u64, kind: KeyKind) -> (r: InternalKey)
        requires
            user_key@.len() <= u32::MAX - 12,
            seq <= MAX_SEQUENCE,
        ensures
            r.wf(),
            r.spec_user_key() == user_key@,
            r.spec_seq() == seq,
            r.spec_kind() == kind,
    {
        InternalKey { user_key: vstd::slice::slice_to_vec(user_key), seq, kind }
    }

    pub fn new(user_key: &[u8], seq: u64) -> (r: InternalKey)
        requires
            user_key@.len() <= u32::MAX - 12,
            seq <= MAX_SEQUENCE,
        ensures
            r.wf(),
            r.spec_user_key() == user_key@,
            r.spec_seq() == seq,
            r.spec_kind() == KeyKind::Value,
    {
        InternalKey::new_with_kind(user_key, seq, KeyKind::Value)
    }

    pub fn new_delete_key(user_key: &[u8], seq: u64) -> (r: InternalKey)
        requires
            user_key@.len() <= u32::MAX - 12,
            seq <= MAX_SEQUENCE,
        ensures
            r.wf(),
            r.spec_user_key() == user_key@,
            r.spec_seq() == seq,
            r.spec_kind() == KeyKind::Delete,
    {
        InternalKey::new_with_kind(user_key, seq, KeyKind::Delete)
    }

    /// The encoded form.
    pub fn inner(&self) -> (r: Vec<u8>)
        requires
            self.wf(),
        ensures
            r@ == self.spec_encoded(),
    {
        make_key(self.user_key.as_slice(), self.seq, self.kind)
    }

    /// The encoded form, as the memtable stores it.
    pub fn memtable_key(&self) -> (r: Vec<u8>)
        requires
            self.wf(),
        ensures
            r@ == self.spec_encoded(),
    {
        self.inner()
    }

    pub fn user_key(&self) -> (r: Vec<u8>)
        ensures
            r@ == self.spec_user_key(),
    {
        vstd::slice::slice_to_vec(self.user_key.as_slice())
    }

    pub fn user_key_ref(&self) -> (r: &[u8])
        ensures
            r@ == self.spec_user_key(),
    {
        self.user_key.as_slice()
    }

    pub fn seq_number(&self) -> (r: u64)
        ensures
            r == self.spec_seq(),
    {
        self.seq
    }

    pub fn kind(&self) -> (r: KeyKind)
        ensures
            r == self.spec_kind(),
    {
        self.kind
    }

    /// `(sequence << 8) | kind`.
    pub fn trailer(&self) -> (r: u64)
        requires
            self.wf(),
        ensures
            r == pack_trailer(self.spec_seq(), self.spec_kind()),
    {
        self.seq * 256 + self.kind.code() as u64
    }

    /// Its length in encoded form.
    pub fn encoded_len(&self) -> (r: usize)
        requires
            self.wf(),
        ensures
            r == self.spec_encoded().len(),
    {
        proof {
            lemma_auto_spec_u32_to_from_le_bytes();
            lemma_auto_spec_u64_to_from_le_bytes();
        }
        self.user_key.len() + 12
    }
}

/// Orders two internal keys: user key ascending, then trailer descending.
pub fn compare_ikeys(a: &InternalKey, b: &InternalKey) -> (r: Ordering)
    requires
        a.wf(),
        b.wf(),
    ensures
        r == ikey_order(
            a.spec_user_key(),
            pack_trailer(a.spec_seq(), a.spec_kind()),
            b.spec_user_key(),
            pack_trailer(b.spec_seq(), b.spec_kind()),
        ),
{
    match compare_bytes(a.user_key.as_slice(), b.user_key.as_slice()) {
        Ordering::Equal => {
            let ta = a.trailer();
            let tb = b.trailer();
            if ta > tb {
                Ordering::Less
            } else if ta < tb {
                Ordering::Greater
            } else {
                Ordering::Equal
            }
        },
        o => o,
    }
}

/// A copy of an internal key.
pub fn clone_ikey(k: &InternalKey) -> (r: InternalKey)
    ensures
        r.spec_user_key() == k.spec_user_key(),
        r.spec_seq() == k.spec_seq(),
        r.spec_kind() == k.spec_kind(),
{
    InternalKey { user_key: vstd::slice::slice_to_vec(k.user_key.as_slice()), seq: k.seq, kind: k.kind }
}

/// Encodes `(user_key, seq, kind)` as an internal key.
pub fn make_key(user_key: &[u8], seq: u64, kind: KeyKind) -> (r: Vec<u8>)
    requires
        user_key@.len() <= u32::MAX - 12,
        seq <= MAX_SEQUENCE,
    ensures
        r@ == encode_ikey(user_key@, seq, kind),
{
    let mut bytes: Vec<u8> = Vec::new();
    put_u32(&mut bytes, user_key.len() as u32);
    put_bytes(&mut bytes, user_key);
    put_u64(&mut bytes, seq * 256 + kind.code() as u64);
    proof {
        assert(bytes@ =~= encode_ikey(user_key@, seq, kind));
    }
    bytes
}

/// The parts of an encoded key are those it was made from.
pub proof fn lemma_encoded_parts(u: Seq<u8>, s: u64, k: KeyKind)
    requires
        u.len() <= u32::MAX - 12,
        s <= MAX_SEQUENCE,
    ensures
        encode_ikey(u, s, k).len() == u.len() + 12,
        encoded_user_key(encode_ikey(u, s, k)) == u,
        encoded_trailer(encode_ikey(u, s, k)) == pack_trailer(s, k),
        pack_trailer(s, k) / 256 == s,
        pack_trailer(s, k) % 256 == kind_code(k),
{
    lemma_auto_spec_u32_to_from_le_bytes();
    lemma_auto_spec_u64_to_from_le_bytes();
    let e = encode_ikey(u, s, k);
    assert(encoded_user_key(e) =~= u);
    assert(window(e, e.len() - 8, 8) =~= spec_u64_to_le_bytes(pack_trailer(s, k)));
}

} // verus!
