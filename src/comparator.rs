//! Byte-wise ordering and the ordering of internal keys.
use crate::coding::window;
use std::cmp::Ordering;
use vstd::bytes::*;
use vstd::prelude::*;

verus! {

/// Lexicographic order of byte strings.
pub open spec fn lex_cmp(a: Seq<u8>, b: Seq<u8>) -> Ordering
    decreases a.len(),
{
    if a.len() == 0 {
        if b.len() == 0 {
            Ordering::Equal
        } else {
            Ordering::Less
        }
    } else if b.len() == 0 {
        Ordering::Greater
    } else if a[0] < b[0] {
        Ordering::Less
    } else if a[0] > b[0] {
        Ordering::Greater
    } else {
        lex_cmp(a.drop_first(), b.drop_first())
    }
}

/// `a` sorts strictly before `b`.
pub open spec fn lex_lt(a: Seq<u8>, b: Seq<u8>) -> bool {
    lex_cmp(a, b) == Ordering::Less
}

/// `a` sorts before `b` or equals it.
pub open spec fn lex_le(a: Seq<u8>, b: Seq<u8>) -> bool {
    lex_cmp(a, b) != Ordering::Greater
}

pub proof fn lemma_lex_cmp_equal(a: Seq<u8>, b: Seq<u8>)
    ensures
        (lex_cmp(a, b) == Ordering::Equal) <==> a == b,
    decreases a.len(),
{
    if a.len() > 0 && b.len() > 0 && a[0] == b[0] {
        lemma_lex_cmp_equal(a.drop_first(), b.drop_first());
        assert(lex_cmp(a, b) == lex_cmp(a.drop_first(), b.drop_first()));
        assert(a =~= seq![a[0]] + a.drop_first());
        assert(b =~= seq![b[0]] + b.drop_first());
        if a == b {
            assert(a.drop_first() == b.drop_first());
        }
        if a.drop_first() == b.drop_first() {
            assert(a == b);
        }
    } else if a.len() > 0 && b.len() > 0 {
        assert(a[0] != b[0]);
        assert(lex_cmp(a, b) != Ordering::Equal);
        assert(a != b);
    } else {
        assert(a.len() == 0 || b.len() == 0);
        if a.len() == 0 && b.len() == 0 {
            assert(a =~= b);
        }
    }
}

pub proof fn lemma_lex_cmp_antisym(a: Seq<u8>, b: Seq<u8>)
    ensures
        (lex_cmp(a, b) == Ordering::Less) <==> (lex_cmp(b, a) == Ordering::Greater),
    decreases a.len(),
{
    if a.len() > 0 && b.len() > 0 && a[0] == b[0] {
        lemma_lex_cmp_antisym(a.drop_first(), b.drop_first());
    }
}

pub proof fn lemma_lex_lt_trans(a: Seq<u8>, b: Seq<u8>, c: Seq<u8>)
    requires
        lex_lt(a, b),
        lex_lt(b, c),
    ensures
        lex_lt(a, c),
    decreases a.len(),
{
    if a.len() > 0 && b.len() > 0 && c.len() > 0 && a[0] == b[0] && b[0] == c[0] {
        lemma_lex_lt_trans(a.drop_first(), b.drop_first(), c.drop_first());
    }
}

proof fn lemma_lex_cmp_step(a: Seq<u8>, b: Seq<u8>, i: int)
    requires
        0 <= i < a.len(),
        i < b.len(),
        a[i] == b[i],
    ensures
        lex_cmp(a.skip(i), b.skip(i)) == lex_cmp(a.skip(i + 1), b.skip(i + 1)),
{
    assert(a.skip(i).drop_first() =~= a.skip(i + 1));
    assert(b.skip(i).drop_first() =~= b.skip(i + 1));
}

/// Compares two byte strings lexicographically.
pub fn compare_bytes(a: &[u8], b: &[u8]) -> (r: Ordering)
    ensures
        r == lex_cmp(a@, b@),
{
    let mut i: usize = 0;
    proof {
        assert(a@.skip(0) =~= a@);
        assert(b@.skip(0) =~= b@);
    }
    while i < a.len() && i < b.len()
        invariant
            i <= a.len(),
            i <= b.len(),
            lex_cmp(a@, b@) == lex_cmp(a@.skip(i as int), b@.skip(i as int)),
        decreases a.len() - i,
    {
        if a[i] < b[i] {
            return Ordering::Less;
        } else if a[i] > b[i] {
            return Ordering::Greater;
        }
        proof {
            lemma_lex_cmp_step(a@, b@, i as int);
        }
        i = i + 1;
    }
    if i < a.len() {
        Ordering::Greater
    } else if i < b.len() {
        Ordering::Less
    } else {
        Ordering::Equal
    }
}

/// Sorting at or before is transitive.
pub proof fn lemma_lex_le_trans(a: Seq<u8>, b: Seq<u8>, c: Seq<u8>)
    requires
        lex_le(a, b),
        lex_le(b, c),
    ensures
        lex_le(a, c),
{
    lemma_lex_cmp_equal(a, b);
    lemma_lex_cmp_equal(b, c);
    if a != b && b != c {
        lemma_lex_lt_trans(a, b, c);
    }
}

/// Equal up to `i` and smaller at `i`: sorts first.
pub proof fn lemma_lex_lt_at(a: Seq<u8>, b: Seq<u8>, i: int)
    requires
        0 <= i < a.len(),
        i < b.len(),
        a.take(i) == b.take(i),
        a[i] < b[i],
    ensures
        lex_lt(a, b),
    decreases i,
{
    if i > 0 {
        assert(a[0] == a.take(i)[0] && b[0] == b.take(i)[0]);
        assert(a.drop_first().take(i - 1) =~= a.take(i).drop_first());
        assert(b.drop_first().take(i - 1) =~= b.take(i).drop_first());
        lemma_lex_lt_at(a.drop_first(), b.drop_first(), i - 1);
    }
}

/// The first position at or after `i` whose byte is not `0xff`, or the length.
pub open spec fn first_not_max(s: Seq<u8>, i: int) -> int
    decreases s.len() - i,
{
    if i >= s.len() {
        s.len() as int
    } else if s[i] != 0xff {
        i
    } else {
        first_not_max(s, i + 1)
    }
}

/// Shortens `key` to a key at or after it: its first byte that is not
/// `0xff`, plus one, after the bytes before it; unchanged when every byte is
/// `0xff`.
pub fn short_successor(key: &mut Vec<u8>)
    ensures
        lex_le(old(key)@, final(key)@),
        first_not_max(old(key)@, 0) == old(key)@.len() ==> final(key)@ == old(key)@,
        first_not_max(old(key)@, 0) < old(key)@.len() ==> final(key)@ == old(key)@.take(
            first_not_max(old(key)@, 0),
        ).push((old(key)@[first_not_max(old(key)@, 0)] + 1) as u8),
{
    let ghost k = key@;
    let n = key.len();
    let mut i: usize = 0;
    while i < n
        invariant
            n == k.len(),
            key@ == k,
            k == old(key)@,
            i <= n,
            first_not_max(k, 0) == first_not_max(k, i as int),
        decreases n - i,
    {
        if key[i] != 0xff {
            let b = key[i] + 1;
            key.truncate(i);
            key.push(b);
            proof {
                assert(key@.take(i as int) =~= k.take(i as int));
                lemma_lex_lt_at(k, key@, i as int);
            }
            return;
        }
        i = i + 1;
    }
    proof {
        lemma_lex_cmp_equal(k, k);
    }
}

/// Shortens `key` toward `limit`: where the two first differ, when the key's
/// byte plus one is still below the limit's, the key becomes the common
/// prefix and that byte plus one; else it is left as it is. The result is
/// at or after `key`, and before `limit` whenever `key` is.
pub fn shortest_separator(key: &mut Vec<u8>, limit: &[u8])
    ensures
        lex_le(old(key)@, final(key)@),
        lex_lt(old(key)@, limit@) ==> lex_lt(final(key)@, limit@),
{
    let ghost k = key@;
    let min = if key.len() < limit.len() {
        key.len()
    } else {
        limit.len()
    };
    let mut d: usize = 0;
    while d < min
        invariant
            key@ == k,
            k == old(key)@,
            min <= k.len(),
            min <= limit@.len(),
            d <= min,
            k.take(d as int) == limit@.take(d as int),
        decreases min - d,
    {
        if key[d] != limit[d] {
            break;
        }
        proof {
            assert(k.take(d + 1) =~= k.take(d as int).push(k[d as int]));
            assert(limit@.take(d + 1) =~= limit@.take(d as int).push(limit@[d as int]));
        }
        d = d + 1;
    }
    proof {
        lemma_lex_cmp_equal(k, k);
    }
    if d < min {
        let byte = key[d];
        if byte < 0xff && byte + 1 < limit[d] {
            key.truncate(d);
            key.push(byte + 1);
            proof {
                assert(key@.take(d as int) =~= k.take(d as int));
                lemma_lex_lt_at(k, key@, d as int);
                assert(key@.take(d as int) =~= limit@.take(d as int));
                lemma_lex_lt_at(key@, limit@, d as int);
            }
        }
    }
}

/// The user key held in an encoded internal key: the bytes between the
/// four-byte length prefix and the eight-byte trailer.
pub open spec fn encoded_user_key(s: Seq<u8>) -> Seq<u8> {
    s.subrange(4, s.len() - 8)
}

/// The trailer `(sequence << 8) | kind` of an encoded internal key.
pub open spec fn encoded_trailer(s: Seq<u8>) -> u64 {
    spec_u64_from_le_bytes(window(s, s.len() - 8, 8))
}

/// Internal-key order: user key ascending, then trailer (sequence, then
/// kind) descending, so that the newest entry for a user key comes first.
pub open spec fn ikey_order(ua: Seq<u8>, ta: u64, ub: Seq<u8>, tb: u64) -> Ordering {
    match lex_cmp(ua, ub) {
        Ordering::Equal => if ta > tb {
            Ordering::Less
        } else if ta < tb {
            Ordering::Greater
        } else {
            Ordering::Equal
        },
        o => o,
    }
}

/// Internal-key order on encoded keys.
pub open spec fn encoded_ikey_cmp(a: Seq<u8>, b: Seq<u8>) -> Ordering {
    ikey_order(encoded_user_key(a), encoded_trailer(a), encoded_user_key(b), encoded_trailer(b))
}

/// Internal-key order is antisymmetric.
pub proof fn lemma_ikey_order_antisym(ua: Seq<u8>, ta: u64, ub: Seq<u8>, tb: u64)
    ensures
        (ikey_order(ua, ta, ub, tb) == Ordering::Greater) <==> (ikey_order(ub, tb, ua, ta)
            == Ordering::Less),
        (ikey_order(ua, ta, ub, tb) == Ordering::Equal) <==> (ua == ub && ta == tb),
{
    lemma_lex_cmp_antisym(ua, ub);
    lemma_lex_cmp_antisym(ub, ua);
    lemma_lex_cmp_equal(ua, ub);
    lemma_lex_cmp_equal(ub, ua);
}

/// Internal-key order is transitive.
pub proof fn lemma_ikey_order_trans(ua: Seq<u8>, ta: u64, ub: Seq<u8>, tb: u64, uc: Seq<u8>, tc: u64)
    requires
        ikey_order(ua, ta, ub, tb) != Ordering::Greater,
        ikey_order(ub, tb, uc, tc) != Ordering::Greater,
    ensures
        ikey_order(ua, ta, uc, tc) != Ordering::Greater,
        (ikey_order(ua, ta, ub, tb) == Ordering::Less || ikey_order(ub, tb, uc, tc) == Ordering::Less)
            ==> ikey_order(ua, ta, uc, tc) == Ordering::Less,
{
    lemma_lex_cmp_equal(ua, ub);
    lemma_lex_cmp_equal(ub, uc);
    lemma_lex_cmp_equal(ua, uc);
    lemma_lex_cmp_antisym(ua, ub);
    lemma_lex_cmp_antisym(ub, uc);
    lemma_lex_cmp_antisym(ua, uc);
    lemma_lex_cmp_antisym(uc, ua);
    if lex_lt(ua, ub) && lex_lt(ub, uc) {
        lemma_lex_lt_trans(ua, ub, uc);
    }
}

/// How a block or table orders its keys.
#[derive(Clone, Copy, Debug, PartialEq, Eq, Structural)]
pub enum KeyOrder {
    /// Plain lexicographic byte order.
    Bytewise,
    /// Internal-key order on encoded internal keys (user key ascending, then
    /// trailer descending); byte strings too short to be internal keys sort
    /// first, byte-wise, and equal user key and trailer fall back to bytes.
    Internal,
}

/// The order of two keys under `ord`.
pub open spec fn key_cmp(ord: KeyOrder, a: Seq<u8>, b: Seq<u8>) -> Ordering {
    match ord {
        KeyOrder::Bytewise => lex_cmp(a, b),
        KeyOrder::Internal => if a.len() < 12 {
            if b.len() < 12 {
                lex_cmp(a, b)
            } else {
                Ordering::Less
            }
        } else if b.len() < 12 {
            Ordering::Greater
        } else {
            match encoded_ikey_cmp(a, b) {
                Ordering::Equal => lex_cmp(a, b),
                o => o,
            }
        },
    }
}

/// `a` sorts strictly before `b` under `ord`.
pub open spec fn key_lt(ord: KeyOrder, a: Seq<u8>, b: Seq<u8>) -> bool {
    key_cmp(ord, a, b) == Ordering::Less
}

/// `a` sorts before `b` under `ord`, or equals it.
pub open spec fn key_le(ord: KeyOrder, a: Seq<u8>, b: Seq<u8>) -> bool {
    key_cmp(ord, a, b) != Ordering::Greater
}

/// Key order is antisymmetric, and only equal keys compare equal.
pub proof fn lemma_key_cmp_basics(ord: KeyOrder, a: Seq<u8>, b: Seq<u8>)
    ensures
        (key_cmp(ord, a, b) == Ordering::Less) <==> (key_cmp(ord, b, a) == Ordering::Greater),
        (key_cmp(ord, a, b) == Ordering::Equal) <==> a == b,
        key_le(ord, a, a),
{
    lemma_lex_cmp_antisym(a, b);
    lemma_lex_cmp_antisym(b, a);
    lemma_lex_cmp_equal(a, b);
    lemma_lex_cmp_equal(b, a);
    lemma_lex_cmp_equal(a, a);
    lemma_ikey_order_antisym(encoded_user_key(a), encoded_trailer(a), encoded_user_key(b), encoded_trailer(b));
    lemma_ikey_order_antisym(encoded_user_key(b), encoded_trailer(b), encoded_user_key(a), encoded_trailer(a));
    lemma_ikey_order_antisym(encoded_user_key(a), encoded_trailer(a), encoded_user_key(a), encoded_trailer(a));
}

/// Key order is transitive, and strictly so when either step is strict.
pub proof fn lemma_key_trans(ord: KeyOrder, a: Seq<u8>, b: Seq<u8>, c: Seq<u8>)
    requires
        key_le(ord, a, b),
        key_le(ord, b, c),
    ensures
        key_le(ord, a, c),
        key_lt(ord, a, b) || key_lt(ord, b, c) ==> key_lt(ord, a, c),
{
    lemma_key_cmp_basics(ord, a, b);
    lemma_key_cmp_basics(ord, b, c);
    lemma_key_cmp_basics(ord, a, c);
    lemma_key_cmp_basics(ord, c, a);
    if lex_lt(a, b) && lex_lt(b, c) {
        lemma_lex_lt_trans(a, b, c);
    }
    if lex_le(a, b) && lex_le(b, c) {
        lemma_lex_le_trans(a, b, c);
    }
    let ua = encoded_user_key(a);
    let ub = encoded_user_key(b);
    let uc = encoded_user_key(c);
    let ta = encoded_trailer(a);
    let tb = encoded_trailer(b);
    let tc = encoded_trailer(c);
    if ord == KeyOrder::Internal && a.len() >= 12 && b.len() >= 12 && c.len() >= 12 {
        lemma_ikey_order_antisym(ua, ta, ub, tb);
        lemma_ikey_order_antisym(ub, tb, uc, tc);
        lemma_ikey_order_antisym(ua, ta, uc, tc);
        if ikey_order(ua, ta, ub, tb) != Ordering::Greater && ikey_order(ub, tb, uc, tc) != Ordering::Greater {
            lemma_ikey_order_trans(ua, ta, ub, tb, uc, tc);
        }
    }
}

/// Compares two keys under `ord`.
pub fn compare_keys(ord: KeyOrder, a: &[u8], b: &[u8]) -> (r: Ordering)
    ensures
        r == key_cmp(ord, a@, b@),
{
    match ord {
        KeyOrder::Bytewise => compare_bytes(a, b),
        KeyOrder::Internal => {
            if a.len() < 12 {
                if b.len() < 12 {
                    compare_bytes(a, b)
                } else {
                    Ordering::Less
                }
            } else if b.len() < 12 {
                Ordering::Greater
            } else {
                match InternalKeyComparator.compare(a, b) {
                    Ordering::Equal => compare_bytes(a, b),
                    o => o,
                }
            }
        },
    }
}

/// An ordering of byte strings.
pub trait Comparator {
    fn compare(&self, a: &[u8], b: &[u8]) -> Ordering;
}

/// Orders encoded internal keys: user key ascending, sequence descending.
pub struct InternalKeyComparator;

impl InternalKeyComparator {
    pub fn compare(&self, a: &[u8], b: &[u8]) -> (r: Ordering)
        requires
            a@.len() >= 12,
            b@.len() >= 12,
        ensures
            r == encoded_ikey_cmp(a@, b@),
    {
        let ua = vstd::slice::slice_subrange(a, 4, a.len() - 8);
        let ub = vstd::slice::slice_subrange(b, 4, b.len() - 8);
        match compare_bytes(ua, ub) {
            Ordering::Equal => {
                let ta = extract_trailer(a);
                let tb = extract_trailer(b);
                if ta > tb {
                    Ordering::Less
                } else if ta < tb {
                    Ordering::Greater
                } else {
                    Ordering::Equal
                }
            },
            o => o,
        }
    }
}

impl Comparator for InternalKeyComparator {
    fn compare(&self, a: &[u8], b: &[u8]) -> Ordering {
        if a.len() < 12 || b.len() < 12 {
            compare_bytes(a, b)
        } else {
            InternalKeyComparator::compare(self, a, b)
        }
    }
}

/// The trailer of an encoded internal key.
pub fn extract_trailer(s: &[u8]) -> (r: u64)
    requires
        s@.len() >= 8,
    ensures
        r == encoded_trailer(s@),
{
    match crate::coding::get_u64(s, s.len() - 8) {
        Some(t) => t,
        None => 0,
    }
}

/// The user key of an encoded internal key.
pub fn extract_user_key(s: &[u8]) -> (r: Vec<u8>)
    requires
        s@.len() >= 12,
    ensures
        r@ == encoded_user_key(s@),
{
    vstd::slice::slice_to_vec(vstd::slice::slice_subrange(s, 4, s.len() - 8))
}

} // verus!
