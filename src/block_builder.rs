//! Builds one block from entries given in ascending key order.
use crate::block_format::{
    block_bytes, encode_range, entries_fit, lcp, lemma_lcp, lemma_u32s_bytes_len, prev_key,
    restart_count_of, restart_offsets, shared_at, u32s_bytes, EntrySpec, RESTART_INTERVAL,
};
use crate::coding::{put_bytes, put_u32};
use vstd::bytes::*;
use vstd::prelude::*;

verus! {

/// Encoding entries `0..m` looks only at those entries.
pub proof fn lemma_encode_range_prefix(es: Seq<EntrySpec>, es2: Seq<EntrySpec>, m: int)
    requires
        0 <= m <= es.len(),
        m <= es2.len(),
        forall|i: int| 0 <= i < m ==> es2[i] == es[i],
    ensures
        encode_range(es2, 0, m) == encode_range(es, 0, m),
    decreases m,
{
    if m > 0 {
        lemma_encode_range_prefix(es, es2, m - 1);
    }
}

proof fn lemma_lcp_step(a: Seq<u8>, b: Seq<u8>, i: int)
    requires
        0 <= i < a.len(),
        i < b.len(),
        a[i] == b[i],
    ensures
        lcp(a.skip(i), b.skip(i)) == 1 + lcp(a.skip(i + 1), b.skip(i + 1)),
{
    assert(a.skip(i).drop_first() =~= a.skip(i + 1));
    assert(b.skip(i).drop_first() =~= b.skip(i + 1));
}

/// The length of the longest common prefix of two byte strings.
pub fn common_prefix_len(a: &[u8], b: &[u8]) -> (r: usize)
    ensures
        r == lcp(a@, b@),
{
    let mut i: usize = 0;
    proof {
        assert(a@.skip(0) =~= a@);
        assert(b@.skip(0) =~= b@);
    }
    loop
        invariant
            i <= a.len(),
            i <= b.len(),
            lcp(a@, b@) == i + lcp(a@.skip(i as int), b@.skip(i as int)),
        ensures
            lcp(a@, b@) == i,
        decreases a.len() - i,
    {
        if i >= a.len() || i >= b.len() {
            proof {
                assert(a@.skip(i as int).len() == 0 || b@.skip(i as int).len() == 0);
            }
            break;
        }
        if a[i] != b[i] {
            proof {
                assert(a@.skip(i as int)[0] != b@.skip(i as int)[0]);
            }
            break;
        }
        proof {
            lemma_lcp_step(a@, b@, i as int);
        }
        i = i + 1;
    }
    i
}

/// Accumulates entries and lays them out as one block.
pub struct BlockBuilder {
    buff: Vec<u8>,
    counter: usize,
    restarts: Vec<u32>,
    last_key: Vec<u8>,
    finished: bool,
    entries: Ghost<Seq<EntrySpec>>,
}

impl BlockBuilder {
    /// The entries added so far.
    pub closed spec fn view(&self) -> Seq<EntrySpec> {
        self.entries@
    }

    pub closed spec fn is_finished(&self) -> bool {
        self.finished
    }

    /// What `estimated_current_size` returns: the size the block would have now.
    pub closed spec fn spec_estimated_size(&self) -> int {
        self.buff@.len() + 4 * (1 + self.restarts@.len()) as int
    }

    /// A sound builder's block fits a `u32` size.
    pub proof fn lemma_size_fits(&self)
        requires
            self.wf(),
        ensures
            self.spec_estimated_size() <= u32::MAX,
            self.view().len() == 0 ==> self.spec_estimated_size() == 8,
            entries_fit(self.view()),
    {
    }

    pub closed spec fn wf(&self) -> bool {
        let es = self.entries@;
        let n = es.len();
        &&& self.buff@ == encode_range(es, 0, n as int)
        &&& entries_fit(es)
        &&& self.last_key@ == prev_key(es, n as int)
        &&& self.counter == (if n == 0 {
            0
        } else {
            ((n - 1) as int) % (RESTART_INTERVAL as int) + 1
        })
        &&& self.restarts@ == restart_offsets(es)
        &&& self.spec_estimated_size() <= u32::MAX
    }

    pub fn new() -> (r: BlockBuilder)
        ensures
            r.wf(),
            r.view() == Seq::<EntrySpec>::empty(),
            !r.is_finished(),
            r.spec_estimated_size() == 8,
    {
        let mut restarts: Vec<u32> = Vec::new();
        restarts.push(0);
        let r = BlockBuilder {
            buff: Vec::new(),
            counter: 0,
            restarts,
            last_key: Vec::new(),
            finished: false,
            entries: Ghost(Seq::empty()),
        };
        proof {
            assert(r.restarts@ =~= restart_offsets(Seq::<EntrySpec>::empty()));
        }
        r
    }

    /// The size of the block if it were finished now.
    pub fn estimated_current_size(&self) -> (r: usize)
        requires
            self.wf(),
        ensures
            r == self.spec_estimated_size(),
    {
        self.buff.len() + 4 * (1 + self.restarts.len())
    }

    /// The number of restart points so far.
    pub fn restart_points(&self) -> (r: usize)
        ensures
            self.wf() ==> r == restart_count_of(self.view().len()),
    {
        self.restarts.len()
    }

    /// Appends an entry; every sixteenth entry starts a restart point.
    pub fn add(&mut self, key: &[u8], value: &[u8])
        requires
            old(self).wf(),
            !old(self).is_finished(),
            old(self).spec_estimated_size() + 16 + key@.len() + value@.len() <= u32::MAX,
        ensures
            final(self).wf(),
            !final(self).is_finished(),
            final(self).view() == old(self).view().push((key@, value@)),
            final(self).spec_estimated_size() <= old(self).spec_estimated_size() + 16
                + key@.len() + value@.len(),
    {
        let ghost es = self.entries@;
        let ghost n = es.len() as int;
        let ghost es2 = es.push((key@, value@));
        let mut shared: usize = 0;
        if self.counter < RESTART_INTERVAL {
            shared = common_prefix_len(key, self.last_key.as_slice());
            self.counter = self.counter + 1;
        } else {
            self.counter = 1;
            self.restarts.push(self.buff.len() as u32);
        }
        proof {
            lemma_lcp(key@, self.last_key@);
            lemma_encode_range_prefix(es, es2, n);
            assert forall|j: int| 0 <= j <= n implies encode_range(es2, 0, j) == encode_range(
                es,
                0,
                j,
            ) by {
                lemma_encode_range_prefix(es, es2, j);
            }
            if n > 0 && n % (RESTART_INTERVAL as int) != 0 {
                assert(shared_at(es2, n) == shared);
            } else if n == 0 {
                assert(shared == 0);
            }
            assert(shared_at(es2, n) == shared);
        }
        let not_shared = key.len() - shared;
        put_u32(&mut self.buff, shared as u32);
        put_u32(&mut self.buff, not_shared as u32);
        put_u32(&mut self.buff, value.len() as u32);
        put_bytes(&mut self.buff, vstd::slice::slice_subrange(key, shared, key.len()));
        put_bytes(&mut self.buff, value);
        self.last_key = vstd::slice::slice_to_vec(key);
        self.entries = Ghost(es2);
        proof {
            lemma_auto_spec_u32_to_from_le_bytes();
            assert(self.buff@ =~= encode_range(es2, 0, n + 1));
            assert(self.restarts@ =~= restart_offsets(es2));
            assert(entries_fit(es2)) by {
                assert forall|i: int| 0 <= i < es2.len() implies #[trigger] es2[i].0.len() <= u32::MAX
                    && es2[i].1.len() <= u32::MAX by {
                    if i < n {
                        assert(es2[i] == es[i]);
                    }
                }
            }
        }
    }

    /// Lays out the block: the entries, the restart offsets, their count.
    pub fn build(&mut self) -> (r: Vec<u8>)
        requires
            old(self).wf(),
        ensures
            final(self).wf(),
            final(self).is_finished(),
            final(self).view() == old(self).view(),
            final(self).spec_estimated_size() == old(self).spec_estimated_size(),
            r@ == block_bytes(old(self).view()),
            r@.len() == old(self).spec_estimated_size(),
    {
        let mut r = vstd::slice::slice_to_vec(self.buff.as_slice());
        let mut i: usize = 0;
        while i < self.restarts.len()
            invariant
                i <= self.restarts@.len(),
                r@ == self.buff@ + u32s_bytes(self.restarts@.take(i as int)),
            decreases self.restarts@.len() - i,
        {
            put_u32(&mut r, self.restarts[i]);
            proof {
                assert(self.restarts@.take(i + 1).drop_last() =~= self.restarts@.take(i as int));
            }
            i = i + 1;
        }
        put_u32(&mut r, self.restarts.len() as u32);
        self.finished = true;
        proof {
            assert(self.restarts@.take(i as int) =~= self.restarts@);
            lemma_u32s_bytes_len(self.restarts@);
            lemma_auto_spec_u32_to_from_le_bytes();
        }
        r
    }

    /// Whether no entry has been added.
    pub fn empty(&self) -> (r: bool)
        requires
            self.wf(),
        ensures
            r == (self.view().len() == 0),
    {
        proof {
            lemma_auto_spec_u32_to_from_le_bytes();
        }
        self.buff.len() == 0
    }
}

} // verus!
