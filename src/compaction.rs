//! Compaction inputs, and the iterators that combine ordered runs.
use crate::metadata::FileMetaData;
use vstd::prelude::*;

verus! {

/// The number of levels.
pub const LEVEL: usize = 12;

/// The files chosen for a compaction, per level.
pub struct Compaction {
    pub level: usize,
    pub inputs: Vec<Vec<FileMetaData>>,
}

impl Compaction {
    pub fn new(level: usize) -> (r: Compaction)
        ensures
            r.level == level,
            r.inputs@.len() == LEVEL,
            forall|i: int| 0 <= i < LEVEL ==> (#[trigger] r.inputs@[i])@.len() == 0,
    {
        let mut inputs: Vec<Vec<FileMetaData>> = Vec::new();
        let mut i: usize = 0;
        while i < LEVEL
            invariant
                i <= LEVEL,
                inputs@.len() == i,
                forall|j: int| 0 <= j < i ==> (#[trigger] inputs@[j])@.len() == 0,
            decreases LEVEL - i,
        {
            inputs.push(Vec::new());
            i = i + 1;
        }
        Compaction { level, inputs }
    }
}

/// All items of the runs, run after run.
pub open spec fn concat(runs: Seq<Seq<u64>>) -> Seq<u64>
    decreases runs.len(),
{
    if runs.len() == 0 {
        Seq::empty()
    } else {
        concat(runs.drop_last()) + runs.last()
    }
}

/// The runs as sequences.
pub open spec fn runs_view(v: Seq<Vec<u64>>) -> Seq<Seq<u64>> {
    Seq::new(v.len(), |i: int| v[i]@)
}

/// Yields the items of each inner run in turn, moving to the next run
/// only when the current one is exhausted.
pub struct TwoLevelIterator {
    runs: Vec<Vec<u64>>,
    outer: usize,
    inner: usize,
}

impl TwoLevelIterator {
    /// The items not yet handed out.
    pub closed spec fn remaining(&self) -> Seq<u64> {
        if self.outer < self.runs@.len() {
            self.runs@[self.outer as int]@.skip(self.inner as int) + concat(
                runs_view(self.runs@).skip(self.outer + 1),
            )
        } else {
            Seq::empty()
        }
    }

    pub closed spec fn wf(&self) -> bool {
        self.outer <= self.runs@.len() && (self.outer < self.runs@.len() ==> self.inner
            <= self.runs@[self.outer as int]@.len())
    }

    pub fn new(runs: Vec<Vec<u64>>) -> (r: TwoLevelIterator)
        ensures
            r.wf(),
            r.remaining() == concat(runs_view(runs@)),
    {
        let r = TwoLevelIterator { runs, outer: 0, inner: 0 };
        proof {
            if r.runs@.len() > 0 {
                lemma_concat_front(runs_view(r.runs@));
                assert(runs_view(r.runs@).skip(0) =~= runs_view(r.runs@));
                assert(r.runs@[0]@.skip(0) =~= r.runs@[0]@);
            } else {
                assert(runs_view(r.runs@) =~= Seq::<Seq<u64>>::empty());
            }
        }
        r
    }

    /// The next item, if any.
    pub fn next(&mut self) -> (r: Option<u64>)
        requires
            old(self).wf(),
        ensures
            final(self).wf(),
            old(self).remaining().len() == 0 ==> r.is_none() && final(self).remaining().len() == 0,
            old(self).remaining().len() > 0 ==> r == Some(old(self).remaining()[0]) && final(self).remaining()
                == old(self).remaining().drop_first(),
    {
        while self.outer < self.runs.len()
            invariant
                self.wf(),
                self.remaining() == old(self).remaining(),
            decreases self.runs@.len() - self.outer, self.runs@[self.outer as int]@.len() - self.inner,
        {
            let o = self.outer;
            if self.inner < self.runs[o].len() {
                let x = self.runs[o][self.inner];
                let ghost before = self.remaining();
                self.inner = self.inner + 1;
                proof {
                    assert(self.runs@[o as int]@.skip(self.inner - 1)[0] == x);
                    assert(self.runs@[o as int]@.skip(self.inner - 1).drop_first() =~= self.runs@[o as int]@.skip(
                        self.inner as int,
                    ));
                    assert(self.remaining() =~= before.drop_first());
                }
                return Some(x);
            }
            let ghost before = self.remaining();
            self.outer = o + 1;
            self.inner = 0;
            proof {
                assert(self.runs@[o as int]@.skip(self.runs@[o as int]@.len() as int) =~= Seq::<u64>::empty());
                let rv = runs_view(self.runs@);
                if self.outer < self.runs@.len() {
                    lemma_concat_front(rv.skip(o + 1));
                    assert(rv.skip(o + 1).drop_first() =~= rv.skip(self.outer + 1));
                    assert(rv.skip(o + 1)[0] == self.runs@[self.outer as int]@);
                    assert(self.runs@[self.outer as int]@.skip(0) =~= self.runs@[self.outer as int]@);
                    assert(self.remaining() =~= before);
                } else {
                    assert(rv.skip(o + 1) =~= Seq::<Seq<u64>>::empty());
                    assert(before =~= Seq::<u64>::empty());
                }
            }
        }
        None
    }
}

/// The first run, then the rest.
pub proof fn lemma_concat_front(runs: Seq<Seq<u64>>)
    requires
        runs.len() > 0,
    ensures
        concat(runs) == runs[0] + concat(runs.drop_first()),
    decreases runs.len(),
{
    if runs.len() == 1 {
        assert(runs.drop_first() =~= Seq::<Seq<u64>>::empty());
        assert(runs.drop_last() =~= Seq::<Seq<u64>>::empty());
        assert(concat(runs) =~= runs[0] + concat(runs.drop_first()));
    } else {
        lemma_concat_front(runs.drop_last());
        assert(runs.drop_last().drop_first() =~= runs.drop_first().drop_last());
        assert(runs.drop_first().last() == runs.last());
        assert(concat(runs) =~= runs[0] + concat(runs.drop_first()));
    }
}

/// Merges several runs: each step yields the smallest item at the head of a run.
pub struct MergeingIterator {
    iters: Vec<Vec<u64>>,
    pos: Vec<usize>,
}

impl MergeingIterator {
    pub closed spec fn wf(&self) -> bool {
        &&& self.pos@.len() == self.iters@.len()
        &&& forall|i: int| 0 <= i < self.pos@.len() ==> #[trigger] self.pos@[i] <= self.iters@[i]@.len()
    }

    /// Whether run `i` has items left.
    pub closed spec fn live(&self, i: int) -> bool {
        self.pos@[i] < self.iters@[i]@.len()
    }

    /// The head of run `i`.
    pub closed spec fn head(&self, i: int) -> u64 {
        self.iters@[i]@[self.pos@[i] as int]
    }

    /// The number of runs.
    pub closed spec fn run_count(&self) -> int {
        self.iters@.len() as int
    }

    /// The runs, whole.
    pub closed spec fn runs(&self) -> Seq<Seq<u64>> {
        runs_view(self.iters@)
    }

    /// Every run is non-decreasing.
    pub open spec fn runs_sorted(&self) -> bool {
        forall|i: int, a: int, b: int|
            0 <= i < self.runs().len() && 0 <= a <= b < self.runs()[i].len() ==> #[trigger] self.runs()[i][a]
                <= #[trigger] self.runs()[i][b]
    }

    /// How many items of run `i` have been taken.
    pub closed spec fn taken(&self, i: int) -> int {
        self.pos@[i] as int
    }

    pub fn new(iters: Vec<Vec<u64>>) -> (r: MergeingIterator)
        ensures
            r.wf(),
            r.run_count() == iters@.len(),
            r.runs() == runs_view(iters@),
            forall|i: int| 0 <= i < iters@.len() ==> r.taken(i) == 0,
            forall|i: int| 0 <= i < iters@.len() ==> (r.live(i) <==> iters@[i]@.len() > 0),
            forall|i: int| 0 <= i < iters@.len() && r.live(i) ==> r.head(i) == iters@[i]@[0],
    {
        let mut pos: Vec<usize> = Vec::new();
        let mut i: usize = 0;
        while i < iters.len()
            invariant
                i <= iters@.len(),
                pos@.len() == i,
                forall|j: int| 0 <= j < i ==> pos@[j] == 0,
            decreases iters@.len() - i,
        {
            pos.push(0);
            i = i + 1;
        }
        MergeingIterator { iters, pos }
    }

    /// The smallest head over all runs, taken from the first run that holds
    /// it; `None` when every run is exhausted.
    pub fn next(&mut self) -> (r: Option<u64>)
        requires
            old(self).wf(),
        ensures
            final(self).wf(),
            final(self).run_count() == old(self).run_count(),
            final(self).runs() == old(self).runs(),
            r.is_none() <==> forall|i: int| 0 <= i < old(self).run_count() ==> !old(self).live(i),
            r.is_some() ==> exists|k: int|
                0 <= k < old(self).run_count() && old(self).live(k) && r == Some(old(self).head(k))
                    && (forall|i: int| 0 <= i < old(self).run_count() && old(self).live(i) ==> old(self).head(k)
                    <= old(self).head(i)) && (forall|i: int|
                    0 <= i < old(self).run_count() && i != k ==> final(self).taken(i) == old(self).taken(i))
                    && final(self).taken(k) == old(self).taken(k) + 1,
            old(self).runs_sorted() && r.is_some() ==> forall|i: int, j: int|
                0 <= i < old(self).run_count() && old(self).taken(i) <= j < old(self).runs()[i].len() ==> r.unwrap()
                    <= #[trigger] old(self).runs()[i][j],
    {
        let n = self.iters.len();
        let mut best: usize = n;
        let mut i: usize = 0;
        while i < n
            invariant
                self.wf(),
                n == self.iters@.len(),
                *self == *old(self),
                i <= n,
                best == n || (best < i && self.live(best as int)),
                best == n ==> forall|j: int| 0 <= j < i ==> !self.live(j),
                best < n ==> forall|j: int| 0 <= j < i && self.live(j) ==> self.head(best as int) <= self.head(j),
            decreases n - i,
        {
            if self.pos[i] < self.iters[i].len() {
                let h = self.iters[i][self.pos[i]];
                if best == n {
                    best = i;
                } else {
                    let hb = self.iters[best][self.pos[best]];
                    if h < hb {
                        best = i;
                    }
                }
            }
            i = i + 1;
        }
        if best == n {
            return None;
        }
        proof {
            assert(self.live(best as int));
            assert(self.pos@[best as int] < self.iters@[best as int]@.len());
        }
        proof {
            if old(self).runs_sorted() {
                assert forall|i: int, j: int|
                    0 <= i < self.run_count() && self.taken(i) <= j < self.runs()[i].len() implies self.head(best as int)
                        <= #[trigger] self.runs()[i][j] by {
                    assert(self.live(i));
                    assert(self.runs()[i][self.taken(i)] <= self.runs()[i][j]);
                }
            }
        }
        let len_best = self.iters[best].len();
        let x = self.iters[best][self.pos[best]];
        let p = if self.pos[best] < len_best {
            self.pos[best] + 1
        } else {
            len_best
        };
        self.pos.set(best, p);
        Some(x)
    }
}

} // verus!
