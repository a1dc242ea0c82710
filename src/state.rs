use vstd::prelude::*;

use crate::active::{Active, live_between};
use crate::dendrogram::{Dendrogram, Step};
use crate::queue::LinkageHeap;
use crate::union::LinkageUnionFind;

verus! {

/// The sum of a sequence of sizes.
pub open spec fn seq_sum(s: Seq<usize>) -> int
    decreases s.len(),
{
    if s.len() == 0 {
        0
    } else {
        seq_sum(s.drop_last()) + s.last()
    }
}

/// Overwriting one entry changes the sum by the difference.
pub proof fn lemma_sum_update(s: Seq<usize>, i: int, v: usize)
    requires
        0 <= i < s.len(),
    ensures
        seq_sum(s.update(i, v)) == seq_sum(s) - s[i] + v,
        seq_sum(s) >= 0,
    decreases s.len(),
{
    let t = s.update(i, v);
    if i == s.len() - 1 {
        assert(t.drop_last() =~= s.drop_last());
    } else {
        assert(t.drop_last() =~= s.drop_last().update(i, v));
        lemma_sum_update(s.drop_last(), i, v);
    }
    lemma_sum_nonneg(s);
}

/// A sum of sizes is never negative.
pub proof fn lemma_sum_nonneg(s: Seq<usize>)
    ensures
        seq_sum(s) >= 0,
    decreases s.len(),
{
    if s.len() > 0 {
        lemma_sum_nonneg(s.drop_last());
    }
}

/// Three distinct entries add up to no more than the sum.
pub proof fn lemma_sum_three(s: Seq<usize>, i: int, j: int, k: int)
    requires
        0 <= i < s.len(),
        0 <= j < s.len(),
        0 <= k < s.len(),
        i != j,
        i != k,
        j != k,
    ensures
        s[i] + s[j] + s[k] <= seq_sum(s),
{
    lemma_sum_update(s, i, 0);
    let s1 = s.update(i, 0);
    lemma_sum_update(s1, j, 0);
    let s2 = s1.update(j, 0);
    lemma_sum_update(s2, k, 0);
    lemma_sum_nonneg(s2.update(k, 0));
}

/// Two distinct entries add up to no more than the sum.
pub proof fn lemma_sum_two(s: Seq<usize>, i: int, j: int)
    requires
        0 <= i < s.len(),
        0 <= j < s.len(),
        i != j,
    ensures
        s[i] + s[j] <= seq_sum(s),
{
    lemma_sum_update(s, i, 0);
    let s1 = s.update(i, 0);
    lemma_sum_update(s1, j, 0);
    lemma_sum_nonneg(s1.update(j, 0));
}

/// Taking one element out of the list shortens its elements by one.
pub proof fn lemma_live_remove(live: Seq<bool>, i: int, lo: int, hi: int)
    requires
        0 <= lo <= i < hi <= live.len(),
        live[i],
    ensures
        live_between(live.update(i, false), lo, hi).len() == live_between(live, lo, hi).len() - 1,
    decreases hi - lo,
{
    if lo < i {
        lemma_live_remove(live, i, lo + 1, hi);
    } else {
        lemma_live_between_same(live, live.update(i, false), lo + 1, hi);
    }
}

/// Two lists that agree on `[lo, hi)` have the same elements there.
pub proof fn lemma_live_between_same(l1: Seq<bool>, l2: Seq<bool>, lo: int, hi: int)
    requires
        0 <= lo,
        hi <= l1.len(),
        hi <= l2.len(),
        forall|j: int| lo <= j < hi ==> l1[j] == l2[j],
    ensures
        live_between(l1, lo, hi) == live_between(l2, lo, hi),
    decreases hi - lo,
{
    if lo < hi {
        lemma_live_between_same(l1, l2, lo + 1, hi);
    }
}

/// Mutable scratch space used by the linkage algorithms, sized to the
/// number of observations by each run.
#[derive(Debug)]
pub struct LinkageState {
    /// The size of each active cluster; zero for a cluster merged away.
    pub(crate) sizes: Vec<usize>,
    /// The active clusters. When two clusters merge, the smaller-indexed
    /// one (or the one given first) is removed and the other stands for
    /// the merged cluster.
    pub(crate) active: Active,
    /// For the spanning tree algorithm: the smallest edge from each
    /// observation into the tree.
    pub(crate) min_dists: Vec<u64>,
    /// The labeller of the dendrogram.
    pub(crate) set: LinkageUnionFind,
    /// For the nearest-neighbor chain algorithm: the chain.
    pub(crate) chain: Vec<usize>,
    /// For the generic algorithm: candidate nearest-neighbor
    /// dissimilarities.
    pub(crate) queue: LinkageHeap,
    /// For the generic algorithm: a candidate nearest neighbor of each
    /// cluster.
    pub(crate) nearest: Vec<usize>,
}

impl LinkageState {
    /// Freshly made scratch space: sized for no observations.
    pub closed spec fn spec_is_new(&self) -> bool {
        self.sized(0, 0)
    }

    /// The scratch space is sized for `n` observations; the active clusters
    /// hold all observations, one cluster of at least one observation each;
    /// `k` of them are left.
    pub(crate) open spec fn sized(&self, n: nat, k: nat) -> bool {
        &&& self.active.wf()
        &&& self.active@.len() == n
        &&& self.sizes@.len() == n
        &&& self.min_dists@.len() == n
        &&& self.nearest@.len() == n
        &&& seq_sum(self.sizes@) == n
        &&& forall|i: int| 0 <= i < n ==> (#[trigger] self.active@[i] <==> self.sizes@[i] >= 1)
        &&& self.active.elements().len() == k
    }

    /// Create a new mutable scratch space.
    pub fn new() -> (r: LinkageState)
        ensures
            r.spec_is_new(),
    {
        let r = LinkageState {
            sizes: Vec::new(),
            active: Active::new(),
            min_dists: Vec::new(),
            set: LinkageUnionFind::new(),
            chain: Vec::new(),
            queue: LinkageHeap::new(),
            nearest: Vec::new(),
        };
        assert(r.sizes@ =~= Seq::<usize>::empty());
        r
    }

    /// Clear the scratch space and allocate enough room for `size`
    /// observations, each a cluster of its own.
    pub(crate) fn reset(&mut self, size: usize)
        requires
            size <= usize::MAX / 2,
        ensures
            final(self).sized(size as nat, size as nat),
            final(self).set.fresh(size as nat),
            forall|i: int| 0 <= i < size ==> #[trigger] final(self).active@[i],
            forall|i: int| 0 <= i < size ==> #[trigger] final(self).sizes@[i] == 1,
            forall|i: int| 0 <= i < size ==> #[trigger] final(self).min_dists@[i] == u64::MAX,
            forall|i: int| 0 <= i < size ==> final(self).queue.live(i),
            final(self).queue.count() == size,
            final(self).queue.wf(),
            final(self).queue.size() == size,
            final(self).chain@.len() == 0,
    {
        self.sizes.clear();
        self.min_dists.clear();
        self.nearest.clear();
        let mut i: usize = 0;
        while i < size
            invariant
                i <= size,
                self.sizes@.len() == i,
                self.min_dists@.len() == i,
                self.nearest@.len() == i,
                forall|j: int| 0 <= j < i ==> self.sizes@[j] == 1 && self.min_dists@[j] == u64::MAX,
                seq_sum(self.sizes@) == i,
            decreases size - i,
        {
            proof {
                assert(self.sizes@.push(1).drop_last() =~= self.sizes@);
            }
            self.sizes.push(1);
            self.min_dists.push(u64::MAX);
            self.nearest.push(0);
            i = i + 1;
        }
        self.active.reset(size);
        self.set.reset(size);
        self.chain.clear();
        self.queue.reset(size);
        proof {
            let live = self.active@;
            lemma_all_live(live, 0, size as int);
        }
    }

    /// Merge `cluster1` into `cluster2` with the given `dissimilarity`:
    /// record the step, move the size of `cluster1` to `cluster2` and
    /// remove `cluster1` from the active clusters.
    pub(crate) fn merge(&mut self, dend: &mut Dendrogram, cluster1: usize, cluster2: usize, dissimilarity: u64)
        requires
            old(self).sized(old(dend).spec_observations(), (old(dend).spec_observations() - old(dend).spec_steps().len()) as nat),
            old(dend).spec_steps().len() < old(dend).capacity(),
            cluster1 < old(dend).spec_observations(),
            cluster2 < old(dend).spec_observations(),
            cluster1 != cluster2,
            old(self).active@[cluster1 as int],
            old(self).active@[cluster2 as int],
        ensures
            final(self).sized(old(dend).spec_observations(), (old(dend).spec_observations() - final(dend).spec_steps().len()) as nat),
            final(dend).spec_observations() == old(dend).spec_observations(),
            final(dend).spec_steps() == old(dend).spec_steps().push(
                Step::spec_new(cluster1, cluster2, dissimilarity, final(self).sizes@[cluster2 as int]),
            ),
            final(self).active@ == old(self).active@.update(cluster1 as int, false),
            final(self).sizes@ == old(self).sizes@.update(cluster1 as int, 0).update(
                cluster2 as int,
                (old(self).sizes@[cluster1 as int] + old(self).sizes@[cluster2 as int]) as usize,
            ),
            final(self).min_dists@ == old(self).min_dists@,
            final(self).nearest@ == old(self).nearest@,
            final(self).queue == old(self).queue,
            final(self).chain@ == old(self).chain@,
            final(self).set == old(self).set,
    {
        let ghost n = dend.spec_observations();
        let obs = dend.observations();
        let ghost s0 = self.sizes@;
        proof {
            lemma_sum_two(s0, cluster1 as int, cluster2 as int);
        }
        let merged = self.sizes[cluster1] + self.sizes[cluster2];
        self.sizes.set(cluster2, merged);
        self.sizes.set(cluster1, 0);
        proof {
            lemma_sum_update(s0, cluster2 as int, merged);
            lemma_sum_update(s0.update(cluster2 as int, merged), cluster1 as int, 0);
            assert(self.sizes@ =~= s0.update(cluster1 as int, 0).update(cluster2 as int, merged));
            lemma_live_remove(self.active@, cluster1 as int, 0, n as int);
        }
        self.active.remove(cluster1);
        dend.push(Step::new(cluster1, cluster2, dissimilarity, merged));
    }
}

/// A list with every element set has them all.
proof fn lemma_all_live(live: Seq<bool>, lo: int, hi: int)
    requires
        0 <= lo <= hi <= live.len(),
        forall|j: int| lo <= j < hi ==> live[j],
    ensures
        live_between(live, lo, hi).len() == hi - lo,
    decreases hi - lo,
{
    if lo < hi {
        lemma_all_live(live, lo + 1, hi);
    }
}

} // verus!
