use vstd::prelude::*;

verus! {

/// A single merge step in a dendrogram: the labels of the two clusters
/// merged, their dissimilarity and the number of observations in the merged
/// cluster. By convention the smaller label is `cluster1`.
#[derive(Clone, Copy, Debug, PartialEq, Eq, Hash, Structural)]
pub struct Step {
    /// The label of the first cluster.
    pub cluster1: usize,
    /// The label of the second cluster.
    pub cluster2: usize,
    /// The dissimilarity between `cluster1` and `cluster2`.
    pub dissimilarity: u64,
    /// The total number of observations in the merged cluster.
    pub size: usize,
}

/// Two steps share no label.
pub open spec fn disjoint_labels(s: Step, t: Step) -> bool {
    &&& s.cluster1 != t.cluster1
    &&& s.cluster1 != t.cluster2
    &&& s.cluster2 != t.cluster1
    &&& s.cluster2 != t.cluster2
}

/// The labels of a dendrogram are canonical: each step merges two existing
/// clusters, the smaller label first; no label is merged twice; and the
/// size of each merged cluster is the sum of the sizes of its two parts.
pub open spec fn canonical(d: &Dendrogram) -> bool {
    &&& forall|i: int| 0 <= i < d.spec_steps().len() ==> {
        let s = #[trigger] d.spec_steps()[i];
        &&& s.cluster1 < s.cluster2 < d.spec_observations() + i
        &&& s.size == d.spec_cluster_size(s.cluster1 as int) + d.spec_cluster_size(s.cluster2 as int)
    }
    &&& forall|i: int, j: int| 0 <= i < j < d.spec_steps().len()
        ==> disjoint_labels(#[trigger] d.spec_steps()[i], #[trigger] d.spec_steps()[j])
}

/// Two dendrograms of the same observations whose steps agree on labels
/// and sizes are canonical together.
pub proof fn lemma_canonical_same_shape(d1: &Dendrogram, d2: &Dendrogram)
    requires
        canonical(d1),
        d1.spec_observations() == d2.spec_observations(),
        d1.spec_steps().len() == d2.spec_steps().len(),
        forall|i: int| 0 <= i < d1.spec_steps().len() ==> {
            let s = #[trigger] d2.spec_steps()[i];
            let t = d1.spec_steps()[i];
            s.cluster1 == t.cluster1 && s.cluster2 == t.cluster2 && s.size == t.size
        },
    ensures
        canonical(d2),
{
    assert forall|i: int| 0 <= i < d2.spec_steps().len() implies {
        let s = #[trigger] d2.spec_steps()[i];
        &&& s.cluster1 < s.cluster2 < d2.spec_observations() + i
        &&& s.size == d2.spec_cluster_size(s.cluster1 as int) + d2.spec_cluster_size(s.cluster2 as int)
    } by {
        let s = d2.spec_steps()[i];
        let t = d1.spec_steps()[i];
        assert(t.cluster1 < t.cluster2 < d1.spec_observations() + i);
        if s.cluster1 >= d1.spec_observations() {
            let k = s.cluster1 - d1.spec_observations();
            assert(d2.spec_steps()[k].size == d1.spec_steps()[k].size);
        }
        if s.cluster2 >= d1.spec_observations() {
            let k = s.cluster2 - d1.spec_observations();
            assert(d2.spec_steps()[k].size == d1.spec_steps()[k].size);
        }
    }
    assert forall|i: int, j: int| 0 <= i < j < d2.spec_steps().len() implies disjoint_labels(
        #[trigger] d2.spec_steps()[i],
        #[trigger] d2.spec_steps()[j],
    ) by {
        assert(disjoint_labels(d1.spec_steps()[i], d1.spec_steps()[j]));
    }
}

/// The observations in the cluster labelled `label` among `steps` over `n`
/// observations: the observation itself below `n`, otherwise those of the
/// two clusters that step `label - n` merges.
pub open spec fn members(steps: Seq<Step>, n: int, label: int) -> Set<int>
    decreases label,
{
    if label < n {
        set![label]
    } else if label - n < steps.len() && steps[label - n].cluster1 < label && steps[label - n].cluster2 < label {
        members(steps, n, steps[label - n].cluster1 as int).union(members(steps, n, steps[label - n].cluster2 as int))
    } else {
        Set::empty()
    }
}

/// Step `k` of `steps` joins the cluster holding observation `x` with the
/// cluster holding observation `y`.
pub open spec fn joins(steps: Seq<Step>, n: int, k: int, x: int, y: int) -> bool {
    let s = steps[k];
    ||| members(steps, n, s.cluster1 as int).contains(x) && members(steps, n, s.cluster2 as int).contains(y)
    ||| members(steps, n, s.cluster1 as int).contains(y) && members(steps, n, s.cluster2 as int).contains(x)
}

/// Changing a step at or after position `i` leaves the clusters labelled
/// below `n + i` as they were.
pub proof fn lemma_members_frame(d0: Seq<Step>, d1: Seq<Step>, n: int, i: int, label: int)
    requires
        d0.len() == d1.len(),
        forall|k: int| 0 <= k < i && k < d0.len() ==> #[trigger] d1[k] == d0[k],
        label < n + i,
    ensures
        members(d1, n, label) == members(d0, n, label),
    decreases label,
{
    if label >= n && label - n < d0.len() {
        let s = d0[label - n];
        assert(d1[label - n] == s);
        if s.cluster1 < label && s.cluster2 < label {
            lemma_members_frame(d0, d1, n, i, s.cluster1 as int);
            lemma_members_frame(d0, d1, n, i, s.cluster2 as int);
        }
    }
}

/// Steps that agree on their labels have the same clusters.
pub proof fn lemma_members_same_labels(d0: Seq<Step>, d1: Seq<Step>, n: int, label: int)
    requires
        d0.len() == d1.len(),
        forall|k: int| 0 <= k < d0.len() ==> (#[trigger] d1[k]).cluster1 == d0[k].cluster1 && d1[k].cluster2 == d0[k].cluster2,
    ensures
        members(d1, n, label) == members(d0, n, label),
    decreases label,
{
    if label >= n && label - n < d0.len() {
        let s = d0[label - n];
        assert(d1[label - n].cluster1 == s.cluster1 && d1[label - n].cluster2 == s.cluster2);
        if s.cluster1 < label && s.cluster2 < label {
            lemma_members_same_labels(d0, d1, n, s.cluster1 as int);
            lemma_members_same_labels(d0, d1, n, s.cluster2 as int);
        }
    }
}

/// The label in slot `k` of the steps: the first cluster of step `k / 2`
/// for even `k`, the second for odd `k`.
pub open spec fn slot(steps: Seq<Step>, k: int) -> int {
    if k % 2 == 0 {
        steps[k / 2].cluster1 as int
    } else {
        steps[k / 2].cluster2 as int
    }
}

/// Some step merges the cluster labelled `label`.
pub open spec fn merges(steps: Seq<Step>, label: int) -> bool {
    exists|i: int| 0 <= i < steps.len() && (#[trigger] steps[i].cluster1 == label || steps[i].cluster2 == label)
}

/// In the dendrogram of a clustering of `n >= 2` observations, every label
/// below `2n - 2` is merged in some step, no two steps share a label, and
/// the root `2n - 2` is merged in none: each label but the root appears in
/// exactly one slot.
pub proof fn lemma_every_label_merged_once(d: &Dendrogram, n: nat)
    requires
        d.spec_is_clustering_of(n),
        n >= 2,
    ensures
        forall|label: int| 0 <= label < 2 * n - 2 ==> #[trigger] merges(d.spec_steps(), label),
        forall|i: int, j: int| 0 <= i < j < n - 1
            ==> disjoint_labels(#[trigger] d.spec_steps()[i], #[trigger] d.spec_steps()[j]),
        forall|i: int| 0 <= i < n - 1 ==> #[trigger] d.spec_steps()[i].cluster2 < 2 * n - 2,
{
    let steps = d.spec_steps();
    let m = 2 * n - 2;
    let xs = vstd::set_lib::set_int_range(0, m);
    let f = |k: int| slot(steps, k);
    assert forall|i: int| 0 <= i < n - 1 implies #[trigger] steps[i].cluster2 < 2 * n - 2 by {
        assert(steps[i].cluster1 < steps[i].cluster2 < n + i);
    }
    assert(vstd::relations::injective_on(f, xs)) by {
        assert forall|k1: int, k2: int| xs.contains(k1) && xs.contains(k2) && #[trigger] f(k1) == #[trigger] f(k2) implies k1 == k2 by {
            let i1 = k1 / 2;
            let i2 = k2 / 2;
            assert(steps[i1].cluster1 < steps[i1].cluster2);
            if i1 < i2 {
                assert(disjoint_labels(steps[i1], steps[i2]));
            } else if i2 < i1 {
                assert(disjoint_labels(steps[i2], steps[i1]));
            }
        }
    }
    let ys = xs.map(f);
    vstd::set_lib::lemma_int_range(0, m);
    vstd::set_lib::lemma_map_size(xs, ys, f);
    assert(ys.subset_of(xs)) by {
        assert forall|y: int| ys.contains(y) implies xs.contains(y) by {
            let k = choose|k: int| xs.contains(k) && f(k) == y;
            let i = k / 2;
            assert(steps[i].cluster1 < steps[i].cluster2 < n + i);
        }
    }
    vstd::set_lib::lemma_subset_equality(ys, xs);
    assert forall|label: int| 0 <= label < 2 * n - 2 implies #[trigger] merges(steps, label) by {
        assert(xs.contains(label));
        assert(ys.contains(label));
        let k = choose|k: int| xs.contains(k) && f(k) == label;
        let i = k / 2;
        assert(steps[i].cluster1 == label || steps[i].cluster2 == label);
    }
}

impl Step {
    /// The step that `new` makes.
    pub open spec fn spec_new(cluster1: usize, cluster2: usize, dissimilarity: u64, size: usize) -> Step {
        Step {
            cluster1: if cluster1 <= cluster2 { cluster1 } else { cluster2 },
            cluster2: if cluster1 <= cluster2 { cluster2 } else { cluster1 },
            dissimilarity,
            size,
        }
    }

    /// Create a new step; the smaller label goes to `cluster1`.
    pub fn new(cluster1: usize, cluster2: usize, dissimilarity: u64, size: usize) -> (r: Step)
        ensures
            r == Step::spec_new(cluster1, cluster2, dissimilarity, size),
    {
        if cluster2 < cluster1 {
            Step { cluster1: cluster2, cluster2: cluster1, dissimilarity, size }
        } else {
            Step { cluster1, cluster2, dissimilarity, size }
        }
    }

    /// Set the cluster labels on this step; the smaller label goes to
    /// `cluster1`.
    pub fn set_clusters(&mut self, cluster1: usize, cluster2: usize)
        ensures
            final(self).cluster1 == if cluster1 <= cluster2 { cluster1 } else { cluster2 },
            final(self).cluster2 == if cluster1 <= cluster2 { cluster2 } else { cluster1 },
            final(self).dissimilarity == old(self).dissimilarity,
            final(self).size == old(self).size,
    {
        if cluster2 < cluster1 {
            self.cluster1 = cluster2;
            self.cluster2 = cluster1;
        } else {
            self.cluster1 = cluster1;
            self.cluster2 = cluster2;
        }
    }

    /// The two steps agree on labels and size, and their dissimilarities
    /// differ by at most `epsilon`.
    pub open spec fn spec_eq_with_epsilon(self, other: Step, epsilon: u64) -> bool {
        &&& self.cluster1 == other.cluster1
        &&& self.cluster2 == other.cluster2
        &&& self.size == other.size
        &&& -epsilon <= self.dissimilarity - other.dissimilarity <= epsilon
    }

    /// Compare two steps, with dissimilarities equal up to `epsilon`.
    pub fn eq_with_epsilon(&self, other: &Step, epsilon: u64) -> (r: bool)
        ensures
            r == self.spec_eq_with_epsilon(*other, epsilon),
    {
        if *self == *other {
            return true;
        }
        if self.cluster1 != other.cluster1 || self.cluster2 != other.cluster2 || self.size != other.size {
            return false;
        }
        let diff = if self.dissimilarity >= other.dissimilarity {
            self.dissimilarity - other.dissimilarity
        } else {
            other.dissimilarity - self.dissimilarity
        };
        diff <= epsilon
    }
}

/// A stepwise dendrogram: the `N - 1` merges of a hierarchical clustering of
/// `N` observations.
///
/// Observation `i` is the singleton cluster labelled `i`; the cluster
/// created by step `i` is labelled `N + i`.
#[derive(Clone, Debug, PartialEq, Eq, Hash)]
pub struct Dendrogram {
    steps: Vec<Step>,
    observations: usize,
}

impl Dendrogram {
    /// The steps, in order.
    pub closed spec fn spec_steps(&self) -> Seq<Step> {
        self.steps@
    }

    /// The number of observations.
    pub closed spec fn spec_observations(&self) -> nat {
        self.observations as nat
    }

    /// The number of steps a complete dendrogram of this many observations
    /// has.
    pub open spec fn capacity(&self) -> nat {
        if self.spec_observations() == 0 { 0 } else { (self.spec_observations() - 1) as nat }
    }

    /// The dendrogram that a clustering of `n` observations returns: no
    /// steps for `n <= 1`, `n - 1` steps otherwise, with canonical labels
    /// and sizes.
    pub open spec fn spec_is_clustering_of(&self, n: nat) -> bool {
        &&& self.spec_observations() == n
        &&& self.spec_steps().len() == if n <= 1 { 0 } else { (n - 1) as nat }
        &&& canonical(self)
    }

    /// Return a new empty dendrogram for the given number of observations.
    pub fn new(observations: usize) -> (r: Dendrogram)
        ensures
            r.spec_steps() == Seq::<Step>::empty(),
            r.spec_observations() == observations,
    {
        Dendrogram { steps: Vec::new(), observations }
    }

    /// Clear this dendrogram and set its number of observations.
    pub fn reset(&mut self, observations: usize)
        ensures
            final(self).spec_steps() == Seq::<Step>::empty(),
            final(self).spec_observations() == observations,
    {
        self.steps.clear();
        self.observations = observations;
    }

    /// Push a new step on to this dendrogram, which must have fewer than
    /// `N - 1` steps.
    pub fn push(&mut self, step: Step)
        requires
            old(self).spec_steps().len() < old(self).capacity(),
        ensures
            final(self).spec_steps() == old(self).spec_steps().push(step),
            final(self).spec_observations() == old(self).spec_observations(),
    {
        self.steps.push(step);
    }

    /// Returns the steps in the dendrogram.
    pub fn steps(&self) -> (r: &[Step])
        ensures
            r@ == self.spec_steps(),
    {
        self.steps.as_slice()
    }

    /// Return the step at position `i`.
    pub fn step(&self, i: usize) -> (r: Step)
        requires
            i < self.spec_steps().len(),
        ensures
            r == self.spec_steps()[i as int],
    {
        self.steps[i]
    }

    /// Overwrite the step at position `i`.
    pub fn set_step(&mut self, i: usize, step: Step)
        requires
            i < old(self).spec_steps().len(),
        ensures
            final(self).spec_steps() == old(self).spec_steps().update(i as int, step),
            final(self).spec_observations() == old(self).spec_observations(),
    {
        self.steps.set(i, step);
    }

    /// Return the number of steps in this dendrogram.
    pub fn len(&self) -> (r: usize)
        ensures
            r == self.spec_steps().len(),
    {
        self.steps.len()
    }

    /// Return true if and only if this dendrogram has no steps.
    pub fn is_empty(&self) -> (r: bool)
        ensures
            r == (self.spec_steps().len() == 0),
    {
        self.steps.len() == 0
    }

    /// Return the number of observations that this dendrogram supports.
    pub fn observations(&self) -> (r: usize)
        ensures
            r == self.spec_observations(),
    {
        self.observations
    }

    /// The number of observations in the cluster labelled `label`.
    pub open spec fn spec_cluster_size(&self, label: int) -> int {
        if label < self.spec_observations() {
            1
        } else {
            self.spec_steps()[label - self.spec_observations()].size as int
        }
    }

    /// Returns the total number of observations in the cluster identified by
    /// the given label: one for an observation, the size of the step that
    /// created it otherwise.
    pub fn cluster_size(&self, label: usize) -> (r: usize)
        requires
            label < self.spec_observations() + self.spec_steps().len(),
        ensures
            r == self.spec_cluster_size(label as int),
    {
        if label < self.observations {
            1
        } else {
            self.steps[label - self.observations].size
        }
    }

    /// The two dendrograms have as many steps, and their steps agree up to
    /// `epsilon` on the dissimilarities.
    pub open spec fn spec_eq_with_epsilon(&self, other: &Dendrogram, epsilon: u64) -> bool {
        &&& self.spec_steps().len() == other.spec_steps().len()
        &&& forall|i: int| 0 <= i < self.spec_steps().len()
            ==> #[trigger] self.spec_steps()[i].spec_eq_with_epsilon(other.spec_steps()[i], epsilon)
    }

    /// Compare two dendrograms, with dissimilarities equal up to `epsilon`.
    pub fn eq_with_epsilon(&self, other: &Dendrogram, epsilon: u64) -> (r: bool)
        ensures
            r == self.spec_eq_with_epsilon(other, epsilon),
    {
        if self.steps.len() != other.steps.len() {
            return false;
        }
        let mut i: usize = 0;
        while i < self.steps.len()
            invariant
                i <= self.spec_steps().len(),
                self.spec_steps().len() == other.spec_steps().len(),
                forall|k: int| 0 <= k < i
                    ==> #[trigger] self.spec_steps()[k].spec_eq_with_epsilon(other.spec_steps()[k], epsilon),
            decreases self.spec_steps().len() - i,
        {
            if !self.steps[i].eq_with_epsilon(&other.steps[i], epsilon) {
                return false;
            }
            i = i + 1;
        }
        true
    }
}

} // verus!
