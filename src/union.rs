use vstd::prelude::*;

use crate::dendrogram::{Dendrogram, Step, canonical, disjoint_labels, joins, lemma_members_frame, members};
use crate::method::{Method, sorted_by_dissimilarity};
use crate::state::{seq_sum, lemma_sum_two, lemma_sum_update};

verus! {

/// The steps merge observations below `n` only, and each step removes one
/// of its two observations for good: `gone[i]` leaves at step `i` and never
/// appears again, while the other observation of step `i` is one that has
/// not left yet. This is what every clustering algorithm records before its
/// labels are made canonical.
pub open spec fn eliminates(steps: Seq<Step>, n: int, gone: Seq<int>) -> bool {
    &&& gone.len() == steps.len()
    &&& forall|i: int| 0 <= i < steps.len() ==> {
        &&& (#[trigger] steps[i]).cluster1 < steps[i].cluster2 < n
        &&& gone[i] == steps[i].cluster1 || gone[i] == steps[i].cluster2
        &&& forall|j: int| 0 <= j <= i ==> gone[j] != steps[i].cluster1 + steps[i].cluster2 - gone[i]
    }
    &&& forall|i: int, j: int| 0 <= i < j < steps.len() ==> gone[i] != gone[j]
}

/// The two sequences hold the same steps: `perm` maps each position of
/// `after` to a distinct position of `before`.
pub open spec fn is_permutation(before: Seq<Step>, after: Seq<Step>, perm: Seq<int>) -> bool {
    &&& before.len() == after.len()
    &&& perm.len() == after.len()
    &&& forall|k: int| 0 <= k < after.len() ==> 0 <= #[trigger] perm[k] < before.len() && after[k] == before[perm[k]]
    &&& forall|k: int, l: int| 0 <= k < l < after.len() ==> perm[k] != perm[l]
}

/// `after` is `before` relabelled for `method`: step `k` of `after`
/// carries the dissimilarity of step `perm[k]` of `before` and joins the
/// clusters holding that step's two observations. `perm` is the identity
/// when `method` does not sort, and keeps equal dissimilarities in their
/// order when it does.
pub open spec fn relabel_order(method: Method, before: Seq<Step>, after: Seq<Step>, n: int, perm: Seq<int>) -> bool {
    &&& before.len() == after.len()
    &&& perm.len() == after.len()
    &&& forall|k: int| 0 <= k < after.len() ==> {
        &&& 0 <= #[trigger] perm[k] < before.len()
        &&& !method.spec_requires_sorting() ==> perm[k] == k
        &&& after[k].dissimilarity == before[perm[k]].dissimilarity
        &&& joins(after, n, k, before[perm[k]].cluster1 as int, before[perm[k]].cluster2 as int)
    }
    &&& forall|k: int, l: int| 0 <= k < l < after.len() ==> perm[k] != perm[l]
    &&& forall|k: int, l: int| 0 <= k < l < after.len() && before[perm[k]].dissimilarity == before[perm[l]].dissimilarity
        ==> perm[k] < perm[l]
}

/// `after` is `before` relabelled for `method`, in the order of some
/// permutation.
pub open spec fn relabels(method: Method, before: Seq<Step>, after: Seq<Step>, n: int) -> bool {
    exists|perm: Seq<int>| relabel_order(method, before, after, n, perm)
}

/// Sort the steps by dissimilarity, keeping the order of equal ones.
fn sort_steps(dend: &mut Dendrogram) -> (perm: Ghost<Seq<int>>)
    ensures
        final(dend).spec_observations() == old(dend).spec_observations(),
        is_permutation(old(dend).spec_steps(), final(dend).spec_steps(), perm@),
        sorted_by_dissimilarity(final(dend).spec_steps()),
        forall|k: int, l: int| 0 <= k < l < perm@.len() && final(dend).spec_steps()[k].dissimilarity
            == final(dend).spec_steps()[l].dissimilarity ==> perm@[k] < perm@[l],
{
    let len = dend.len();
    let ghost orig = dend.spec_steps();
    let ghost mut perm = Seq::new(len as nat, |k: int| k);
    let mut i: usize = 1;
    if len == 0 {
        return Ghost(perm);
    }
    while i < len
        invariant
            1 <= i <= len,
            len == dend.spec_steps().len(),
            dend.spec_observations() == old(dend).spec_observations(),
            orig == old(dend).spec_steps(),
            is_permutation(orig, dend.spec_steps(), perm),
            forall|k: int, l: int| 0 <= k < l < i ==> dend.spec_steps()[k].dissimilarity <= dend.spec_steps()[l].dissimilarity,
            forall|k: int| 0 <= k < i ==> #[trigger] perm[k] < i,
            forall|k: int| i <= k < len ==> #[trigger] perm[k] == k,
            forall|k: int, l: int| 0 <= k < l < i && dend.spec_steps()[k].dissimilarity == dend.spec_steps()[l].dissimilarity
                ==> perm[k] < perm[l],
        decreases len - i,
    {
        let mut j: usize = i;
        while j > 0 && dend.step(j - 1).dissimilarity > dend.step(j).dissimilarity
            invariant
                0 <= j <= i < len,
                len == dend.spec_steps().len(),
                dend.spec_observations() == old(dend).spec_observations(),
                is_permutation(orig, dend.spec_steps(), perm),
                forall|k: int, l: int| 0 <= k < l <= i && k != j && l != j
                    ==> dend.spec_steps()[k].dissimilarity <= dend.spec_steps()[l].dissimilarity,
                forall|l: int| j < l <= i ==> dend.spec_steps()[j as int].dissimilarity < dend.spec_steps()[l].dissimilarity,
                perm[j as int] == i,
                forall|k: int| 0 <= k <= i && k != j ==> #[trigger] perm[k] < i,
                forall|k: int| i < k < len ==> #[trigger] perm[k] == k,
                forall|k: int, l: int| 0 <= k < l <= i && k != j && l != j
                    && dend.spec_steps()[k].dissimilarity == dend.spec_steps()[l].dissimilarity ==> perm[k] < perm[l],
            decreases j,
        {
            let a = dend.step(j - 1);
            let b = dend.step(j);
            dend.set_step(j - 1, b);
            dend.set_step(j, a);
            proof {
                let pj = perm[j as int];
                let pj1 = perm[j - 1];
                perm = perm.update(j - 1, pj).update(j as int, pj1);
            }
            j = j - 1;
        }
        proof {
            assert forall|k: int, l: int| 0 <= k < l < i + 1 && dend.spec_steps()[k].dissimilarity == dend.spec_steps()[l].dissimilarity
                implies perm[k] < perm[l] by {
                if l == j {
                    assert(perm[k] < i);
                } else if k == j {
                    assert(dend.spec_steps()[k].dissimilarity < dend.spec_steps()[l].dissimilarity);
                }
            }
        }
        i = i + 1;
    }
    Ghost(perm)
}

/// The root that label `i` reaches by following `parents`; parents always
/// point to larger labels, so the walk ends.
pub open spec fn root_of(parents: Seq<usize>, i: int) -> int
    decreases parents.len() - i,
{
    if 0 <= i < parents.len() && i < parents[i] < parents.len() {
        root_of(parents, parents[i] as int)
    } else {
        i
    }
}

/// Every parent link points to a strictly larger label below `bound`, or
/// to the label itself; labels at or above `bound` are roots.
pub open spec fn parents_ok(parents: Seq<usize>, bound: int) -> bool {
    &&& bound <= parents.len()
    &&& forall|i: int| #![trigger parents[i]] 0 <= i < parents.len() ==>
        (parents[i] == i || i < parents[i] < bound)
    &&& forall|i: int| #![trigger parents[i]] bound <= i < parents.len() ==> parents[i] == i
}

/// A root is its own root; the root of any label is a root.
pub proof fn lemma_root_is_root(parents: Seq<usize>, bound: int, i: int)
    requires
        parents_ok(parents, bound),
        0 <= i < parents.len(),
    ensures
        i <= root_of(parents, i) < parents.len(),
        parents[root_of(parents, i)] == root_of(parents, i),
        parents[i] != i ==> root_of(parents, i) == root_of(parents, parents[i] as int),
        parents[i] != i ==> root_of(parents, i) < bound,
    decreases parents.len() - i,
{
    if parents[i] != i {
        lemma_root_is_root(parents, bound, parents[i] as int);
    }
}

/// Pointing a label straight at its root changes no label's root.
pub proof fn lemma_compress(parents: Seq<usize>, bound: int, c: int, x: int)
    requires
        parents_ok(parents, bound),
        0 <= c < parents.len(),
        0 <= x < parents.len(),
        parents[c] != c,
    ensures
        parents_ok(parents.update(c, root_of(parents, c) as usize), bound),
        root_of(parents.update(c, root_of(parents, c) as usize), x) == root_of(parents, x),
    decreases parents.len() - x,
{
    let r = root_of(parents, c);
    lemma_root_is_root(parents, bound, c);
    let q = parents.update(c, r as usize);
    assert(parents_ok(q, bound)) by {
        assert forall|i: int| #![trigger q[i]] 0 <= i < q.len() implies (q[i] == i || i < q[i] < bound) by {
            if i != c {
                assert(q[i] == parents[i]);
                assert(parents[i] == i || i < parents[i] < bound);
            }
        }
        assert forall|i: int| #![trigger q[i]] bound <= i < q.len() implies q[i] == i by {
            assert(parents[i] == i);
            if i == c {
                assert(parents[c] == c || c < parents[c] < bound);
            }
        }
    }
    lemma_root_is_root(parents, bound, x);
    if x == c {
        assert(q[r] == r);
        assert(root_of(q, r) == r);
    } else if parents[x] != x {
        lemma_compress(parents, bound, c, parents[x] as int);
    }
}

/// Two roots get a fresh common parent: the roots of their members move to
/// it, and no other root changes.
pub proof fn lemma_join(parents: Seq<usize>, bound: int, c1: int, c2: int, x: int)
    requires
        parents_ok(parents, bound),
        bound < parents.len(),
        bound < usize::MAX,
        0 <= c1 < bound,
        0 <= c2 < bound,
        parents[c1] == c1,
        parents[c2] == c2,
        0 <= x < parents.len(),
    ensures
        parents_ok(parents.update(c1, bound as usize).update(c2, bound as usize), bound + 1),
        root_of(parents.update(c1, bound as usize).update(c2, bound as usize), x) == if root_of(
            parents,
            x,
        ) == c1 || root_of(parents, x) == c2 {
            bound
        } else {
            root_of(parents, x)
        },
    decreases parents.len() - x,
{
    let q = parents.update(c1, bound as usize).update(c2, bound as usize);
    assert(parents_ok(q, bound + 1)) by {
        assert forall|i: int| #![trigger q[i]] 0 <= i < q.len() implies (q[i] == i || i < q[i] < bound + 1) by {
            if i != c1 && i != c2 {
                assert(q[i] == parents[i]);
                assert(parents[i] == i || i < parents[i] < bound);
            }
        }
        assert forall|i: int| #![trigger q[i]] bound + 1 <= i < q.len() implies q[i] == i by {
            assert(q[i] == parents[i]);
            assert(parents[i] == i);
        }
    }
    lemma_root_is_root(parents, bound, x);
    assert(q[bound] == bound) by {
        assert(parents[bound] == bound);
    }
    assert(root_of(q, bound) == bound);
    if x == c1 || x == c2 {
    } else if parents[x] != x {
        lemma_join(parents, bound, c1, c2, parents[x] as int);
    }
}

/// A union-find over the cluster labels of a clustering of `N`
/// observations: labels `0..N` are the observations and each union creates
/// the next fresh label, up to `2N - 1` labels in all.
#[derive(Clone, Debug)]
pub struct LinkageUnionFind {
    /// A map from cluster label to its cluster's parent; a label mapped to
    /// itself is a root.
    parents: Vec<usize>,
    /// The next cluster label to assign on the next union.
    next_parent: usize,
}

impl LinkageUnionFind {
    /// The parent links.
    pub closed spec fn parents(&self) -> Seq<usize> {
        self.parents@
    }

    /// The label that the next union creates.
    pub closed spec fn next_label(&self) -> int {
        self.next_parent as int
    }

    /// The root of label `i`.
    pub open spec fn root(&self, i: int) -> int {
        root_of(self.parents(), i)
    }

    /// The number of labels.
    pub open spec fn len(&self) -> nat {
        self.parents().len()
    }

    /// Parent links point upwards, to labels that unions have created.
    pub closed spec fn wf(&self) -> bool {
        parents_ok(self.parents@, self.next_parent as int)
    }

    /// The labels of a set made for `len` observations, none merged yet.
    pub open spec fn fresh(&self, len: nat) -> bool {
        &&& self.wf()
        &&& self.len() == if len == 0 { 0 } else { 2 * len - 1 }
        &&& self.next_label() == len
        &&& forall|i: int| 0 <= i < self.len() ==> self.root(i) == i
    }

    /// Create a new empty set.
    pub fn new() -> (r: LinkageUnionFind)
        ensures
            r.fresh(0),
    {
        LinkageUnionFind::with_len(0)
    }

    /// Create a new set that can merge clusters for exactly `len`
    /// observations.
    pub fn with_len(len: usize) -> (r: LinkageUnionFind)
        requires
            len <= usize::MAX / 2,
        ensures
            r.fresh(len as nat),
    {
        let mut r = LinkageUnionFind { parents: Vec::new(), next_parent: 0 };
        r.reset(len);
        r
    }

    /// Clear this set and size it for `len` observations.
    pub fn reset(&mut self, len: usize)
        requires
            len <= usize::MAX / 2,
        ensures
            final(self).fresh(len as nat),
    {
        let size: usize = if len == 0 { 0 } else { 2 * len - 1 };
        self.next_parent = len;
        self.parents.clear();
        let mut i: usize = 0;
        while i < size
            invariant
                i <= size,
                size == if len == 0 { 0 } else { 2 * len - 1 },
                self.next_parent == len,
                self.parents@.len() == i,
                forall|j: int| 0 <= j < i ==> self.parents@[j] == j,
            decreases size - i,
        {
            self.parents.push(i);
            i = i + 1;
        }
        assert forall|j: int| 0 <= j < self.len() implies self.root(j) == j by {
            assert(self.parents@[j] == j);
        }
        assert(parents_ok(self.parents@, len as int));
    }

    /// Return the parent of the given cluster, or `None` for a root.
    fn parent(&self, cluster: usize) -> (r: Option<usize>)
        requires
            self.wf(),
            cluster < self.len(),
        ensures
            r is None <==> self.parents()[cluster as int] == cluster,
            r matches Some(p) ==> p == self.parents()[cluster as int] && cluster < p < self.len(),
    {
        let p = self.parents[cluster];
        if p == cluster {
            None
        } else {
            Some(p)
        }
    }

    /// Return the root cluster label of the cluster given, pointing every
    /// label on the way straight at it.
    pub fn find(&mut self, cluster: usize) -> (r: usize)
        requires
            old(self).wf(),
            cluster < old(self).len(),
        ensures
            final(self).wf(),
            r == old(self).root(cluster as int),
            cluster < old(self).next_label() ==> r < old(self).next_label(),
            final(self).len() == old(self).len(),
            final(self).next_label() == old(self).next_label(),
            forall|i: int| 0 <= i < old(self).len() ==> #[trigger] final(self).root(i) == old(self).root(i),
    {
        let ghost bound = self.next_parent as int;
        proof {
            lemma_root_is_root(self.parents@, bound, cluster as int);
        }
        let mut parent = cluster;
        let ghost start = cluster;
        loop
            invariant
                self.wf(),
                self.parents@ == old(self).parents@,
                self.next_parent == old(self).next_parent,
                bound == self.next_parent,
                parent < self.len(),
                self.root(parent as int) == self.root(cluster as int),
            ensures
                parent == self.root(cluster as int),
            decreases self.len() - parent,
        {
            match self.parent(parent) {
                None => break,
                Some(p) => {
                    proof {
                        lemma_root_is_root(self.parents@, bound, parent as int);
                    }
                    parent = p;
                },
            }
        }
        let mut cluster = cluster;
        proof {
            lemma_root_is_root(self.parents@, bound, parent as int);
            lemma_root_is_root(self.parents@, bound, start as int);
        }
        loop
            invariant
                self.wf(),
                self.next_parent == old(self).next_parent,
                bound == self.next_parent,
                self.len() == old(self).len(),
                cluster < self.len(),
                parent < self.len(),
                self.root(cluster as int) == parent,
                parent == old(self).root(parent as int),
                forall|i: int| 0 <= i < old(self).len() ==> #[trigger] self.root(i) == old(self).root(i),
            decreases self.len() - cluster,
        {
            match self.parent(cluster) {
                None => break,
                Some(p) => {
                    proof {
                        lemma_root_is_root(self.parents@, bound, cluster as int);
                        assert forall|i: int| 0 <= i < old(self).len() implies
                            #[trigger] root_of(self.parents@.update(cluster as int, parent), i)
                                == old(self).root(i) by {
                            lemma_compress(self.parents@, bound, cluster as int, i);
                            assert(self.root(i) == old(self).root(i));
                        }
                        lemma_compress(self.parents@, bound, cluster as int, p as int);
                    }
                    self.parents.set(cluster, parent);
                    cluster = p;
                },
            }
        }
        parent
    }

    /// Union the clusters of the two labels given: both roots get the next
    /// fresh label as their parent. A no-op if they are merged already.
    pub fn union(&mut self, cluster1: usize, cluster2: usize)
        requires
            old(self).wf(),
            cluster1 < old(self).next_label(),
            cluster2 < old(self).next_label(),
            old(self).root(cluster1 as int) != old(self).root(cluster2 as int)
                ==> old(self).next_label() < old(self).len(),
        ensures
            final(self).wf(),
            final(self).len() == old(self).len(),
            old(self).next_label() <= final(self).next_label() <= old(self).next_label() + 1,
            final(self).root(cluster1 as int) == final(self).root(cluster2 as int),
            old(self).root(cluster1 as int) == old(self).root(cluster2 as int) ==> {
                &&& final(self).next_label() == old(self).next_label()
                &&& forall|i: int| 0 <= i < old(self).len() ==> #[trigger] final(self).root(i) == old(self).root(i)
            },
            old(self).root(cluster1 as int) != old(self).root(cluster2 as int) ==> {
                &&& final(self).next_label() == old(self).next_label() + 1
                &&& forall|i: int| 0 <= i < old(self).len() ==> #[trigger] final(self).root(i) == if old(self).root(i)
                    == old(self).root(cluster1 as int) || old(self).root(i) == old(self).root(cluster2 as int) {
                    old(self).next_label()
                } else {
                    old(self).root(i)
                }
            },
    {
        let r1 = self.find(cluster1);
        let r2 = self.find(cluster2);
        if r1 == r2 {
            return;
        }
        let ghost mid = self.parents@;
        let ghost st = *self;
        let ghost bound = self.next_parent as int;
        let np = self.next_parent;
        let plen = self.parents.len();
        proof {
            assert forall|i: int| 0 <= i < old(self).len() implies #[trigger] root_of(mid, i) == old(self).root(i) by {
                assert(st.root(i) == old(self).root(i));
            }
            assert(st.root(cluster1 as int) == old(self).root(cluster1 as int));
            assert(st.root(cluster2 as int) == old(self).root(cluster2 as int));
            assert(np < plen);
            lemma_root_is_root(mid, bound, cluster1 as int);
            lemma_root_is_root(mid, bound, cluster2 as int);
            if cluster1 >= bound {
                assert(mid[cluster1 as int] == cluster1);
            }
            if cluster2 >= bound {
                assert(mid[cluster2 as int] == cluster2);
            }
        }
        self.parents.set(r1, np);
        self.parents.set(r2, np);
        self.next_parent = np + 1;
        proof {
            assert(self.parents@ == mid.update(r1 as int, np).update(r2 as int, np));
            assert forall|i: int| 0 <= i < old(self).len() implies #[trigger] self.root(i) == if old(self).root(i)
                == old(self).root(cluster1 as int) || old(self).root(i) == old(self).root(cluster2 as int) {
                old(self).next_label()
            } else {
                old(self).root(i)
            } by {
                lemma_join(mid, bound, r1 as int, r2 as int, i);
                assert(root_of(mid, i) == old(self).root(i));
            }
        }
    }
}

/// The position in `gone` at which observation `x` leaves, or `n` if it
/// never does.
pub open spec fn leaves_at(gone: Seq<int>, n: int, x: int) -> int {
    if exists|i: int| 0 <= i < gone.len() && gone[i] == x {
        choose|i: int| 0 <= i < gone.len() && gone[i] == x
    } else {
        n
    }
}

/// The components after merging the component topped by `u` into the one
/// topped by `tp`.
pub open spec fn new_top(top: Seq<int>, u: int, tp: int) -> Seq<int> {
    Seq::new(top.len(), |x: int| if top[x] == u || top[x] == tp { tp } else { top[x] })
}

/// The state of relabelling after `i` steps. Each observation `x` belongs
/// to the component whose top observation is `top[x]` (the one of them
/// that leaves last, per `e`); the component topped by `t` has label
/// `lab[t]`, the union-find root of all its members, and `w[t]`
/// observations. Steps before `i` are canonical and their labels are no
/// longer roots.
#[verifier::opaque]
pub open spec fn relabel_inv(
    uf: LinkageUnionFind,
    d: Seq<Step>,
    n: int,
    len: int,
    i: int,
    top: Seq<int>,
    lab: Seq<int>,
    w: Seq<usize>,
    pdone: Seq<bool>,
    e: Seq<int>,
    perm: Seq<int>,
    src: Seq<Step>,
) -> bool {
    &&& uf.wf()
    &&& src.len() == len
    &&& uf.len() == 2 * n - 1
    &&& uf.next_label() == n + i
    &&& 0 <= i <= len < n
    &&& d.len() == len
    &&& perm.len() == len
    &&& top.len() == n
    &&& lab.len() == n
    &&& w.len() == n
    &&& e.len() == n
    &&& pdone.len() == len
    &&& seq_sum(w) == n
    &&& forall|x: int| 0 <= x < n ==> {
        &&& 0 <= #[trigger] top[x] < n
        &&& e[top[x]] >= e[x]
        &&& top[top[x]] == top[x]
        &&& uf.root(x) == lab[top[x]]
        &&& (top[x] != x ==> 0 <= e[x] < len && pdone[e[x]])
    }
    &&& forall|t1: int, t2: int| 0 <= t1 < n && 0 <= t2 < n && t1 != t2 && top[t1] == t1 && top[t2] == t2
        ==> #[trigger] lab[t1] != #[trigger] lab[t2]
    &&& forall|t: int| 0 <= t < n && top[t] == t ==> {
        &&& 0 <= #[trigger] lab[t] < uf.next_label()
        &&& uf.root(lab[t]) == lab[t]
        &&& old_cluster_size(d, n, lab[t]) == w[t]
        &&& w[t] >= 1
        &&& members(d, n, lab[t]) == Set::new(|x: int| 0 <= x < n && top[x] == t)
    }
    &&& forall|k: int| 0 <= k < i ==> #[trigger] joins(d, n, k, src[k].cluster1 as int, src[k].cluster2 as int)
    &&& forall|m: int| i <= m < len ==> 0 <= #[trigger] perm[m] < len && !pdone[perm[m]]
    &&& forall|k: int| 0 <= k < i ==> {
        let s = #[trigger] d[k];
        &&& s.cluster1 < s.cluster2 < n + k
        &&& s.size == old_cluster_size(d, n, s.cluster1 as int) + old_cluster_size(d, n, s.cluster2 as int)
        &&& uf.root(s.cluster1 as int) != s.cluster1
        &&& uf.root(s.cluster2 as int) != s.cluster2
    }
    &&& forall|k1: int, k2: int| 0 <= k1 < k2 < i ==> disjoint_labels(#[trigger] d[k1], #[trigger] d[k2])
}

/// At the start, every observation is a component of its own.
proof fn lemma_relabel_init(uf: LinkageUnionFind, d: Seq<Step>, n: int, e: Seq<int>, perm: Seq<int>, src: Seq<Step>)
    requires
        uf.fresh(n as nat),
        0 <= d.len() < n,
        perm.len() == d.len(),
        forall|m: int| 0 <= m < d.len() ==> 0 <= #[trigger] perm[m] < d.len(),
        e.len() == n,
        src.len() == d.len(),
    ensures
        relabel_inv(
            uf,
            d,
            n,
            d.len() as int,
            0,
            Seq::new(n as nat, |x: int| x),
            Seq::new(n as nat, |x: int| x),
            Seq::new(n as nat, |x: int| 1usize),
            Seq::new(d.len(), |j: int| false),
            e,
            perm,
            src,
        ),
{
    reveal(relabel_inv);
    let w = Seq::new(n as nat, |x: int| 1usize);
    lemma_ones_sum(w);
    assert forall|x: int| 0 <= x < n implies uf.root(x) == x by {}
    let top = Seq::new(n as nat, |x: int| x);
    assert forall|t: int| 0 <= t < n implies #[trigger] members(d, n, t) == Set::new(|x: int| 0 <= x < n && top[x] == t) by {
        assert(members(d, n, t) =~= Set::new(|x: int| 0 <= x < n && top[x] == t));
    }
}

/// What relabelling step `i` finds: the observation `u` that leaves at it
/// is the top of its component, the other observation's component has a
/// different top `tp`, and their labels are distinct roots.
proof fn lemma_relabel_pick(
    uf: LinkageUnionFind,
    d: Seq<Step>,
    n: int,
    len: int,
    i: int,
    top: Seq<int>,
    lab: Seq<int>,
    w: Seq<usize>,
    pdone: Seq<bool>,
    e: Seq<int>,
    perm: Seq<int>,
    orig: Seq<Step>,
    gone: Seq<int>,
    src: Seq<Step>,
)
    requires
        relabel_inv(uf, d, n, len, i, top, lab, w, pdone, e, perm, src),
        i < len,
        eliminates(orig, n, gone),
        orig.len() == len,
        d[i] == orig[perm[i]],
        forall|x: int| 0 <= x < n ==> #[trigger] e[x] == leaves_at(gone, n, x),
    ensures
        ({
            let oi = perm[i];
            let u = gone[oi];
            let p = d[i].cluster1 + d[i].cluster2 - u;
            let tp = top[p];
            &&& uf.wf()
            &&& uf.len() == 2 * n - 1
            &&& uf.next_label() == n + i
            &&& 0 <= oi < len
            &&& e[u] == oi
            &&& d[i].cluster1 < d[i].cluster2 < n
            &&& u == d[i].cluster1 || u == d[i].cluster2
            &&& 0 <= u < n
            &&& 0 <= p < n
            &&& 0 <= tp < n
            &&& top[u] == u
            &&& top[tp] == tp
            &&& tp != u
            &&& e[tp] > oi
            &&& lab[u] != lab[tp]
            &&& uf.root(u) == lab[u]
            &&& uf.root(p) == lab[tp]
            &&& 0 <= lab[u] < n + i
            &&& 0 <= lab[tp] < n + i
            &&& uf.root(lab[u]) == lab[u]
            &&& uf.root(lab[tp]) == lab[tp]
            &&& w[u] + w[tp] <= n
            &&& old_cluster_size(d, n, lab[u]) == w[u]
            &&& old_cluster_size(d, n, lab[tp]) == w[tp]
        }),
{
    reveal(relabel_inv);
    let oi = perm[i];
    let u = gone[oi];
    let p = d[i].cluster1 + d[i].cluster2 - u;
    assert(orig[oi].cluster1 < orig[oi].cluster2 < n);
    assert(e[u] == oi) by {
        let j = choose|j: int| 0 <= j < gone.len() && gone[j] == u;
        if j != oi {
            if j < oi {
                assert(gone[j] != gone[oi]);
            } else {
                assert(gone[oi] != gone[j]);
            }
        }
    }
    assert(top[u] == u) by {
        assert(!pdone[perm[i]]);
    }
    assert(e[p] > oi) by {
        if exists|j: int| 0 <= j < gone.len() && gone[j] == p {
            let j = choose|j: int| 0 <= j < gone.len() && gone[j] == p;
            if j <= oi {
                assert(gone[j] != orig[oi].cluster1 + orig[oi].cluster2 - gone[oi]);
            }
        }
    }
    let tp = top[p];
    assert(e[tp] >= e[p]);
    assert(top[tp] == tp);
    assert(lab[u] != lab[tp]);
    lemma_sum_two(w, u, tp);
}

/// One relabelling step keeps the invariant.
proof fn lemma_relabel_step(
    uf0: LinkageUnionFind,
    uf2: LinkageUnionFind,
    d0: Seq<Step>,
    d1: Seq<Step>,
    n: int,
    len: int,
    i: int,
    top: Seq<int>,
    lab: Seq<int>,
    w: Seq<usize>,
    pdone: Seq<bool>,
    e: Seq<int>,
    perm: Seq<int>,
    u: int,
    tp: int,
    new_step: Step,
    p: int,
    src: Seq<Step>,
)
    requires
        relabel_inv(uf0, d0, n, len, i, top, lab, w, pdone, e, perm, src),
        0 <= p < n,
        top[p] == tp,
        (u == src[i].cluster1 && p == src[i].cluster2) || (u == src[i].cluster2 && p == src[i].cluster1),
        forall|k: int, l: int| 0 <= k < l < perm.len() ==> perm[k] != perm[l],
        i < len,
        0 <= u < n,
        0 <= tp < n,
        top[u] == u,
        top[tp] == tp,
        tp != u,
        e[u] == perm[i],
        e[tp] > perm[i],
        lab[u] != lab[tp],
        w[u] + w[tp] <= n,
        uf2.wf(),
        uf2.len() == uf0.len(),
        uf2.next_label() == n + i + 1,
        forall|x: int| 0 <= x < 2 * n - 1 ==> #[trigger] uf2.root(x) == if uf0.root(x) == lab[u] || uf0.root(x) == lab[tp] {
            n + i
        } else {
            uf0.root(x)
        },
        new_step.cluster1 == if lab[u] < lab[tp] { lab[u] } else { lab[tp] },
        new_step.cluster2 == if lab[u] < lab[tp] { lab[tp] } else { lab[u] },
        new_step.size == w[u] + w[tp],
        d1 == d0.update(i, new_step),
    ensures
        relabel_inv(
            uf2,
            d1,
            n,
            len,
            i + 1,
            new_top(top, u, tp),
            lab.update(tp, n + i),
            w.update(u, 0).update(tp, (w[u] + w[tp]) as usize),
            pdone.update(perm[i], true),
            e,
            perm,
            src,
        ),
{
    reveal(relabel_inv);
    let np = n + i;
    let top1 = new_top(top, u, tp);
    let lab1 = lab.update(tp, np);
    let w1 = w.update(u, 0).update(tp, (w[u] + w[tp]) as usize);
    let oi = perm[i];
    let pdone1 = pdone.update(oi, true);
    assert(0 <= oi < len);
    assert forall|c: int| 0 <= c < n + i implies #[trigger] old_cluster_size(d1, n, c) == old_cluster_size(d0, n, c) by {}
    assert(old_cluster_size(d1, n, np) == w[u] + w[tp]);
    lemma_sum_update(w, u, 0);
    lemma_sum_update(w.update(u, 0), tp, (w[u] + w[tp]) as usize);
    assert forall|x: int| 0 <= x < n implies {
        &&& 0 <= #[trigger] top1[x] < n
        &&& e[top1[x]] >= e[x]
        &&& top1[top1[x]] == top1[x]
        &&& uf2.root(x) == lab1[top1[x]]
        &&& (top1[x] != x ==> 0 <= e[x] < len && pdone1[e[x]])
    } by {
        assert(uf0.root(x) == lab[top[x]]);
        assert(top[top[x]] == top[x]);
        if top[x] == u || top[x] == tp {
        } else {
            assert(lab[top[x]] != lab[u]);
            assert(lab[top[x]] != lab[tp]);
        }
    }
    assert forall|t1: int, t2: int| 0 <= t1 < n && 0 <= t2 < n && t1 != t2 && top1[t1] == t1 && top1[t2] == t2
        implies #[trigger] lab1[t1] != #[trigger] lab1[t2] by {
        assert(top[t1] == t1 || top[t1] == u || top[t1] == tp);
        assert(top[t2] == t2 || top[t2] == u || top[t2] == tp);
        if t1 != tp && t2 != tp {
            assert(top[t1] == t1 && top[t2] == t2);
            assert(lab[t1] != lab[t2]);
        } else if t1 == tp {
            assert(top[t2] == t2);
            assert(lab[t2] < np);
        } else {
            assert(top[t1] == t1);
            assert(lab[t1] < np);
        }
    }
    assert forall|l: int| l < n + i implies #[trigger] members(d1, n, l) == members(d0, n, l) by {
        lemma_members_frame(d0, d1, n, i, l);
    }
    let mu = members(d0, n, lab[u]);
    let mtp = members(d0, n, lab[tp]);
    assert(mu == Set::new(|x: int| 0 <= x < n && top[x] == u));
    assert(mtp == Set::new(|x: int| 0 <= x < n && top[x] == tp));
    assert(members(d1, n, lab[u]) == mu);
    assert(members(d1, n, lab[tp]) == mtp);
    assert(members(d1, n, np) =~= Set::new(|x: int| 0 <= x < n && top1[x] == tp)) by {
        assert(d1[i] == new_step);
        assert(members(d1, n, np) == members(d1, n, new_step.cluster1 as int).union(members(d1, n, new_step.cluster2 as int)));
    }
    assert forall|t: int| 0 <= t < n && top1[t] == t implies {
        &&& 0 <= #[trigger] lab1[t] < uf2.next_label()
        &&& uf2.root(lab1[t]) == lab1[t]
        &&& old_cluster_size(d1, n, lab1[t]) == w1[t]
        &&& w1[t] >= 1
        &&& members(d1, n, lab1[t]) == Set::new(|x: int| 0 <= x < n && top1[x] == t)
    } by {
        if t == tp {
            uf0.lemma_fixed_root(np);
        } else {
            assert(top[t] == t || top[t] == u);
            if top[t] == u {
                assert(top1[t] == tp);
            }
            assert(members(d0, n, lab[t]) == Set::new(|x: int| 0 <= x < n && top[x] == t));
            assert(members(d1, n, lab1[t]) =~= Set::new(|x: int| 0 <= x < n && top1[x] == t));
            assert(top[t] == t || top[t] == u);
            if top[t] == u {
                assert(top1[t] == tp);
            }
            assert(top[t] == t);
            assert(uf0.root(lab[t]) == lab[t]);
            assert(lab[t] != lab[u]);
            assert(lab[t] != lab[tp]);
        }
    }
    assert forall|m: int| i + 1 <= m < len implies 0 <= #[trigger] perm[m] < len && !pdone1[perm[m]] by {
        assert(perm[i] != perm[m]);
    }
    assert forall|k: int| 0 <= k < i + 1 implies {
        let s = #[trigger] d1[k];
        &&& s.cluster1 < s.cluster2 < n + k
        &&& s.size == old_cluster_size(d1, n, s.cluster1 as int) + old_cluster_size(d1, n, s.cluster2 as int)
        &&& uf2.root(s.cluster1 as int) != s.cluster1
        &&& uf2.root(s.cluster2 as int) != s.cluster2
    } by {
        if k < i {
            let s = d0[k];
            assert(uf0.root(s.cluster1 as int) != s.cluster1);
            assert(uf0.root(s.cluster2 as int) != s.cluster2);
            uf0.lemma_fixed_root(s.cluster1 as int);
            uf0.lemma_fixed_root(s.cluster2 as int);
        } else {
            uf0.lemma_fixed_root(lab[u]);
            uf0.lemma_fixed_root(lab[tp]);
        }
    }
    assert forall|k: int| 0 <= k < i + 1 implies #[trigger] joins(d1, n, k, src[k].cluster1 as int, src[k].cluster2 as int) by {
        if k < i {
            assert(joins(d0, n, k, src[k].cluster1 as int, src[k].cluster2 as int));
            assert(d1[k] == d0[k]);
            assert(d0[k].cluster1 < d0[k].cluster2 < n + k);
        } else {
            assert(d1[i] == new_step);
            assert(mu.contains(u));
            assert(mtp.contains(p));
        }
    }
    assert forall|k1: int, k2: int| 0 <= k1 < k2 < i + 1 implies disjoint_labels(#[trigger] d1[k1], #[trigger] d1[k2]) by {
        if k2 == i {
            let s = d0[k1];
            assert(uf0.root(s.cluster1 as int) != s.cluster1);
            assert(uf0.root(s.cluster2 as int) != s.cluster2);
        } else {
            assert(disjoint_labels(d0[k1], d0[k2]));
        }
    }
}

/// After the last step, the labels are canonical.
proof fn lemma_relabel_done(
    uf: LinkageUnionFind,
    dend: Dendrogram,
    n: int,
    len: int,
    top: Seq<int>,
    lab: Seq<int>,
    w: Seq<usize>,
    pdone: Seq<bool>,
    e: Seq<int>,
    perm: Seq<int>,
    src: Seq<Step>,
)
    requires
        relabel_inv(uf, dend.spec_steps(), n, len, len, top, lab, w, pdone, e, perm, src),
        dend.spec_observations() == n,
    ensures
        canonical(&dend),
        forall|k: int| 0 <= k < len ==> #[trigger] joins(dend.spec_steps(), n, k, src[k].cluster1 as int, src[k].cluster2 as int),
{
    reveal(relabel_inv);
    let d = dend.spec_steps();
    assert forall|i: int| 0 <= i < d.len() implies {
        let s = #[trigger] d[i];
        &&& s.cluster1 < s.cluster2 < dend.spec_observations() + i
        &&& s.size == dend.spec_cluster_size(s.cluster1 as int) + dend.spec_cluster_size(s.cluster2 as int)
    } by {
        let s = d[i];
        assert(old_cluster_size(d, n, s.cluster1 as int) == dend.spec_cluster_size(s.cluster1 as int));
        assert(old_cluster_size(d, n, s.cluster2 as int) == dend.spec_cluster_size(s.cluster2 as int));
    }
}

impl LinkageUnionFind {
    /// A label is its own root exactly when it is its own parent; roots are
    /// fixed points; and labels that unions have created have roots among
    /// them.
    pub proof fn lemma_fixed_root(&self, c: int)
        requires
            self.wf(),
            0 <= c < self.len(),
        ensures
            (self.root(c) == c) == (self.parents()[c] == c),
            0 <= self.root(c) < self.len(),
            self.root(self.root(c)) == self.root(c),
            c < self.next_label() ==> self.root(c) < self.next_label(),
            c >= self.next_label() ==> self.root(c) == c,
    {
        lemma_root_is_root(self.parents@, self.next_parent as int, c);
        let r = root_of(self.parents@, c);
        lemma_root_is_root(self.parents@, self.next_parent as int, r);
        if c >= self.next_parent {
            assert(self.parents@[c] == c);
        }
    }

    /// Make the labels of a dendrogram canonical: observation `i` is label
    /// `i` and the cluster created by step `i` is label `N + i`. The steps
    /// are first sorted by dissimilarity if the method asks for it; each
    /// step keeps its dissimilarity.
    ///
    /// The steps must name observations, as every clustering algorithm
    /// records them, each step removing one of its observations for good.
    pub fn relabel(&mut self, dendrogram: &mut Dendrogram, method: Method)
        requires
            old(dendrogram).spec_observations() <= usize::MAX / 2,
            old(dendrogram).spec_steps().len() < old(dendrogram).spec_observations(),
            exists|gone: Seq<int>| eliminates(old(dendrogram).spec_steps(), old(dendrogram).spec_observations() as int, gone),
        ensures
            final(dendrogram).spec_observations() == old(dendrogram).spec_observations(),
            final(dendrogram).spec_steps().len() == old(dendrogram).spec_steps().len(),
            method.spec_requires_sorting() ==> sorted_by_dissimilarity(final(dendrogram).spec_steps()),
            relabels(method, old(dendrogram).spec_steps(), final(dendrogram).spec_steps(), old(dendrogram).spec_observations() as int),
            canonical(final(dendrogram)),
    {
        let n = dendrogram.observations();
        let ghost orig = dendrogram.spec_steps();
        let ghost gone = choose|gone: Seq<int>| eliminates(orig, n as int, gone);
        self.reset(n);
        let ghost mut perm = Seq::new(orig.len(), |k: int| k);
        if method.requires_sorting() {
            let p = sort_steps(dendrogram);
            proof {
                perm = p@;
            }
        }
        let ghost sorted = dendrogram.spec_steps();
        let len = dendrogram.len();
        let ghost e = Seq::new(n as nat, |x: int| leaves_at(gone, n as int, x));
        let ghost mut top = Seq::new(n as nat, |x: int| x);
        let ghost mut lab = Seq::new(n as nat, |x: int| x);
        let ghost mut w = Seq::new(n as nat, |x: int| 1usize);
        let ghost mut pdone = Seq::new(len as nat, |j: int| false);
        proof {
            assert(is_permutation(orig, sorted, perm));
            lemma_relabel_init(*self, sorted, n as int, e, perm, sorted);
        }
        let mut i: usize = 0;
        while i < len
            invariant
                i <= len,
                len == dendrogram.spec_steps().len(),
                len == sorted.len(),
                len == orig.len(),
                len < n,
                n == dendrogram.spec_observations(),
                n == old(dendrogram).spec_observations(),
                eliminates(orig, n as int, gone),
                is_permutation(orig, sorted, perm),
                !method.spec_requires_sorting() ==> perm == Seq::new(orig.len(), |k: int| k) && sorted == orig,
                forall|k: int, l: int| 0 <= k < l < len && sorted[k].dissimilarity == sorted[l].dissimilarity
                    ==> perm[k] < perm[l],
                forall|x: int| 0 <= x < n ==> #[trigger] e[x] == leaves_at(gone, n as int, x),
                relabel_inv(*self, dendrogram.spec_steps(), n as int, len as int, i as int, top, lab, w, pdone, e, perm, sorted),
                forall|k: int| i <= k < len ==> #[trigger] dendrogram.spec_steps()[k] == sorted[k],
                forall|k: int| 0 <= k < len ==> #[trigger] dendrogram.spec_steps()[k].dissimilarity == sorted[k].dissimilarity,
            decreases len - i,
        {
            let step = dendrogram.step(i);
            let ghost uf0 = *self;
            let ghost d0 = dendrogram.spec_steps();
            let ghost oi = perm[i as int];
            let ghost u = gone[oi];
            let ghost p = step.cluster1 + step.cluster2 - u;
            let ghost tp = top[p];
            proof {
                assert(d0[i as int] == orig[oi]);
                lemma_relabel_pick(uf0, d0, n as int, len as int, i as int, top, lab, w, pdone, e, perm, orig, gone, sorted);
            }
            let new_cluster1 = self.find(step.cluster1);
            let new_cluster2 = self.find(step.cluster2);
            let ghost uf1 = *self;
            proof {
                uf1.lemma_fixed_root(lab[u]);
                uf1.lemma_fixed_root(lab[tp]);
                assert(uf1.root(lab[u]) == uf0.root(lab[u]));
                assert(uf1.root(lab[tp]) == uf0.root(lab[tp]));
            }
            self.union(new_cluster1, new_cluster2);
            let size1 = dendrogram.cluster_size(new_cluster1);
            let size2 = dendrogram.cluster_size(new_cluster2);
            let mut new_step = step;
            new_step.set_clusters(new_cluster1, new_cluster2);
            new_step.size = size1 + size2;
            dendrogram.set_step(i, new_step);
            proof {
                assert forall|x: int| 0 <= x < 2 * n - 1 implies #[trigger] self.root(x) == if uf0.root(x) == lab[u]
                    || uf0.root(x) == lab[tp] {
                    n + i
                } else {
                    uf0.root(x)
                } by {
                    assert(uf1.root(x) == uf0.root(x));
                }
                lemma_relabel_step(uf0, *self, d0, dendrogram.spec_steps(), n as int, len as int, i as int, top, lab, w, pdone, e, perm, u, tp, new_step, p, sorted);
                top = new_top(top, u, tp);
                lab = lab.update(tp, n + i);
                w = w.update(u, 0).update(tp, (w[u] + w[tp]) as usize);
                pdone = pdone.update(oi, true);
            }
            i = i + 1;
        }
        proof {
            lemma_relabel_done(*self, *dendrogram, n as int, len as int, top, lab, w, pdone, e, perm, sorted);
            let fin = dendrogram.spec_steps();
            assert forall|k: int| 0 <= k < fin.len() implies {
                &&& 0 <= #[trigger] perm[k] < orig.len()
                &&& !method.spec_requires_sorting() ==> perm[k] == k
                &&& fin[k].dissimilarity == orig[perm[k]].dissimilarity
                &&& joins(fin, n as int, k, orig[perm[k]].cluster1 as int, orig[perm[k]].cluster2 as int)
            } by {
                assert(fin[k].dissimilarity == sorted[k].dissimilarity);
                assert(sorted[k] == orig[perm[k]]);
                assert(joins(fin, n as int, k, sorted[k].cluster1 as int, sorted[k].cluster2 as int));
            }
            assert forall|k: int, l: int| 0 <= k < l < fin.len() && orig[perm[k]].dissimilarity == orig[perm[l]].dissimilarity
                implies perm[k] < perm[l] by {
                assert(sorted[k] == orig[perm[k]] && sorted[l] == orig[perm[l]]);
            }
            assert(relabel_order(method, orig, fin, n as int, perm));
        }
    }
}

/// The cluster size that `Dendrogram::cluster_size` reads from `steps`.
pub open spec fn old_cluster_size(steps: Seq<Step>, n: int, label: int) -> int {
    if label < n {
        1
    } else {
        steps[label - n].size as int
    }
}

/// A sequence of ones adds up to its length.
pub proof fn lemma_ones_sum(w: Seq<usize>)
    requires
        forall|x: int| 0 <= x < w.len() ==> w[x] == 1,
    ensures
        seq_sum(w) == w.len(),
    decreases w.len(),
{
    if w.len() > 0 {
        lemma_ones_sum(w.drop_last());
    }
}

} // verus!
