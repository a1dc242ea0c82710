use vstd::prelude::*;

use crate::condensed::{CondensedMatrix, condensed_len};
use crate::dendrogram::{Dendrogram, Step, lemma_canonical_same_shape};
use crate::method::{Method, sorted_by_dissimilarity};
use crate::primitive::{lemma_eliminates_push, lemma_half, lemma_reported, reported};
use crate::state::{LinkageState, lemma_live_remove};
use crate::union::eliminates;
use crate::update::single;

verus! {

/// The smallest dissimilarity in `m` between `y` and an observation below
/// `k` that is not in `live` (the tree), or `u64::MAX` if there is none.
pub open spec fn tree_dist(m: CondensedMatrix, live: Seq<bool>, y: int, k: int) -> u64
    decreases k,
{
    if k <= 0 {
        u64::MAX
    } else {
        let rest = tree_dist(m, live, y, k - 1);
        let z = k - 1;
        if !live[z] && z != y && m.sym(y, z) < rest {
            m.sym(y, z)
        } else {
            rest
        }
    }
}

/// Adding observation `c` to the tree brings `y` as close as their
/// dissimilarity.
pub proof fn lemma_tree_dist_add(m: CondensedMatrix, live: Seq<bool>, c: int, y: int, k: int)
    requires
        0 <= c < live.len(),
        0 <= y < live.len(),
        c != y,
        live[c],
        k <= live.len(),
    ensures
        tree_dist(m, live.update(c, false), y, k) == if c < k && m.sym(y, c) < tree_dist(m, live, y, k) {
            m.sym(y, c)
        } else {
            tree_dist(m, live, y, k)
        },
    decreases k,
{
    if k > 0 {
        lemma_tree_dist_add(m, live, c, y, k - 1);
    }
}

/// With no observation in the tree, every distance to it is `u64::MAX`.
pub proof fn lemma_tree_dist_all_live(m: CondensedMatrix, live: Seq<bool>, y: int, k: int)
    requires
        k <= live.len(),
        forall|z: int| 0 <= z < k ==> live[z],
    ensures
        tree_dist(m, live, y, k) == u64::MAX,
    decreases k,
{
    if k > 0 {
        lemma_tree_dist_all_live(m, live, y, k - 1);
    }
}

/// Step `s` joins `x`, an observation outside the tree (the observations
/// not in `live`) nearest to it, at its distance to the tree, and names as
/// its other cluster an observation of the tree; `next` is the membership
/// afterwards.
pub open spec fn prim_step(m: CondensedMatrix, live: Seq<bool>, x: int, s: Step, next: Seq<bool>) -> bool {
    &&& 0 <= x < m.n()
    &&& live.len() == m.n()
    &&& live[x]
    &&& s.cluster1 < s.cluster2 < m.n()
    &&& (x == s.cluster1 && !live[s.cluster2 as int]) || (x == s.cluster2 && !live[s.cluster1 as int])
    &&& s.dissimilarity == tree_dist(m, live, x, m.n() as int)
    &&& forall|y: int| 0 <= y < m.n() && live[y] ==> s.dissimilarity <= #[trigger] tree_dist(m, live, y, m.n() as int)
    &&& next == live.update(x, false)
}

/// `raw` records Prim's algorithm on `m`, starting from the tree of
/// observation 0: before step `t` the tree is the set of observations not
/// in `lives[t]`, and the step joins `joined[t]`.
pub open spec fn grows_spanning_tree(m: CondensedMatrix, raw: Seq<Step>, lives: Seq<Seq<bool>>, joined: Seq<int>) -> bool {
    &&& lives.len() == raw.len() + 1
    &&& joined.len() == raw.len()
    &&& lives[0] == Seq::new(m.n(), |i: int| i != 0)
    &&& forall|t: int| 0 <= t < raw.len() ==> prim_step(m, lives[t], joined[t], #[trigger] raw[t], lives[t + 1])
}

/// The dendrogram reports a spanning tree grown by Prim's algorithm on the
/// matrix.
pub open spec fn reports_spanning_tree(dis: Seq<u64>, n: nat, d: Dendrogram) -> bool {
    n >= 2 ==> exists|m: CondensedMatrix, raw: Seq<Step>, lives: Seq<Seq<bool>>, joined: Seq<int>| {
        &&& #[trigger] grows_spanning_tree(m, raw, lives, joined)
        &&& m.n() == n
        &&& m.data() == dis
        &&& reported(Method::Single, raw, d.spec_steps(), n as int)
    }
}

/// Perform single linkage clustering with a minimum spanning tree
/// algorithm, in `O(N^2)` time.
///
/// The matrix is used as scratch space: its contents afterwards are
/// unspecified.
pub fn mst(dis: &mut Vec<u64>, observations: usize) -> (r: Dendrogram)
    requires
        observations * (observations - 1) <= usize::MAX,
        old(dis)@.len() == condensed_len(observations as int),
    ensures
        final(dis)@.len() == old(dis)@.len(),
        r.spec_is_clustering_of(observations as nat),
        sorted_by_dissimilarity(r.spec_steps()),
        reports_spanning_tree(old(dis)@, observations as nat, r),
{
    let mut state = LinkageState::new();
    let mut steps = Dendrogram::new(observations);
    mst_with(&mut state, dis, observations, &mut steps);
    steps
}

/// Like `mst`, but reuses the given scratch space and dendrogram.
pub fn mst_with(state: &mut LinkageState, dis: &mut Vec<u64>, observations: usize, steps: &mut Dendrogram)
    requires
        observations * (observations - 1) <= usize::MAX,
        old(dis)@.len() == condensed_len(observations as int),
    ensures
        final(dis)@.len() == old(dis)@.len(),
        final(steps).spec_is_clustering_of(observations as nat),
        sorted_by_dissimilarity(final(steps).spec_steps()),
        reports_spanning_tree(old(dis)@, observations as nat, *final(steps)),
{
    let mut data: Vec<u64> = Vec::new();
    std::mem::swap(&mut data, dis);
    let m = CondensedMatrix::new(data, observations);
    let n = m.observations();
    steps.reset(observations);
    if n == 0 {
        let mut data = m.into_data();
        std::mem::swap(&mut data, dis);
        return;
    }
    proof {
        lemma_half(observations as int);
    }
    state.reset(n);
    let mut cluster: usize = 0;
    proof {
        lemma_live_remove(state.active@, 0, 0, n as int);
    }
    state.active.remove(cluster);
    let ghost mut gone: Seq<int> = seq![];
    let ghost mut lives: Seq<Seq<bool>> = seq![state.active@];
    let ghost mut joined: Seq<int> = seq![];
    proof {
        assert(state.active@ =~= Seq::new(n as nat, |i: int| i != 0));
        assert forall|y: int| 0 <= y < n && state.active@[y] implies #[trigger] state.min_dists@[y]
            == tree_dist(m, state.active@.update(cluster as int, true), y, n as int) by {
            lemma_tree_dist_all_live(m, state.active@.update(cluster as int, true), y, n as int);
        }
    }
    let mut it: usize = 0;
    while it < n - 1
        invariant
            0 <= it <= n - 1,
            n >= 2,
            n == observations,
            n <= usize::MAX / 2,
            m.wf(),
            m.n() == n,
            state.active.wf(),
            state.active@.len() == n,
            state.active.elements().len() == n - 1 - it,
            state.min_dists@.len() == n,
            state.sizes@.len() == n,
            grows_spanning_tree(m, steps.spec_steps(), lives, joined),
            lives.last() == state.active@,
            forall|y: int| 0 <= y < n && state.active@[y] ==> #[trigger] state.min_dists@[y]
                == tree_dist(m, state.active@.update(cluster as int, true), y, n as int),
            forall|x: int| 0 <= x < n ==> #[trigger] state.sizes@[x] <= 2,
            cluster < n,
            !state.active@[cluster as int],
            state.sizes@[cluster as int] == 1,
            forall|x: int| 0 <= x < n && state.active@[x] ==> #[trigger] state.sizes@[x] == 1,
            steps.spec_observations() == n,
            steps.spec_steps().len() == it,
            eliminates(steps.spec_steps(), n as int, gone),
            forall|j: int| 0 <= j < it ==> !state.active@[#[trigger] gone[j]] && gone[j] != cluster,
        decreases n - 1 - it,
    {
        let ghost active0 = state.active;
        let ghost sizes0 = state.sizes@;
        let ghost md0 = state.min_dists@;
        let ghost tree = state.active@;
        let ghost tree_c = state.active@.update(cluster as int, true);
        let mut first = state.active.iter();
        let mut min_obs = first.next().unwrap();
        let mut min_dist = state.min_dists[min_obs];
        let mut left = state.active.range(0, cluster);
        loop
            invariant
                left.wf(),
                left.list() == state.active@,
                left.end() == cluster,
                state.active == active0,
                state.sizes@ == sizes0,
                state.active.wf(),
                state.active@ == tree,
                !tree[cluster as int],
                tree_c == tree.update(cluster as int, true),
                forall|y: int| 0 <= y < n && tree[y] ==> md0[y] == #[trigger] tree_dist(m, tree_c, y, n as int),
                forall|y: int| 0 <= y < n && tree[y] && y < cluster && y < left.pos()
                    ==> #[trigger] state.min_dists@[y] == tree_dist(m, tree, y, n as int) && min_dist <= state.min_dists@[y],
                forall|y: int| 0 <= y < n && tree[y] && !(y < cluster && y < left.pos())
                    ==> #[trigger] state.min_dists@[y] == md0[y],
                min_dist == state.min_dists@[min_obs as int],
                m.wf(),
                m.n() == n,
                cluster < n,
                state.active@.len() == n,
                state.min_dists@.len() == n,
                min_obs < n,
                state.active@[min_obs as int],
            ensures
                left.pos() >= cluster,
            decreases left.remaining().len(),
        {
            let x = match left.next() {
                None => break,
                Some(x) => x,
            };
            let mut slot = state.min_dists[x];
            proof {
                lemma_tree_dist_add(m, tree_c, cluster as int, x as int, n as int);
                assert(tree_c.update(cluster as int, false) =~= tree);
            }
            single(m.get(x, cluster), &mut slot);
            state.min_dists.set(x, slot);
            if slot < min_dist {
                min_obs = x;
                min_dist = slot;
            }
        }
        let mut right = state.active.range(cluster, n);
        loop
            invariant
                right.wf(),
                right.list() == state.active@,
                right.end() == n,
                state.active == active0,
                state.sizes@ == sizes0,
                state.active.wf(),
                state.active@ == tree,
                !tree[cluster as int],
                tree_c == tree.update(cluster as int, true),
                forall|y: int| 0 <= y < n && tree[y] ==> md0[y] == #[trigger] tree_dist(m, tree_c, y, n as int),
                forall|y: int| 0 <= y < n && tree[y] && (y < cluster || y < right.pos())
                    ==> #[trigger] state.min_dists@[y] == tree_dist(m, tree, y, n as int) && min_dist <= state.min_dists@[y],
                forall|y: int| 0 <= y < n && tree[y] && !(y < cluster || y < right.pos())
                    ==> #[trigger] state.min_dists@[y] == md0[y],
                min_dist == state.min_dists@[min_obs as int],
                cluster <= right.pos(),
                m.wf(),
                m.n() == n,
                cluster < n,
                !state.active@[cluster as int],
                state.active@.len() == n,
                state.min_dists@.len() == n,
                min_obs < n,
                state.active@[min_obs as int],
            ensures
                right.pos() >= n,
            decreases right.remaining().len(),
        {
            let x = match right.next() {
                None => break,
                Some(x) => x,
            };
            let mut slot = state.min_dists[x];
            proof {
                lemma_tree_dist_add(m, tree_c, cluster as int, x as int, n as int);
                assert(tree_c.update(cluster as int, false) =~= tree);
            }
            single(m.get(cluster, x), &mut slot);
            state.min_dists.set(x, slot);
            if slot < min_dist {
                min_obs = x;
                min_dist = slot;
            }
        }
        let ghost before = steps.spec_steps();
        let ghost live0 = state.active@.update(cluster as int, true);
        let ghost gone0 = gone;
        let merged = state.sizes[min_obs] + state.sizes[cluster];
        state.sizes.set(cluster, merged);
        proof {
            lemma_live_remove(state.active@, min_obs as int, 0, n as int);
        }
        state.active.remove(min_obs);
        steps.push(Step::new(min_obs, cluster, min_dist, merged));
        proof {
            let raw = steps.spec_steps();
            let lives1 = lives.push(state.active@);
            let joined1 = joined.push(min_obs as int);
            assert(raw[it as int] == Step::spec_new(min_obs, cluster, min_dist, merged));
            assert(lives1[it as int] == tree);
            assert forall|t: int| 0 <= t < raw.len() implies prim_step(m, lives1[t], joined1[t], #[trigger] raw[t], lives1[t + 1]) by {
                if t < it {
                    assert(raw[t] == before[t]);
                    assert(lives1[t] == lives[t] && lives1[t + 1] == lives[t + 1]);
                    assert(joined1[t] == joined[t]);
                } else {
                    assert forall|y: int| 0 <= y < m.n() && tree[y] implies min_dist <= #[trigger] tree_dist(m, tree, y, m.n() as int) by {
                        assert(state.min_dists@[y] == tree_dist(m, tree, y, n as int));
                    }
                }
            }
            assert(lives1[0] == lives[0]);
            assert(grows_spanning_tree(m, raw, lives1, joined1));
            lives = lives1;
            joined = joined1;
            assert forall|y: int| 0 <= y < n && state.active@[y] implies #[trigger] state.min_dists@[y]
                == tree_dist(m, state.active@.update(min_obs as int, true), y, n as int) by {
                assert(state.active@.update(min_obs as int, true) =~= tree);
            }
            assert(steps.spec_steps().drop_last() =~= before);
            gone = gone.push(cluster as int);
            assert(gone.drop_last() =~= gone0);
            assert forall|j: int| 0 <= j < before.len() implies !live0[#[trigger] gone[j]] by {
                assert(gone[j] == gone0[j]);
                assert(before[j].cluster1 < before[j].cluster2 < n);
            }
            lemma_eliminates_push(before, steps.spec_steps(), n as int, gone, live0, cluster as int, min_obs as int);
            assert forall|j: int| 0 <= j < it + 1 implies !state.active@[#[trigger] gone[j]] && gone[j] != min_obs by {
                if j < it {
                    assert(gone[j] == gone0[j]);
                    assert(before[j].cluster1 < before[j].cluster2 < n);
                }
            }
        }
        cluster = min_obs;
        it = it + 1;
    }
    proof {
        assert(eliminates(steps.spec_steps(), n as int, gone));
    }
    let ghost raw = steps.spec_steps();
    state.set.relabel(steps, Method::Single);
    let ghost labelled = *steps;
    Method::Single.sqrt(steps);
    proof {
        lemma_canonical_same_shape(&labelled, steps);
        lemma_reported(Method::Single, raw, labelled.spec_steps(), steps.spec_steps(), n as int);
        assert(grows_spanning_tree(m, raw, lives, joined));
    }
    let mut data = m.into_data();
    std::mem::swap(&mut data, dis);
}

} // verus!
