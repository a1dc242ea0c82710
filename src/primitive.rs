use vstd::prelude::*;

use crate::active::{Active, first_live, lemma_live_between_skip};
use crate::condensed::{CondensedMatrix, condensed_len};
use crate::dendrogram::{Dendrogram, Step, joins, lemma_canonical_same_shape, lemma_members_same_labels, members};
use crate::method::{Method, is_isqrt, prepared, sorted_by_dissimilarity};
use crate::state::LinkageState;
use crate::union::{eliminates, relabel_order, relabels};
use crate::update::{merged_value, update_all};

verus! {

/// Step `s` merges active cluster `s.cluster1` into active cluster
/// `s.cluster2` of `m` at their dissimilarity, and `next` is `m` after the
/// update rule of `method` has given the merged cluster its
/// dissimilarities.
pub open spec fn merge_update(
    method: Method,
    m: CondensedMatrix,
    live: Seq<bool>,
    sizes: Seq<usize>,
    s: Step,
    next: CondensedMatrix,
) -> bool {
    let n = m.n() as int;
    let a = s.cluster1 as int;
    let b = s.cluster2 as int;
    &&& next.n() == m.n()
    &&& 0 <= a < b < n
    &&& live[a]
    &&& live[b]
    &&& s.dissimilarity == m.at(a, b)
    &&& forall|x: int| 0 <= x < n && live[x] && x != a && x != b
        ==> #[trigger] next.sym(x, b) == merged_value(method, m, sizes, a, b, x)
    &&& forall|i: int, j: int| 0 <= i < j < n && i != b && j != b ==> #[trigger] next.at(i, j) == m.at(i, j)
}

/// No two active clusters of `m` are closer than the two that `s` merges.
pub open spec fn closest_pair(m: CondensedMatrix, live: Seq<bool>, s: Step) -> bool {
    forall|i: int, j: int| 0 <= i < j < m.n() && live[i] && live[j] ==> s.dissimilarity <= #[trigger] m.at(i, j)
}

/// The two clusters that `s` merges are reciprocal nearest active
/// neighbors in `m`: each has the other as a nearest neighbor.
pub open spec fn reciprocal_pair(m: CondensedMatrix, live: Seq<bool>, s: Step) -> bool {
    &&& forall|x: int| 0 <= x < m.n() && live[x] && x != s.cluster1 ==> s.dissimilarity <= #[trigger] m.sym(x, s.cluster1 as int)
    &&& forall|x: int| 0 <= x < m.n() && live[x] && x != s.cluster2 ==> s.dissimilarity <= #[trigger] m.sym(x, s.cluster2 as int)
}

/// `raw` records an agglomeration of `ms[0]` by `method`: starting from
/// every observation a cluster of its own, each step merges two active
/// clusters (a closest pair if `closest`, otherwise a pair of reciprocal
/// nearest neighbors), and `ms`, `lives` and `sizes` give the
/// matrix, the active clusters and their sizes before each step.
pub open spec fn agglomerates(
    method: Method,
    closest: bool,
    raw: Seq<Step>,
    ms: Seq<CondensedMatrix>,
    lives: Seq<Seq<bool>>,
    sizes: Seq<Seq<usize>>,
) -> bool {
    &&& ms.len() == raw.len() + 1
    &&& lives.len() == raw.len() + 1
    &&& sizes.len() == raw.len() + 1
    &&& lives[0] == Seq::new(ms[0].n(), |i: int| true)
    &&& sizes[0] == Seq::new(ms[0].n(), |i: int| 1usize)
    &&& forall|t: int| 0 <= t < raw.len() ==> {
        &&& merge_update(method, ms[t], lives[t], sizes[t], #[trigger] raw[t], ms[t + 1])
        &&& if closest { closest_pair(ms[t], lives[t], raw[t]) } else { reciprocal_pair(ms[t], lives[t], raw[t]) }
        &&& lives[t + 1] == lives[t].update(raw[t].cluster1 as int, false)
        &&& sizes[t + 1] == sizes[t].update(raw[t].cluster1 as int, 0).update(
            raw[t].cluster2 as int,
            (sizes[t][raw[t].cluster1 as int] + sizes[t][raw[t].cluster2 as int]) as usize,
        )
    }
}

/// In every round of `raw`, the pair merged is the only closest pair of
/// active clusters.
pub open spec fn unique_closest(raw: Seq<Step>, ms: Seq<CondensedMatrix>, lives: Seq<Seq<bool>>) -> bool {
    forall|t: int, i: int, j: int| 0 <= t < raw.len() && 0 <= i < j < ms[t].n() && lives[t][i] && lives[t][j]
        && !(i == raw[t].cluster1 && j == raw[t].cluster2) ==> raw[t].dissimilarity < #[trigger] ms[t].at(i, j)
}

/// The two matrices agree on every pair of active clusters.
pub open spec fn agree_on(m1: CondensedMatrix, m2: CondensedMatrix, live: Seq<bool>) -> bool {
    &&& m1.n() == m2.n()
    &&& forall|i: int, j: int| 0 <= i < j < m1.n() && live[i] && live[j] ==> #[trigger] m1.at(i, j) == m2.at(i, j)
}

/// Two agglomerations of the same matrix that merge closest pairs agree up
/// to round `t` when the first one's closest pairs are unique.
proof fn lemma_agree_upto(
    method: Method,
    raw1: Seq<Step>,
    ms1: Seq<CondensedMatrix>,
    lives1: Seq<Seq<bool>>,
    sizes1: Seq<Seq<usize>>,
    raw2: Seq<Step>,
    ms2: Seq<CondensedMatrix>,
    lives2: Seq<Seq<bool>>,
    sizes2: Seq<Seq<usize>>,
    t: int,
)
    requires
        agglomerates(method, true, raw1, ms1, lives1, sizes1),
        agglomerates(method, true, raw2, ms2, lives2, sizes2),
        raw1.len() == raw2.len(),
        ms1[0].n() == ms2[0].n(),
        ms1[0].data() == ms2[0].data(),
        unique_closest(raw1, ms1, lives1),
        0 <= t <= raw1.len(),
    ensures
        lives1[t] == lives2[t],
        sizes1[t] == sizes2[t],
        ms1[t].n() == ms1[0].n(),
        lives1[t].len() == ms1[0].n(),
        agree_on(ms1[t], ms2[t], lives1[t]),
        forall|k: int| 0 <= k < t ==> #[trigger] raw1[k].cluster1 == raw2[k].cluster1 && raw1[k].cluster2 == raw2[k].cluster2
            && raw1[k].dissimilarity == raw2[k].dissimilarity,
    decreases t,
{
    if t > 0 {
        let k = t - 1;
        lemma_agree_upto(method, raw1, ms1, lives1, sizes1, raw2, ms2, lives2, sizes2, k);
        let (s1, s2) = (raw1[k], raw2[k]);
        let (m1, m2) = (ms1[k], ms2[k]);
        let live = lives1[k];
        assert(merge_update(method, m1, live, sizes1[k], s1, ms1[k + 1]));
        assert(merge_update(method, m2, lives2[k], sizes2[k], s2, ms2[k + 1]));
        assert(closest_pair(m1, live, s1));
        assert(closest_pair(m2, lives2[k], s2));
        let (a1, b1) = (s1.cluster1 as int, s1.cluster2 as int);
        let (a2, b2) = (s2.cluster1 as int, s2.cluster2 as int);
        assert(m1.at(a2, b2) == m2.at(a2, b2));
        assert(m1.at(a1, b1) == m2.at(a1, b1));
        if !(a2 == a1 && b2 == b1) {
            assert(s1.dissimilarity < m1.at(a2, b2));
            assert(s2.dissimilarity <= m2.at(a1, b1));
        }
        let next = lives1[k + 1];
        assert(raw1[k] == s1);
        assert(next == live.update(a1, false));
        assert forall|i: int, j: int| 0 <= i < j < ms1[k + 1].n() && next[i] && next[j] implies #[trigger] ms1[k + 1].at(i, j)
            == ms2[k + 1].at(i, j) by {
            assert(i != a1 && j != a1);
            assert(live[i] && live[j]);
            if i == b1 {
                assert(ms1[k + 1].sym(j, b1) == merged_value(method, m1, sizes1[k], a1, b1, j));
                assert(ms2[k + 1].sym(j, b1) == merged_value(method, m2, sizes2[k], a1, b1, j));
                assert(m1.sym(j, a1) == m2.sym(j, a1));
                assert(m1.sym(j, b1) == m2.sym(j, b1));
            } else if j == b1 {
                assert(ms1[k + 1].sym(i, b1) == merged_value(method, m1, sizes1[k], a1, b1, i));
                assert(ms2[k + 1].sym(i, b1) == merged_value(method, m2, sizes2[k], a1, b1, i));
                assert(m1.sym(i, a1) == m2.sym(i, a1));
                assert(m1.sym(i, b1) == m2.sym(i, b1));
            }
        }
    }
}

/// Two agglomerations of the same matrix by the same method that merge a
/// closest pair in every round merge the same pairs, at the same
/// dissimilarities, in the same order, when the first one's closest pair
/// is unique in every round.
pub proof fn lemma_closest_agglomerations_agree(
    method: Method,
    raw1: Seq<Step>,
    ms1: Seq<CondensedMatrix>,
    lives1: Seq<Seq<bool>>,
    sizes1: Seq<Seq<usize>>,
    raw2: Seq<Step>,
    ms2: Seq<CondensedMatrix>,
    lives2: Seq<Seq<bool>>,
    sizes2: Seq<Seq<usize>>,
)
    requires
        agglomerates(method, true, raw1, ms1, lives1, sizes1),
        agglomerates(method, true, raw2, ms2, lives2, sizes2),
        raw1.len() == raw2.len(),
        ms1[0].n() == ms2[0].n(),
        ms1[0].data() == ms2[0].data(),
        unique_closest(raw1, ms1, lives1),
    ensures
        forall|k: int| 0 <= k < raw1.len() ==> #[trigger] raw1[k].cluster1 == raw2[k].cluster1 && raw1[k].cluster2 == raw2[k].cluster2
            && raw1[k].dissimilarity == raw2[k].dissimilarity,
{
    lemma_agree_upto(method, raw1, ms1, lives1, sizes1, raw2, ms2, lives2, sizes2, raw1.len() as int);
}

/// `fin` reports the steps of `raw` for `method`: step `k` of `fin` joins
/// the clusters holding the two observations of step `perm[k]` of `raw`,
/// at its dissimilarity (square-rooted if `method` works on squares).
/// `perm` is the identity if `method` does not sort, and keeps equal
/// dissimilarities in their order if it does.
pub open spec fn report_order(method: Method, raw: Seq<Step>, fin: Seq<Step>, n: int, perm: Seq<int>) -> bool {
    &&& raw.len() == fin.len()
    &&& perm.len() == fin.len()
    &&& forall|k: int| 0 <= k < fin.len() ==> {
        &&& 0 <= #[trigger] perm[k] < raw.len()
        &&& !method.spec_requires_sorting() ==> perm[k] == k
        &&& if method.spec_on_squares() {
            is_isqrt(raw[perm[k]].dissimilarity as int, fin[k].dissimilarity as int)
        } else {
            fin[k].dissimilarity == raw[perm[k]].dissimilarity
        }
        &&& joins(fin, n, k, raw[perm[k]].cluster1 as int, raw[perm[k]].cluster2 as int)
    }
    &&& forall|k: int, l: int| 0 <= k < l < fin.len() ==> perm[k] != perm[l]
    &&& forall|k: int, l: int| 0 <= k < l < fin.len() && raw[perm[k]].dissimilarity == raw[perm[l]].dissimilarity
        ==> perm[k] < perm[l]
}

/// `fin` reports the steps of `raw` for `method`, in the order of some
/// permutation.
pub open spec fn reported(method: Method, raw: Seq<Step>, fin: Seq<Step>, n: int) -> bool {
    exists|perm: Seq<int>| report_order(method, raw, fin, n, perm)
}

/// The dendrogram reports an agglomeration of the prepared matrix by
/// `method` (merging closest pairs if `closest`).
pub open spec fn reports_agglomeration(method: Method, closest: bool, dis: Seq<u64>, n: nat, d: Dendrogram) -> bool {
    n >= 2 ==> exists|raw: Seq<Step>, ms: Seq<CondensedMatrix>, lives: Seq<Seq<bool>>, sizes: Seq<Seq<usize>>| {
        &&& #[trigger] agglomerates(method, closest, raw, ms, lives, sizes)
        &&& ms[0].n() == n
        &&& ms[0].data() == prepared(method, dis)
        &&& reported(method, raw, d.spec_steps(), n as int)
    }
}

/// Perform hierarchical clustering with the "primitive" algorithm: at each
/// step, merge the closest pair of active clusters found by a full scan.
///
/// This is the naive `O(N^3)` algorithm; `linkage` picks a faster one.
/// The matrix is used as scratch space: its contents afterwards are
/// unspecified.
pub fn primitive(dis: &mut Vec<u64>, observations: usize, method: Method) -> (r: Dendrogram)
    requires
        observations * (observations - 1) <= usize::MAX,
        old(dis)@.len() == condensed_len(observations as int),
    ensures
        final(dis)@.len() == old(dis)@.len(),
        r.spec_is_clustering_of(observations as nat),
        method.spec_requires_sorting() ==> sorted_by_dissimilarity(r.spec_steps()),
        reports_agglomeration(method, true, old(dis)@, observations as nat, r),
{
    let mut state = LinkageState::new();
    let mut steps = Dendrogram::new(observations);
    primitive_with(&mut state, dis, observations, method, &mut steps);
    steps
}

/// Like `primitive`, but reuses the given scratch space and dendrogram.
pub fn primitive_with(
    state: &mut LinkageState,
    dis: &mut Vec<u64>,
    observations: usize,
    method: Method,
    steps: &mut Dendrogram,
)
    requires
        observations * (observations - 1) <= usize::MAX,
        old(dis)@.len() == condensed_len(observations as int),
    ensures
        final(dis)@.len() == old(dis)@.len(),
        final(steps).spec_is_clustering_of(observations as nat),
        method.spec_requires_sorting() ==> sorted_by_dissimilarity(final(steps).spec_steps()),
        reports_agglomeration(method, true, old(dis)@, observations as nat, *final(steps)),
{
    method.square(dis);
    let mut data: Vec<u64> = Vec::new();
    std::mem::swap(&mut data, dis);
    let mut m = CondensedMatrix::new(data, observations);
    let n = m.observations();
    steps.reset(observations);
    if n == 0 {
        let mut data = m.into_data();
        std::mem::swap(&mut data, dis);
        return;
    }
    proof {
        m.lemma_bound();
        lemma_half(observations as int);
    }
    state.reset(n);
    let ghost mut gone: Seq<int> = seq![];
    let ghost mut ms: Seq<CondensedMatrix> = seq![m];
    let ghost mut lives: Seq<Seq<bool>> = seq![state.active@];
    let ghost mut sizes: Seq<Seq<usize>> = seq![state.sizes@];
    proof {
        assert(state.active@ =~= Seq::new(n as nat, |i: int| true));
        assert(state.sizes@ =~= Seq::new(n as nat, |i: int| 1usize));
    }
    let mut it: usize = 0;
    while it < n - 1
        invariant
            0 <= it <= n - 1,
            n >= 2,
            n == observations,
            n <= usize::MAX / 2,
            m.wf(),
            m.n() == n,
            agglomerates(method, true, steps.spec_steps(), ms, lives, sizes),
            ms[0].n() == n,
            ms[0].data() == prepared(method, old(dis)@),
            ms.last() == m,
            lives.last() == state.active@,
            sizes.last() == state.sizes@,
            state.sized(n as nat, (n - it) as nat),
            steps.spec_observations() == n,
            steps.spec_steps().len() == it,
            eliminates(steps.spec_steps(), n as int, gone),
            forall|j: int| 0 <= j < it ==> !state.active@[#[trigger] gone[j]],
        decreases n - 1 - it,
    {
        let found = argmin(&m, &state.active);
        let (a, b, dist) = found.unwrap();
        let ghost m0 = m;
        let ghost sizes0 = state.sizes@;
        update_all(state, &mut m, a, b, method);
        let ghost before = steps.spec_steps();
        let ghost live0 = state.active@;
        let ghost gone0 = gone;
        state.merge(steps, a, b, dist);
        proof {
            let raw = steps.spec_steps();
            assert(raw[it as int] == Step::spec_new(a, b, dist, state.sizes@[b as int]));
            assert(merge_update(method, m0, live0, sizes0, raw[it as int], m));
            assert(closest_pair(m0, live0, raw[it as int]));
            let ms1 = ms.push(m);
            let lives1 = lives.push(state.active@);
            let sizes1 = sizes.push(state.sizes@);
            assert forall|t: int| 0 <= t < raw.len() implies {
                &&& merge_update(method, ms1[t], lives1[t], sizes1[t], #[trigger] raw[t], ms1[t + 1])
                &&& closest_pair(ms1[t], lives1[t], raw[t])
                &&& lives1[t + 1] == lives1[t].update(raw[t].cluster1 as int, false)
                &&& sizes1[t + 1] == sizes1[t].update(raw[t].cluster1 as int, 0).update(
                    raw[t].cluster2 as int,
                    (sizes1[t][raw[t].cluster1 as int] + sizes1[t][raw[t].cluster2 as int]) as usize,
                )
            } by {
                if t < it {
                    assert(raw[t] == before[t]);
                    assert(ms1[t] == ms[t] && ms1[t + 1] == ms[t + 1]);
                }
            }
            ms = ms1;
            lives = lives1;
            sizes = sizes1;
            assert(steps.spec_steps().drop_last() =~= before);
            gone = gone.push(a as int);
            assert(gone.drop_last() =~= gone0);
            assert forall|j: int| 0 <= j < before.len() implies !live0[#[trigger] gone[j]] by {
                assert(gone[j] == gone0[j]);
            }
            lemma_eliminates_push(before, steps.spec_steps(), n as int, gone, live0, a as int, b as int);
            assert forall|j: int| 0 <= j < it + 1 implies !state.active@[#[trigger] gone[j]] by {
                assert(state.active@ == live0.update(a as int, false));
                if j < it {
                    assert(gone[j] == gone0[j]);
                    assert(before[j].cluster1 < before[j].cluster2 < n);
                    assert(!live0[gone0[j]]);
                }
            }
        }
        it = it + 1;
    }
    proof {
        assert(eliminates(steps.spec_steps(), n as int, gone));
    }
    let ghost raw = steps.spec_steps();
    state.set.relabel(steps, method);
    let ghost labelled = *steps;
    method.sqrt(steps);
    proof {
        lemma_canonical_same_shape(&labelled, steps);
        lemma_reported(method, raw, labelled.spec_steps(), steps.spec_steps(), n as int);
        assert(agglomerates(method, true, raw, ms, lives, sizes));
    }
    let mut data = m.into_data();
    std::mem::swap(&mut data, dis);
}

/// Relabelling reports the raw steps, and taking square roots keeps the
/// labels: together, the result reports the raw steps.
pub proof fn lemma_reported(method: Method, raw: Seq<Step>, labelled: Seq<Step>, fin: Seq<Step>, n: int)
    requires
        relabels(method, raw, labelled, n),
        fin.len() == labelled.len(),
        forall|k: int| 0 <= k < labelled.len() ==> {
            &&& (#[trigger] fin[k]).cluster1 == labelled[k].cluster1
            &&& fin[k].cluster2 == labelled[k].cluster2
            &&& if method.spec_on_squares() {
                is_isqrt(labelled[k].dissimilarity as int, fin[k].dissimilarity as int)
            } else {
                fin[k].dissimilarity == labelled[k].dissimilarity
            }
        },
    ensures
        reported(method, raw, fin, n),
{
    let perm = choose|perm: Seq<int>| relabel_order(method, raw, labelled, n, perm);
    assert forall|l: int| #[trigger] members(fin, n, l) == members(labelled, n, l) by {
        lemma_members_same_labels(labelled, fin, n, l);
    }
    assert forall|k: int| 0 <= k < fin.len() implies {
        &&& 0 <= #[trigger] perm[k] < raw.len()
        &&& !method.spec_requires_sorting() ==> perm[k] == k
        &&& if method.spec_on_squares() {
            is_isqrt(raw[perm[k]].dissimilarity as int, fin[k].dissimilarity as int)
        } else {
            fin[k].dissimilarity == raw[perm[k]].dissimilarity
        }
        &&& joins(fin, n, k, raw[perm[k]].cluster1 as int, raw[perm[k]].cluster2 as int)
    } by {
        assert(labelled[k].dissimilarity == raw[perm[k]].dissimilarity);
        assert(joins(labelled, n, k, raw[perm[k]].cluster1 as int, raw[perm[k]].cluster2 as int));
        assert(fin[k] == fin[k]);
    }
    assert(report_order(method, raw, fin, n, perm));
}

/// A matrix whose index computations fit a `usize` has few enough
/// observations to double their number.
pub proof fn lemma_half(n: int)
    requires
        0 <= n,
        n * (n - 1) <= usize::MAX,
    ensures
        n <= usize::MAX / 2,
{
    if n >= 3 {
        assert(n * (n - 1) >= 2 * n) by (nonlinear_arith)
            requires n >= 3;
    }
}

/// Recording the merge of active `a` into active `b` keeps the steps an
/// elimination record, with `a` gone.
pub proof fn lemma_eliminates_push(
    before: Seq<Step>,
    after: Seq<Step>,
    n: int,
    gone: Seq<int>,
    live: Seq<bool>,
    a: int,
    b: int,
)
    requires
        eliminates(before, n, gone.drop_last()),
        gone.len() == before.len() + 1,
        gone.last() == a,
        after.len() == before.len() + 1,
        after.drop_last() == before,
        after.last().cluster1 < after.last().cluster2,
        after.last().cluster1 == a && after.last().cluster2 == b || after.last().cluster1 == b
            && after.last().cluster2 == a,
        0 <= a < n,
        0 <= b < n,
        a != b,
        live.len() == n,
        live[a],
        live[b],
        forall|j: int| 0 <= j < before.len() ==> !live[#[trigger] gone[j]],
    ensures
        eliminates(after, n, gone),
{
    let g0 = gone.drop_last();
    let k = before.len() as int;
    assert forall|i: int| 0 <= i < after.len() implies {
        &&& (#[trigger] after[i]).cluster1 < after[i].cluster2 < n
        &&& gone[i] == after[i].cluster1 || gone[i] == after[i].cluster2
        &&& forall|j: int| 0 <= j <= i ==> gone[j] != after[i].cluster1 + after[i].cluster2 - gone[i]
    } by {
        if i < k {
            assert(after[i] == before[i]);
            assert(gone[i] == g0[i]);
            assert(before[i].cluster1 < before[i].cluster2 < n);
            assert forall|j: int| 0 <= j <= i implies gone[j] != after[i].cluster1 + after[i].cluster2 - gone[i] by {
                assert(gone[j] == g0[j]);
            }
        } else {
            assert forall|j: int| 0 <= j <= i implies gone[j] != after[i].cluster1 + after[i].cluster2 - gone[i] by {
                if j < k {
                    assert(!live[gone[j]]);
                }
            }
        }
    }
    assert forall|i: int, j: int| 0 <= i < j < after.len() implies gone[i] != gone[j] by {
        if j < k {
            assert(gone[i] == g0[i] && gone[j] == g0[j]);
        } else {
            assert(!live[gone[i]]);
        }
    }
}

/// Pair `(i, j)` comes before pair `(r, c)` in row-major order.
pub open spec fn row_major_before(i: int, j: int, r: int, c: int) -> bool {
    i < r || (i == r && j < c)
}

/// The closest pair of active clusters, the first such pair in row-major
/// order; `None` when fewer than two clusters are active.
pub fn argmin(matrix: &CondensedMatrix, active: &Active) -> (r: Option<(usize, usize, u64)>)
    requires
        matrix.wf(),
        active.wf(),
        active@.len() == matrix.n(),
    ensures
        r is None ==> active.elements().len() < 2,
        active.elements().len() < 2 ==> r is None,
        r matches Some((row, col, v)) ==> {
            &&& row < col < matrix.n()
            &&& active@[row as int]
            &&& active@[col as int]
            &&& v == matrix.at(row as int, col as int)
            &&& forall|i: int, j: int| 0 <= i < j < matrix.n() && active@[i] && active@[j] ==> v <= matrix.at(i, j)
            &&& forall|i: int, j: int| 0 <= i < j < matrix.n() && active@[i] && active@[j]
                && row_major_before(i, j, row as int, col as int) ==> v < #[trigger] matrix.at(i, j)
        },
{
    let n = matrix.observations();
    let mut rows = active.iter();
    let row = match rows.next() {
        None => return None,
        Some(row) => row,
    };
    let mut cols = active.range(row, n);
    proof {
        lemma_live_between_skip(active@, 0, row as int, n as int);
        lemma_live_between_skip(active@, row as int, row as int, n as int);
    }
    let _ = cols.next();
    let ghost pos1 = cols.pos();
    let col = match cols.next() {
        None => {
            return None;
        },
        Some(col) => col,
    };
    proof {
        assert(first_live(active@, row + 1, pos1));
        assert(col == pos1);
        assert(first_live(active@, 0, row as int));
    }
    let mut min = (row, col, matrix.get(row, col));
    let mut rows = active.iter();
    loop
        invariant
            rows.wf(),
            rows.list() == active@,
            active.wf(),
            active@.len() == n,
            matrix.wf(),
            n == matrix.n(),
            min.0 < min.1 < n,
            active@[min.0 as int],
            active@[min.1 as int],
            min.2 == matrix.at(min.0 as int, min.1 as int),
            forall|i: int, j: int| 0 <= i < j < n && i < rows.pos() && active@[i] && active@[j]
                ==> min.2 <= matrix.at(i, j),
            forall|i: int, j: int| 0 <= i < j < n && active@[i] && active@[j]
                && row_major_before(i, j, min.0 as int, min.1 as int) ==> min.2 < #[trigger] matrix.at(i, j),
        ensures
            forall|i: int, j: int| 0 <= i < j < n && active@[i] && active@[j] ==> min.2 <= matrix.at(i, j),
            forall|i: int, j: int| 0 <= i < j < n && active@[i] && active@[j]
                && row_major_before(i, j, min.0 as int, min.1 as int) ==> min.2 < #[trigger] matrix.at(i, j),
        decreases rows.remaining().len(),
    {
        let row = match rows.next() {
            None => break,
            Some(row) => row,
        };
        let mut cols = active.range(row, n);
        let _ = cols.next();
        loop
            invariant
                cols.wf(),
                cols.list() == active@,
                cols.end() == n,
                active.wf(),
                matrix.wf(),
                n == matrix.n(),
                row < n,
                row < cols.pos(),
                active@[row as int],
                min.0 < min.1 < n,
                active@[min.0 as int],
                active@[min.1 as int],
                min.2 == matrix.at(min.0 as int, min.1 as int),
                forall|i: int, j: int| 0 <= i < j < n && i < row && active@[i] && active@[j]
                    ==> min.2 <= matrix.at(i, j),
                forall|j: int| row < j < n && j < cols.pos() && active@[j] ==> min.2 <= matrix.at(row as int, j),
                forall|i: int, j: int| 0 <= i < j < n && active@[i] && active@[j]
                    && row_major_before(i, j, min.0 as int, min.1 as int) ==> min.2 < #[trigger] matrix.at(i, j),
            ensures
                forall|j: int| row < j < n && active@[j] ==> min.2 <= matrix.at(row as int, j),
            decreases cols.remaining().len(),
        {
            let col = match cols.next() {
                None => break,
                Some(col) => col,
            };
            let value = matrix.get(row, col);
            if value < min.2 {
                min = (row, col, value);
            }
        }
    }
    Some(min)
}

} // verus!
