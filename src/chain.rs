use vstd::prelude::*;

use crate::active::Active;
use crate::condensed::{CondensedMatrix, condensed_len};
use crate::dendrogram::{Dendrogram, Step, lemma_canonical_same_shape};
use crate::method::{MethodChain, prepared, sorted_by_dissimilarity};
use crate::primitive::{
    agglomerates, closest_pair, lemma_eliminates_push, lemma_half, lemma_reported, merge_update, reciprocal_pair,
    reports_agglomeration,
};
use crate::state::LinkageState;
use crate::union::eliminates;
use crate::update::update_all;

verus! {

/// Perform hierarchical clustering with the nearest-neighbor chain
/// algorithm, in `O(N^2)` time, for the methods that never invert.
///
/// The matrix is used as scratch space: its contents afterwards are
/// unspecified.
pub fn nnchain(dis: &mut Vec<u64>, observations: usize, method: MethodChain) -> (r: Dendrogram)
    requires
        observations * (observations - 1) <= usize::MAX,
        old(dis)@.len() == condensed_len(observations as int),
    ensures
        final(dis)@.len() == old(dis)@.len(),
        r.spec_is_clustering_of(observations as nat),
        sorted_by_dissimilarity(r.spec_steps()),
        reports_agglomeration(method.spec_method(), false, old(dis)@, observations as nat, r),
{
    let mut state = LinkageState::new();
    let mut steps = Dendrogram::new(observations);
    nnchain_with(&mut state, dis, observations, method, &mut steps);
    steps
}

/// The active cluster other than `center` that is closest to `center`,
/// starting from candidate `cand` at dissimilarity `min`; the candidate
/// only changes for a strictly closer cluster.
fn nearest(m: &CondensedMatrix, active: &Active, center: usize, cand: usize, min: u64) -> (r: (usize, u64))
    requires
        m.wf(),
        active.wf(),
        active@.len() == m.n(),
        center < m.n(),
        cand < m.n(),
        center != cand,
        active@[center as int],
        active@[cand as int],
        min == m.sym(cand as int, center as int),
    ensures
        r.0 < m.n(),
        r.0 != center,
        active@[r.0 as int],
        r.1 == m.sym(r.0 as int, center as int),
        r.1 <= min,
        r.0 == cand || r.1 < min,
        forall|x: int| 0 <= x < m.n() && active@[x] && x != center ==> r.1 <= #[trigger] m.sym(x, center as int),
{
    let n = m.observations();
    let mut best = cand;
    let mut best_dist = min;
    let mut left = active.range(0, center);
    loop
        invariant
            left.wf(),
            left.list() == active@,
            left.end() == center,
            m.wf(),
            n == m.n(),
            center < n,
            best < n,
            best != center,
            active@[best as int],
            best_dist == m.sym(best as int, center as int),
            best_dist <= min,
            best == cand || best_dist < min,
            min == m.sym(cand as int, center as int),
            forall|x: int| 0 <= x < left.pos() && x < center && active@[x] ==> best_dist <= #[trigger] m.at(x, center as int),
        ensures
            forall|x: int| 0 <= x < center && active@[x] ==> best_dist <= #[trigger] m.at(x, center as int),
        decreases left.remaining().len(),
    {
        let x = match left.next() {
            None => break,
            Some(x) => x,
        };
        let d = m.get(x, center);
        if d < best_dist {
            best = x;
            best_dist = d;
        }
    }
    let mut right = active.range(center, n);
    let _ = right.next();
    loop
        invariant
            right.wf(),
            right.list() == active@,
            right.end() == n,
            center < right.pos(),
            m.wf(),
            n == m.n(),
            center < n,
            best < n,
            best != center,
            active@[best as int],
            best_dist == m.sym(best as int, center as int),
            best_dist <= min,
            best == cand || best_dist < min,
            min == m.sym(cand as int, center as int),
            forall|x: int| 0 <= x < center && active@[x] ==> best_dist <= #[trigger] m.at(x, center as int),
            forall|x: int| center < x < right.pos() && x < n && active@[x] ==> best_dist <= #[trigger] m.at(center as int, x),
        ensures
            forall|x: int| center < x < n && active@[x] ==> best_dist <= #[trigger] m.at(center as int, x),
        decreases right.remaining().len(),
    {
        let x = match right.next() {
            None => break,
            Some(x) => x,
        };
        let d = m.get(center, x);
        if d < best_dist {
            best = x;
            best_dist = d;
        }
    }
    (best, best_dist)
}

/// Like `nnchain`, but reuses the given scratch space and dendrogram.
#[verifier::rlimit(100)]
pub fn nnchain_with(
    state: &mut LinkageState,
    dis: &mut Vec<u64>,
    observations: usize,
    method: MethodChain,
    steps: &mut Dendrogram,
)
    requires
        observations * (observations - 1) <= usize::MAX,
        old(dis)@.len() == condensed_len(observations as int),
    ensures
        final(dis)@.len() == old(dis)@.len(),
        final(steps).spec_is_clustering_of(observations as nat),
        sorted_by_dissimilarity(final(steps).spec_steps()),
        reports_agglomeration(method.spec_method(), false, old(dis)@, observations as nat, *final(steps)),
{
    method.square(dis);
    let mut data: Vec<u64> = Vec::new();
    std::mem::swap(&mut data, dis);
    let mut m = CondensedMatrix::new(data, observations);
    let n = m.observations();
    steps.reset(observations);
    if n == 0 {
        let mut data = m.into_data();
        std::mem::swap(&mut data, dis);
        return;
    }
    proof {
        lemma_half(observations as int);
    }
    state.reset(n);
    state.chain.clear();
    let ghost mut gone: Seq<int> = seq![];
    let ghost mut ms: Seq<CondensedMatrix> = seq![m];
    let ghost mut lives: Seq<Seq<bool>> = seq![state.active@];
    let ghost mut sizes: Seq<Seq<usize>> = seq![state.sizes@];
    proof {
        assert(state.active@ =~= Seq::new(n as nat, |i: int| true));
        assert(state.sizes@ =~= Seq::new(n as nat, |i: int| 1usize));
    }
    let mut it: usize = 0;
    while it < n - 1
        invariant
            0 <= it <= n - 1,
            n >= 2,
            n == observations,
            n <= usize::MAX / 2,
            m.wf(),
            m.n() == n,
            agglomerates(method.spec_method(), false, steps.spec_steps(), ms, lives, sizes),
            ms[0].n() == n,
            ms[0].data() == prepared(method.spec_method(), old(dis)@),
            ms.last() == m,
            lives.last() == state.active@,
            sizes.last() == state.sizes@,
            state.sized(n as nat, (n - it) as nat),
            forall|k: int| 0 <= k < state.chain@.len() ==> #[trigger] state.chain@[k] < n,
            steps.spec_observations() == n,
            steps.spec_steps().len() == it,
            eliminates(steps.spec_steps(), n as int, gone),
            forall|j: int| 0 <= j < it ==> !state.active@[#[trigger] gone[j]],
        decreases n - 1 - it,
    {
        let mut a: usize = 0;
        let mut b: usize = 0;
        let mut min: u64 = 0;
        let mut resumed = false;
        // Resume below the pair just merged; a chain whose entries there are
        // not two distinct active clusters is started afresh.
        if state.chain.len() >= 4 {
            let _ = state.chain.pop();
            let _ = state.chain.pop();
            b = state.chain.pop().unwrap();
            a = state.chain[state.chain.len() - 1];
            if a != b && state.active.contains(a) && state.active.contains(b) {
                // Confirm `b` as a nearest neighbor of `a` among the active
                // clusters; the candidate only changes for a strictly
                // closer one.
                min = m.get_sym(a, b);
                let (nb, nmin) = nearest(&m, &state.active, a, b, min);
                b = nb;
                min = nmin;
                resumed = true;
            }
        }
        if !resumed {
            let mut first = state.active.iter();
            a = first.next().unwrap();
            b = first.next().unwrap();
            state.chain.clear();
            state.chain.push(a);
            min = m.get(a, b);
            let (nb, nmin) = nearest(&m, &state.active, a, b, min);
            b = nb;
            min = nmin;
        }
        // Grow the chain until its last two clusters are each other's
        // nearest neighbors; each link is strictly shorter than the last.
        let ghost sized_state = *state;
        loop
            invariant
                state.sized(n as nat, (n - it) as nat),
                state.active == sized_state.active,
                state.sizes == sized_state.sizes,
                m.wf(),
                m.n() == n,
                state.chain@.len() >= 1,
                a == state.chain@.last(),
                a < n,
                b < n,
                a != b,
                state.active@[a as int],
                state.active@[b as int],
                min == m.sym(a as int, b as int),
                forall|x: int| 0 <= x < n && state.active@[x] && x != a ==> min <= #[trigger] m.sym(x, a as int),
                forall|k: int| 0 <= k < state.chain@.len() ==> #[trigger] state.chain@[k] < n,
            ensures
                state.sized(n as nat, (n - it) as nat),
                state.active == sized_state.active,
                state.sizes == sized_state.sizes,
                min == m.sym(a as int, b as int),
                forall|x: int| 0 <= x < n && state.active@[x] && x != a ==> min <= #[trigger] m.sym(x, a as int),
                forall|x: int| 0 <= x < n && state.active@[x] && x != b ==> min <= #[trigger] m.sym(x, b as int),
                a < n,
                b < n,
                a != b,
                state.active@[a as int],
                state.active@[b as int],
                forall|k: int| 0 <= k < state.chain@.len() ==> #[trigger] state.chain@[k] < n,
            decreases min,
        {
            state.chain.push(b);
            let prev = a;
            let ghost prev_min = min;
            let (na, nmin) = nearest(&m, &state.active, b, a, min);
            a = b;
            b = na;
            min = nmin;
            let len = state.chain.len();
            if b == state.chain[len - 2] {
                proof {
                    assert forall|x: int| 0 <= x < n && state.active@[x] && x != a implies min <= #[trigger] m.sym(x, a as int) by {}
                    assert(min == prev_min);
                    assert forall|x: int| 0 <= x < n && state.active@[x] && x != b implies min <= #[trigger] m.sym(x, b as int) by {
                        assert(prev_min <= m.sym(x, prev as int));
                    }
                }
                break;
            }
            assert(b != prev);
        }
        if a > b {
            let t = a;
            a = b;
            b = t;
        }
        let ghost m0 = m;
        let ghost sizes0 = state.sizes@;
        update_all(state, &mut m, a, b, method.into_method());
        let ghost before = steps.spec_steps();
        let ghost live0 = state.active@;
        let ghost gone0 = gone;
        state.merge(steps, a, b, min);
        proof {
            let raw = steps.spec_steps();
            let mm = method.spec_method();
            assert(raw[it as int] == Step::spec_new(a, b, min, state.sizes@[b as int]));
            assert(merge_update(mm, m0, live0, sizes0, raw[it as int], m));
            assert(reciprocal_pair(m0, live0, raw[it as int]));
            let ms1 = ms.push(m);
            let lives1 = lives.push(state.active@);
            let sizes1 = sizes.push(state.sizes@);
            assert forall|t: int| 0 <= t < raw.len() implies {
                &&& merge_update(mm, ms1[t], lives1[t], sizes1[t], #[trigger] raw[t], ms1[t + 1])
                &&& if false { closest_pair(ms1[t], lives1[t], raw[t]) } else { reciprocal_pair(ms1[t], lives1[t], raw[t]) }
                &&& lives1[t + 1] == lives1[t].update(raw[t].cluster1 as int, false)
                &&& sizes1[t + 1] == sizes1[t].update(raw[t].cluster1 as int, 0).update(
                    raw[t].cluster2 as int,
                    (sizes1[t][raw[t].cluster1 as int] + sizes1[t][raw[t].cluster2 as int]) as usize,
                )
            } by {
                if t < it {
                    assert(raw[t] == before[t]);
                    assert(ms1[t] == ms[t] && ms1[t + 1] == ms[t + 1]);
                }
            }
            ms = ms1;
            lives = lives1;
            sizes = sizes1;
            assert(steps.spec_steps().drop_last() =~= before);
            gone = gone.push(a as int);
            assert(gone.drop_last() =~= gone0);
            assert forall|j: int| 0 <= j < before.len() implies !live0[#[trigger] gone[j]] by {
                assert(gone[j] == gone0[j]);
                assert(before[j].cluster1 < before[j].cluster2 < n);
            }
            lemma_eliminates_push(before, steps.spec_steps(), n as int, gone, live0, a as int, b as int);
            assert forall|j: int| 0 <= j < it + 1 implies !state.active@[#[trigger] gone[j]] by {
                assert(state.active@ == live0.update(a as int, false));
                if j < it {
                    assert(gone[j] == gone0[j]);
                    assert(before[j].cluster1 < before[j].cluster2 < n);
                }
            }
        }
        it = it + 1;
    }
    proof {
        assert(eliminates(steps.spec_steps(), n as int, gone));
    }
    let ghost raw = steps.spec_steps();
    state.set.relabel(steps, method.into_method());
    let ghost labelled = *steps;
    method.sqrt(steps);
    proof {
        lemma_canonical_same_shape(&labelled, steps);
        lemma_reported(method.spec_method(), raw, labelled.spec_steps(), steps.spec_steps(), n as int);
        assert(agglomerates(method.spec_method(), false, raw, ms, lives, sizes));
    }
    let mut data = m.into_data();
    std::mem::swap(&mut data, dis);
}

} // verus!
