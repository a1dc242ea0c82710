use vstd::prelude::*;

use crate::active::lemma_live_between_members;
use crate::condensed::{CondensedMatrix, condensed_len};
use crate::dendrogram::{Dendrogram, Step, lemma_canonical_same_shape};
use crate::method::{Method, prepared, sorted_by_dissimilarity};
use crate::primitive::{
    agglomerates, closest_pair, lemma_eliminates_push, lemma_half, lemma_reported, merge_update, reciprocal_pair,
    reports_agglomeration,
};
use crate::state::LinkageState;
use crate::union::eliminates;
use crate::update::{lemma_update_no_closer, merged_value, update_all};

verus! {

/// The queue holds the active clusters of rows `0..n-1` (except `skip`,
/// which has just been popped), and every such cluster has a candidate
/// nearest neighbor: an active cluster after it.
spec fn links_ok(state: &LinkageState, n: int, skip: int) -> bool {
    &&& state.queue.wf()
    &&& state.queue.size() == n - 1
    &&& state.nearest@.len() == n
    &&& state.active@.len() == n
    &&& state.active@[n - 1]
    &&& forall|x: int| 0 <= x < n - 1 && x != skip ==> #[trigger] state.queue.live(x) == state.active@[x]
    &&& forall|x: int| 0 <= x < n - 1 && state.active@[x] && x != skip ==> {
        &&& x < #[trigger] state.nearest@[x] < n
        &&& state.active@[state.nearest@[x] as int]
    }
}

/// Changing the candidate of one row to an active later row, and no
/// membership of the queue, keeps the links right.
proof fn lemma_links_update(s1: &LinkageState, s2: &LinkageState, n: int, skip: int, x: int)
    requires
        links_ok(s1, n, skip),
        s2.queue.wf(),
        s2.queue.size() == s1.queue.size(),
        forall|y: int| 0 <= y < n - 1 ==> #[trigger] s2.queue.live(y) == s1.queue.live(y),
        s2.active == s1.active,
        0 <= x < n - 1,
        x != skip,
        s1.active@[x],
        s2.nearest@ == s1.nearest@.update(x, s2.nearest@[x]),
        x < s2.nearest@[x] < n,
        s1.active@[s2.nearest@[x] as int],
    ensures
        links_ok(s2, n, skip),
{
    assert forall|y: int| 0 <= y < n - 1 && s2.active@[y] && y != skip implies {
        &&& y < #[trigger] s2.nearest@[y] < n
        &&& s2.active@[s2.nearest@[y] as int]
    } by {
        if y != x {
            assert(s2.nearest@[y] == s1.nearest@[y]);
        }
    }
    assert forall|y: int| 0 <= y < n - 1 && y != skip implies #[trigger] s2.queue.live(y) == s2.active@[y] by {
        assert(s1.queue.live(y) == s1.active@[y]);
    }
}

/// Every active row but `skip` has a priority no larger than its
/// dissimilarity to any active later cluster other than `skip`.
spec fn lower_bounds(prio: Seq<u64>, live: Seq<bool>, m: CondensedMatrix, skip: int) -> bool {
    forall|x: int, y: int| 0 <= x < y < m.n() && live[x] && live[y] && x != skip && y != skip
        ==> prio[x] <= #[trigger] m.at(x, y)
}

/// Row `x` has a candidate whose dissimilarity is not its priority.
spec fn stale(m: CondensedMatrix, state: &LinkageState, x: int) -> bool {
    state.active@[x] && m.at(x, state.nearest@[x] as int) != state.queue.prio()[x]
}

/// The number of stale rows below `k`.
spec fn stale_count(m: CondensedMatrix, state: &LinkageState, k: int) -> nat
    decreases k,
{
    if k <= 0 {
        0
    } else {
        stale_count(m, state, k - 1) + if stale(m, state, k - 1) { 1nat } else { 0nat }
    }
}

/// Making one stale row fresh, and changing nothing else, lowers the count.
proof fn lemma_stale_fresh(m: CondensedMatrix, s1: &LinkageState, s2: &LinkageState, a: int, k: int)
    requires
        0 <= a,
        forall|x: int| 0 <= x < k && x != a ==> stale(m, s1, x) == stale(m, s2, x),
        a < k ==> stale(m, s1, a) && !stale(m, s2, a),
    ensures
        a < k ==> stale_count(m, s2, k) < stale_count(m, s1, k),
        a >= k ==> stale_count(m, s2, k) == stale_count(m, s1, k),
    decreases k,
{
    if k > 0 {
        lemma_stale_fresh(m, s1, s2, a, k - 1);
    }
}

/// Perform hierarchical clustering with the generic algorithm, which
/// supports every method, keeping a candidate nearest neighbor for each
/// cluster in a priority queue.
///
/// The matrix is used as scratch space: its contents afterwards are
/// unspecified.
pub fn generic(dis: &mut Vec<u64>, observations: usize, method: Method) -> (r: Dendrogram)
    requires
        observations * (observations - 1) <= usize::MAX,
        old(dis)@.len() == condensed_len(observations as int),
    ensures
        final(dis)@.len() == old(dis)@.len(),
        r.spec_is_clustering_of(observations as nat),
        method.spec_requires_sorting() ==> sorted_by_dissimilarity(r.spec_steps()),
        reports_agglomeration(method, true, old(dis)@, observations as nat, r),
{
    let mut state = LinkageState::new();
    let mut steps = Dendrogram::new(observations);
    generic_with(&mut state, dis, observations, method, &mut steps);
    steps
}

/// Like `generic`, but reuses the given scratch space and dendrogram.
pub fn generic_with(
    state: &mut LinkageState,
    dis: &mut Vec<u64>,
    observations: usize,
    method: Method,
    steps: &mut Dendrogram,
)
    requires
        observations * (observations - 1) <= usize::MAX,
        old(dis)@.len() == condensed_len(observations as int),
    ensures
        final(dis)@.len() == old(dis)@.len(),
        final(steps).spec_is_clustering_of(observations as nat),
        method.spec_requires_sorting() ==> sorted_by_dissimilarity(final(steps).spec_steps()),
        reports_agglomeration(method, true, old(dis)@, observations as nat, *final(steps)),
{
    method.square(dis);
    let mut data: Vec<u64> = Vec::new();
    std::mem::swap(&mut data, dis);
    let mut m = CondensedMatrix::new(data, observations);
    let n = m.observations();
    steps.reset(observations);
    if n == 0 {
        let mut data = m.into_data();
        std::mem::swap(&mut data, dis);
        return;
    }
    proof {
        lemma_half(observations as int);
    }
    state.reset(n);
    state.queue.reset(n - 1);
    // For each row, find its nearest neighbor among the later rows.
    let mut dists: Vec<u64> = Vec::new();
    let mut row: usize = 0;
    let ghost s_r = *state;
    while row < n - 1
        invariant
            row <= n - 1,
            n >= 2,
            state.active == s_r.active,
            state.sizes == s_r.sizes,
            state.min_dists == s_r.min_dists,
            state.queue == s_r.queue,
            state.chain == s_r.chain,
            state.set == s_r.set,
            m.wf(),
            m.n() == n,
            dists@.len() == row,
            state.nearest@.len() == n,
            forall|x: int| 0 <= x < row ==> x < #[trigger] state.nearest@[x] < n,
            forall|x: int, y: int| 0 <= x < row && x < y < n ==> dists@[x] <= #[trigger] m.at(x, y),
        decreases n - 1 - row,
    {
        let mut min = row + 1;
        let mut min_dist = m.get(row, row + 1);
        let mut col = row + 1;
        while col < n
            invariant
                row < min < n,
                row < col <= n,
                row < n - 1,
                m.wf(),
                m.n() == n,
                forall|y: int| row < y < col ==> min_dist <= #[trigger] m.at(row as int, y),
            decreases n - col,
        {
            let d = m.get(row, col);
            if d < min_dist {
                min = col;
                min_dist = d;
            }
            col = col + 1;
        }
        dists.push(min_dist);
        state.nearest.set(row, min);
        row = row + 1;
    }
    let ghost first = dists@;
    state.queue.heapify(dists);
    proof {
        assert(state.queue.prio() == first);
    }
    let ghost mut gone: Seq<int> = seq![];
    let ghost mut ms: Seq<CondensedMatrix> = seq![m];
    let ghost mut lives: Seq<Seq<bool>> = seq![state.active@];
    let ghost mut sizes: Seq<Seq<usize>> = seq![state.sizes@];
    proof {
        assert(state.active@ =~= Seq::new(n as nat, |i: int| true));
        assert(state.sizes@ =~= Seq::new(n as nat, |i: int| 1usize));
    }
    let mut it: usize = 0;
    while it < n - 1
        invariant
            0 <= it <= n - 1,
            n >= 2,
            n == observations,
            n <= usize::MAX / 2,
            m.wf(),
            m.n() == n,
            state.sized(n as nat, (n - it) as nat),
            links_ok(state, n as int, -1),
            lower_bounds(state.queue.prio(), state.active@, m, -1),
            agglomerates(method, true, steps.spec_steps(), ms, lives, sizes),
            ms[0].n() == n,
            ms[0].data() == prepared(method, old(dis)@),
            ms.last() == m,
            lives.last() == state.active@,
            sizes.last() == state.sizes@,
            steps.spec_observations() == n,
            steps.spec_steps().len() == it,
            eliminates(steps.spec_steps(), n as int, gone),
            forall|j: int| 0 <= j < it ==> !state.active@[#[trigger] gone[j]],
        decreases n - 1 - it,
    {
        // The first active row has a later active row, so the queue is not
        // empty.
        proof {
            let e = state.active.elements();
            lemma_live_between_members(state.active@, 0, n as int);
            assert(e[0] < e[1]);
            assert(state.queue.live(e[0] as int));
        }
        let mut a: usize = 0;
        let ghost s_v = *state;
        loop
            invariant
                state.active == s_v.active,
                state.sizes == s_v.sizes,
                state.min_dists == s_v.min_dists,
                state.chain == s_v.chain,
                state.set == s_v.set,
                m.wf(),
                m.n() == n,
                n >= 2,
                state.sized(n as nat, (n - it) as nat),
                links_ok(state, n as int, -1),
                lower_bounds(state.queue.prio(), state.active@, m, -1),
                exists|x: int| 0 <= x < n - 1 && state.queue.live(x),
            ensures
                lower_bounds(state.queue.prio(), state.active@, m, -1),
                state.active == s_v.active,
                state.sizes == s_v.sizes,
                state.min_dists == s_v.min_dists,
                state.chain == s_v.chain,
                state.set == s_v.set,
                state.sized(n as nat, (n - it) as nat),
                links_ok(state, n as int, -1),
                a < n - 1,
                state.queue.live(a as int),
                a == state.queue.top(),
                m.at(a as int, state.nearest@[a as int] as int) == state.queue.prio()[a as int],
                forall|x: int| 0 <= x < n - 1 && state.queue.live(x) ==> state.queue.prio()[a as int] <= state.queue.prio()[x],
            decreases stale_count(m, state, n - 1),
        {
            a = state.queue.peek().unwrap();
            let na = state.nearest[a];
            if m.get(a, na) == state.queue.priority(a) {
                break;
            }
            let ghost s1 = *state;
            let mut min = u64::MAX;
            let mut later = state.active.range(a, n);
            let _ = later.next();
            loop
                invariant
                    later.wf(),
                    later.list() == state.active@,
                    later.end() == n,
                    a < later.pos(),
                    m.wf(),
                    m.n() == n,
                    a < n - 1,
                    state.active == s1.active,
                    state.sizes == s1.sizes,
                    state.queue == s1.queue,
                    state.min_dists == s1.min_dists,
                    state.chain == s1.chain,
                    state.set == s1.set,
                    state.nearest@.len() == n,
                    forall|x: int| 0 <= x < n && x != a ==> #[trigger] state.nearest@[x] == s1.nearest@[x],
                    a < state.nearest@[a as int] < n,
                    state.active@[state.nearest@[a as int] as int],
                    min == u64::MAX && state.nearest@[a as int] == s1.nearest@[a as int]
                        || min == m.at(a as int, state.nearest@[a as int] as int),
                    forall|x: int| a < x < later.pos() && x < n && state.active@[x] ==> min <= m.at(a as int, x),
                ensures
                    min == m.at(a as int, state.nearest@[a as int] as int),
                    later.pos() >= n,
                decreases later.remaining().len(),
            {
                let x = match later.next() {
                    None => break,
                    Some(x) => x,
                };
                let d = m.get(a, x);
                if d < min {
                    min = d;
                    state.nearest.set(a, x);
                }
            }
            state.queue.set_priority(a, min);
            proof {
                assert forall|x: int| 0 <= x < n - 1 && x != a implies stale(m, &s1, x) == stale(m, state, x) by {
                    assert(state.nearest@[x] == s1.nearest@[x]);
                    assert(state.queue.prio()[x] == s1.queue.prio()[x]);
                }
                lemma_stale_fresh(m, &s1, state, a as int, n - 1);
                assert(state.queue.live(a as int));
                assert forall|x: int, y: int| 0 <= x < y < m.n() && state.active@[x] && state.active@[y] && x != -1 && y != -1
                    implies state.queue.prio()[x] <= #[trigger] m.at(x, y) by {
                    if x != a {
                        assert(s1.queue.prio()[x] <= m.at(x, y));
                    }
                }
            }
        }
        proof {
            assert forall|i: int, j: int| 0 <= i < j < n && state.active@[i] && state.active@[j]
                implies m.at(a as int, state.nearest@[a as int] as int) <= #[trigger] m.at(i, j) by {
                assert(state.queue.live(i));
            }
        }
        let popped = state.queue.pop();
        let b = state.nearest[a];
        let dist = m.get(a, b);
        let ghost m0 = m;
        let ghost sizes0 = state.sizes@;
        update_all(state, &mut m, a, b, method);
        proof {
            assert(popped == Some(a));
        }
        maintain(state, &m, a, b, method, Ghost(m0));
        let ghost before = steps.spec_steps();
        let ghost live0 = state.active@;
        let ghost gone0 = gone;
        state.merge(steps, a, b, dist);
        proof {
            let raw = steps.spec_steps();
            assert(raw[it as int] == Step::spec_new(a, b, dist, state.sizes@[b as int]));
            assert(merge_update(method, m0, live0, sizes0, raw[it as int], m));
            assert(closest_pair(m0, live0, raw[it as int]));
            let ms1 = ms.push(m);
            let lives1 = lives.push(state.active@);
            let sizes1 = sizes.push(state.sizes@);
            assert forall|t: int| 0 <= t < raw.len() implies {
                &&& merge_update(method, ms1[t], lives1[t], sizes1[t], #[trigger] raw[t], ms1[t + 1])
                &&& if true { closest_pair(ms1[t], lives1[t], raw[t]) } else { reciprocal_pair(ms1[t], lives1[t], raw[t]) }
                &&& lives1[t + 1] == lives1[t].update(raw[t].cluster1 as int, false)
                &&& sizes1[t + 1] == sizes1[t].update(raw[t].cluster1 as int, 0).update(
                    raw[t].cluster2 as int,
                    (sizes1[t][raw[t].cluster1 as int] + sizes1[t][raw[t].cluster2 as int]) as usize,
                )
            } by {
                if t < it {
                    assert(raw[t] == before[t]);
                    assert(ms1[t] == ms[t] && ms1[t + 1] == ms[t + 1]);
                }
            }
            ms = ms1;
            lives = lives1;
            sizes = sizes1;
            assert(steps.spec_steps().drop_last() =~= before);
            gone = gone.push(a as int);
            assert(gone.drop_last() =~= gone0);
            assert forall|j: int| 0 <= j < before.len() implies !live0[#[trigger] gone[j]] by {
                assert(gone[j] == gone0[j]);
                assert(before[j].cluster1 < before[j].cluster2 < n);
            }
            lemma_eliminates_push(before, steps.spec_steps(), n as int, gone, live0, a as int, b as int);
            assert forall|j: int| 0 <= j < it + 1 implies !state.active@[#[trigger] gone[j]] by {
                assert(state.active@ == live0.update(a as int, false));
                if j < it {
                    assert(gone[j] == gone0[j]);
                    assert(before[j].cluster1 < before[j].cluster2 < n);
                }
            }
        }
        it = it + 1;
    }
    proof {
        assert(eliminates(steps.spec_steps(), n as int, gone));
    }
    let ghost raw = steps.spec_steps();
    state.set.relabel(steps, method);
    let ghost labelled = *steps;
    method.sqrt(steps);
    proof {
        lemma_canonical_same_shape(&labelled, steps);
        lemma_reported(method, raw, labelled.spec_steps(), steps.spec_steps(), n as int);
        assert(agglomerates(method, true, raw, ms, lives, sizes));
    }
    let mut data = m.into_data();
    std::mem::swap(&mut data, dis);
}

/// After row `a` has been popped and merged into `b`, keep the queue's
/// candidates right: rows before `a` that pointed at `a` now point at `b`,
/// rows whose dissimilarity to `b` fell below their priority take `b`, and
/// `b` takes its closest later row if that is below its priority. Every
/// priority stays a lower bound of its row's dissimilarities; `before` is
/// the matrix before the update.
fn maintain(state: &mut LinkageState, m: &CondensedMatrix, a: usize, b: usize, method: Method, before: Ghost<CondensedMatrix>)
    requires
        m.wf(),
        old(state).sized(m.n(), old(state).active.elements().len()),
        links_ok(old(state), m.n() as int, a as int),
        a < b < m.n(),
        a < m.n() - 1,
        old(state).active@[a as int],
        old(state).active@[b as int],
        !old(state).queue.live(a as int),
        before@.n() == m.n(),
        forall|x: int| 0 <= x < m.n() && old(state).active@[x] && x != a && x != b
            ==> #[trigger] m.sym(x, b as int) == merged_value(method, before@, old(state).sizes@, a as int, b as int, x),
        forall|p: int, q: int| 0 <= p < q < m.n() && p != b && q != b ==> #[trigger] m.at(p, q) == before@.at(p, q),
        lower_bounds(old(state).queue.prio(), old(state).active@, before@, -1),
        forall|i: int, j: int| 0 <= i < j < m.n() && old(state).active@[i] && old(state).active@[j]
            ==> before@.at(a as int, b as int) <= #[trigger] before@.at(i, j),
    ensures
        final(state).active == old(state).active,
        final(state).sizes == old(state).sizes,
        final(state).min_dists == old(state).min_dists,
        final(state).chain == old(state).chain,
        final(state).set == old(state).set,
        links_ok(final(state), m.n() as int, a as int),
        !final(state).queue.live(a as int),
        forall|x: int| 0 <= x < m.n() - 1 && final(state).active@[x] && x != a ==> #[trigger] final(state).nearest@[x] != a,
        lower_bounds(final(state).queue.prio(), final(state).active@, *m, a as int),
{
    let n = m.observations();
    let ghost s0 = *state;
    let ghost p0 = state.queue.prio();
    let ghost live = state.active@;
    let ghost d = before@;
    let inverting = match method {
        Method::Centroid | Method::Median => true,
        _ => false,
    };
    let mut below = state.active.range(0, a);
    loop
        invariant
            below.wf(),
            below.list() == state.active@,
            below.end() == a,
            m.wf(),
            n == m.n(),
            a < b < n,
            a < n - 1,
            state.active@[b as int],
            state.active == s0.active,
            state.sizes == s0.sizes,
            state.min_dists == s0.min_dists,
            state.chain == s0.chain,
            state.set == s0.set,
            live == state.active@,
            d.n() == n,
            lower_bounds(p0, live, d, -1),
            forall|i: int, j: int| 0 <= i < j < n && live[i] && live[j] ==> d.at(a as int, b as int) <= #[trigger] d.at(i, j),
            forall|x: int| 0 <= x < n && live[x] && x != a && x != b
                ==> #[trigger] m.sym(x, b as int) == merged_value(method, d, s0.sizes@, a as int, b as int, x),
            forall|p: int, q: int| 0 <= p < q < n && p != b && q != b ==> #[trigger] m.at(p, q) == d.at(p, q),
            live[a as int],
            p0.len() == n - 1,
            inverting == (method is Centroid || method is Median),
            forall|i: int| 0 <= i < n && live[i] ==> #[trigger] s0.sizes@[i] >= 1,
            links_ok(state, n as int, a as int),
            !state.queue.live(a as int),
            state.queue.prio().len() == n - 1,
            forall|x: int| 0 <= x < below.pos() && x < a && state.active@[x] ==> #[trigger] state.nearest@[x] != a,
            forall|x: int, y: int| 0 <= x < y < n && x < a && x < below.pos() && live[x] && live[y] && y != a
                ==> state.queue.prio()[x] <= #[trigger] m.at(x, y),
            forall|x: int| 0 <= x < n - 1 && !(x < a && x < below.pos()) ==> #[trigger] state.queue.prio()[x] == p0[x],
        ensures
            forall|x: int| 0 <= x < a && state.active@[x] ==> #[trigger] state.nearest@[x] != a,
            forall|x: int, y: int| 0 <= x < y < n && x < a && live[x] && live[y] && y != a
                ==> state.queue.prio()[x] <= #[trigger] m.at(x, y),
            forall|x: int| a <= x < n - 1 ==> #[trigger] state.queue.prio()[x] == p0[x],
        decreases below.remaining().len(),
    {
        let x = match below.next() {
            None => break,
            Some(x) => x,
        };
        let ghost sb = *state;
        proof {
            assert(lower_bounds(p0, live, d, -1));
            assert(live[x as int] && live[a as int] && live[b as int]);
            assert(d.at(x as int, a as int) >= p0[x as int]);
            assert(d.at(x as int, b as int) >= p0[x as int]);
            assert(m.sym(x as int, b as int) == merged_value(method, d, s0.sizes@, a as int, b as int, x as int));
            assert(s0.sizes@[a as int] >= 1 && s0.sizes@[b as int] >= 1 && s0.sizes@[x as int] >= 1);
            assert(d.at(a as int, b as int) <= d.at(x as int, a as int));
            assert(d.at(a as int, b as int) <= d.at(x as int, b as int));
            if !inverting {
                lemma_update_no_closer(
                    method,
                    d.sym(x as int, a as int),
                    d.sym(x as int, b as int),
                    d.sym(a as int, b as int),
                    s0.sizes@[a as int] as int,
                    s0.sizes@[b as int] as int,
                    s0.sizes@[x as int] as int,
                );
            }
        }
        if inverting {
            let dxb = m.get(x, b);
            if dxb < state.queue.priority(x) {
                state.queue.set_priority(x, dxb);
                state.nearest.set(x, b);
            } else if state.nearest[x] == a {
                state.nearest.set(x, b);
            }
        } else if state.nearest[x] == a {
            state.nearest.set(x, b);
        }
        proof {
            assert(state.nearest@ =~= sb.nearest@.update(x as int, state.nearest@[x as int]));
            lemma_links_update(&sb, state, n as int, a as int, x as int);
            assert forall|y: int| x < y < n && live[y] && y != a implies state.queue.prio()[x as int] <= #[trigger] m.at(x as int, y) by {
                if y != b {
                    assert(d.at(x as int, y) >= p0[x as int]);
                }
            }
        }
    }
    if method != Method::Complete {
        let mut between = state.active.range(a, b);
        let _ = between.next();
        loop
            invariant
                between.wf(),
                between.list() == state.active@,
                between.end() == b,
                a < between.pos(),
                m.wf(),
                n == m.n(),
                a < b < n,
                a < n - 1,
                state.active@[b as int],
                state.active == s0.active,
                state.sizes == s0.sizes,
                state.min_dists == s0.min_dists,
                state.chain == s0.chain,
                state.set == s0.set,
                live == state.active@,
                d.n() == n,
                lower_bounds(p0, live, d, -1),
                forall|i: int, j: int| 0 <= i < j < n && live[i] && live[j] ==> d.at(a as int, b as int) <= #[trigger] d.at(i, j),
                forall|x: int| 0 <= x < n && live[x] && x != a && x != b
                    ==> #[trigger] m.sym(x, b as int) == merged_value(method, d, s0.sizes@, a as int, b as int, x),
                forall|p: int, q: int| 0 <= p < q < n && p != b && q != b ==> #[trigger] m.at(p, q) == d.at(p, q),
                live[a as int],
                p0.len() == n - 1,
                inverting == (method is Centroid || method is Median),
                forall|i: int| 0 <= i < n && live[i] ==> #[trigger] s0.sizes@[i] >= 1,
            forall|i: int| 0 <= i < n && live[i] ==> #[trigger] s0.sizes@[i] >= 1,
                links_ok(state, n as int, a as int),
                !state.queue.live(a as int),
                state.queue.prio().len() == n - 1,
                forall|x: int| 0 <= x < n - 1 && state.active@[x] && x != a ==> #[trigger] state.nearest@[x] != a,
                forall|x: int, y: int| 0 <= x < y < n && (x < a || (a < x < b && x < between.pos())) && live[x] && live[y] && y != a
                    ==> state.queue.prio()[x] <= #[trigger] m.at(x, y),
                forall|x: int| 0 <= x < n - 1 && !(x < a || (a < x < b && x < between.pos())) ==> #[trigger] state.queue.prio()[x] == p0[x],
            ensures
                forall|x: int, y: int| 0 <= x < y < n && x < b && live[x] && live[y] && x != a && y != a
                    ==> state.queue.prio()[x] <= #[trigger] m.at(x, y),
                forall|x: int| b <= x < n - 1 ==> #[trigger] state.queue.prio()[x] == p0[x],
            decreases between.remaining().len(),
        {
            let x = match between.next() {
                None => break,
                Some(x) => x,
            };
            let ghost sb = *state;
            let dxb = m.get(x, b);
            if dxb < state.queue.priority(x) {
                state.queue.set_priority(x, dxb);
                state.nearest.set(x, b);
            }
            proof {
                assert(state.nearest@ =~= sb.nearest@.update(x as int, state.nearest@[x as int]));
                lemma_links_update(&sb, state, n as int, a as int, x as int);
                assert forall|y: int| x < y < n && live[y] && y != a implies state.queue.prio()[x as int] <= #[trigger] m.at(x as int, y) by {
                    if y != b {
                        assert(d.at(x as int, y) >= p0[x as int]);
                    }
                }
            }
        }
        if b + 1 < n {
            let mut min = state.queue.priority(b);
            let mut after = state.active.range(b, n);
            let _ = after.next();
            loop
                invariant
                    after.wf(),
                    after.list() == state.active@,
                    after.end() == n,
                    b < after.pos(),
                    m.wf(),
                    n == m.n(),
                    a < b < n - 1,
                    state.active@[b as int],
                    state.active == s0.active,
                    state.sizes == s0.sizes,
                    state.min_dists == s0.min_dists,
                    state.chain == s0.chain,
                    state.set == s0.set,
                    live == state.active@,
                    d.n() == n,
                    lower_bounds(p0, live, d, -1),
                    forall|i: int, j: int| 0 <= i < j < n && live[i] && live[j] ==> d.at(a as int, b as int) <= #[trigger] d.at(i, j),
                    forall|x: int| 0 <= x < n && live[x] && x != a && x != b
                        ==> #[trigger] m.sym(x, b as int) == merged_value(method, d, s0.sizes@, a as int, b as int, x),
                    forall|p: int, q: int| 0 <= p < q < n && p != b && q != b ==> #[trigger] m.at(p, q) == d.at(p, q),
                    live[a as int],
                    p0.len() == n - 1,
                    inverting == (method is Centroid || method is Median),
                    forall|i: int| 0 <= i < n && live[i] ==> #[trigger] s0.sizes@[i] >= 1,
                forall|i: int| 0 <= i < n && live[i] ==> #[trigger] s0.sizes@[i] >= 1,
            forall|i: int| 0 <= i < n && live[i] ==> #[trigger] s0.sizes@[i] >= 1,
                    links_ok(state, n as int, a as int),
                    !state.queue.live(a as int),
                    state.queue.prio().len() == n - 1,
                    forall|x: int| 0 <= x < n - 1 && state.active@[x] && x != a ==> #[trigger] state.nearest@[x] != a,
                    forall|x: int, y: int| 0 <= x < y < n && x < b && live[x] && live[y] && x != a && y != a
                        ==> state.queue.prio()[x] <= #[trigger] m.at(x, y),
                    min == state.queue.prio()[b as int],
                    min <= p0[b as int],
                    forall|y: int| b < y < after.pos() && y < n && live[y] ==> min <= #[trigger] m.at(b as int, y),
                    forall|x: int| b < x < n - 1 ==> #[trigger] state.queue.prio()[x] == p0[x],
                ensures
                    forall|y: int| b < y < n && live[y] ==> min <= #[trigger] m.at(b as int, y),
                decreases after.remaining().len(),
            {
                let x = match after.next() {
                    None => break,
                    Some(x) => x,
                };
                let ghost sb = *state;
                let dbx = m.get(b, x);
                if dbx < min {
                    state.queue.set_priority(b, dbx);
                    state.nearest.set(b, x);
                    min = dbx;
                }
                proof {
                    assert(state.nearest@ =~= sb.nearest@.update(b as int, state.nearest@[b as int]));
                    lemma_links_update(&sb, state, n as int, a as int, b as int);
                }
            }
        }
    }
    proof {
        let pf = state.queue.prio();
        assert forall|x: int, y: int| 0 <= x < y < n && live[x] && live[y] && x != a && y != a
            implies pf[x] <= #[trigger] m.at(x, y) by {
            if method == Method::Complete && a < x {
                assert(pf[x] == p0[x]);
                assert(d.at(x, y) >= p0[x]);
                if y == b {
                    lemma_update_no_closer(method, d.sym(x, a as int), d.sym(x, b as int), d.sym(a as int, b as int),
                        s0.sizes@[a as int] as int, s0.sizes@[b as int] as int, s0.sizes@[x] as int);
                    assert(m.sym(x, b as int) == merged_value(method, d, s0.sizes@, a as int, b as int, x));
                } else if x == b {
                    lemma_update_no_closer(method, d.sym(y, a as int), d.sym(y, b as int), d.sym(a as int, b as int),
                        s0.sizes@[a as int] as int, s0.sizes@[b as int] as int, s0.sizes@[y] as int);
                    assert(m.sym(y, b as int) == merged_value(method, d, s0.sizes@, a as int, b as int, y));
                }
            } else if x > b || (x == b && b + 1 >= n) {
                assert(pf[x] == p0[x]);
                assert(d.at(x, y) >= p0[x]);
            }
        }
    }
}

} // verus!
