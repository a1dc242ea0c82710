//! The pointwise update rules: when clusters `A` and `B` merge, the
//! dissimilarity between the merged cluster and another cluster `X`, from
//! `a = d(A, X)`, `b = d(B, X)`, `d(A, B)` and the cluster sizes. The result
//! is written over `b`.
//!
//! Divisions round down; a result below zero becomes zero and one above
//! `u64::MAX` becomes `u64::MAX`.
use vstd::prelude::*;

use crate::condensed::CondensedMatrix;
use crate::method::Method;
use crate::state::{LinkageState, lemma_sum_three};

verus! {

/// The largest total cluster size for which the update rules are exact.
pub const MAX_SIZE: u64 = 0x1_0000_0000;

/// `v` limited to the range of `u64`.
pub open spec fn clamp_u64(v: int) -> u64 {
    if v < 0 {
        0
    } else if v > u64::MAX {
        u64::MAX
    } else {
        v as u64
    }
}

/// `min(a, b)`.
pub open spec fn spec_single(a: u64, b: u64) -> u64 {
    if a < b { a } else { b }
}

/// `max(a, b)`.
pub open spec fn spec_complete(a: u64, b: u64) -> u64 {
    if a > b { a } else { b }
}

/// `(|A| a + |B| b) / (|A| + |B|)`.
pub open spec fn spec_average(a: u64, b: u64, size_a: int, size_b: int) -> u64 {
    clamp_u64((size_a * a + size_b * b) / (size_a + size_b))
}

/// `(a + b) / 2`.
pub open spec fn spec_weighted(a: u64, b: u64) -> u64 {
    clamp_u64((a + b) / 2)
}

/// `((|X| + |A|) a + (|X| + |B|) b - |X| d(A, B)) / (|A| + |B| + |X|)`.
pub open spec fn spec_ward(a: u64, b: u64, merged: u64, size_a: int, size_b: int, size_x: int) -> u64 {
    clamp_u64(((size_x + size_a) * a + (size_x + size_b) * b - size_x * merged) / (size_a + size_b + size_x))
}

/// `(|A| a + |B| b) / (|A| + |B|) - |A| |B| d(A, B) / (|A| + |B|)^2`.
pub open spec fn spec_centroid(a: u64, b: u64, merged: u64, size_a: int, size_b: int) -> u64 {
    clamp_u64(
        (size_a * a + size_b * b) / (size_a + size_b) - (size_a * size_b * merged) / ((size_a + size_b) * (
        size_a + size_b)),
    )
}

/// `(a + b) / 2 - d(A, B) / 4`.
pub open spec fn spec_median(a: u64, b: u64, merged: u64) -> u64 {
    clamp_u64((a + b) / 2 - merged / 4)
}

/// Single linkage: the smaller of the two.
pub fn single(a: u64, b: &mut u64)
    ensures
        *final(b) == spec_single(a, *old(b)),
{
    if a < *b {
        *b = a;
    }
}

/// Complete linkage: the larger of the two.
pub fn complete(a: u64, b: &mut u64)
    ensures
        *final(b) == spec_complete(a, *old(b)),
{
    if a > *b {
        *b = a;
    }
}

/// Average linkage: the mean weighted by cluster size.
pub fn average(a: u64, b: &mut u64, size_a: usize, size_b: usize)
    requires
        size_a >= 1,
        size_b >= 1,
        size_a + size_b <= MAX_SIZE,
    ensures
        *final(b) == spec_average(a, *old(b), size_a as int, size_b as int),
{
    let sa = size_a as u128;
    let sb = size_b as u128;
    proof {
        assert(sa * a <= 0x1_0000_0000 * 0xffff_ffff_ffff_ffff) by (nonlinear_arith)
            requires sa <= 0x1_0000_0000, a <= 0xffff_ffff_ffff_ffff;
        assert(sb * *b <= 0x1_0000_0000 * 0xffff_ffff_ffff_ffff) by (nonlinear_arith)
            requires sb <= 0x1_0000_0000, *b <= 0xffff_ffff_ffff_ffff;
    }
    let num = sa * (a as u128) + sb * (*b as u128);
    let q = num / (sa + sb);
    proof {
        let m: int = if a > *b { a as int } else { *b as int };
        let n: int = num as int;
        let t: int = sa as int + sb as int;
        assert(n <= t * m) by (nonlinear_arith)
            requires n == sa * a + sb * *b, a <= m, *b <= m, sa >= 0, sb >= 0, t == sa + sb;
        assert(n / t <= m) by (nonlinear_arith)
            requires n <= t * m, t > 0;
    }
    *b = q as u64;
}

/// Weighted linkage: the plain mean.
pub fn weighted(a: u64, b: &mut u64)
    ensures
        *final(b) == spec_weighted(a, *old(b)),
{
    let q = ((a as u128) + (*b as u128)) / 2;
    *b = q as u64;
}

/// Ward linkage, on squared dissimilarities.
pub fn ward(a: u64, b: &mut u64, merged: u64, size_a: usize, size_b: usize, size_x: usize)
    requires
        size_a >= 1,
        size_b >= 1,
        size_x >= 1,
        size_a + size_b + size_x <= MAX_SIZE,
    ensures
        *final(b) == spec_ward(a, *old(b), merged, size_a as int, size_b as int, size_x as int),
{
    let sa = size_a as u128;
    let sb = size_b as u128;
    let sx = size_x as u128;
    proof {
        assert((sx + sa) * a <= 0x1_0000_0000 * 0xffff_ffff_ffff_ffff) by (nonlinear_arith)
            requires sx + sa <= 0x1_0000_0000, a <= 0xffff_ffff_ffff_ffff;
        assert((sx + sb) * *b <= 0x1_0000_0000 * 0xffff_ffff_ffff_ffff) by (nonlinear_arith)
            requires sx + sb <= 0x1_0000_0000, *b <= 0xffff_ffff_ffff_ffff;
        assert(sx * merged <= 0x1_0000_0000 * 0xffff_ffff_ffff_ffff) by (nonlinear_arith)
            requires sx <= 0x1_0000_0000, merged <= 0xffff_ffff_ffff_ffff;
    }
    let pos = (sx + sa) * (a as u128) + (sx + sb) * (*b as u128);
    let neg = sx * (merged as u128);
    let total = sa + sb + sx;
    let ghost num: int = pos - neg;
    if neg >= pos {
        proof {
            let t: int = total as int;
            assert(num / t <= 0) by (nonlinear_arith)
                requires num <= 0, t > 0;
        }
        *b = 0;
    } else {
        let q = (pos - neg) / total;
        if q > u64::MAX as u128 {
            *b = u64::MAX;
        } else {
            *b = q as u64;
        }
    }
}

/// Centroid linkage, on squared dissimilarities.
pub fn centroid(a: u64, b: &mut u64, merged: u64, size_a: usize, size_b: usize)
    requires
        size_a >= 1,
        size_b >= 1,
        size_a + size_b <= MAX_SIZE,
    ensures
        *final(b) == spec_centroid(a, *old(b), merged, size_a as int, size_b as int),
{
    let sa = size_a as u128;
    let sb = size_b as u128;
    proof {
        assert(sa * a <= 0x1_0000_0000 * 0xffff_ffff_ffff_ffff) by (nonlinear_arith)
            requires sa <= 0x1_0000_0000, a <= 0xffff_ffff_ffff_ffff;
        assert(sb * *b <= 0x1_0000_0000 * 0xffff_ffff_ffff_ffff) by (nonlinear_arith)
            requires sb <= 0x1_0000_0000, *b <= 0xffff_ffff_ffff_ffff;
        assert(sa * sb <= 0x1_0000_0000 * 0x1_0000_0000) by (nonlinear_arith)
            requires sa <= 0x1_0000_0000, sb <= 0x1_0000_0000;
        assert(sa * sb * merged <= 0x1_0000_0000 * 0x1_0000_0000 * 0xffff_ffff_ffff_ffff) by (nonlinear_arith)
            requires sa * sb <= 0x1_0000_0000 * 0x1_0000_0000, merged <= 0xffff_ffff_ffff_ffff;
        assert((sa + sb) * (sa + sb) <= 0x1_0000_0000 * 0x1_0000_0000) by (nonlinear_arith)
            requires sa + sb <= 0x1_0000_0000, sa >= 0, sb >= 0;
        assert((sa + sb) * (sa + sb) > 0) by (nonlinear_arith)
            requires sa + sb > 0;
    }
    let s = sa + sb;
    let mean = (sa * (a as u128) + sb * (*b as u128)) / s;
    let shift = (sa * sb * (merged as u128)) / (s * s);
    if shift >= mean {
        *b = 0;
    } else {
        proof {
            let m: int = if a > *b { a as int } else { *b as int };
            let n: int = sa * a + sb * *b;
            let t: int = s as int;
            assert(n <= t * m) by (nonlinear_arith)
                requires n == sa * a + sb * *b, a <= m, *b <= m, sa >= 0, sb >= 0, t == sa + sb;
            assert(n / t <= m) by (nonlinear_arith)
                requires n <= t * m, t > 0;
        }
        *b = (mean - shift) as u64;
    }
}

/// Median linkage, on squared dissimilarities.
pub fn median(a: u64, b: &mut u64, merged: u64)
    ensures
        *final(b) == spec_median(a, *old(b), merged),
{
    let half = ((a as u128) + (*b as u128)) / 2;
    let quarter = (merged as u128) / 4;
    if quarter >= half {
        *b = 0;
    } else {
        *b = (half - quarter) as u64;
    }
}

/// The update rule of `method`.
pub open spec fn spec_update(method: Method, a: u64, b: u64, merged: u64, size_a: int, size_b: int, size_x: int) -> u64 {
    match method {
        Method::Single => spec_single(a, b),
        Method::Complete => spec_complete(a, b),
        Method::Average => spec_average(a, b, size_a, size_b),
        Method::Weighted => spec_weighted(a, b),
        Method::Ward => spec_ward(a, b, merged, size_a, size_b, size_x),
        Method::Centroid => spec_centroid(a, b, merged, size_a, size_b),
        Method::Median => spec_median(a, b, merged),
    }
}

/// The rules of the methods that never invert give the merged cluster a
/// dissimilarity to `X` at least the smaller of `d(A, X)` and `d(B, X)`,
/// when `A` and `B` were no farther apart; complete linkage, at least
/// `d(B, X)`.
pub proof fn lemma_update_no_closer(method: Method, a: u64, b: u64, merged: u64, size_a: int, size_b: int, size_x: int)
    requires
        !(method is Centroid || method is Median),
        merged <= a,
        merged <= b,
        size_a >= 1,
        size_b >= 1,
        size_x >= 1,
    ensures
        spec_update(method, a, b, merged, size_a, size_b, size_x) >= if a < b { a } else { b },
        method is Complete ==> spec_update(method, a, b, merged, size_a, size_b, size_x) >= b,
{
    let lo: int = if a < b { a as int } else { b as int };
    match method {
        Method::Average => {
            let t = size_a + size_b;
            let num = size_a * a + size_b * b;
            assert(num >= t * lo) by (nonlinear_arith)
                requires num == size_a * a + size_b * b, t == size_a + size_b, lo <= a, lo <= b, size_a >= 1, size_b >= 1;
            assert(num / t >= lo) by (nonlinear_arith)
                requires num >= t * lo, t >= 1, lo >= 0;
        },
        Method::Weighted => {},
        Method::Ward => {
            let t = size_a + size_b + size_x;
            let num = (size_x + size_a) * a + (size_x + size_b) * b - size_x * merged;
            assert(num >= t * lo) by (nonlinear_arith)
                requires
                    num == (size_x + size_a) * a + (size_x + size_b) * b - size_x * merged,
                    t == size_a + size_b + size_x,
                    lo <= a,
                    lo <= b,
                    merged <= lo,
                    size_a >= 1,
                    size_b >= 1,
                    size_x >= 1,
            ;
            assert(num / t >= lo) by (nonlinear_arith)
                requires num >= t * lo, t >= 1, lo >= 0;
        },
        _ => {},
    }
}

/// Apply the update rule of `method`.
pub fn apply(method: Method, a: u64, b: &mut u64, merged: u64, size_a: usize, size_b: usize, size_x: usize)
    requires
        size_a >= 1,
        size_b >= 1,
        size_x >= 1,
        size_a + size_b + size_x <= MAX_SIZE,
    ensures
        *final(b) == spec_update(method, a, *old(b), merged, size_a as int, size_b as int, size_x as int),
{
    match method {
        Method::Single => single(a, b),
        Method::Complete => complete(a, b),
        Method::Average => average(a, b, size_a, size_b),
        Method::Weighted => weighted(a, b),
        Method::Ward => ward(a, b, merged, size_a, size_b, size_x),
        Method::Centroid => centroid(a, b, merged, size_a, size_b),
        Method::Median => median(a, b, merged),
    }
}

/// The dissimilarity between merged cluster `b` and `x`, by the update rule of
/// `method`, when `a` merges into `b`.
pub open spec fn merged_value(method: Method, before: CondensedMatrix, sizes: Seq<usize>, a: int, b: int, x: int) -> u64 {
    spec_update(
        method,
        before.sym(x, a),
        before.sym(x, b),
        before.sym(a, b),
        sizes[a] as int,
        sizes[b] as int,
        sizes[x] as int,
    )
}

/// When active cluster `a` merges into active cluster `b`, overwrite the
/// dissimilarity between `b` and every other active cluster `x` with the
/// update rule of `method`. Pairs without `b` keep their values.
pub(crate) fn update_all(state: &LinkageState, dis: &mut CondensedMatrix, a: usize, b: usize, method: Method)
    requires
        old(dis).wf(),
        state.sized(old(dis).n(), state.active.elements().len()),
        a < old(dis).n(),
        b < old(dis).n(),
        a != b,
        state.active@[a as int],
        state.active@[b as int],
    ensures
        final(dis).wf(),
        final(dis).n() == old(dis).n(),
        forall|x: int| 0 <= x < old(dis).n() && state.active@[x] && x != a && x != b
            ==> #[trigger] final(dis).sym(x, b as int) == merged_value(method, *old(dis), state.sizes@, a as int, b as int, x),
        forall|p: int, q: int| 0 <= p < q < old(dis).n() && p != b && q != b
            ==> #[trigger] final(dis).at(p, q) == old(dis).at(p, q),
{
    let n = dis.observations();
    proof {
        dis.lemma_bound();
    }
    let merged = dis.get_sym(a, b);
    let sa = state.sizes[a];
    let sb = state.sizes[b];
    let mut it = state.active.range(0, n);
    loop
        invariant
            it.wf(),
            it.list() == state.active@,
            it.end() == n,
            0 <= it.pos(),
            n == old(dis).n(),
            n <= MAX_SIZE,
            state.sized(old(dis).n(), state.active.elements().len()),
            a < n,
            b < n,
            a != b,
            state.active@[a as int],
            state.active@[b as int],
            sa == state.sizes@[a as int],
            sb == state.sizes@[b as int],
            merged == old(dis).sym(a as int, b as int),
            dis.wf(),
            dis.n() == n,
            forall|x: int| 0 <= x < it.pos() && x < n && state.active@[x] && x != a && x != b
                ==> #[trigger] dis.sym(x, b as int) == merged_value(method, *old(dis), state.sizes@, a as int, b as int, x),
            forall|x: int| it.pos() <= x < n && x != b ==> #[trigger] dis.sym(x, b as int) == old(dis).sym(x, b as int),
            forall|p: int, q: int| 0 <= p < q < n && p != b && q != b ==> #[trigger] dis.at(p, q) == old(dis).at(p, q),
        ensures
            it.pos() >= n,
        decreases it.remaining().len(),
    {
        let ghost before = *dis;
        match it.next() {
            None => {
                break;
            },
            Some(x) => {
                if x != a && x != b {
                    let dxa = dis.get_sym(x, a);
                    let mut dxb = dis.get_sym(x, b);
                    proof {
                        lemma_sum_three(state.sizes@, a as int, b as int, x as int);
                        assert(dxa == old(dis).sym(x as int, a as int));
                    }
                    apply(method, dxa, &mut dxb, merged, sa, sb, state.sizes[x]);
                    dis.set_sym(x, b, dxb);
                }
                proof {
                    assert forall|y: int| 0 <= y < it.pos() && y < n && state.active@[y] && y != a && y != b
                        implies #[trigger] dis.sym(y, b as int) == merged_value(method, *old(dis), state.sizes@, a as int, b as int, y) by {
                        if y != x {
                            assert(before.sym(y, b as int) == merged_value(method, *old(dis), state.sizes@, a as int, b as int, y));
                            if y < b {
                                assert(dis.at(y, b as int) == before.at(y, b as int));
                            } else {
                                assert(dis.at(b as int, y) == before.at(b as int, y));
                            }
                        }
                    }
                    assert forall|y: int| it.pos() <= y < n && y != b implies #[trigger] dis.sym(y, b as int) == old(dis).sym(y, b as int) by {
                        assert(before.sym(y, b as int) == old(dis).sym(y, b as int));
                        if y < b {
                            assert(dis.at(y, b as int) == before.at(y, b as int));
                        } else {
                            assert(dis.at(b as int, y) == before.at(b as int, y));
                        }
                    }
                    assert forall|p: int, q: int| 0 <= p < q < n && p != b && q != b implies #[trigger] dis.at(p, q) == old(dis).at(p, q) by {
                        assert(dis.at(p, q) == before.at(p, q));
                    }
                }
            },
        }
    }
}

} // verus!
