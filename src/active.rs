use vstd::prelude::*;

verus! {

/// No element of `live` in `[a, b)` is set.
pub open spec fn gap_free(live: Seq<bool>, a: int, b: int) -> bool {
    forall|j: int| a <= j < b ==> !live[j]
}

/// `c` is the first set element of `live` at or after `p`, or `live.len()`
/// when there is none.
pub open spec fn first_live(live: Seq<bool>, p: int, c: int) -> bool {
    &&& p <= c <= live.len()
    &&& c < live.len() ==> live[c]
    &&& gap_free(live, p, c)
}

/// The set elements of `live` in `[lo, hi)`, in ascending order.
pub open spec fn live_between(live: Seq<bool>, lo: int, hi: int) -> Seq<usize>
    decreases hi - lo,
{
    if lo >= hi {
        seq![]
    } else if live[lo] {
        seq![lo as usize] + live_between(live, lo + 1, hi)
    } else {
        live_between(live, lo + 1, hi)
    }
}

/// Skipping over unset elements does not change what is left.
pub proof fn lemma_live_between_skip(live: Seq<bool>, a: int, b: int, hi: int)
    requires
        a <= b,
        gap_free(live, a, b),
    ensures
        live_between(live, a, hi) == live_between(live, if b < hi { b } else { hi }, hi),
    decreases b - a,
{
    if a < b && a < hi {
        lemma_live_between_skip(live, a + 1, b, hi);
    }
}

/// Every element of `live_between` is set and in range, ascending.
pub proof fn lemma_live_between_members(live: Seq<bool>, lo: int, hi: int)
    requires
        0 <= lo,
        hi <= live.len(),
        hi <= usize::MAX + 1,
    ensures
        forall|k: int| 0 <= k < live_between(live, lo, hi).len() ==>
            lo <= #[trigger] live_between(live, lo, hi)[k] < hi
            && live[live_between(live, lo, hi)[k] as int],
        forall|k1: int, k2: int| 0 <= k1 < k2 < live_between(live, lo, hi).len()
            ==> live_between(live, lo, hi)[k1] < live_between(live, lo, hi)[k2],
        forall|x: int| lo <= x < hi && live[x] ==> live_between(live, lo, hi).contains(x as usize),
    decreases hi - lo,
{
    if lo < hi {
        lemma_live_between_members(live, lo + 1, hi);
        let rest = live_between(live, lo + 1, hi);
        if live[lo] {
            let s = seq![lo as usize] + rest;
            assert forall|k: int| 0 <= k < s.len() implies lo <= #[trigger] s[k] < hi && live[s[k] as int] by {
                if k > 0 {
                    assert(s[k] == rest[k - 1]);
                }
            }
            assert forall|k1: int, k2: int| 0 <= k1 < k2 < s.len() implies s[k1] < s[k2] by {
                assert(s[k2] == rest[k2 - 1]);
                if k1 > 0 {
                    assert(s[k1] == rest[k1 - 1]);
                }
            }
            assert forall|x: int| lo <= x < hi && live[x] implies s.contains(x as usize) by {
                if x == lo {
                    assert(s[0] == lo as usize);
                } else {
                    let k = choose|k: int| 0 <= k < rest.len() && rest[k] == x as usize;
                    assert(s[k + 1] == x as usize);
                }
            }
        }
    }
}

/// A list of the contiguous integers `0..len` that supports removal in
/// constant time and iteration in time proportional to the number of
/// elements left.
#[derive(Clone, Debug)]
pub struct Active {
    /// The first active integer.
    start: usize,
    /// prev[k - 1] is the active integer that precedes `k`, where `k` is
    /// active or the length.
    prev: Vec<usize>,
    /// next[i] is the active integer (or the length) that follows `i`, where
    /// `i` is active. next[i] == 0 for all inactive `i`.
    next: Vec<usize>,
}

impl View for Active {
    type V = Seq<bool>;

    /// `self@[i]` holds if and only if `i` is still in the list.
    closed spec fn view(&self) -> Seq<bool> {
        Seq::new(self.next@.len(), |i: int| self.next@[i] != 0)
    }
}

impl Active {
    /// The successor link of `i` is right.
    pub closed spec fn next_ok(&self, i: int) -> bool {
        self.next@[i] != 0 ==> i < self.next@[i] && first_live(self@, i + 1, self.next@[i] as int)
    }

    /// The predecessor link of `k`, an element or the length, is right.
    pub closed spec fn prev_ok(&self, k: int) -> bool {
        self.start < k && (k == self.next@.len() || self.next@[k] != 0) ==> {
            let p = self.prev@[k - 1] as int;
            &&& p < k
            &&& self.next@[p] != 0
            &&& gap_free(self@, p + 1, k)
        }
    }

    /// The links agree with the set of elements left.
    pub closed spec fn wf(&self) -> bool {
        &&& self.prev@.len() == self.next@.len()
        &&& first_live(self@, 0, self.start as int)
        &&& forall|i: int| 0 <= i < self.next@.len() ==> #[trigger] self.next_ok(i)
        &&& forall|k: int| 0 < k <= self.next@.len() ==> #[trigger] self.prev_ok(k)
    }

    /// Create a new empty active list.
    pub fn new() -> (r: Active)
        ensures
            r.wf(),
            r@ == Seq::<bool>::empty(),
    {
        let r = Active { start: 0, prev: Vec::new(), next: Vec::new() };
        assert(r@ =~= Seq::<bool>::empty());
        r
    }

    /// Create a new active list with elements `0` through `len-1`, inclusive.
    pub fn with_len(len: usize) -> (r: Active)
        ensures
            r.wf(),
            r@ == Seq::new(len as nat, |i: int| true),
    {
        let mut a = Active::new();
        a.reset(len);
        a
    }

    /// Reset this list to the given length as if a new list were created.
    pub fn reset(&mut self, len: usize)
        ensures
            final(self).wf(),
            final(self)@ == Seq::new(len as nat, |i: int| true),
    {
        self.start = 0;
        self.prev.clear();
        self.next.clear();
        let mut i: usize = 0;
        while i < len
            invariant
                i <= len,
                self.prev@.len() == i,
                self.next@.len() == i,
                forall|j: int| 0 <= j < i ==> self.prev@[j] == j && self.next@[j] == j + 1,
            decreases len - i,
        {
            self.prev.push(i);
            self.next.push(i + 1);
            i = i + 1;
        }
        self.start = 0;
        assert(self@ =~= Seq::new(len as nat, |i: int| true));
    }

    /// Return true if the given element is still in the list.
    pub fn contains(&self, i: usize) -> (r: bool)
        requires
            i < self@.len(),
        ensures
            r == self@[i as int],
    {
        self.next[i] > 0
    }

    /// Remove the given element from this list; a no-op if it is gone
    /// already.
    pub fn remove(&mut self, i: usize)
        requires
            old(self).wf(),
            i < old(self)@.len(),
        ensures
            final(self).wf(),
            final(self)@ == old(self)@.update(i as int, false),
    {
        if !self.contains(i) {
            assert(self@ =~= self@.update(i as int, false));
            return;
        }
        let ghost live0 = self@;
        let len = self.next.len();
        let nx = self.next[i];
        proof {
            assert(self.next_ok(i as int));
            assert(self.prev_ok(i as int));
        }
        if i == self.start {
            self.start = nx;
        } else {
            let p = self.prev[i - 1];
            self.prev.set(nx - 1, p);
            self.next.set(p, nx);
        }
        self.next.set(i, 0);
        assert(self@ =~= live0.update(i as int, false));
        proof {
            let live = self@;
            assert forall|j: int| 0 <= j < self.next@.len() implies #[trigger] self.next_ok(j) by {
                assert(old(self).next_ok(j));
                if j != i && self.next@[j] != 0 {
                    assert(live0[j]);
                    let onx = old(self).next@[j] as int;
                    if i != old(self).start && j == old(self).prev@[i - 1] {
                        assert(gap_free(live, j + 1, nx as int)) by {
                            assert forall|x: int| j + 1 <= x < nx implies !live[x] by {
                                if x < i {
                                    assert(!live0[x]);
                                } else if x > i {
                                    assert(!live0[x]);
                                }
                            }
                        }
                        if nx < len {
                            assert(live0[nx as int]);
                        }
                    } else {
                        if onx == i {
                            if i == old(self).start {
                                assert(!live0[j]);
                            } else {
                                let p = old(self).prev@[i - 1] as int;
                                assert(live0[p]);
                                if j < p {
                                    assert(!live0[p]);
                                } else {
                                    assert(!live0[j]);
                                }
                            }
                        }
                        assert(gap_free(live, j + 1, onx));
                        if onx < len {
                            assert(live0[onx]);
                        }
                    }
                }
            }
            assert forall|k: int| 0 < k <= self.next@.len() implies #[trigger] self.prev_ok(k) by {
                assert(old(self).prev_ok(k));
                if k < len && self.next@[k] != 0 {
                    assert(live0[k]);
                }
                if i != old(self).start && k == nx {
                    assert(old(self).prev_ok(i as int));
                    assert(old(self).next_ok(i as int));
                }
            }
        }
    }

    /// The elements in the list, in ascending order.
    pub open spec fn elements(&self) -> Seq<usize> {
        live_between(self@, 0, self@.len() as int)
    }

    /// The elements are in the list, ascending, and every element of the
    /// list is among them.
    pub proof fn lemma_elements(&self)
        requires
            self@.len() <= usize::MAX,
        ensures
            forall|k: int| 0 <= k < self.elements().len() ==> #[trigger] self.elements()[k] < self@.len()
                && self@[self.elements()[k] as int],
            forall|k1: int, k2: int| 0 <= k1 < k2 < self.elements().len()
                ==> self.elements()[k1] < self.elements()[k2],
            forall|x: int| 0 <= x < self@.len() && self@[x] ==> self.elements().contains(x as usize),
    {
        lemma_live_between_members(self@, 0, self@.len() as int);
    }

    /// Return an iterator over every element in the list.
    pub fn iter(&self) -> (r: ActiveIter<'_>)
        requires
            self.wf(),
        ensures
            r.wf(),
            r.list() == self@,
            r.remaining() == self.elements(),
            first_live(self@, 0, r.pos()),
    {
        proof {
            lemma_live_between_skip(self@, 0, self.start as int, self@.len() as int);
        }
        ActiveIter(ActiveRange { active: self, cur: self.start, end: self.next.len() })
    }

    /// Return an iterator over the elements of the list in `[lo, hi)`.
    ///
    /// When `lo` is in the list, this takes constant time; otherwise it
    /// skips over the integers that are gone.
    pub fn range(&self, lo: usize, hi: usize) -> (r: ActiveRange<'_>)
        requires
            self.wf(),
            lo <= self@.len(),
            hi <= self@.len(),
        ensures
            r.wf(),
            r.list() == self@,
            r.end() == hi,
            r.remaining() == live_between(self@, lo as int, hi as int),
            first_live(self@, lo as int, r.pos()),
    {
        let len = self.next.len();
        let mut start = lo;
        if start < self.start {
            start = self.start;
        }
        while start < len && !self.contains(start)
            invariant
                self.wf(),
                lo <= start <= len,
                len == self@.len(),
                gap_free(self@, lo as int, start as int),
            decreases len - start,
        {
            start = start + 1;
        }
        proof {
            lemma_live_between_skip(self@, lo as int, start as int, hi as int);
        }
        ActiveRange { active: self, cur: start, end: hi }
    }
}

/// An iterator over the elements of an active list in a range.
#[derive(Clone, Debug)]
pub struct ActiveRange<'a> {
    active: &'a Active,
    cur: usize,
    end: usize,
}

impl<'a> ActiveRange<'a> {
    /// The membership of the list that is walked.
    pub closed spec fn list(&self) -> Seq<bool> {
        self.active@
    }

    /// The exclusive upper bound of the walk.
    pub closed spec fn end(&self) -> int {
        self.end as int
    }

    /// The elements that are yet to come, in ascending order.
    pub closed spec fn remaining(&self) -> Seq<usize> {
        live_between(self.active@, self.cur as int, self.end as int)
    }

    /// Where the walk stands: the next element, or the length.
    pub closed spec fn pos(&self) -> int {
        self.cur as int
    }

    /// The walk stands on an element of the list, or at its end.
    pub closed spec fn wf(&self) -> bool {
        &&& self.active.wf()
        &&& self.cur <= self.active@.len()
        &&& self.end <= self.active@.len()
        &&& (self.cur < self.active@.len() ==> self.active@[self.cur as int])
    }

    /// Return the next element, if any.
    pub fn next(&mut self) -> (r: Option<usize>)
        requires
            old(self).wf(),
        ensures
            final(self).wf(),
            final(self).list() == old(self).list(),
            final(self).end() == old(self).end(),
            old(self).remaining().len() == 0 ==> r is None && final(self).remaining().len() == 0,
            old(self).remaining().len() > 0 ==> r == Some(old(self).remaining()[0])
                && final(self).remaining() == old(self).remaining().drop_first(),
            r is None ==> old(self).pos() >= old(self).end() && final(self).pos() == old(self).pos(),
            r matches Some(o) ==> o == old(self).pos() && o < old(self).end() && old(self).list()[o as int]
                && first_live(old(self).list(), o + 1, final(self).pos()),
    {
        let observation = self.cur;
        if observation >= self.end || observation >= self.active.next.len() {
            return None;
        }
        let nx = self.active.next[observation];
        proof {
            assert(self.active.next_ok(observation as int));
            assert(self.active.next@[observation as int] != 0);
            lemma_live_between_skip(self.active@, observation + 1, nx as int, self.end as int);
        }
        self.cur = nx;
        Some(observation)
    }

    /// Collect the remaining elements.
    pub fn to_vec(&mut self) -> (r: Vec<usize>)
        requires
            old(self).wf(),
        ensures
            r@ == old(self).remaining(),
    {
        let mut out: Vec<usize> = Vec::new();
        loop
            invariant
                self.wf(),
                self.list() == old(self).list(),
                self.end() == old(self).end(),
                out@ + self.remaining() == old(self).remaining(),
            ensures
                out@ == old(self).remaining(),
            decreases self.remaining().len(),
        {
            let ghost before = self.remaining();
            match self.next() {
                None => {
                    assert(out@ + before =~= out@);
                    assert(out@ + self.remaining() =~= out@);
                    break;
                },
                Some(x) => {
                    out.push(x);
                    assert(out@ + self.remaining() =~= old(self).remaining()) by {
                        assert(before =~= seq![x] + self.remaining());
                    }
                },
            }
        }
        out
    }
}

/// An iterator over all elements in an active list.
#[derive(Clone, Debug)]
pub struct ActiveIter<'a>(ActiveRange<'a>);

impl<'a> ActiveIter<'a> {
    /// The membership of the list that is walked.
    pub closed spec fn list(&self) -> Seq<bool> {
        self.0.list()
    }

    /// The elements that are yet to come, in ascending order.
    pub closed spec fn remaining(&self) -> Seq<usize> {
        self.0.remaining()
    }

    /// The walk stands on an element of the list, or at its end.
    pub closed spec fn wf(&self) -> bool {
        self.0.wf() && self.0.end() == self.0.list().len()
    }

    /// Where the walk stands: the next element, or the length.
    pub closed spec fn pos(&self) -> int {
        self.0.pos()
    }

    /// Return the next element, if any.
    pub fn next(&mut self) -> (r: Option<usize>)
        requires
            old(self).wf(),
        ensures
            final(self).wf(),
            final(self).list() == old(self).list(),
            old(self).remaining().len() == 0 ==> r is None && final(self).remaining().len() == 0,
            old(self).remaining().len() > 0 ==> r == Some(old(self).remaining()[0])
                && final(self).remaining() == old(self).remaining().drop_first(),
            r is None ==> old(self).pos() >= old(self).list().len() && final(self).pos() == old(self).pos(),
            r matches Some(o) ==> o == old(self).pos() && old(self).list()[o as int]
                && first_live(old(self).list(), o + 1, final(self).pos()),
    {
        self.0.next()
    }

    /// Collect the remaining elements.
    pub fn to_vec(&mut self) -> (r: Vec<usize>)
        requires
            old(self).wf(),
        ensures
            r@ == old(self).remaining(),
    {
        self.0.to_vec()
    }
}

} // verus!
