use vstd::prelude::*;

verus! {

/// The position of the parent of heap position `k > 0`.
pub open spec fn par(k: int) -> int {
    (k - 1) / 2
}

/// The heap order between position `k > 0` and its parent.
pub open spec fn pair_ok(heap: Seq<usize>, prio: Seq<u64>, k: int) -> bool {
    prio[heap[par(k) as int] as int] <= prio[heap[k] as int]
}

/// The heap order holds below every position at or after `lo`, except
/// between position `skip` and its children; and the parent of `skip`, if
/// at or after `lo`, is no larger than the children of `skip`.
pub open spec fn order_down(heap: Seq<usize>, prio: Seq<u64>, lo: int, skip: int) -> bool {
    &&& forall|k: int| 0 < k < heap.len() && par(k) >= lo && par(k) != skip ==> #[trigger] pair_ok(heap, prio, k)
    &&& forall|k: int| 0 < k < heap.len() && par(k) == skip && skip > 0 && par(skip) >= lo
        ==> prio[heap[par(skip)] as int] <= #[trigger] prio[heap[k] as int]
}

/// The heap order holds everywhere except between position `skip` and its
/// parent; and the parent of `skip` is no larger than the children of
/// `skip`.
pub open spec fn order_up(heap: Seq<usize>, prio: Seq<u64>, skip: int) -> bool {
    &&& forall|k: int| 0 < k < heap.len() && k != skip ==> #[trigger] pair_ok(heap, prio, k)
    &&& forall|k: int| 0 < k < heap.len() && par(k) == skip && skip > 0
        ==> prio[heap[par(skip)] as int] <= #[trigger] prio[heap[k] as int]
}

/// The heap order holds everywhere.
pub open spec fn ordered(heap: Seq<usize>, prio: Seq<u64>) -> bool {
    forall|k: int| 0 < k < heap.len() ==> #[trigger] pair_ok(heap, prio, k)
}

/// The root of an ordered heap is no larger than any entry.
pub proof fn lemma_root_min(heap: Seq<usize>, prio: Seq<u64>, k: int)
    requires
        ordered(heap, prio),
        0 <= k < heap.len(),
    ensures
        prio[heap[0] as int] <= prio[heap[k] as int],
    decreases k,
{
    if k > 0 {
        assert(pair_ok(heap, prio, k));
        lemma_root_min(heap, prio, par(k));
    }
}

/// A priority queue of cluster labels, implemented by a binary min-heap
/// with an index from label to heap position, whose priorities can be
/// changed in place.
#[derive(Clone, Debug)]
pub struct LinkageHeap {
    /// A heap of labels. Position `k` has children at `2k + 1` and `2k + 2`.
    heap: Vec<usize>,
    /// A map from label to its position in `heap`.
    observations: Vec<usize>,
    /// The priority of each label.
    priorities: Vec<u64>,
    /// The labels that have been removed.
    removed: Vec<bool>,
}

impl LinkageHeap {
    /// The priority of every label, removed or not.
    pub closed spec fn prio(&self) -> Seq<u64> {
        self.priorities@
    }

    /// Whether label `o` is still in the queue.
    pub closed spec fn live(&self, o: int) -> bool {
        !self.removed@[o]
    }

    /// The number of labels the queue was made for.
    pub open spec fn size(&self) -> nat {
        self.prio().len()
    }

    /// The number of labels still in the queue.
    pub closed spec fn count(&self) -> nat {
        self.heap@.len()
    }

    /// The label at the top of the heap.
    pub closed spec fn top(&self) -> int {
        self.heap@[0] as int
    }

    /// The heap positions and the label index agree; the order is kept
    /// below every position at or after `lo`, except below `skip`.
    pub closed spec fn shape(&self) -> bool {
        &&& self.observations@.len() == self.priorities@.len()
        &&& self.removed@.len() == self.priorities@.len()
        &&& self.heap@.len() <= self.priorities@.len()
        &&& forall|k: int| 0 <= k < self.heap@.len() ==> {
            &&& #[trigger] self.heap@[k] < self.priorities@.len()
            &&& self.observations@[self.heap@[k] as int] == k
            &&& !self.removed@[self.heap@[k] as int]
        }
        &&& forall|o: int| 0 <= o < self.priorities@.len() && !self.removed@[o] ==> {
            &&& #[trigger] self.observations@[o] < self.heap@.len()
            &&& self.heap@[self.observations@[o] as int] == o
        }
    }

    /// The queue is a well-formed heap.
    pub closed spec fn wf(&self) -> bool {
        self.shape() && ordered(self.heap@, self.priorities@)
    }

    /// `after` is `before` with label `o` popped: `o` was a label of least
    /// priority, and it alone has left.
    pub open spec fn pops(before: LinkageHeap, after: LinkageHeap, o: int) -> bool {
        &&& 0 <= o < before.size()
        &&& before.live(o)
        &&& !after.live(o)
        &&& after.size() == before.size()
        &&& after.prio() == before.prio()
        &&& forall|x: int| 0 <= x < before.size() && before.live(x) ==> before.prio()[o] <= before.prio()[x]
        &&& forall|x: int| 0 <= x < before.size() && x != o ==> after.live(x) == before.live(x)
    }

    /// Popping twice yields priorities in non-decreasing order.
    pub proof fn lemma_pops_in_order(h1: LinkageHeap, h2: LinkageHeap, h3: LinkageHeap, o1: int, o2: int)
        requires
            LinkageHeap::pops(h1, h2, o1),
            LinkageHeap::pops(h2, h3, o2),
        ensures
            h1.prio()[o1] <= h2.prio()[o2],
    {
        assert(h1.live(o2));
    }

    /// Create a new empty queue.
    pub fn new() -> (r: LinkageHeap)
        ensures
            r.wf(),
            r.size() == 0,
            r.count() == 0,
    {
        LinkageHeap::with_len(0)
    }

    /// Create a queue of the labels `0..len`, each with priority
    /// `u64::MAX`.
    pub fn with_len(len: usize) -> (r: LinkageHeap)
        ensures
            r.wf(),
            r.size() == len,
            r.count() == len,
            forall|o: int| 0 <= o < len ==> r.live(o) && r.prio()[o] == u64::MAX,
    {
        let mut r = LinkageHeap {
            heap: Vec::new(),
            observations: Vec::new(),
            priorities: Vec::new(),
            removed: Vec::new(),
        };
        r.reset(len);
        r
    }

    /// Reset this queue to the labels `0..len`, each with priority
    /// `u64::MAX`.
    pub fn reset(&mut self, len: usize)
        ensures
            final(self).wf(),
            final(self).size() == len,
            final(self).count() == len,
            forall|o: int| 0 <= o < len ==> final(self).live(o) && final(self).prio()[o] == u64::MAX,
    {
        self.heap.clear();
        self.observations.clear();
        self.priorities.clear();
        self.removed.clear();
        let mut i: usize = 0;
        while i < len
            invariant
                i <= len,
                self.heap@.len() == i,
                self.observations@.len() == i,
                self.priorities@.len() == i,
                self.removed@.len() == i,
                forall|k: int| 0 <= k < i ==> self.heap@[k] == k && self.observations@[k] == k
                    && self.priorities@[k] == u64::MAX && !self.removed@[k],
            decreases len - i,
        {
            self.heap.push(i);
            self.observations.push(i);
            self.priorities.push(u64::MAX);
            self.removed.push(false);
            i = i + 1;
        }
        assert(ordered(self.heap@, self.priorities@));
    }

    /// Whether the queue is empty.
    pub fn is_empty(&self) -> (r: bool)
        requires
            self.wf(),
        ensures
            r == (self.count() == 0),
            r ==> forall|o: int| 0 <= o < self.size() ==> !self.live(o),
    {
        proof {
            assert forall|o: int| 0 <= o < self.size() && self.heap@.len() == 0 implies !self.live(o) by {
                if self.live(o) {
                    assert(self.observations@[o] < self.heap@.len());
                }
            }
        }
        self.heap.len() == 0
    }

    /// The number of labels still in the queue.
    pub fn len(&self) -> (r: usize)
        ensures
            r == self.count(),
    {
        self.heap.len()
    }

    /// The label with the smallest priority, if any.
    pub fn peek(&self) -> (r: Option<usize>)
        requires
            self.wf(),
        ensures
            r is None <==> self.count() == 0,
            r is None ==> forall|o: int| 0 <= o < self.size() ==> !self.live(o),
            r matches Some(o) ==> o < self.size() && self.live(o as int) && o == self.top()
                && forall|x: int| 0 <= x < self.size() && self.live(x) ==> self.prio()[o as int] <= self.prio()[x],
    {
        if self.heap.len() == 0 {
            proof {
                assert forall|o: int| 0 <= o < self.size() implies !self.live(o) by {
                    if self.live(o) {
                        assert(self.observations@[o] < self.heap@.len());
                    }
                }
            }
            None
        } else {
            proof {
                assert forall|x: int| 0 <= x < self.size() && self.live(x) implies
                    self.prio()[self.heap@[0] as int] <= self.prio()[x] by {
                    assert(self.observations@[x] < self.heap@.len());
                    lemma_root_min(self.heap@, self.priorities@, self.observations@[x] as int);
                }
            }
            Some(self.heap[0])
        }
    }

    /// Remove and return the label with the smallest priority, if any.
    pub fn pop(&mut self) -> (r: Option<usize>)
        requires
            old(self).wf(),
        ensures
            final(self).wf(),
            final(self).size() == old(self).size(),
            final(self).prio() == old(self).prio(),
            r is None <==> old(self).count() == 0,
            r is None ==> final(self).count() == 0,
            r is None ==> forall|o: int| 0 <= o < old(self).size() ==> !old(self).live(o),
            r matches Some(o) ==> LinkageHeap::pops(*old(self), *final(self), o as int),
            r matches Some(o) ==> {
                &&& o == old(self).top()
                &&& o < old(self).size()
                &&& old(self).live(o as int)
                &&& !final(self).live(o as int)
                &&& final(self).count() == old(self).count() - 1
                &&& forall|x: int| 0 <= x < old(self).size() && old(self).live(x) ==> old(self).prio()[o as int] <= old(self).prio()[x]
                &&& forall|x: int| 0 <= x < old(self).size() && x != o ==> final(self).live(x) == old(self).live(x)
            },
    {
        if self.heap.len() == 0 {
            proof {
                assert forall|o: int| 0 <= o < self.size() implies !self.live(o) by {
                    if self.live(o) {
                        assert(self.observations@[o] < self.heap@.len());
                    }
                }
            }
            return None;
        }
        let ghost h0 = self.heap@;
        proof {
            assert forall|x: int| 0 <= x < old(self).size() && old(self).live(x) implies
                old(self).prio()[h0[0] as int] <= old(self).prio()[x] by {
                assert(self.observations@[x] < self.heap@.len());
                lemma_root_min(self.heap@, self.priorities@, self.observations@[x] as int);
            }
        }
        let n = self.heap.len();
        if n >= 2 {
            let first = self.heap[0];
            let last = self.heap[n - 1];
            self.swap(first, last);
        }
        let ghost h1 = self.heap@;
        let last = self.heap.pop().unwrap();
        self.removed.set(last, true);
        proof {
            assert(last == h0[0]);
            assert(h1.len() == n);
            assert(self.heap@ =~= h1.drop_last());
            assert forall|k: int| 0 < k < self.heap@.len() && par(k) >= 0 && par(k) != 0
                implies #[trigger] pair_ok(self.heap@, self.priorities@, k) by {
                assert(pair_ok(h0, self.priorities@, k));
                assert(h1[k] == h0[k]);
                assert(h1[par(k)] == h0[par(k)]);
            }
            assert(self.shape()) by {
                assert forall|k: int| 0 <= k < self.heap@.len() implies {
                    &&& #[trigger] self.heap@[k] < self.priorities@.len()
                    &&& self.observations@[self.heap@[k] as int] == k
                    &&& !self.removed@[self.heap@[k] as int]
                } by {
                    assert(self.heap@[k] == h1[k]);
                    assert(h1[k] != h1[n - 1]);
                }
                assert forall|o: int| 0 <= o < self.priorities@.len() && !self.removed@[o] implies {
                    &&& #[trigger] self.observations@[o] < self.heap@.len()
                    &&& self.heap@[self.observations@[o] as int] == o
                } by {
                    assert(o != last);
                    assert(self.observations@[o] < n);
                    if self.observations@[o] == n - 1 {
                        assert(h1[n - 1] == last);
                    }
                }
            }
        }
        if self.heap.len() >= 2 {
            let first = self.heap[0];
            self.sift_down(first, 0);
        }
        proof {
            assert forall|x: int| 0 <= x < old(self).size() && x != last implies self.live(x) == old(self).live(x) by {}
        }
        Some(last)
    }

    /// The priority of a label still in the queue.
    pub fn priority(&self, observation: usize) -> (r: u64)
        requires
            self.wf(),
            observation < self.size(),
            self.live(observation as int),
        ensures
            r == self.prio()[observation as int],
    {
        self.priorities[observation]
    }

    /// Change the priority of a label still in the queue.
    pub fn set_priority(&mut self, observation: usize, priority: u64)
        requires
            old(self).wf(),
            observation < old(self).size(),
            old(self).live(observation as int),
        ensures
            final(self).wf(),
            final(self).size() == old(self).size(),
            final(self).count() == old(self).count(),
            final(self).prio() == old(self).prio().update(observation as int, priority),
            forall|x: int| 0 <= x < old(self).size() ==> final(self).live(x) == old(self).live(x),
    {
        let old_p = self.priorities[observation];
        self.priorities.set(observation, priority);
        let ghost i = self.observations@[observation as int] as int;
        if priority < old_p {
            proof {
                assert forall|k: int| 0 < k < self.heap@.len() && k != i implies #[trigger] pair_ok(self.heap@, self.priorities@, k) by {
                    assert(pair_ok(self.heap@, old(self).priorities@, k));
                }
                assert forall|k: int| 0 < k < self.heap@.len() && par(k) == i && i > 0
                    implies self.priorities@[self.heap@[par(i)] as int] <= #[trigger] self.priorities@[self.heap@[k] as int] by {
                    assert(pair_ok(self.heap@, old(self).priorities@, k));
                    assert(pair_ok(self.heap@, old(self).priorities@, i));
                }
            }
            self.sift_up(observation);
        } else if priority > old_p {
            proof {
                assert forall|k: int| 0 < k < self.heap@.len() && par(k) >= 0 && par(k) != i implies #[trigger] pair_ok(self.heap@, self.priorities@, k) by {
                    assert(pair_ok(self.heap@, old(self).priorities@, k));
                }
                assert forall|k: int| 0 < k < self.heap@.len() && par(k) == i && i > 0 && par(i) >= 0
                    implies self.priorities@[self.heap@[par(i)] as int] <= #[trigger] self.priorities@[self.heap@[k] as int] by {
                    assert(pair_ok(self.heap@, old(self).priorities@, k));
                    assert(pair_ok(self.heap@, old(self).priorities@, i));
                }
            }
            self.sift_down(observation, 0);
        } else {
            assert(self.priorities@ =~= old(self).priorities@);
        }
    }

    /// Replace every priority with the given ones and restore the heap
    /// order, bottom-up, over the labels `0..len`.
    pub fn heapify(&mut self, priorities: Vec<u64>)
        requires
            priorities@.len() == old(self).size(),
        ensures
            final(self).wf(),
            final(self).size() == old(self).size(),
            final(self).count() == old(self).size(),
            final(self).prio() == priorities@,
            forall|o: int| 0 <= o < final(self).size() ==> final(self).live(o),
    {
        let len = self.priorities.len();
        self.reset(len);
        let ghost s1 = *self;
        self.priorities = priorities;
        assert forall|o: int| 0 <= o < len implies !self.removed@[o] by {
            assert(s1.live(o));
        }
        let mut i: usize = len / 2;
        while i > 0
            invariant
                i <= len / 2,
                len == self.priorities@.len(),
                self.shape(),
                self.heap@.len() == len,
                self.priorities@ == priorities@,
                forall|o: int| 0 <= o < len ==> !self.removed@[o],
                forall|k: int| 0 < k < self.heap@.len() && par(k) >= i ==> #[trigger] pair_ok(self.heap@, self.priorities@, k),
            decreases i,
        {
            i = i - 1;
            let o = self.heap[i];
            self.sift_down(o, i);
        }
    }

    /// Move label `o` towards the root until its parent is no larger.
    fn sift_up(&mut self, o: usize)
        requires
            old(self).shape(),
            o < old(self).size(),
            !old(self).removed@[o as int],
            order_up(old(self).heap@, old(self).priorities@, old(self).observations@[o as int] as int),
        ensures
            final(self).wf(),
            final(self).priorities@ == old(self).priorities@,
            final(self).removed@ == old(self).removed@,
            final(self).heap@.len() == old(self).heap@.len(),
    {
        loop
            invariant
                self.shape(),
                o < self.size(),
                !self.removed@[o as int],
                self.priorities@ == old(self).priorities@,
                self.removed@ == old(self).removed@,
                self.heap@.len() == old(self).heap@.len(),
                order_up(self.heap@, self.priorities@, self.observations@[o as int] as int),
            ensures
                ordered(self.heap@, self.priorities@),
            decreases self.observations@[o as int],
        {
            let i = self.observations[o];
            if i == 0 {
                break;
            }
            let po = self.heap[(i - 1) / 2];
            if self.priorities[po] < self.priorities[o] {
                proof {
                    assert(pair_ok(self.heap@, self.priorities@, i as int));
                }
                break;
            }
            let ghost h0 = self.heap@;
            let pi = (i - 1) / 2;
            self.swap(o, po);
            proof {
                let h = self.heap@;
                let p = self.priorities@;
                assert(h == h0.update(i as int, po).update(pi as int, o));
                assert forall|k: int| 0 < k < h.len() && k != pi implies #[trigger] pair_ok(h, p, k) by {
                    if k == i {
                    } else if par(k) == i {
                        assert(h0[par(k)] == o);
                    } else if par(k) == pi {
                        assert(pair_ok(h0, p, k));
                    } else {
                        assert(pair_ok(h0, p, k));
                    }
                }
                assert forall|k: int| 0 < k < h.len() && par(k) == pi && pi > 0
                    implies p[h[par(pi as int)] as int] <= #[trigger] p[h[k] as int] by {
                    assert(pair_ok(h0, p, pi as int));
                    if k != i {
                        assert(pair_ok(h0, p, k));
                    }
                }
            }
        }
    }

    /// Move label `o` away from the root until its children are no smaller;
    /// the order is restored below every position at or after `lo`.
    fn sift_down(&mut self, o: usize, lo: usize)
        requires
            old(self).shape(),
            o < old(self).size(),
            !old(self).removed@[o as int],
            lo <= old(self).observations@[o as int],
            order_down(old(self).heap@, old(self).priorities@, lo as int, old(self).observations@[o as int] as int),
        ensures
            final(self).shape(),
            final(self).priorities@ == old(self).priorities@,
            final(self).removed@ == old(self).removed@,
            final(self).heap@.len() == old(self).heap@.len(),
            forall|k: int| 0 < k < final(self).heap@.len() && par(k) >= lo
                ==> #[trigger] pair_ok(final(self).heap@, final(self).priorities@, k),
            lo == 0 ==> final(self).wf(),
    {
        loop
            invariant
                self.shape(),
                o < self.size(),
                !self.removed@[o as int],
                lo <= self.observations@[o as int],
                self.priorities@ == old(self).priorities@,
                self.removed@ == old(self).removed@,
                self.heap@.len() == old(self).heap@.len(),
                order_down(self.heap@, self.priorities@, lo as int, self.observations@[o as int] as int),
            ensures
                forall|k: int| 0 < k < self.heap@.len() && par(k) >= lo
                    ==> #[trigger] pair_ok(self.heap@, self.priorities@, k),
            decreases self.heap@.len() - self.observations@[o as int],
        {
            let i = self.observations[o];
            let n = self.heap.len();
            let mut child = o;
            if i < n / 2 {
                let left = self.heap[2 * i + 1];
                if self.priorities[left] < self.priorities[child] {
                    child = left;
                }
                if 2 * i + 2 < n {
                    let right = self.heap[2 * i + 2];
                    if self.priorities[right] < self.priorities[child] {
                        child = right;
                    }
                }
            }
            if o == child {
                proof {
                    assert forall|k: int| 0 < k < self.heap@.len() && par(k) >= lo
                        implies #[trigger] pair_ok(self.heap@, self.priorities@, k) by {
                        if par(k) == i {
                            assert(k == 2 * i + 1 || k == 2 * i + 2);
                        }
                    }
                }
                break;
            }
            let ghost h0 = self.heap@;
            let c = self.observations[child];
            self.swap(o, child);
            proof {
                let h = self.heap@;
                let p = self.priorities@;
                assert(c == 2 * i + 1 || c == 2 * i + 2);
                assert(h == h0.update(i as int, child).update(c as int, o));
                assert forall|k: int| 0 < k < h.len() && par(k) >= lo && par(k) != c implies #[trigger] pair_ok(h, p, k) by {
                    if k == c {
                    } else if par(k) == i {
                        assert(k == 2 * i + 1 || k == 2 * i + 2);
                    } else if k == i {
                        assert(p[h0[par(i as int)] as int] <= p[h0[c as int] as int]);
                    } else {
                        assert(pair_ok(h0, p, k));
                    }
                }
                assert forall|k: int| 0 < k < h.len() && par(k) == c && c > 0 && par(c as int) >= lo
                    implies p[h[par(c as int)] as int] <= #[trigger] p[h[k] as int] by {
                    assert(pair_ok(h0, p, k));
                }
            }
        }
    }

    /// Exchange the heap positions of labels `o1` and `o2`.
    fn swap(&mut self, o1: usize, o2: usize)
        requires
            old(self).shape(),
            o1 < old(self).size(),
            o2 < old(self).size(),
            !old(self).removed@[o1 as int],
            !old(self).removed@[o2 as int],
        ensures
            final(self).shape(),
            final(self).priorities@ == old(self).priorities@,
            final(self).removed@ == old(self).removed@,
            final(self).heap@ == old(self).heap@.update(
                old(self).observations@[o1 as int] as int,
                o2,
            ).update(old(self).observations@[o2 as int] as int, o1),
            final(self).observations@ == old(self).observations@.update(
                o1 as int,
                old(self).observations@[o2 as int],
            ).update(o2 as int, old(self).observations@[o1 as int]),
    {
        let i1 = self.observations[o1];
        let i2 = self.observations[o2];
        self.heap.set(i1, o2);
        self.heap.set(i2, o1);
        self.observations.set(o1, i2);
        self.observations.set(o2, i1);
    }
}

} // verus!
