//! Handles to boxes: construction, cloning, storing a handle in a box, and dropping.
use vstd::prelude::*;

use crate::heap::{
    lemma_in_count_agree, lemma_in_count_set_kids, lemma_live_set_flag, lemma_no_refs_no_edge,
    lemma_occurrences_zero, lemma_shrink_totals, lemma_total_ge, lemma_total_set_count, occurrences,
    GcBox, Heap,
};
use crate::unsync::{after_drop, collected, condition_holds, dies, lemma_collected_shrinks, CollectInfo, Dumpster};
use crate::heap::lemma_in_count_shrink;
use crate::laws::lemma_no_premature_free;
use crate::AllocationId;

verus! {

/// A handle to a box. Two handles are equal exactly when they point at the same box.
#[derive(Debug, PartialEq, Eq, Structural)]
pub struct Gc {
    id: usize,
}

impl Gc {
    /// The index of the box this handle points at.
    pub closed spec fn view(&self) -> int {
        self.id as int
    }

    /// The identity of the box this handle points at.
    pub fn id(&self) -> (r: AllocationId)
        ensures
            r.0 == self@,
    {
        AllocationId(self.id)
    }
}

/// Every live box has at least as many strong references as the handles to it that are
/// stored in boxes or waiting in `p` to be released, and every waiting handle points at a
/// live box.
pub open spec fn covers(h: Heap, p: Seq<usize>) -> bool {
    &&& forall|b: int| #[trigger] h.live(b) ==> h.count(b) >= h.refs_from(h.all(), b) + occurrences(p, b)
    &&& forall|k: int| 0 <= k < p.len() ==> h.live(#[trigger] p[k] as int)
}

/// The number of handles to box `b` held outside the heap: its count beyond the handles
/// stored in boxes.
pub open spec fn external(h: Heap, b: int) -> int {
    h.count(b) - h.refs_from(h.all(), b)
}

/// The handles to box `b` held outside the heap that are not waiting in `p` to be released.
pub open spec fn outside(h: Heap, p: Seq<usize>, b: int) -> int {
    h.count(b) - h.refs_from(h.all(), b) - occurrences(p, b)
}

/// Box `b` is live and some handle to it is held outside the heap, beyond the handles
/// stored in boxes and those waiting in `p`.
pub open spec fn held_outside(h: Heap, p: Seq<usize>, b: int) -> bool {
    h.live(b) && h.count(b) > h.refs_from(h.all(), b) + occurrences(p, b)
}

/// `hm` is `h` with the count of box `t` one lower and nothing else changed.
pub open spec fn decremented(h: Heap, t: int, hm: Heap) -> bool {
    &&& hm.size() == h.size()
    &&& hm.count(t) == h.count(t) - 1
    &&& hm.kids(t) == h.kids(t)
    &&& hm.boxes@[t].freed == h.boxes@[t].freed
    &&& forall|a: int| 0 <= a < h.size() && a != t ==> #[trigger] hm.boxes@[a] == h.boxes@[a]
}

/// The heap and the registry agree: both are well formed, every registered box is live,
/// and the registry counts at least as many living handles as the boxes' counts add up to.
pub open spec fn consistent(h: Heap, d: Dumpster) -> bool {
    &&& h.wf()
    &&& h.counts_cover()
    &&& d.wf(h)
    &&& d.info().n_refs_living >= h.total()
}

/// No stored handle points at the index just past the last box.
proof fn lemma_no_refs_to_new(h: Heap)
    requires
        h.wf(),
    ensures
        h.refs_from(h.all(), h.size()) == 0,
{
    if h.refs_from(h.all(), h.size()) > 0 {
        crate::heap::lemma_in_count_positive(&h, h.all(), h.size(), h.size());
        let a = choose|a: int| 0 <= a < h.size() && #[trigger] h.edge(a, h.size());
        let j = choose|j: int| 0 <= j < h.kids(a).len() && #[trigger] h.kids(a)[j] as int == h.size();
        assert(h.live(h.kids(a)[j] as int));
    }
}

impl Heap {
    /// An empty heap.
    pub fn new() -> (h: Heap)
        ensures
            h.size() == 0,
            h.wf(),
            h.counts_cover(),
            h.total() == 0,
    {
        Heap { boxes: Vec::new() }
    }

    /// Whether the box that `id` names has been destroyed and deallocated.
    pub fn is_freed(&self, id: AllocationId) -> (r: bool)
        requires
            id.0 < self.size(),
        ensures
            r == self.boxes@[id.0 as int].freed,
    {
        self.boxes[id.0].freed
    }

    /// The strong count of the box that `id` names.
    pub fn ref_count(&self, id: AllocationId) -> (r: usize)
        requires
            id.0 < self.size(),
        ensures
            r == self.count(id.0 as int),
    {
        self.boxes[id.0].ref_count
    }

    /// The number of handles stored in the value of the box that `id` names.
    pub fn n_stored(&self, id: AllocationId) -> (r: usize)
        requires
            id.0 < self.size(),
        ensures
            r == self.kids(id.0 as int).len(),
    {
        self.boxes[id.0].children.len()
    }

    /// The number of destroyed boxes.
    pub fn n_freed(&self) -> (r: usize)
        ensures
            r == self.size() - self.n_live(),
    {
        let mut r: usize = 0;
        let mut i: usize = 0;
        while i < self.boxes.len()
            invariant
                i <= self.size(),
                r == i - self.n_live_upto(i as int),
                self.n_live_upto(i as int) <= i,
            decreases self.size() - i,
        {
            if self.boxes[i].freed {
                r = r + 1;
            }
            i = i + 1;
        }
        r
    }

    /// Set the count of box `t`.
    fn set_count(&mut self, t: usize, c: usize)
        requires
            t < old(self).size(),
        ensures
            final(self).size() == old(self).size(),
            final(self).count(t as int) == c,
            final(self).kids(t as int) == old(self).kids(t as int),
            final(self).boxes@[t as int].freed == old(self).boxes@[t as int].freed,
            forall|a: int| 0 <= a < old(self).size() && a != t ==> #[trigger] final(self).boxes@[a] == old(self).boxes@[a],
    {
        let mut bx = self.boxes.remove(t);
        bx.ref_count = c;
        self.boxes.insert(t, bx);
    }

    /// Destroy box `t`, handing back the handles its value held.
    fn free_box(&mut self, t: usize) -> (kids: Vec<usize>)
        requires
            t < old(self).size(),
        ensures
            kids@ == old(self).kids(t as int),
            final(self).size() == old(self).size(),
            final(self).count(t as int) == 0,
            final(self).kids(t as int).len() == 0,
            final(self).boxes@[t as int].freed,
            forall|a: int| 0 <= a < old(self).size() && a != t ==> #[trigger] final(self).boxes@[a] == old(self).boxes@[a],
    {
        let bx = self.boxes.remove(t);
        self.boxes.insert(t, GcBox { ref_count: 0, children: Vec::new(), freed: true });
        bx.children
    }

    /// Construct a handle to a new box with a count of one. The box is not registered: no
    /// cycle can run through it yet.
    pub fn new_gc(&mut self, d: &mut Dumpster) -> (g: Gc)
        requires
            consistent(*old(self), *old(d)),
            old(d).info().n_refs_living < usize::MAX,
            old(self).size() < usize::MAX,
        ensures
            consistent(*final(self), *final(d)),
            g@ == old(self).size(),
            final(self).size() == old(self).size() + 1,
            final(self).live(g@),
            final(self).count(g@) == 1,
            final(self).kids(g@).len() == 0,
            forall|a: int| 0 <= a < old(self).size() ==> #[trigger] final(self).boxes@[a] == old(self).boxes@[a],
            held_outside(*final(self), seq![], g@),
            external(*final(self), g@) == 1,
            forall|b: int| 0 <= b < old(self).size() ==> #[trigger] external(*final(self), b) == external(*old(self), b),
            final(d).dirty() == old(d).dirty(),
            final(d).info() == (CollectInfo {
                n_refs_living: (old(d).info().n_refs_living + 1) as usize,
                ..old(d).info()
            }),
            final(d).condition() == old(d).condition(),
    {
        let ghost h0 = *self;
        let id = self.boxes.len();
        self.boxes.push(GcBox { ref_count: 1, children: Vec::new(), freed: false });
        d.notify_created_gc();
        proof {
            let h1 = *self;
            assert(h1.count(id as int) == 1 && h1.kids(id as int).len() == 0 && !h1.boxes@[id as int].freed);
            assert forall|a: int| 0 <= a < h0.size() implies #[trigger] h1.boxes@[a] == h0.boxes@[a] by {};
            assert forall|b: int| true implies #[trigger] h1.refs_from(h1.all(), b) == h0.refs_from(h0.all(), b) by {
                lemma_in_count_agree(&h0, &h1, h0.all(), h1.all(), b, h0.size());
                assert(occurrences(h1.kids(id as int), b) == 0);
            };
            lemma_total_set_count(&h0, &h1, id as int, id as int);
            assert(occurrences(seq![], id as int) == 0);
            assert forall|b: int| #[trigger] h1.live(b) implies h1.count(b) >= h1.refs_from(h1.all(), b) by {
                assert(h1.refs_from(h1.all(), b) == h0.refs_from(h0.all(), b));
                if b == id {
                    lemma_no_refs_to_new(h0);
                } else {
                    assert(h1.boxes@[b] == h0.boxes@[b]);
                    assert(h0.live(b));
                }
            };
            assert forall|a: int| #[trigger] h1.live(a) implies h1.count(a) > 0 by {
                if a != id {
                    assert(h1.boxes@[a] == h0.boxes@[a]);
                    assert(h0.live(a));
                }
            };
            assert forall|a: int, j: int|
                0 <= a < h1.size() && 0 <= j < h1.kids(a).len() implies h1.live(#[trigger] h1.kids(a)[j] as int) by {
                assert(h1.boxes@[a] == h0.boxes@[a]);
                assert(h0.live(h0.kids(a)[j] as int));
                assert(h1.boxes@[h0.kids(a)[j] as int] == h0.boxes@[h0.kids(a)[j] as int]);
            };
            assert forall|i: int| #[trigger] d.dirty().contains(i) implies h1.live(i) by {
                assert(h0.live(i));
                assert(h1.boxes@[i] == h0.boxes@[i]);
            };
            assert forall|a: int| 0 <= a < h1.size() && #[trigger] h1.boxes@[a].freed implies h1.kids(a).len() == 0
                && h1.count(a) == 0 by {
                assert(h1.boxes@[a] == h0.boxes@[a]);
            };
            assert(h1.wf());
            assert(h1.counts_cover());
            assert(d.wf(h1));
            assert(h1.total() == h0.total() + 1);
            lemma_no_refs_to_new(h0);
        }
        Gc { id }
    }

    /// Store `c` as one more handle in the value of box `t`.
    fn push_kid(&mut self, t: usize, c: usize)
        requires
            t < old(self).size(),
            old(self).kids(t as int).len() < usize::MAX,
        ensures
            final(self).size() == old(self).size(),
            final(self).kids(t as int) == old(self).kids(t as int).push(c),
            final(self).count(t as int) == old(self).count(t as int),
            final(self).boxes@[t as int].freed == old(self).boxes@[t as int].freed,
            forall|a: int| 0 <= a < old(self).size() && a != t ==> #[trigger] final(self).boxes@[a] == old(self).boxes@[a],
    {
        let mut bx = self.boxes.remove(t);
        bx.children.push(c);
        self.boxes.insert(t, bx);
    }

    /// Clone a handle: the count of its box rises by one and the new handle is equal to it.
    pub fn clone_gc(&mut self, d: &mut Dumpster, g: &Gc) -> (r: Gc)
        requires
            consistent(*old(self), *old(d)),
            old(self).live(g@),
            old(self).count(g@) < usize::MAX,
            old(d).info().n_refs_living < usize::MAX,
        ensures
            consistent(*final(self), *final(d)),
            r == *g,
            held_outside(*final(self), seq![], r@),
            forall|b: int|
                0 <= b < old(self).size() ==> #[trigger] external(*final(self), b) == external(*old(self), b) + if b == g@ { 1int } else { 0int },
            final(self).size() == old(self).size(),
            final(self).count(g@) == old(self).count(g@) + 1,
            final(self).kids(g@) == old(self).kids(g@),
            final(self).live(g@),
            forall|a: int| 0 <= a < old(self).size() && a != g@ ==> #[trigger] final(self).boxes@[a] == old(self).boxes@[a],
            final(d).dirty() == old(d).dirty(),
            final(d).info() == (CollectInfo {
                n_refs_living: (old(d).info().n_refs_living + 1) as usize,
                ..old(d).info()
            }),
            final(d).condition() == old(d).condition(),
    {
        let ghost h0 = *self;
        let t = g.id;
        let c = self.boxes[t].ref_count;
        self.set_count(t, c + 1);
        d.notify_created_gc();
        proof {
            let h1 = *self;
            assert forall|b: int| true implies #[trigger] h1.refs_from(h1.all(), b) == h0.refs_from(h0.all(), b) by {
                assert forall|a: int| 0 <= a < h0.size() implies #[trigger] h1.kids(a) == h0.kids(a) by {
                    if a != t {
                        assert(h1.boxes@[a] == h0.boxes@[a]);
                    }
                };
                lemma_in_count_agree(&h0, &h1, h0.all(), h1.all(), b, h0.size());
            };
            lemma_total_set_count(&h0, &h1, t as int, h0.size());
            assert forall|a: int| #[trigger] h1.live(a) implies h1.count(a) >= h1.refs_from(h1.all(), a) && h1.count(a) > 0 by {
                assert(h1.refs_from(h1.all(), a) == h0.refs_from(h0.all(), a));
                if a != t {
                    assert(h1.boxes@[a] == h0.boxes@[a]);
                }
                assert(h0.live(a));
            };
            lemma_same_liveness(h0, h1, t as int);
            assert(h1.refs_from(h1.all(), t as int) == h0.refs_from(h0.all(), t as int));
            assert(occurrences(seq![], t as int) == 0);
            assert forall|b: int| 0 <= b < h0.size() implies #[trigger] external(h1, b) == external(h0, b) + if b == t { 1int } else { 0int } by {
                assert(h1.refs_from(h1.all(), b) == h0.refs_from(h0.all(), b));
                if b != t && 0 <= b < h0.size() {
                    assert(h1.boxes@[b] == h0.boxes@[b]);
                }
            };
        }
        Gc { id: t }
    }

    /// Take stored handle `j` out of the value of box `t`.
    fn pop_kid(&mut self, t: usize, j: usize) -> (c: usize)
        requires
            t < old(self).size(),
            j < old(self).kids(t as int).len(),
        ensures
            c == old(self).kids(t as int)[j as int],
            final(self).size() == old(self).size(),
            final(self).kids(t as int) == old(self).kids(t as int).remove(j as int),
            final(self).count(t as int) == old(self).count(t as int),
            final(self).boxes@[t as int].freed == old(self).boxes@[t as int].freed,
            forall|a: int| 0 <= a < old(self).size() && a != t ==> #[trigger] final(self).boxes@[a] == old(self).boxes@[a],
    {
        let mut bx = self.boxes.remove(t);
        let c = bx.children.remove(j);
        self.boxes.insert(t, bx);
        c
    }

    /// Take handle `j` out of the value of the box that `holder` points at: the handle
    /// moves out of the heap to the caller, so no count changes.
    pub fn take(&mut self, holder: &Gc, j: usize) -> (g: Gc)
        requires
            old(self).wf(),
            old(self).counts_cover(),
            old(self).live(holder@),
            j < old(self).kids(holder@).len(),
        ensures
            final(self).wf(),
            final(self).counts_cover(),
            forall|d: Dumpster| consistent(*old(self), d) ==> #[trigger] consistent(*final(self), d),
            g@ == old(self).kids(holder@)[j as int],
            held_outside(*final(self), seq![], g@),
            final(self).size() == old(self).size(),
            final(self).kids(holder@) == old(self).kids(holder@).remove(j as int),
            forall|b: int|
                0 <= b < old(self).size() ==> #[trigger] external(*final(self), b) == external(*old(self), b) + if b == g@ { 1int } else { 0int },
            forall|b: int| #[trigger] final(self).live(b) == old(self).live(b),
            final(self).count(holder@) == old(self).count(holder@),
            final(self).live(holder@),
            forall|a: int| 0 <= a < old(self).size() && a != holder@ ==> #[trigger] final(self).boxes@[a] == old(self).boxes@[a],
    {
        let ghost h0 = *self;
        let t = holder.id;
        proof {
            assert(h0.live(h0.kids(t as int)[j as int] as int));
        }
        let c = self.pop_kid(t, j);
        proof {
            let h1 = *self;
            assert forall|b: int| true implies #[trigger] h1.refs_from(h1.all(), b) + (if b == c as int { 1nat } else { 0nat })
                == h0.refs_from(h0.all(), b) by {
                assert(h1.all() =~= h0.all());
                lemma_in_count_set_kids(&h0, &h1, t as int, h0.all(), b, h0.size());
                crate::heap::lemma_occurrences_remove(h0.kids(t as int), j as int, b);
            };
            lemma_total_set_count(&h0, &h1, t as int, h0.size());
            assert(occurrences(seq![], c as int) == 0);
            assert forall|a: int| #[trigger] h1.live(a) implies h1.count(a) >= h1.refs_from(h1.all(), a) && h1.count(a) > 0 by {
                assert(h1.refs_from(h1.all(), a) + (if a == c as int { 1nat } else { 0nat }) == h0.refs_from(h0.all(), a));
                if a != t {
                    assert(h1.boxes@[a] == h0.boxes@[a]);
                }
                assert(h0.live(a));
            };
            lemma_same_liveness(h0, h1, t as int);
            assert forall|b: int| 0 <= b < h0.size() implies #[trigger] external(h1, b) == external(h0, b) + if b == c as int { 1int } else { 0int } by {
                assert(h1.refs_from(h1.all(), b) + (if b == c as int { 1nat } else { 0nat }) == h0.refs_from(h0.all(), b));
                if b != t {
                    assert(h1.boxes@[b] == h0.boxes@[b]);
                }
            };
            assert(h1.live(c as int));
            assert(h1.refs_from(h1.all(), c as int) + 1 == h0.refs_from(h0.all(), c as int));
            assert(h0.count(c as int) >= h0.refs_from(h0.all(), c as int));
            assert(h1.count(c as int) == h0.count(c as int)) by {
                if c != t {
                    assert(h1.boxes@[c as int] == h0.boxes@[c as int]);
                }
            };
            assert forall|a: int, jj: int|
                0 <= a < h1.size() && 0 <= jj < h1.kids(a).len() implies h1.live(#[trigger] h1.kids(a)[jj] as int) by {
                if a != t {
                    assert(h1.boxes@[a] == h0.boxes@[a]);
                    assert(h0.live(h0.kids(a)[jj] as int));
                } else {
                    let k = if jj < j { jj } else { jj + 1 };
                    assert(h1.kids(a)[jj] == h0.kids(a)[k]);
                    assert(h0.live(h0.kids(a)[k] as int));
                }
            };
        }
        Gc { id: c }
    }

    /// Store handle `g` in the value of the box that `holder` points at: the handle moves
    /// into the heap, so no count changes.
    pub fn store(&mut self, holder: &Gc, g: Gc)
        requires
            old(self).wf(),
            old(self).counts_cover(),
            old(self).live(holder@),
            held_outside(*old(self), seq![], g@),
            old(self).kids(holder@).len() < usize::MAX,
        ensures
            final(self).wf(),
            final(self).counts_cover(),
            forall|d: Dumpster| consistent(*old(self), d) ==> #[trigger] consistent(*final(self), d),
            final(self).size() == old(self).size(),
            final(self).kids(holder@) == old(self).kids(holder@).push(g@ as usize),
            forall|b: int|
                0 <= b < old(self).size() ==> #[trigger] external(*final(self), b) == external(*old(self), b) - if b == g@ { 1int } else { 0int },
            forall|b: int| #[trigger] final(self).live(b) == old(self).live(b),
            final(self).count(holder@) == old(self).count(holder@),
            final(self).live(holder@),
            forall|a: int| 0 <= a < old(self).size() && a != holder@ ==> #[trigger] final(self).boxes@[a] == old(self).boxes@[a],
    {
        let ghost h0 = *self;
        let t = holder.id;
        self.push_kid(t, g.id);
        proof {
            let h1 = *self;
            let c = g.id as int;
            assert forall|b: int| true implies #[trigger] h1.refs_from(h1.all(), b) == h0.refs_from(h0.all(), b) + if b == c { 1nat } else { 0nat } by {
                assert(h1.all() =~= h0.all());
                lemma_in_count_set_kids(&h0, &h1, t as int, h0.all(), b, h0.size());
                assert(h1.kids(t as int).drop_last() =~= h0.kids(t as int));
            };
            lemma_total_set_count(&h0, &h1, t as int, h0.size());
            assert(occurrences(seq![], c) == 0);
            assert forall|a: int| #[trigger] h1.live(a) implies h1.count(a) >= h1.refs_from(h1.all(), a) && h1.count(a) > 0 by {
                assert(h1.refs_from(h1.all(), a) == h0.refs_from(h0.all(), a) + if a == c { 1nat } else { 0nat });
                if a != t {
                    assert(h1.boxes@[a] == h0.boxes@[a]);
                }
                assert(h0.live(a));
            };
            assert forall|b: int| 0 <= b < h0.size() implies #[trigger] external(h1, b) == external(h0, b) - if b == c { 1int } else { 0int } by {
                assert(h1.refs_from(h1.all(), b) == h0.refs_from(h0.all(), b) + if b == c { 1nat } else { 0nat });
                if b != t {
                    assert(h1.boxes@[b] == h0.boxes@[b]);
                }
            };
            lemma_same_liveness(h0, h1, t as int);
            assert forall|a: int, j: int|
                0 <= a < h1.size() && 0 <= j < h1.kids(a).len() implies h1.live(#[trigger] h1.kids(a)[j] as int) by {
                if a != t {
                    assert(h1.boxes@[a] == h0.boxes@[a]);
                    assert(h0.live(h0.kids(a)[j] as int));
                } else if j < h0.kids(a).len() {
                    assert(h1.kids(a)[j] == h0.kids(a)[j]);
                    assert(h0.live(h0.kids(a)[j] as int));
                }
            };
        }
    }
}

impl Heap {
    /// Release one handle to box `t`, taken from the handles waiting in `pending`. A count
    /// of one destroys the box at once, unregisters it, and queues the handles its value
    /// held; a larger count is decremented, the box is registered as dirty, and the trigger
    /// policy is told of the drop, which may run a collection.
    fn release(&mut self, d: &mut Dumpster, t: usize, pending: &mut Vec<usize>)
        requires
            consistent(*old(self), *old(d)),
            covers(*old(self), old(pending)@.push(t)),
        ensures
            consistent(*final(self), *final(d)),
            covers(*final(self), final(pending)@),
            final(d).condition() == old(d).condition(),
            final(self).size() == old(self).size(),
            forall|a: int| 0 <= a < old(self).size() && #[trigger] old(self).boxes@[a].freed ==> final(self).boxes@[a].freed,
            forall|b: int|
                #[trigger] held_outside(*old(self), old(pending)@.push(t), b) ==> held_outside(*final(self), final(pending)@, b),
            forall|b: int|
                0 <= b < old(self).size() && #[trigger] final(self).live(b) ==> outside(*final(self), final(pending)@, b)
                    == outside(*old(self), old(pending)@.push(t), b),
            final(self).n_live() < old(self).n_live() || (final(self).n_live() <= old(self).n_live()
                && final(pending)@ == old(pending)@),
            old(self).count(t as int) == 1 ==> {
                &&& final(self).boxes@[t as int].freed
                &&& final(self).count(t as int) == 0
                &&& final(self).kids(t as int).len() == 0
                &&& forall|a: int| 0 <= a < old(self).size() && a != t ==> #[trigger] final(self).boxes@[a] == old(self).boxes@[a]
                &&& final(pending)@ == old(pending)@ + old(self).kids(t as int)
                &&& final(d).dirty() == old(d).dirty().remove(t as int)
                &&& final(d).info() == old(d).info()
            },
            old(self).count(t as int) >= 2 ==> final(pending)@ == old(pending)@,
            old(self).count(t as int) >= 2 && condition_holds(old(d).condition(), after_drop(old(d).info())) ==> {
                &&& exists|hm: Heap| decremented(*old(self), t as int, hm) && #[trigger] collected(
                    hm,
                    old(d).dirty().insert(t as int),
                    *final(self),
                )
                &&& final(d).dirty().is_empty()
                &&& final(d).info() == (CollectInfo { n_ref_drops: 0, ..after_drop(old(d).info()) })
            },
            old(self).count(t as int) >= 2 && !condition_holds(old(d).condition(), after_drop(old(d).info())) ==> {
                &&& final(self).count(t as int) == old(self).count(t as int) - 1
                &&& final(self).kids(t as int) == old(self).kids(t as int)
                &&& final(self).boxes@[t as int].freed == old(self).boxes@[t as int].freed
                &&& forall|a: int| 0 <= a < old(self).size() && a != t ==> #[trigger] final(self).boxes@[a] == old(self).boxes@[a]
                &&& final(d).dirty() == old(d).dirty().insert(t as int)
                &&& final(d).info() == after_drop(old(d).info())
            },
    {
        let ghost h0 = *self;
        let ghost p0 = pending@;
        let ghost pp = p0.push(t);
        let ghost n = h0.size();
        assert(pp.drop_last() =~= p0);
        assert(h0.live(pp[pp.len() - 1] as int));
        assert(occurrences(pp, t as int) == occurrences(p0, t as int) + 1);
        let cnt = self.boxes[t].ref_count;
        if cnt == 1 {
            proof {
                assert(h0.refs_from(h0.all(), t as int) == 0);
                assert(occurrences(p0, t as int) == 0);
                lemma_occurrences_zero(p0, t as int);
                lemma_no_refs_no_edge(&h0, t as int, t as int);
            }
            d.mark_cleaned(AllocationId(t));
            let kids = self.free_box(t);
            let ghost h1 = *self;
            let mut j: usize = 0;
            while j < kids.len()
                invariant
                    j <= kids@.len(),
                    kids@ == h0.kids(t as int),
                    pending@ == p0 + kids@.take(j as int),
                    forall|b: int| #[trigger] occurrences(pending@, b) == occurrences(p0, b) + occurrences(kids@.take(j as int), b),
                decreases kids@.len() - j,
            {
                let ghost before = pending@;
                pending.push(kids[j]);
                proof {
                    assert(kids@.take(j + 1).drop_last() =~= kids@.take(j as int));
                    assert(pending@.drop_last() =~= before);
                    assert(pending@ =~= p0 + kids@.take(j + 1));
                    assert forall|b: int| #[trigger] occurrences(pending@, b) == occurrences(p0, b) + occurrences(kids@.take(j + 1), b) by {
                        assert(occurrences(before, b) == occurrences(p0, b) + occurrences(kids@.take(j as int), b));
                    };
                }
                j = j + 1;
            }
            proof {
                assert(kids@.take(kids@.len() as int) =~= kids@);
                assert(h1.all() =~= h0.all());
                assert forall|b: int| true implies #[trigger] h1.refs_from(h1.all(), b) + occurrences(kids@, b) == h0.refs_from(h0.all(), b) by {
                    lemma_in_count_set_kids(&h0, &h1, t as int, h0.all(), b, n);
                    assert(occurrences(h1.kids(t as int), b) == 0);
                };
                lemma_total_set_count(&h0, &h1, t as int, n);
                lemma_live_set_flag(&h0, &h1, t as int, n);
                assert forall|a: int| #[trigger] h1.live(a) implies h0.live(a) && a != t by {
                    if 0 <= a < n && a != t {
                        assert(h1.boxes@[a] == h0.boxes@[a]);
                    }
                };
                assert forall|a: int| #[trigger] h0.live(a) && a != t implies h1.live(a) by {
                    assert(h1.boxes@[a] == h0.boxes@[a]);
                };
                // every handle stored in a box still points at a live box
                assert forall|a: int, jj: int|
                    0 <= a < h1.size() && 0 <= jj < h1.kids(a).len() implies h1.live(#[trigger] h1.kids(a)[jj] as int) by {
                    assert(a != t);
                    assert(h1.boxes@[a] == h0.boxes@[a]);
                    let c = h0.kids(a)[jj] as int;
                    assert(h0.live(c));
                    lemma_no_refs_no_edge(&h0, t as int, a);
                    assert(c != t);
                };
                assert forall|a: int| 0 <= a < h1.size() && #[trigger] h1.boxes@[a].freed implies h1.kids(a).len() == 0
                    && h1.count(a) == 0 by {
                    if a != t {
                        assert(h1.boxes@[a] == h0.boxes@[a]);
                    }
                };
                assert forall|b: int| #[trigger] h1.live(b) implies h1.count(b) >= h1.refs_from(h1.all(), b) + occurrences(pending@, b) by {
                    assert(h1.boxes@[b] == h0.boxes@[b]);
                    assert(h0.count(b) >= h0.refs_from(h0.all(), b) + occurrences(pp, b));
                    assert(occurrences(pp, b) == occurrences(p0, b));
                };
                assert forall|k: int| 0 <= k < pending@.len() implies h1.live(#[trigger] pending@[k] as int) by {
                    if k < p0.len() {
                        assert(pending@[k] == p0[k]);
                        assert(pp[k] == p0[k]);
                        assert(h0.live(pp[k] as int));
                    } else {
                        assert(pending@[k] == kids@[k - p0.len()]);
                        assert(h0.live(h0.kids(t as int)[k - p0.len()] as int));
                    }
                };
                assert forall|i: int| #[trigger] d.dirty().contains(i) implies h1.live(i) by {
                    assert(h0.live(i));
                };
                assert forall|b: int| #[trigger] held_outside(h0, pp, b) implies held_outside(h1, pending@, b) by {
                    assert(b != t);
                    assert(occurrences(pp, b) == occurrences(p0, b));
                };
                assert forall|b: int| 0 <= b < n && #[trigger] h1.live(b) implies outside(h1, pending@, b) == outside(h0, pp, b) by {
                    assert(b != t);
                    assert(h1.boxes@[b] == h0.boxes@[b]);
                    assert(occurrences(pp, b) == occurrences(p0, b));
                    assert(h1.refs_from(h1.all(), b) + occurrences(kids@, b) == h0.refs_from(h0.all(), b));
                };
            }
        } else {
            proof {
                assert(h0.count(t as int) >= 2) by {
                    assert(h0.count(t as int) > 0);
                };
                lemma_total_ge(&h0, t as int, n);
            }
            self.set_count(t, cnt - 1);
            let ghost hm = *self;
            proof {
                assert forall|b: int| true implies #[trigger] hm.refs_from(hm.all(), b) == h0.refs_from(h0.all(), b) by {
                    assert forall|a: int| 0 <= a < n implies #[trigger] hm.kids(a) == h0.kids(a) by {
                        if a != t {
                            assert(hm.boxes@[a] == h0.boxes@[a]);
                        }
                    };
                    lemma_in_count_agree(&h0, &hm, h0.all(), hm.all(), b, n);
                };
                lemma_total_set_count(&h0, &hm, t as int, n);
                lemma_same_liveness(h0, hm, t as int);
                assert forall|b: int| #[trigger] hm.live(b) implies hm.count(b) >= hm.refs_from(hm.all(), b) + occurrences(p0, b)
                    && hm.count(b) > 0 by {
                    assert(h0.live(b));
                    assert(h0.count(b) >= h0.refs_from(h0.all(), b) + occurrences(pp, b));
                    if b != t {
                        assert(hm.boxes@[b] == h0.boxes@[b]);
                        assert(occurrences(pp, b) == occurrences(p0, b));
                    }
                };
                assert forall|a: int, jj: int|
                    0 <= a < hm.size() && 0 <= jj < hm.kids(a).len() implies hm.live(#[trigger] hm.kids(a)[jj] as int) by {
                    assert(hm.kids(a) == h0.kids(a));
                    assert(h0.live(h0.kids(a)[jj] as int));
                };
                assert(hm.wf());
                assert(hm.counts_cover());
            }
            d.mark_dirty(AllocationId(t));
            let ghost dm = *d;
            proof {
                assert forall|i: int| #[trigger] dm.dirty().contains(i) implies hm.live(i) by {
                    if i != t {
                        assert(h0.live(i));
                    }
                };
            }
            let collected_now = d.notify_dropped_gc(self);
            proof {
                let h2 = *self;
                assert forall|k: int| 0 <= k < p0.len() implies h0.live(#[trigger] p0[k] as int) by {
                    assert(pp[k] == p0[k]);
                };
                if collected_now {
                    let dd = dm.dirty();
                    lemma_collected_shrinks(hm, dd, h2);
                    lemma_shrink_totals(&hm, &h2, n, 0);
                    assert(crate::laws::dirty_live(hm, dd));
                    assert(decremented(h0, t as int, hm));
                    assert forall|b: int| hm.live(b) && hm.count(b) > hm.refs_from(hm.all(), b) implies
                        #[trigger] h2.live(b) && h2.count(b) - h2.refs_from(h2.all(), b) == hm.count(b)
                        - hm.refs_from(hm.all(), b) by {
                        if dies(hm, dd, b) {
                            lemma_no_premature_free(hm, dd, b);
                        }
                        crate::laws::lemma_collected_excess(hm, dd, h2, b);
                    };
                    assert forall|k: int| 0 <= k < p0.len() implies h2.live(#[trigger] p0[k] as int) by {
                        let x = p0[k] as int;
                        assert(h0.live(x));
                        assert(hm.live(x));
                        crate::heap::lemma_occurrences_positive(p0, k);
                        assert(h2.live(x));
                    };
                    assert forall|b: int| #[trigger] h2.live(b) implies h2.count(b) >= h2.refs_from(h2.all(), b) + occurrences(p0, b) by {
                        assert(hm.live(b));
                        assert(!dies(hm, dd, b));
                        crate::laws::lemma_collected_excess(hm, dd, h2, b);
                    };
                    assert forall|b: int| 0 <= b < n && #[trigger] h2.live(b) implies outside(h2, p0, b) == outside(h0, pp, b) by {
                        assert(hm.live(b));
                        assert(!dies(hm, dd, b));
                        crate::laws::lemma_collected_excess(hm, dd, h2, b);
                        assert(hm.refs_from(hm.all(), b) == h0.refs_from(h0.all(), b));
                        if b != t {
                            assert(hm.boxes@[b] == h0.boxes@[b]);
                            assert(occurrences(pp, b) == occurrences(p0, b));
                        }
                    };
                    assert forall|b: int| #[trigger] held_outside(h0, pp, b) implies held_outside(h2, p0, b) by {
                        assert(hm.live(b));
                        if b != t {
                            assert(hm.boxes@[b] == h0.boxes@[b]);
                            assert(occurrences(pp, b) == occurrences(p0, b));
                        }
                        assert(hm.count(b) > hm.refs_from(hm.all(), b) + occurrences(p0, b));
                        assert(h2.live(b));
                    };
                    assert forall|a: int| 0 <= a < n && #[trigger] h0.boxes@[a].freed implies h2.boxes@[a].freed by {
                        if a != t {
                            assert(hm.boxes@[a] == h0.boxes@[a]);
                        }
                        if dies(hm, dd, a) {
                        }
                    };
                } else {
                    assert forall|b: int| 0 <= b < n && #[trigger] h2.live(b) implies outside(h2, p0, b) == outside(h0, pp, b) by {
                        assert(hm.refs_from(hm.all(), b) == h0.refs_from(h0.all(), b));
                        if b != t {
                            assert(hm.boxes@[b] == h0.boxes@[b]);
                            assert(occurrences(pp, b) == occurrences(p0, b));
                        }
                    };
                    assert forall|b: int| #[trigger] held_outside(h0, pp, b) implies held_outside(h2, p0, b) by {
                        if b != t {
                            assert(hm.boxes@[b] == h0.boxes@[b]);
                            assert(occurrences(pp, b) == occurrences(p0, b));
                        }
                    };
                    assert forall|k: int| 0 <= k < p0.len() implies h2.live(#[trigger] p0[k] as int) by {
                        assert(h0.live(p0[k] as int));
                    };
                    assert forall|a: int| 0 <= a < n && #[trigger] h0.boxes@[a].freed implies h2.boxes@[a].freed by {
                        if a != t {
                            assert(hm.boxes@[a] == h0.boxes@[a]);
                        }
                    };
                }
            }
        }
    }
}

impl Heap {
    /// Drop a handle held outside the heap. If it was the last strong reference the box is
    /// destroyed at once and unregistered, and the handles its value held are dropped in
    /// turn; otherwise its count falls, it is registered as dirty, and the trigger policy
    /// may run a collection. No box with a handle still held outside the heap is destroyed.
    pub fn drop_gc(&mut self, d: &mut Dumpster, g: Gc)
        requires
            consistent(*old(self), *old(d)),
            held_outside(*old(self), seq![], g@),
        ensures
            consistent(*final(self), *final(d)),
            final(d).condition() == old(d).condition(),
            final(self).size() == old(self).size(),
            forall|a: int| 0 <= a < old(self).size() && #[trigger] old(self).boxes@[a].freed ==> final(self).boxes@[a].freed,
            forall|b: int|
                old(self).live(b) && #[trigger] external(*old(self), b) > (if b == g@ { 1int } else { 0int })
                    ==> held_outside(*final(self), seq![], b),
            forall|b: int|
                0 <= b < old(self).size() && #[trigger] final(self).live(b) ==> external(*final(self), b)
                    == external(*old(self), b) - (if b == g@ { 1int } else { 0int }),
            old(self).count(g@) == 1 ==> final(self).boxes@[g@].freed,
            old(self).count(g@) == 1 && old(self).kids(g@).len() == 0 ==> {
                &&& forall|a: int| 0 <= a < old(self).size() && a != g@ ==> #[trigger] final(self).boxes@[a] == old(self).boxes@[a]
                &&& final(d).dirty() == old(d).dirty().remove(g@)
                &&& final(d).info() == old(d).info()
            },
            old(self).count(g@) >= 2 && condition_holds(old(d).condition(), after_drop(old(d).info())) ==> {
                &&& exists|hm: Heap| decremented(*old(self), g@, hm) && #[trigger] collected(
                    hm,
                    old(d).dirty().insert(g@),
                    *final(self),
                )
                &&& final(d).dirty().is_empty()
                &&& final(d).info() == (CollectInfo { n_ref_drops: 0, ..after_drop(old(d).info()) })
            },
            old(self).count(g@) >= 2 && !condition_holds(old(d).condition(), after_drop(old(d).info())) ==> {
                &&& final(self).count(g@) == old(self).count(g@) - 1
                &&& final(self).kids(g@) == old(self).kids(g@)
                &&& final(self).live(g@)
                &&& forall|a: int| 0 <= a < old(self).size() && a != g@ ==> #[trigger] final(self).boxes@[a] == old(self).boxes@[a]
                &&& final(d).dirty() == old(d).dirty().insert(g@)
                &&& final(d).info() == after_drop(old(d).info())
            },
    {
        let ghost h0 = *self;
        let t = g.id;
        let mut pending: Vec<usize> = Vec::new();
        proof {
            let pp = pending@.push(t);
            assert(pp =~= seq![t]);
            assert(occurrences(seq![], t as int) == 0);
            assert(pp.drop_last() =~= Seq::<usize>::empty());
            assert forall|b: int| #[trigger] h0.live(b) implies h0.count(b) >= h0.refs_from(h0.all(), b) + occurrences(pp, b) by {
                assert(occurrences(pp.drop_last(), b) == 0);
            };
        }
        self.release(d, t, &mut pending);
        let ghost h1 = *self;
        let ghost d1 = *d;
        let ghost quiet = pending@.len() == 0;
        proof {
            assert(Seq::<usize>::empty().push(t) =~= seq![t]);
        }
        while pending.len() > 0
            invariant
                consistent(*self, *d),
                covers(*self, pending@),
                d.condition() == old(d).condition(),
                self.size() == h0.size(),
                forall|a: int| 0 <= a < h0.size() && #[trigger] h1.boxes@[a].freed ==> self.boxes@[a].freed,
                forall|b: int| #[trigger] held_outside(h0, seq![t], b) ==> held_outside(*self, pending@, b),
                forall|b: int| 0 <= b < h0.size() && #[trigger] self.live(b) ==> outside(*self, pending@, b) == outside(h0, seq![t], b),
                quiet ==> pending@.len() == 0 && *self == h1 && *d == d1,
            decreases self.n_live(), pending@.len(),
        {
            let ghost before = pending@;
            let x = pending.pop().unwrap();
            proof {
                assert(before =~= pending@.push(x));
            }
            let ghost sb = *self;
            let ghost pb = pending@;
            self.release(d, x, &mut pending);
            proof {
                assert forall|b: int| 0 <= b < h0.size() && #[trigger] self.live(b) implies outside(*self, pending@, b) == outside(h0, seq![t], b) by {
                    assert(outside(*self, pending@, b) == outside(sb, pb.push(x), b));
                    if !sb.live(b) {
                        assert(sb.boxes@[b].freed);
                    }
                    assert(outside(sb, before, b) == outside(h0, seq![t], b));
                };
                assert forall|a: int| 0 <= a < h0.size() && #[trigger] h1.boxes@[a].freed implies self.boxes@[a].freed by {
                    assert(sb.boxes@[a].freed);
                };
            }
        }
        proof {
            assert forall|b: int| 0 <= b < h0.size() && #[trigger] self.live(b) implies external(*self, b)
                == external(h0, b) - (if b == g@ { 1int } else { 0int }) by {
                assert(seq![t].drop_last() =~= Seq::<usize>::empty());
                assert(occurrences(Seq::<usize>::empty(), b) == 0);
                assert(seq![t].last() == t);
                assert(occurrences(seq![t], b) == if b == t { 1nat } else { 0nat });
                assert(outside(*self, pending@, b) == outside(h0, seq![t], b));
                assert(pending@ =~= seq![]);
            };
            assert forall|b: int|
                h0.live(b) && #[trigger] external(h0, b) > (if b == g@ { 1int } else { 0int })
                implies held_outside(*self, seq![], b) by {
                assert(seq![t].drop_last() =~= Seq::<usize>::empty());
                assert(occurrences(Seq::<usize>::empty(), b) == 0);
                assert(seq![t].last() == t);
                assert(occurrences(seq![t], b) == if b == t { 1nat } else { 0nat });
                assert(held_outside(h0, seq![t], b));
                assert(held_outside(*self, pending@, b));
                assert(pending@ =~= seq![]);
            };
        }
    }
}

/// Handle identity: equality of handles is reflexive and transitive, two handles are equal
/// exactly when they point at the same box, so clones of one handle are equal and handles
/// to two different boxes are not, whatever those boxes hold.
pub proof fn lemma_handle_identity(a: Gc, b: Gc, c: Gc)
    ensures
        a == a,
        a == b && b == c ==> a == c,
        (a == b) <==> (a@ == b@),
{
}

/// Every live box has a count of at least one, so the registry's count of living handles
/// bounds the number of live boxes, which bounds a collection's walk.
pub proof fn lemma_live_bounded(h: Heap, d: Dumpster)
    requires
        consistent(h, d),
    ensures
        h.n_live() <= d.info().n_refs_living,
{
    lemma_live_le_total(h, h.size());
}

proof fn lemma_live_le_total(h: Heap, n: int)
    requires
        h.wf(),
        0 <= n <= h.size(),
    ensures
        h.n_live_upto(n) <= h.total_upto(n),
    decreases n,
{
    if n > 0 {
        lemma_live_le_total(h, n - 1);
        if !h.boxes@[n - 1].freed {
            assert(h.live(n - 1));
        }
    }
}

/// Changing box `t` without changing whether it is destroyed keeps which boxes are live.
proof fn lemma_same_liveness(h0: Heap, h1: Heap, t: int)
    requires
        h1.size() == h0.size(),
        0 <= t < h0.size(),
        h1.boxes@[t].freed == h0.boxes@[t].freed,
        forall|a: int| 0 <= a < h0.size() && a != t ==> #[trigger] h1.boxes@[a] == h0.boxes@[a],
    ensures
        forall|a: int| #[trigger] h1.live(a) == h0.live(a),
        h1.n_live() == h0.n_live(),
        forall|a: int, j: int|
            0 <= a < h1.size() && a != t && 0 <= j < h1.kids(a).len() ==> #[trigger] h1.kids(a)[j] == h0.kids(a)[j],
        forall|a: int| 0 <= a < h1.size() && #[trigger] h1.boxes@[a].freed ==> h0.boxes@[a].freed,
{
    assert forall|a: int| #[trigger] h1.live(a) == h0.live(a) by {
        if 0 <= a < h0.size() && a != t {
            assert(h1.boxes@[a] == h0.boxes@[a]);
        }
    };
    lemma_live_set_flag(&h0, &h1, t, h0.size());
    lemma_live_set_flag(&h1, &h0, t, h0.size());
    assert forall|a: int, j: int|
        0 <= a < h1.size() && a != t && 0 <= j < h1.kids(a).len() implies #[trigger] h1.kids(a)[j] == h0.kids(a)[j] by {
        assert(h1.boxes@[a] == h0.boxes@[a]);
    };
    assert forall|a: int| 0 <= a < h1.size() && #[trigger] h1.boxes@[a].freed implies h0.boxes@[a].freed by {
        if a != t {
            assert(h1.boxes@[a] == h0.boxes@[a]);
        }
    };
}

} // verus!
