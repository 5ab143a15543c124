//! What holds of every collection: what it destroys and what it spares.
use vstd::prelude::*;

use crate::heap::{
    lemma_in_count_edge, lemma_in_count_sub, lemma_path_prefix, lemma_reach_start,
    lemma_reach_step, occurrences, lemma_occurrences_positive, Heap,
};
use crate::unsync::{collected, cyclic_count, dies, dying, is_root, roots, scanned};

verus! {

/// Every registered box is live.
pub open spec fn dirty_live(h: Heap, d: Set<int>) -> bool {
    forall|b: int| #[trigger] d.contains(b) ==> h.live(b)
}

/// No premature free: a box that a collection destroys has no handle outside the heap,
/// and every box holding a handle to it is destroyed by the same collection.
pub proof fn lemma_no_premature_free(h: Heap, d: Set<int>, b: int)
    requires
        h.wf(),
        h.counts_cover(),
        dirty_live(h, d),
        dies(h, d, b),
    ensures
        h.live(b),
        h.unrooted(b),
        forall|a: int| #[trigger] h.edge(a, b) ==> dies(h, d, a),
{
    let s = scanned(h, d);
    let all = h.all();
    let n = h.size();
    let p = choose|p: Seq<int>| #[trigger] h.is_path(d, p) && p.last() == b;
    if p.len() > 1 {
        lemma_path_prefix(&h, d, p);
        let a = p[p.len() - 2];
        let j = choose|j: int| 0 <= j < h.kids(a).len() && #[trigger] h.kids(a)[j] as int == b;
        assert(h.live(h.kids(a)[j] as int));
    }
    assert(h.live(b));
    assert(s.subset_of(all));
    lemma_in_count_sub(&h, s, all, b, n, 0);
    let cs = h.refs_from(s, b);
    assert(cyclic_count(h, d, b) == cs);
    if h.count(b) != cs {
        if cs > 0 {
            assert(is_root(h, d, b));
            lemma_reach_start(&h, roots(h, d), b);
        } else if d.contains(b) {
            assert(is_root(h, d, b));
            lemma_reach_start(&h, roots(h, d), b);
        } else {
            assert(p.len() > 1);
            let a = p[p.len() - 2];
            assert(s.contains(a));
            lemma_in_count_edge(&h, s, a, b);
        }
    }
    assert forall|a: int| #[trigger] h.edge(a, b) implies dies(h, d, a) by {
        if !s.contains(a) {
            let j = choose|j: int| 0 <= j < h.kids(a).len() && #[trigger] h.kids(a)[j] as int == b;
            lemma_occurrences_positive(h.kids(a), j);
            lemma_in_count_sub(&h, s, all, b, n, a);
        }
        if h.reaches(roots(h, d), a) {
            lemma_reach_step(&h, roots(h, d), a, b);
        }
    };
}

} // verus!

verus! {

/// Cycle reclamation: a set of live boxes reachable from the registered ones, whose every
/// strong reference is a handle stored inside the set, is destroyed whole by a collection.
pub proof fn lemma_cycle_reclaimed(h0: Heap, d: Set<int>, h1: Heap, g: Set<int>)
    requires
        h0.wf(),
        h0.counts_cover(),
        dirty_live(h0, d),
        collected(h0, d, h1),
        forall|x: int|
            #[trigger] g.contains(x) ==> h0.live(x) && h0.reaches(d, x) && h0.count(x)
                == h0.refs_from(g, x),
    ensures
        forall|x: int| #[trigger] g.contains(x) ==> h1.boxes@[x].freed,
{
    let s = scanned(h0, d);
    let all = h0.all();
    let n = h0.size();
    let rs = roots(h0, d);
    assert(g.subset_of(s));
    assert(s.subset_of(all));
    assert forall|x: int| #[trigger] g.contains(x) implies !rs.contains(x) by {
        lemma_in_count_sub(&h0, g, s, x, n, 0);
        lemma_in_count_sub(&h0, s, all, x, n, 0);
        assert(h0.live(x));
    };
    assert forall|a: int, x: int| g.contains(x) && #[trigger] h0.edge(a, x) implies g.contains(a) by {
        if !g.contains(a) {
            let j = choose|j: int| 0 <= j < h0.kids(a).len() && #[trigger] h0.kids(a)[j] as int == x;
            lemma_occurrences_positive(h0.kids(a), j);
            lemma_in_count_sub(&h0, g, all, x, n, a);
            assert(h0.live(x));
        }
    };
    assert forall|x: int| #[trigger] g.contains(x) implies h1.boxes@[x].freed by {
        if h0.reaches(rs, x) {
            let p = choose|p: Seq<int>| #[trigger] h0.is_path(rs, p) && p.last() == x;
            crate::heap::lemma_path_avoids(&h0, rs, g, p);
        }
        assert(dies(h0, d, x));
    };
}

/// Conservation: when every live box is reachable from the registered ones and has no
/// handle outside the heap, a collection destroys every box.
pub proof fn lemma_conservation(h0: Heap, d: Set<int>, h1: Heap)
    requires
        h0.wf(),
        h0.counts_cover(),
        dirty_live(h0, d),
        collected(h0, d, h1),
        forall|x: int| #[trigger] h0.live(x) ==> h0.reaches(d, x) && h0.unrooted(x),
    ensures
        forall|x: int| 0 <= x < h1.size() ==> #[trigger] h1.boxes@[x].freed,
{
    let g = Set::new(|x: int| h0.live(x));
    assert forall|x: int| #[trigger] g.contains(x) implies h0.live(x) && h0.reaches(d, x)
        && h0.count(x) == h0.refs_from(g, x) by {
        crate::heap::lemma_in_count_live(&h0, x, h0.size());
    };
    lemma_cycle_reclaimed(h0, d, h1, g);
    assert forall|x: int| 0 <= x < h1.size() implies #[trigger] h1.boxes@[x].freed by {
        if !g.contains(x) {
            if !dies(h0, d, x) {
                assert(h0.boxes@[x].freed);
            }
        }
    };
}

/// Self-cycle: a registered box whose only strong references are handles to itself stored
/// in its own value is destroyed by a collection.
pub proof fn lemma_self_cycle_reclaimed(h0: Heap, d: Set<int>, h1: Heap, a: int)
    requires
        h0.wf(),
        h0.counts_cover(),
        dirty_live(h0, d),
        collected(h0, d, h1),
        d.contains(a),
        h0.count(a) == occurrences(h0.kids(a), a),
    ensures
        h1.boxes@[a].freed,
{
    let g = set![a];
    lemma_reach_start(&h0, d, a);
    crate::heap::lemma_in_count_single(&h0, a, a, h0.size());
    lemma_cycle_reclaimed(h0, d, h1, g);
    assert(g.contains(a));
}

} // verus!

verus! {

/// The handles to a box held by the boxes that a collection destroys are never more than
/// its count, and a destroyed box has none pointing at it.
pub proof fn lemma_dying_refs_bounded(h: Heap, d: Set<int>, b: int)
    requires
        h.wf(),
        h.counts_cover(),
        0 <= b < h.size(),
    ensures
        h.refs_from(dying(h, d), b) <= h.count(b),
{
    lemma_in_count_sub(&h, dying(h, d), h.all(), b, h.size(), 0);
    if !h.live(b) && h.refs_from(h.all(), b) > 0 {
        crate::heap::lemma_in_count_positive(&h, h.all(), b, h.size());
        let a = choose|a: int| 0 <= a < h.size() && h.all().contains(a) && #[trigger] h.edge(a, b);
        let j = choose|j: int| 0 <= j < h.kids(a).len() && #[trigger] h.kids(a)[j] as int == b;
        assert(h.live(h.kids(a)[j] as int));
    }
}

/// The set of boxes that a collection spares.
pub open spec fn sparing(h: Heap, d: Set<int>) -> Set<int> {
    Set::new(|a: int| 0 <= a < h.size() && !dies(h, d, a))
}

/// A box that a collection spares keeps its handles held outside the heap: its count and
/// its stored handles both fall by the handles that the destroyed boxes held.
pub proof fn lemma_collected_excess(h0: Heap, d: Set<int>, h1: Heap, b: int)
    requires
        collected(h0, d, h1),
        0 <= b < h0.size(),
        !dies(h0, d, b),
    ensures
        h1.refs_from(h1.all(), b) + h0.refs_from(dying(h0, d), b) == h0.refs_from(h0.all(), b),
        h1.count(b) - h1.refs_from(h1.all(), b) == h0.count(b) - h0.refs_from(h0.all(), b),
{
    let n = h0.size();
    let sp = sparing(h0, d);
    let dy = dying(h0, d);
    assert forall|a: int| 0 <= a < n implies (#[trigger] h0.all().contains(a) <==> (dy.contains(a) || sp.contains(a))) by {};
    assert forall|a: int| 0 <= a < n implies !(#[trigger] dy.contains(a) && sp.contains(a)) by {};
    crate::heap::lemma_in_count_split(&h0, dy, sp, h0.all(), b, n);
    assert forall|a: int| 0 <= a < n && #[trigger] sp.contains(a) implies h1.kids(a) == h0.kids(a) by {
        assert(!dies(h0, d, a));
    };
    assert forall|a: int| 0 <= a < n && !sp.contains(a) implies #[trigger] h1.kids(a).len() == 0 by {
        assert(dies(h0, d, a));
    };
    assert forall|a: int| 0 <= a < n implies #[trigger] h1.all().contains(a) by {};
    crate::heap::lemma_in_count_restrict(&h0, &h1, sp, h1.all(), b, n);
}

/// A live box that a collection spares keeps a positive count: some handle to it is held
/// outside the heap or by a spared box.
pub proof fn lemma_survivor_positive(h: Heap, d: Set<int>, b: int)
    requires
        h.wf(),
        h.counts_cover(),
        dirty_live(h, d),
        h.live(b),
        !dies(h, d, b),
    ensures
        h.count(b) > h.refs_from(dying(h, d), b),
{
    let n = h.size();
    let dy = dying(h, d);
    let sp = sparing(h, d);
    let s = scanned(h, d);
    let all = h.all();
    lemma_dying_refs_bounded(h, d, b);
    assert forall|a: int| 0 <= a < n implies (#[trigger] all.contains(a) <==> (dy.contains(a) || sp.contains(a))) by {};
    assert forall|a: int| 0 <= a < n implies !(#[trigger] dy.contains(a) && sp.contains(a)) by {};
    crate::heap::lemma_in_count_split(&h, dy, sp, all, b, n);
    if h.count(b) <= h.refs_from(dy, b) {
        // then every strong reference to `b` is a handle held by a destroyed box
        assert(h.count(b) > 0);
        crate::heap::lemma_in_count_positive(&h, dy, b, n);
        let a = choose|a: int| 0 <= a < n && dy.contains(a) && #[trigger] h.edge(a, b);
        assert(dies(h, d, a));
        lemma_reach_step(&h, d, a, b);
        assert(dy.subset_of(s));
        assert(s.subset_of(all));
        lemma_in_count_sub(&h, dy, s, b, n, 0);
        lemma_in_count_sub(&h, s, all, b, n, 0);
        assert(h.refs_from(s, b) == h.count(b));
        assert(!is_root(h, d, b));
        let p = choose|p: Seq<int>| #[trigger] h.is_path(roots(h, d), p) && p.last() == b;
        if p.len() == 1 {
            assert(roots(h, d).contains(b));
        } else {
            lemma_path_prefix(&h, roots(h, d), p);
            let c = p[p.len() - 2];
            assert(!dies(h, d, c));
            assert(sp.contains(c));
            lemma_in_count_edge(&h, sp, c, b);
        }
    }
}

} // verus!
