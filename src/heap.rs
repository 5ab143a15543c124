//! The heap of boxes, its reference graph, and graph facts shared by the collectors.
use vstd::prelude::*;

verus! {

/// A heap block: its strong reference count, the boxes that the handles stored in its
/// value point at, and whether it has been destroyed and deallocated.
pub struct GcBox {
    pub ref_count: usize,
    pub children: Vec<usize>,
    pub freed: bool,
}

/// The heap: every box ever allocated, indexed by its allocation identity.
pub struct Heap {
    pub boxes: Vec<GcBox>,
}

impl Heap {
    /// The number of boxes ever allocated.
    pub open spec fn size(&self) -> int {
        self.boxes@.len() as int
    }

    /// The handles stored in the value of box `a`.
    pub open spec fn kids(&self, a: int) -> Seq<usize> {
        self.boxes@[a].children@
    }

    /// Whether box `a` is allocated and not yet destroyed.
    pub open spec fn live(&self, a: int) -> bool {
        0 <= a < self.size() && !self.boxes@[a].freed
    }

    /// The strong count of box `a`.
    pub open spec fn count(&self, a: int) -> int {
        self.boxes@[a].ref_count as int
    }

    /// Every stored handle points at a live box, a live box has a positive count, and a
    /// destroyed box has a zero count and holds no handle.
    pub open spec fn wf(&self) -> bool {
        &&& forall|a: int| #[trigger] self.live(a) ==> self.count(a) > 0
        &&& forall|a: int, j: int|
            0 <= a < self.size() && 0 <= j < self.kids(a).len() ==> self.live(
                #[trigger] self.kids(a)[j] as int,
            )
        &&& forall|a: int|
            0 <= a < self.size() && #[trigger] self.boxes@[a].freed ==> self.kids(a).len() == 0
                && self.count(a) == 0
    }

    /// Whether box `a` holds a handle to box `c`.
    pub open spec fn edge(&self, a: int, c: int) -> bool {
        &&& 0 <= a < self.size()
        &&& exists|j: int| 0 <= j < self.kids(a).len() && #[trigger] self.kids(a)[j] as int == c
    }

    /// Whether `p` is a walk along stored handles that starts in `start`.
    pub open spec fn is_path(&self, start: Set<int>, p: Seq<int>) -> bool {
        &&& p.len() > 0
        &&& start.contains(p[0])
        &&& 0 <= p[0] < self.size()
        &&& forall|k: int| 0 <= k < p.len() - 1 ==> self.edge(#[trigger] p[k], p[k + 1])
    }

    /// Whether box `x` can be reached from a box of `start` along stored handles.
    pub open spec fn reaches(&self, start: Set<int>, x: int) -> bool {
        exists|p: Seq<int>| #[trigger] self.is_path(start, p) && p.last() == x
    }

    /// The number of handles to box `b` stored in the boxes of `s` below index `n`.
    pub open spec fn in_count(&self, s: Set<int>, b: int, n: int) -> nat
        decreases n,
    {
        if n <= 0 {
            0
        } else {
            self.in_count(s, b, n - 1) + if s.contains(n - 1) {
                occurrences(self.kids(n - 1), b)
            } else {
                0nat
            }
        }
    }

    /// The number of handles to box `b` stored in the boxes of `s`.
    pub open spec fn refs_from(&self, s: Set<int>, b: int) -> nat {
        self.in_count(s, b, self.size())
    }

    /// The set of every box index.
    pub open spec fn all(&self) -> Set<int> {
        Set::new(|i: int| 0 <= i < self.size())
    }

    /// No live box has fewer strong references than the handles to it stored in boxes.
    pub open spec fn counts_cover(&self) -> bool {
        forall|b: int| #[trigger] self.live(b) ==> self.count(b) >= self.refs_from(self.all(), b)
    }

    /// Box `b` has no handle outside the heap: every strong reference is a stored handle.
    pub open spec fn unrooted(&self, b: int) -> bool {
        self.count(b) == self.refs_from(self.all(), b)
    }
}

/// The number of times `b` occurs in `s`.
pub open spec fn occurrences(s: Seq<usize>, b: int) -> nat
    decreases s.len(),
{
    if s.len() == 0 {
        0
    } else {
        occurrences(s.drop_last(), b) + if s.last() as int == b { 1nat } else { 0nat }
    }
}

/// The set of indices at which `v` holds `true`.
pub open spec fn marked(v: Seq<bool>) -> Set<int> {
    Set::new(|i: int| 0 <= i < v.len() && v[i])
}

pub proof fn lemma_occurrences_positive(s: Seq<usize>, j: int)
    requires
        0 <= j < s.len(),
    ensures
        occurrences(s, s[j] as int) >= 1,
    decreases s.len(),
{
    if j < s.len() - 1 {
        lemma_occurrences_positive(s.drop_last(), j);
    }
}

/// Counting over a larger set gives at least as much, and at least the handles of one
/// more box `a` on top when `a` is only in the larger set.
pub proof fn lemma_in_count_sub(h: &Heap, s: Set<int>, t: Set<int>, b: int, n: int, a: int)
    requires
        s.subset_of(t),
        0 <= n <= h.size(),
    ensures
        h.in_count(s, b, n) <= h.in_count(t, b, n),
        0 <= a < n && t.contains(a) && !s.contains(a) ==> h.in_count(t, b, n) >= h.in_count(
            s,
            b,
            n,
        ) + occurrences(h.kids(a), b),
    decreases n,
{
    if n > 0 {
        lemma_in_count_sub(h, s, t, b, n - 1, a);
    }
}

/// A box of `s` holding a handle to `b` makes the count from `s` positive.
pub proof fn lemma_in_count_edge(h: &Heap, s: Set<int>, a: int, b: int)
    requires
        s.contains(a),
        h.edge(a, b),
    ensures
        h.refs_from(s, b) >= 1,
{
    let j = choose|j: int| 0 <= j < h.kids(a).len() && #[trigger] h.kids(a)[j] as int == b;
    lemma_occurrences_positive(h.kids(a), j);
    lemma_in_count_sub(h, Set::empty(), s, b, h.size(), a);
}

/// One more step along a stored handle keeps a box reachable.
pub proof fn lemma_reach_step(h: &Heap, start: Set<int>, a: int, c: int)
    requires
        h.reaches(start, a),
        h.edge(a, c),
    ensures
        h.reaches(start, c),
{
    let p = choose|p: Seq<int>| #[trigger] h.is_path(start, p) && p.last() == a;
    let q = p.push(c);
    assert forall|k: int| 0 <= k < q.len() - 1 implies h.edge(#[trigger] q[k], q[k + 1]) by {
        if k < p.len() - 1 {
            assert(q[k] == p[k] && q[k + 1] == p[k + 1]);
        }
    };
    assert(h.is_path(start, q));
}

/// A walk of more than one box, without its last box, is a walk to the box before.
pub proof fn lemma_path_prefix(h: &Heap, start: Set<int>, p: Seq<int>)
    requires
        h.is_path(start, p),
        p.len() > 1,
    ensures
        h.is_path(start, p.drop_last()),
        h.reaches(start, p[p.len() - 2]),
        h.edge(p[p.len() - 2], p.last()),
{
    let q = p.drop_last();
    assert forall|k: int| 0 <= k < q.len() - 1 implies h.edge(#[trigger] q[k], q[k + 1]) by {
        assert(q[k] == p[k] && q[k + 1] == p[k + 1]);
    };
    assert(h.edge(p[p.len() - 2], p[p.len() - 1]));
    assert(h.is_path(start, q) && q.last() == p[p.len() - 2]);
}

/// Emptying the handles of some boxes never raises a count of stored handles.
pub proof fn lemma_in_count_shrink(h0: &Heap, h1: &Heap, s: Set<int>, b: int, n: int)
    requires
        0 <= n <= h0.size(),
        h1.size() == h0.size(),
        forall|a: int| 0 <= a < h0.size() ==> #[trigger] h1.kids(a) == h0.kids(a) || h1.kids(a).len() == 0,
    ensures
        h1.in_count(s, b, n) <= h0.in_count(s, b, n),
    decreases n,
{
    if n > 0 {
        lemma_in_count_shrink(h0, h1, s, b, n - 1);
        if h1.kids(n - 1).len() == 0 {
            assert(occurrences(h1.kids(n - 1), b) == 0);
        }
    }
}

/// Counting over the live boxes counts every stored handle, as destroyed boxes hold none.
pub proof fn lemma_in_count_live(h: &Heap, b: int, n: int)
    requires
        h.wf(),
        0 <= n <= h.size(),
    ensures
        h.in_count(Set::new(|x: int| h.live(x)), b, n) == h.in_count(h.all(), b, n),
    decreases n,
{
    if n > 0 {
        lemma_in_count_live(h, b, n - 1);
        if h.boxes@[n - 1].freed {
            assert(occurrences(h.kids(n - 1), b) == 0);
        }
    }
}

/// Counting over one box counts the handles that box holds.
pub proof fn lemma_in_count_single(h: &Heap, a: int, b: int, n: int)
    requires
        0 <= a < h.size(),
        0 <= n <= h.size(),
    ensures
        h.in_count(set![a], b, n) == if a < n { occurrences(h.kids(a), b) } else { 0nat },
    decreases n,
{
    if n > 0 {
        lemma_in_count_single(h, a, b, n - 1);
    }
}

/// A walk from `start` never ends in `g` when `start` holds no box of `g` and every box
/// holding a handle into `g` is in `g`.
pub proof fn lemma_path_avoids(h: &Heap, start: Set<int>, g: Set<int>, p: Seq<int>)
    requires
        h.is_path(start, p),
        forall|x: int| #[trigger] g.contains(x) ==> !start.contains(x),
        forall|a: int, x: int| g.contains(x) && #[trigger] h.edge(a, x) ==> g.contains(a),
    ensures
        !g.contains(p.last()),
    decreases p.len(),
{
    if p.len() > 1 {
        lemma_path_prefix(h, start, p);
        lemma_path_avoids(h, start, g, p.drop_last());
    }
}

/// A box of `start` reaches itself.
pub proof fn lemma_reach_start(h: &Heap, start: Set<int>, a: int)
    requires
        start.contains(a),
        0 <= a < h.size(),
    ensures
        h.reaches(start, a),
{
    let p = seq![a];
    assert(h.is_path(start, p));
}

/// A set that holds `start` and is closed under stored handles holds every box that
/// `start` reaches.
pub proof fn lemma_closed_holds_reach(h: &Heap, start: Set<int>, r: Set<int>, p: Seq<int>)
    requires
        start.subset_of(r),
        forall|a: int, c: int| r.contains(a) && #[trigger] h.edge(a, c) ==> r.contains(c),
        h.is_path(start, p),
    ensures
        r.contains(p.last()),
    decreases p.len(),
{
    if p.len() > 1 {
        let q = p.drop_last();
        assert(h.is_path(start, q)) by {
            assert forall|k: int| 0 <= k < q.len() - 1 implies h.edge(#[trigger] q[k], q[k + 1]) by {
                assert(q[k] == p[k] && q[k + 1] == p[k + 1]);
            };
        };
        lemma_closed_holds_reach(h, start, r, q);
        assert(h.edge(p[p.len() - 2], p[p.len() - 1]));
    }
}

/// The number of `true` values.
pub open spec fn n_marked(v: Seq<bool>) -> nat
    decreases v.len(),
{
    if v.len() == 0 {
        0
    } else {
        n_marked(v.drop_last()) + if v.last() { 1nat } else { 0nat }
    }
}

proof fn lemma_mark_one(v: Seq<bool>, i: int)
    requires
        0 <= i < v.len(),
        !v[i],
    ensures
        n_marked(v.update(i, true)) == n_marked(v) + 1,
        n_marked(v) < v.len(),
    decreases v.len(),
{
    let w = v.update(i, true);
    if i == v.len() - 1 {
        assert(w.drop_last() =~= v.drop_last());
        lemma_marked_bound(v.drop_last());
    } else {
        lemma_mark_one(v.drop_last(), i);
        assert(w.drop_last() =~= v.drop_last().update(i, true));
    }
}

proof fn lemma_marked_bound(v: Seq<bool>)
    ensures
        n_marked(v) <= v.len(),
    decreases v.len(),
{
    if v.len() > 0 {
        lemma_marked_bound(v.drop_last());
    }
}

/// Mark every box that the boxes marked in `start` reach along stored handles.
pub fn reach_closure(h: &Heap, start: &Vec<bool>) -> (r: Vec<bool>)
    requires
        h.wf(),
        start@.len() == h.size(),
    ensures
        r@.len() == h.size(),
        forall|i: int| 0 <= i < h.size() ==> r@[i] == h.reaches(marked(start@), i),
{
    let n = h.boxes.len();
    let ghost st = marked(start@);
    let mut r = start.clone();
    let mut work: Vec<usize> = Vec::new();
    let mut n_done: usize = 0;
    let mut i: usize = 0;
    proof {
        lemma_marked_bound(r@);
    }
    // every box of `start` is marked and waits to have its handles followed
    while i < n
        invariant
            n == h.size(),
            i <= n,
            r@ == start@,
            start@.len() == n,
            forall|k: int| 0 <= k < work@.len() ==> #[trigger] work@[k] < n && r@[work@[k] as int],
            forall|a: int| 0 <= a < i && r@[a] ==> work@.contains(a as usize),
            work@.len() <= i,
        decreases n - i,
    {
        if r[i] {
            let ghost w = work@;
            work.push(i);
            assert(work@[work@.len() - 1] == i);
            assert forall|a: int| 0 <= a < i && r@[a] implies work@.contains(a as usize) by {
                let k = choose|k: int| 0 <= k < w.len() && w[k] == a as usize;
                assert(work@[k] == a as usize);
            };
        }
        i = i + 1;
    }
    let ghost total = n_marked(r@);
    proof {
        lemma_marked_bound(r@);
        assert forall|a: int| 0 <= a < n && r@[a] implies h.reaches(st, a) by {
            lemma_reach_start(h, st, a);
        };
    }
    while work.len() > 0
        invariant
            h.wf(),
            n == h.size(),
            r@.len() == n,
            start@.len() == n,
            st == marked(start@),
            forall|a: int| 0 <= a < n && start@[a] ==> r@[a],
            forall|a: int| 0 <= a < n && r@[a] ==> h.reaches(st, a),
            forall|k: int| 0 <= k < work@.len() ==> #[trigger] work@[k] < n && r@[work@[k] as int],
            forall|a: int, c: int|
                0 <= a < n && r@[a] && !work@.contains(a as usize) && #[trigger] h.edge(a, c)
                    ==> 0 <= c < n && r@[c],
            n_marked(r@) <= n,
        decreases n - n_marked(r@), work@.len(),
    {
        let ghost wold = work@;
        let a = work.pop().unwrap();
        let ghost w0 = work@;
        proof {
            assert(wold =~= w0.push(a));
            assert forall|x: int| 0 <= x < n && x != a && !w0.contains(x as usize)
                implies !wold.contains(#[trigger] (x as usize)) by {
                if wold.contains(x as usize) {
                    let k = choose|k: int| 0 <= k < wold.len() && wold[k] == x as usize;
                    if k < w0.len() {
                        assert(w0[k] == x as usize);
                    }
                }
            };
        }
        let ghost m0 = n_marked(r@);
        let kids = &h.boxes[a].children;
        let mut j: usize = 0;
        while j < kids.len()
            invariant
                h.wf(),
                n == h.size(),
                a < n,
                r@[a as int],
                kids@ == h.kids(a as int),
                j <= kids@.len(),
                r@.len() == n,
                start@.len() == n,
                st == marked(start@),
                forall|x: int| 0 <= x < n && start@[x] ==> r@[x],
                forall|x: int| 0 <= x < n && r@[x] ==> h.reaches(st, x),
                forall|k: int| 0 <= k < work@.len() ==> #[trigger] work@[k] < n && r@[work@[k] as int],
                w0.subrange(0, w0.len() as int) =~= work@.subrange(0, w0.len() as int),
                w0.len() <= work@.len(),
                forall|x: int, c: int|
                    0 <= x < n && r@[x] && x != a && !work@.contains(x as usize) && #[trigger] h.edge(x, c)
                        ==> 0 <= c < n && r@[c],
                forall|jj: int| 0 <= jj < j ==> r@[#[trigger] kids@[jj] as int],
                n_marked(r@) <= n,
                n_marked(r@) >= m0,
                n_marked(r@) == m0 ==> work@.len() == w0.len(),
            decreases kids@.len() - j,
        {
            let c = kids[j];
            assert(h.live(h.kids(a as int)[j as int] as int));
            if !r[c] {
                proof {
                    assert(h.edge(a as int, c as int));
                    lemma_reach_step(h, st, a as int, c as int);
                    lemma_mark_one(r@, c as int);
                }
                let ghost r_old = r@;
                let ghost work_old = work@;
                r.set(c, true);
                work.push(c);
                assert(work@ == work_old.push(c));
                assert(work@[work@.len() - 1] == c);
                assert forall|x: int, cc: int|
                    0 <= x < n && r@[x] && x != a && !work@.contains(x as usize) && #[trigger] h.edge(x, cc)
                    implies 0 <= cc < n && r@[cc] by {
                    if x != c as int {
                        assert(r_old[x]);
                        if work_old.contains(x as usize) {
                            let k = choose|k: int| 0 <= k < work_old.len() && work_old[k] == x as usize;
                            assert(work@[k] == x as usize);
                        }
                        assert(r_old[cc]);
                    } else {
                        assert(work@.contains(x as usize));
                    }
                };
            }
            j = j + 1;
        }
        proof {
            assert forall|x: int, cc: int|
                0 <= x < n && r@[x] && !work@.contains(x as usize) && #[trigger] h.edge(x, cc)
                implies 0 <= cc < n && r@[cc] by {
                if x == a as int {
                    let jj = choose|jj: int| 0 <= jj < h.kids(x).len() && #[trigger] h.kids(x)[jj] as int == cc;
                    assert(r@[kids@[jj] as int]);
                    assert(h.live(h.kids(x)[jj] as int));
                }
            };
        }
    }
    proof {
        assert forall|x: int| 0 <= x < n implies r@[x] == h.reaches(st, x) by {
            if h.reaches(st, x) {
                let rs = marked(r@);
                let p = choose|p: Seq<int>| #[trigger] h.is_path(st, p) && p.last() == x;
                assert forall|a: int, c: int| rs.contains(a) && #[trigger] h.edge(a, c) implies rs.contains(c) by {
                    assert(!work@.contains(a as usize));
                };
                lemma_closed_holds_reach(h, st, rs, p);
            }
        };
    }
    r
}

} // verus!

verus! {

impl Heap {
    /// The sum of the strong counts of the boxes below index `n`.
    pub open spec fn total_upto(&self, n: int) -> nat
        decreases n,
    {
        if n <= 0 {
            0
        } else {
            self.total_upto(n - 1) + self.boxes@[n - 1].ref_count as nat
        }
    }

    /// The sum of the strong counts: the number of handles alive, stored or held.
    pub open spec fn total(&self) -> nat {
        self.total_upto(self.size())
    }

    /// The number of live boxes below index `n`.
    pub open spec fn n_live_upto(&self, n: int) -> nat
        decreases n,
    {
        if n <= 0 {
            0
        } else {
            self.n_live_upto(n - 1) + if self.boxes@[n - 1].freed { 0nat } else { 1nat }
        }
    }

    /// The number of live boxes.
    pub open spec fn n_live(&self) -> nat {
        self.n_live_upto(self.size())
    }

    /// Every box of `h1` is as in `self`, or destroyed with a zero count and no handle.
    pub open spec fn shrinks_to(&self, h1: Heap) -> bool {
        &&& h1.size() == self.size()
        &&& forall|a: int|
            0 <= a < self.size() ==> (#[trigger] h1.boxes@[a].freed == self.boxes@[a].freed
                && h1.count(a) <= self.count(a) && h1.kids(a) == self.kids(a)) || (
            h1.boxes@[a].freed && h1.count(a) == 0 && h1.kids(a).len() == 0)
    }
}

/// Counting handles over boxes whose handles and membership agree below `n` gives the same.
pub proof fn lemma_in_count_agree(h0: &Heap, h1: &Heap, s0: Set<int>, s1: Set<int>, b: int, n: int)
    requires
        forall|a: int| 0 <= a < n ==> #[trigger] h1.kids(a) == h0.kids(a),
        forall|a: int| 0 <= a < n ==> #[trigger] s1.contains(a) == s0.contains(a),
    ensures
        h1.in_count(s1, b, n) == h0.in_count(s0, b, n),
    decreases n,
{
    if n > 0 {
        lemma_in_count_agree(h0, h1, s0, s1, b, n - 1);
    }
}

/// Replacing the handles of one box `t` changes a count by what it held and now holds.
pub proof fn lemma_in_count_set_kids(h0: &Heap, h1: &Heap, t: int, s: Set<int>, b: int, n: int)
    requires
        0 <= t,
        forall|a: int| 0 <= a < n && a != t ==> #[trigger] h1.kids(a) == h0.kids(a),
    ensures
        h1.in_count(s, b, n) + (if t < n && s.contains(t) { occurrences(h0.kids(t), b) } else { 0nat })
            == h0.in_count(s, b, n) + (if t < n && s.contains(t) { occurrences(h1.kids(t), b) } else { 0nat }),
    decreases n,
{
    if n > 0 {
        lemma_in_count_set_kids(h0, h1, t, s, b, n - 1);
    }
}

/// Sums of counts and numbers of live boxes never grow when boxes are only destroyed.
pub proof fn lemma_shrink_totals(h0: &Heap, h1: &Heap, n: int, t: int)
    requires
        h0.shrinks_to(*h1),
        0 <= n <= h0.size(),
    ensures
        h1.total_upto(n) <= h0.total_upto(n),
        h1.n_live_upto(n) <= h0.n_live_upto(n),
        0 <= t < n && h0.live(t) && !h1.live(t) ==> h1.n_live_upto(n) < h0.n_live_upto(n),
        forall|a: int| 0 <= a < n && #[trigger] h1.live(a) ==> h0.live(a),
    decreases n,
{
    if n > 0 {
        lemma_shrink_totals(h0, h1, n - 1, t);
        assert(h1.boxes@[n - 1].freed == h0.boxes@[n - 1].freed || (h1.boxes@[n - 1].freed
            && h1.count(n - 1) == 0));
        assert(h1.count(n - 1) <= h0.count(n - 1));
    }
}

/// Changing the count of one box `t` changes the sum by the difference.
pub proof fn lemma_total_set_count(h0: &Heap, h1: &Heap, t: int, n: int)
    requires
        0 <= t,
        forall|a: int| 0 <= a < n && a != t ==> #[trigger] h1.boxes@[a].ref_count == h0.boxes@[a].ref_count,
    ensures
        h1.total_upto(n) + (if t < n { h0.count(t) } else { 0 }) == h0.total_upto(n) + (if t < n {
            h1.count(t)
        } else {
            0
        }),
    decreases n,
{
    if n > 0 {
        lemma_total_set_count(h0, h1, t, n - 1);
    }
}

/// The sum of counts is at least the count of any one box.
pub proof fn lemma_total_ge(h: &Heap, t: int, n: int)
    requires
        0 <= t < n <= h.size(),
    ensures
        h.total_upto(n) >= h.count(t),
    decreases n,
{
    if n - 1 > t {
        lemma_total_ge(h, t, n - 1);
    }
}

/// Whether the freed flags of the boxes below `n` agree.
pub proof fn lemma_live_set_flag(h0: &Heap, h1: &Heap, t: int, n: int)
    requires
        0 <= t,
        forall|a: int| 0 <= a < n && a != t ==> #[trigger] h1.boxes@[a].freed == h0.boxes@[a].freed,
        t < n ==> h1.boxes@[t].freed == h0.boxes@[t].freed || (h1.boxes@[t].freed && !h0.boxes@[t].freed),
    ensures
        h1.n_live_upto(n) <= h0.n_live_upto(n),
        t < n && h1.boxes@[t].freed && !h0.boxes@[t].freed ==> h1.n_live_upto(n) + 1 == h0.n_live_upto(n),
        t >= n ==> h1.n_live_upto(n) == h0.n_live_upto(n),
    decreases n,
{
    if n > 0 {
        lemma_live_set_flag(h0, h1, t, n - 1);
    }
}

/// A box that no stored handle counts is not pointed at.
pub proof fn lemma_no_refs_no_edge(h: &Heap, t: int, a: int)
    requires
        h.refs_from(h.all(), t) == 0,
    ensures
        !h.edge(a, t),
{
    if h.edge(a, t) {
        lemma_in_count_edge(h, h.all(), a, t);
    }
}

/// A value that occurs nowhere is not held.
pub proof fn lemma_occurrences_zero(s: Seq<usize>, b: int)
    requires
        occurrences(s, b) == 0,
    ensures
        forall|j: int| 0 <= j < s.len() ==> #[trigger] s[j] as int != b,
{
    assert forall|j: int| 0 <= j < s.len() implies #[trigger] s[j] as int != b by {
        if s[j] as int == b {
            lemma_occurrences_positive(s, j);
        }
    };
}

} // verus!

verus! {

/// A positive count of stored handles to `b` comes from a box that holds one.
pub proof fn lemma_in_count_positive(h: &Heap, s: Set<int>, b: int, n: int)
    requires
        h.in_count(s, b, n) > 0,
        n <= h.size(),
    ensures
        exists|a: int| 0 <= a < n && s.contains(a) && #[trigger] h.edge(a, b),
    decreases n,
{
    if h.in_count(s, b, n - 1) > 0 {
        lemma_in_count_positive(h, s, b, n - 1);
        let a = choose|a: int| 0 <= a < n - 1 && s.contains(a) && #[trigger] h.edge(a, b);
        assert(h.edge(a, b));
    } else {
        lemma_occurrences_witness(h.kids(n - 1), b);
        let j = choose|j: int| 0 <= j < h.kids(n - 1).len() && #[trigger] h.kids(n - 1)[j] as int == b;
        assert(h.edge(n - 1, b));
    }
}

/// A value that occurs is held at some index.
pub proof fn lemma_occurrences_witness(s: Seq<usize>, b: int)
    requires
        occurrences(s, b) > 0,
    ensures
        exists|j: int| 0 <= j < s.len() && #[trigger] s[j] as int == b,
    decreases s.len(),
{
    if occurrences(s.drop_last(), b) > 0 {
        lemma_occurrences_witness(s.drop_last(), b);
        let j = choose|j: int| 0 <= j < s.drop_last().len() && #[trigger] s.drop_last()[j] as int == b;
        assert(s[j] as int == b);
    } else {
        assert(s[s.len() - 1] as int == b);
    }
}

} // verus!

verus! {

/// Taking one value out of a sequence lowers its number of occurrences by one.
pub proof fn lemma_occurrences_remove(s: Seq<usize>, j: int, b: int)
    requires
        0 <= j < s.len(),
    ensures
        occurrences(s.remove(j), b) + (if s[j] as int == b { 1nat } else { 0nat }) == occurrences(s, b),
    decreases s.len(),
{
    if j < s.len() - 1 {
        lemma_occurrences_remove(s.drop_last(), j, b);
        assert(s.remove(j).drop_last() =~= s.drop_last().remove(j));
        assert(s.remove(j).last() == s.last());
    } else {
        assert(s.remove(j) =~= s.drop_last());
    }
}

} // verus!

verus! {

/// Counting over a union of two disjoint sets adds the two counts.
pub proof fn lemma_in_count_split(h: &Heap, s: Set<int>, t: Set<int>, u: Set<int>, b: int, n: int)
    requires
        forall|a: int| 0 <= a < n ==> (#[trigger] u.contains(a) <==> (s.contains(a) || t.contains(a))),
        forall|a: int| 0 <= a < n ==> !(#[trigger] s.contains(a) && t.contains(a)),
    ensures
        h.in_count(u, b, n) == h.in_count(s, b, n) + h.in_count(t, b, n),
    decreases n,
{
    if n > 0 {
        lemma_in_count_split(h, s, t, u, b, n - 1);
        assert(u.contains(n - 1) <==> (s.contains(n - 1) || t.contains(n - 1)));
        assert(!(s.contains(n - 1) && t.contains(n - 1)));
    }
}

/// When the boxes outside `s` have lost all their handles and the others kept theirs,
/// counting over every box afterwards counts the handles of `s` before.
pub proof fn lemma_in_count_restrict(h0: &Heap, h1: &Heap, s: Set<int>, u: Set<int>, b: int, n: int)
    requires
        forall|a: int| 0 <= a < n ==> #[trigger] u.contains(a),
        forall|a: int| 0 <= a < n && #[trigger] s.contains(a) ==> h1.kids(a) == h0.kids(a),
        forall|a: int| 0 <= a < n && !s.contains(a) ==> #[trigger] h1.kids(a).len() == 0,
    ensures
        h1.in_count(u, b, n) == h0.in_count(s, b, n),
    decreases n,
{
    if n > 0 {
        lemma_in_count_restrict(h0, h1, s, u, b, n - 1);
        assert(u.contains(n - 1));
        if !s.contains(n - 1) {
            assert(h1.kids(n - 1).len() == 0);
            assert(occurrences(h1.kids(n - 1), b) == 0);
        } else {
            assert(h1.kids(n - 1) == h0.kids(n - 1));
        }
    }
}

} // verus!
