//! The thread-local variant's bookkeeping registry, trigger policy and cycle collector.
use vstd::prelude::*;

use crate::heap::{marked, occurrences, reach_closure, Heap};
use crate::AllocationId;

verus! {

/// A count capped at the largest machine word, as a saturating counter keeps it.
pub open spec fn sat(x: nat) -> int {
    if x > usize::MAX {
        usize::MAX as int
    } else {
        x as int
    }
}

/// The boxes that a collection walks: those reachable from the registered ones.
pub open spec fn scanned(h: Heap, d: Set<int>) -> Set<int> {
    Set::new(|x: int| 0 <= x < h.size() && h.reaches(d, x))
}

/// The in-heap reference count that a collection observes for box `b`: the handles to
/// `b` stored in the walked boxes, saturating at the word's maximum.
pub open spec fn cyclic_count(h: Heap, d: Set<int>, b: int) -> int {
    sat(h.refs_from(scanned(h, d), b))
}

/// A root of a collection: a box whose strong count exceeds the references observed
/// inside the walked boxes, or a registered box that no walked box points at.
pub open spec fn is_root(h: Heap, d: Set<int>, b: int) -> bool {
    &&& 0 <= b < h.size()
    &&& {
        ||| (cyclic_count(h, d, b) > 0 && h.count(b) != cyclic_count(h, d, b))
        ||| (d.contains(b) && cyclic_count(h, d, b) == 0)
    }
}

/// The roots of a collection.
pub open spec fn roots(h: Heap, d: Set<int>) -> Set<int> {
    Set::new(|b: int| is_root(h, d, b))
}

/// Whether a collection from the registered boxes `d` destroys box `b`: it is walked and
/// no root reaches it.
pub open spec fn dies(h: Heap, d: Set<int>, b: int) -> bool {
    h.reaches(d, b) && !h.reaches(roots(h, d), b)
}

/// The boxes that a collection from the registered boxes `d` destroys.
pub open spec fn dying(h: Heap, d: Set<int>) -> Set<int> {
    Set::new(|a: int| 0 <= a < h.size() && dies(h, d, a))
}

/// `h1` is what a collection from the registered boxes `d` leaves of `h0`: each box that
/// dies is destroyed, its count zeroed and its handles nulled; every other box keeps its
/// handles, and its count falls by the handles to it that the destroyed boxes held.
pub open spec fn collected(h0: Heap, d: Set<int>, h1: Heap) -> bool {
    &&& h1.size() == h0.size()
    &&& forall|b: int|
        0 <= b < h0.size() ==> if #[trigger] dies(h0, d, b) {
            &&& h1.boxes@[b].freed
            &&& h1.count(b) == 0
            &&& h1.kids(b).len() == 0
        } else {
            &&& h1.boxes@[b].freed == h0.boxes@[b].freed
            &&& h1.count(b) == h0.count(b) - h0.refs_from(dying(h0, d), b)
            &&& h1.kids(b) == h0.kids(b)
        }
}

/// For every box, the number of handles to it stored in the boxes marked in `members`,
/// saturating at the word's maximum.
pub fn count_refs(heap: &Heap, members: &Vec<bool>) -> (r: Vec<usize>)
    requires
        heap.wf(),
        members@.len() == heap.size(),
    ensures
        r@.len() == heap.size(),
        forall|b: int| 0 <= b < heap.size() ==> #[trigger] r@[b] == sat(heap.refs_from(marked(members@), b)),
{
    let n = heap.boxes.len();
    let ghost sset = marked(members@);
    let mut counts: Vec<usize> = Vec::new();
    let mut i: usize = 0;
    while i < n
        invariant
            i <= n,
            counts@ == Seq::new(i as nat, |j: int| 0usize),
        decreases n - i,
    {
        counts.push(0);
        i = i + 1;
        assert(counts@ =~= Seq::new(i as nat, |j: int| 0usize));
    }
    let mut a: usize = 0;
    while a < n
        invariant
            heap.wf(),
            n == heap.size(),
            a <= n,
            counts@.len() == n,
            members@.len() == n,
            sset == marked(members@),
            forall|b: int| 0 <= b < n ==> #[trigger] counts@[b] == sat(heap.in_count(sset, b, a as int)),
        decreases n - a,
    {
        if members[a] {
            let kids = &heap.boxes[a].children;
            let mut j: usize = 0;
            while j < kids.len()
                invariant
                    heap.wf(),
                    n == heap.size(),
                    a < n,
                    kids@ == heap.kids(a as int),
                    j <= kids@.len(),
                    counts@.len() == n,
                    forall|b: int|
                        0 <= b < n ==> #[trigger] counts@[b] == sat(
                            heap.in_count(sset, b, a as int) + occurrences(kids@.take(j as int), b),
                        ),
                decreases kids@.len() - j,
            {
                let c = kids[j];
                assert(heap.live(heap.kids(a as int)[j as int] as int));
                assert(kids@.take(j + 1).drop_last() =~= kids@.take(j as int));
                let v = counts[c].saturating_add(1);
                counts.set(c, v);
                j = j + 1;
            }
            assert(kids@.take(kids@.len() as int) =~= kids@);
            assert(sset.contains(a as int));
        } else {
            assert(!sset.contains(a as int));
        }
        a = a + 1;
    }
    counts
}

/// The trigger counters after one more drop of a handle whose box stays alive.
pub open spec fn after_drop(i: CollectInfo) -> CollectInfo {
    CollectInfo {
        n_ref_drops: (if i.n_ref_drops < usize::MAX { i.n_ref_drops + 1 } else { i.n_ref_drops as int }) as usize,
        n_refs_living: (i.n_refs_living - 1) as usize,
    }
}

/// A collection only destroys boxes: every box is as it was, or destroyed with a zero
/// count and no handle.
pub proof fn lemma_collected_shrinks(h0: Heap, d: Set<int>, h1: Heap)
    requires
        collected(h0, d, h1),
    ensures
        h0.shrinks_to(h1),
{
    assert forall|a: int| 0 <= a < h0.size() implies (#[trigger] h1.boxes@[a].freed == h0.boxes@[a].freed
        && h1.count(a) <= h0.count(a) && h1.kids(a) == h0.kids(a)) || (h1.boxes@[a].freed
        && h1.count(a) == 0 && h1.kids(a).len() == 0) by {
        if dies(h0, d, a) {
        } else {
        }
    };
}

/// The two counters that a collect condition decides on.
#[derive(Clone, Copy, Debug, PartialEq, Eq, Structural)]
pub struct CollectInfo {
    /// Handles dropped since the last collection.
    pub n_ref_drops: usize,
    /// Handles currently alive.
    pub n_refs_living: usize,
}

/// The predicate that decides whether a drop triggers a collection.
#[derive(Clone, Copy, Debug, PartialEq, Eq, Structural)]
pub enum CollectCondition {
    /// Collect when twice the drops since the last collection reach the living handles.
    Default,
    /// Never collect on a drop; collections are run by hand.
    Never,
}

/// Whether twice the drops since the last collection reach the living handles.
pub open spec fn default_condition_holds(info: CollectInfo) -> bool {
    2 * info.n_ref_drops >= info.n_refs_living
}

/// What a collect condition decides on the given counters.
pub open spec fn condition_holds(c: CollectCondition, info: CollectInfo) -> bool {
    match c {
        CollectCondition::Default => default_condition_holds(info),
        CollectCondition::Never => false,
    }
}

/// The default collect condition: collect when twice the drops since the last collection
/// reach the number of living handles, which amortizes collection to constant time per drop.
pub fn default_collect_condition(info: &CollectInfo) -> (r: bool)
    ensures
        r == default_condition_holds(*info),
{
    info.n_ref_drops >= info.n_refs_living || info.n_ref_drops >= info.n_refs_living
        - info.n_ref_drops
}

/// A collect condition that never collects.
pub fn unsync_never_collect(_info: &CollectInfo) -> (r: bool)
    ensures
        !r,
{
    false
}

/// Amortization: under the default condition, a drop triggers a collection only when the
/// living handles, which bound the collection's walk, number at most twice the drops since
/// the previous collection; the collection then resets the drop counter, so each drop pays
/// for at most two units of collection work.
pub proof fn lemma_collection_amortized(info: CollectInfo)
    requires
        condition_holds(CollectCondition::Default, after_drop(info)),
    ensures
        after_drop(info).n_refs_living <= 2 * after_drop(info).n_ref_drops,
{
}

/// A run of drops under the default condition, from `drops` drops since the last
/// collection: `livings[k]` is the number of living handles right after drop `k`. Gives the
/// summed cost of the collections triggered, each costing its number of living handles,
/// and the drops since the last collection at the end.
pub open spec fn default_run(drops: nat, livings: Seq<nat>) -> (nat, nat)
    decreases livings.len(),
{
    if livings.len() == 0 {
        (0, drops)
    } else {
        let (cost, since) = default_run(drops, livings.drop_last());
        if 2 * (since + 1) >= livings.last() {
            (cost + livings.last(), 0)
        } else {
            (cost, since + 1)
        }
    }
}

/// Amortization over a run: starting right after a collection, the collections that the
/// default condition triggers over any run of drops cost, in living handles, at most twice
/// the number of drops.
pub proof fn lemma_run_amortized(livings: Seq<nat>)
    ensures
        default_run(0, livings).0 + 2 * default_run(0, livings).1 <= 2 * livings.len(),
        default_run(0, livings).0 <= 2 * livings.len(),
    decreases livings.len(),
{
    if livings.len() > 0 {
        lemma_run_amortized(livings.drop_last());
    }
}

/// Each drop that `notify_dropped_gc` sees is one step of `default_run`: under the default
/// condition it collects exactly when twice the drops since the last collection, this one
/// included, reach the living handles left, and then restarts the drop count at zero.
pub proof fn lemma_drop_is_run_step(info: CollectInfo)
    requires
        info.n_ref_drops < usize::MAX,
        info.n_refs_living > 0,
    ensures
        condition_holds(CollectCondition::Default, after_drop(info)) == (2 * (info.n_ref_drops as nat + 1)
            >= after_drop(info).n_refs_living as nat),
        ({
            let livings = seq![after_drop(info).n_refs_living as nat];
            &&& default_run(info.n_ref_drops as nat, livings).1 == if condition_holds(
                CollectCondition::Default,
                after_drop(info),
            ) {
                0
            } else {
                after_drop(info).n_ref_drops as nat
            }
        }),
{
    let livings = seq![after_drop(info).n_refs_living as nat];
    assert(livings.drop_last() =~= Seq::<nat>::empty());
    assert(livings.last() == after_drop(info).n_refs_living as nat);
    assert(default_run(info.n_ref_drops as nat, Seq::<nat>::empty()) == (0nat, info.n_ref_drops as nat));
}

/// The thread-local registry of boxes that may need collecting, and the trigger counters.
pub struct Dumpster {
    to_collect: Vec<AllocationId>,
    n_ref_drops: usize,
    n_refs_living: usize,
    condition: CollectCondition,
}

impl Dumpster {
    /// The registered boxes.
    pub open spec fn dirty(&self) -> Set<int> {
        Set::new(|i: int| exists|k: int| 0 <= k < self.entries().len() && #[trigger] self.entries()[k].0 == i)
    }

    /// The registered boxes, in the order they were registered.
    pub closed spec fn entries(&self) -> Seq<AllocationId> {
        self.to_collect@
    }

    /// The trigger counters.
    pub closed spec fn info(&self) -> CollectInfo {
        CollectInfo { n_ref_drops: self.n_ref_drops, n_refs_living: self.n_refs_living }
    }

    /// The collect condition in force.
    pub closed spec fn condition(&self) -> CollectCondition {
        self.condition
    }

    /// The registry holds each box at most once.
    pub open spec fn unique(&self) -> bool {
        forall|k: int, l: int|
            0 <= k < l < self.entries().len() ==> #[trigger] self.entries()[k] != #[trigger] self.entries()[l]
    }

    /// The registry holds each box at most once, and only live boxes of heap `h`.
    pub open spec fn wf(&self, h: Heap) -> bool {
        &&& self.unique()
        &&& forall|i: int| #[trigger] self.dirty().contains(i) ==> h.live(i)
    }

    /// A registry with nothing registered, no handle and the default condition.
    pub fn new() -> (d: Dumpster)
        ensures
            d.dirty().is_empty(),
            d.entries().len() == 0,
            d.info() == (CollectInfo { n_ref_drops: 0, n_refs_living: 0 }),
            d.condition() == CollectCondition::Default,
            forall|h: Heap| d.wf(h),
    {
        let d = Dumpster {
            to_collect: Vec::new(),
            n_ref_drops: 0,
            n_refs_living: 0,
            condition: CollectCondition::Default,
        };
        assert(d.dirty() =~= Set::empty());
        d
    }

    /// The trigger counters.
    pub fn collect_info(&self) -> (r: CollectInfo)
        ensures
            r == self.info(),
    {
        CollectInfo { n_ref_drops: self.n_ref_drops, n_refs_living: self.n_refs_living }
    }

    /// Replace the collect condition.
    pub fn set_collect_condition(&mut self, c: CollectCondition)
        ensures
            final(self).condition() == c,
            final(self).info() == old(self).info(),
            final(self).entries() == old(self).entries(),
            final(self).dirty() == old(self).dirty(),
    {
        self.condition = c;
    }

    /// Whether the condition in force asks for a collection on the given counters.
    fn should_collect(&self, info: &CollectInfo) -> (r: bool)
        ensures
            r == condition_holds(self.condition, *info),
    {
        match self.condition {
            CollectCondition::Default => default_collect_condition(info),
            CollectCondition::Never => unsync_never_collect(info),
        }
    }

    /// Mark box `id` as dirty: a drop may have cut it off from the roots, so the next
    /// collection walks from it. A box already registered stays registered once.
    pub fn mark_dirty(&mut self, id: AllocationId)
        requires
            old(self).unique(),
        ensures
            final(self).unique(),
            final(self).dirty() == old(self).dirty().insert(id.0 as int),
            final(self).info() == old(self).info(),
            final(self).condition() == old(self).condition(),
    {
        let mut k: usize = 0;
        while k < self.to_collect.len()
            invariant
                self.unique(),
                *self == *old(self),
                k <= self.to_collect@.len(),
                forall|l: int| 0 <= l < k ==> #[trigger] self.to_collect@[l] != id,
            decreases self.to_collect@.len() - k,
        {
            if self.to_collect[k] == id {
                assert(self.dirty() =~= self.dirty().insert(id.0 as int)) by {
                    assert(self.to_collect@[k as int].0 == id.0);
                };
                return;
            }
            k = k + 1;
        }
        let ghost before = self.to_collect@;
        self.to_collect.push(id);
        assert(self.to_collect@[before.len() as int] == id);
        assert forall|i: int| self.dirty().contains(i) <==> old(self).dirty().insert(id.0 as int).contains(i) by {
            if old(self).dirty().contains(i) {
                let l = choose|l: int| 0 <= l < before.len() && #[trigger] before[l].0 == i;
                assert(self.to_collect@[l].0 == i);
            }
            if self.dirty().contains(i) && i != id.0 as int {
                let l = choose|l: int| 0 <= l < self.to_collect@.len() && #[trigger] self.to_collect@[l].0 == i;
                assert(before[l].0 == i);
            }
        };
        assert(self.dirty() =~= old(self).dirty().insert(id.0 as int));
        assert forall|l: int, m: int| 0 <= l < m < self.to_collect@.len() implies
            #[trigger] self.to_collect@[l] != #[trigger] self.to_collect@[m] by {
            if m < before.len() {
                assert(self.to_collect@[l] == before[l] && self.to_collect@[m] == before[m]);
            } else {
                assert(self.to_collect@[l] == before[l]);
            }
        };
    }

    /// Mark box `id` as cleaned: it is about to be destroyed, so no collection walks from it.
    pub fn mark_cleaned(&mut self, id: AllocationId)
        requires
            old(self).unique(),
        ensures
            final(self).dirty() == old(self).dirty().remove(id.0 as int),
            final(self).unique(),
            final(self).info() == old(self).info(),
            final(self).condition() == old(self).condition(),
    {
        let mut k: usize = 0;
        while k < self.to_collect.len()
            invariant
                self.unique(),
                *self == *old(self),
                k <= self.to_collect@.len(),
                forall|l: int| 0 <= l < k ==> #[trigger] self.to_collect@[l] != id,
            decreases self.to_collect@.len() - k,
        {
            if self.to_collect[k] == id {
                let ghost before = self.to_collect@;
                self.to_collect.remove(k);
                assert forall|i: int| self.dirty().contains(i) <==> old(self).dirty().remove(id.0 as int).contains(i) by {
                    if old(self).dirty().remove(id.0 as int).contains(i) {
                        let l = choose|l: int| 0 <= l < before.len() && #[trigger] before[l].0 == i;
                        if l < k {
                            assert(self.to_collect@[l].0 == i);
                        } else {
                            assert(l != k);
                            assert(self.to_collect@[l - 1].0 == i);
                        }
                    }
                    if self.dirty().contains(i) {
                        let l = choose|l: int| 0 <= l < self.to_collect@.len() && #[trigger] self.to_collect@[l].0 == i;
                        if l < k {
                            assert(before[l].0 == i);
                        } else {
                            assert(before[l + 1].0 == i);
                            assert(before[l + 1] != before[k as int]);
                        }
                    }
                };
                assert(self.dirty() =~= old(self).dirty().remove(id.0 as int));
                {
                    assert forall|l: int, m: int| 0 <= l < m < self.to_collect@.len() implies
                        #[trigger] self.to_collect@[l] != #[trigger] self.to_collect@[m] by {
                        let l2 = if l < k { l } else { l + 1 };
                        let m2 = if m < k { m } else { m + 1 };
                        assert(self.to_collect@[l] == before[l2]);
                        assert(self.to_collect@[m] == before[m2]);
                    };
                };
                return;
            }
            k = k + 1;
        }
        assert forall|i: int| self.dirty().contains(i) <==> old(self).dirty().remove(id.0 as int).contains(i) by {
            if self.dirty().contains(i) {
                let l = choose|l: int| 0 <= l < self.to_collect@.len() && #[trigger] self.to_collect@[l].0 == i;
                assert(self.to_collect@[l] != id);
            }
        };
        assert(self.dirty() =~= old(self).dirty().remove(id.0 as int));
    }

    /// Notify the registry that a handle has been created.
    pub fn notify_created_gc(&mut self)
        requires
            old(self).info().n_refs_living < usize::MAX,
        ensures
            final(self).info() == (CollectInfo {
                n_refs_living: (old(self).info().n_refs_living + 1) as usize,
                ..old(self).info()
            }),
            final(self).entries() == old(self).entries(),
            final(self).dirty() == old(self).dirty(),
            final(self).condition() == old(self).condition(),
    {
        self.n_refs_living = self.n_refs_living + 1;
    }

    /// Notify the registry that a handle has been dropped while its box stays alive: one
    /// more drop (the counter saturates at the word's maximum), one handle fewer. When the collect condition then holds on the counters,
    /// every unreachable allocation is collected and the drop counter is reset.
    pub fn notify_dropped_gc(&mut self, heap: &mut Heap) -> (collected_now: bool)
        requires
            old(self).info().n_refs_living > 0,
            old(heap).wf(),
            old(heap).counts_cover(),
            old(self).wf(*old(heap)),
        ensures
            ({
                let after = after_drop(old(self).info());
                &&& collected_now == condition_holds(old(self).condition(), after)
                &&& collected_now ==> {
                    &&& collected(*old(heap), old(self).dirty(), *final(heap))
                    &&& final(self).info() == (CollectInfo { n_ref_drops: 0, ..after })
                    &&& final(self).dirty().is_empty()
                }
                &&& !collected_now ==> {
                    &&& *final(heap) == *old(heap)
                    &&& final(self).info() == after
                    &&& final(self).dirty() == old(self).dirty()
                    &&& final(self).entries() == old(self).entries()
                }
            }),
            final(heap).wf(),
            final(heap).counts_cover(),
            final(self).wf(*final(heap)),
            final(self).condition() == old(self).condition(),
    {
        self.n_ref_drops = self.n_ref_drops.saturating_add(1);
        let old_refs_living = self.n_refs_living;
        self.n_refs_living = old_refs_living - 1;
        assert(self.dirty() =~= old(self).dirty());
        let info = self.collect_info();
        if self.should_collect(&info) {
            self.collect_all(heap);
            true
        } else {
            false
        }
    }

    /// Tear the registry down when its thread exits: a final collection releases every
    /// cycle that is left.
    pub fn teardown(self, heap: &mut Heap)
        requires
            old(heap).wf(),
            old(heap).counts_cover(),
            self.wf(*old(heap)),
        ensures
            collected(*old(heap), self.dirty(), *final(heap)),
            final(heap).wf(),
            final(heap).counts_cover(),
    {
        let mut d = self;
        d.collect_all(heap);
    }

    /// Collect all unreachable allocations that this registry is responsible for.
    ///
    /// The boxes reachable from the registered ones are walked and the references between
    /// them counted; a box with more strong references than that, and each registered box
    /// that no walked box points at, is a root; every walked box that no root reaches is
    /// destroyed. This destroys exactly what destruction from each unreachable registered
    /// box, recursing into unreachable children, would destroy, since no path from such a
    /// box can enter the closed set of reachable ones. The handles that the destroyed boxes
    /// held are dropped: each box that survives loses one count for each of them, so its
    /// count still covers exactly the handles to it that remain. The registry is emptied.
    pub fn collect_all(&mut self, heap: &mut Heap)
        requires
            old(heap).wf(),
            old(heap).counts_cover(),
            old(self).wf(*old(heap)),
        ensures
            collected(*old(heap), old(self).dirty(), *final(heap)),
            final(heap).wf(),
            final(heap).counts_cover(),
            final(self).dirty().is_empty(),
            final(self).entries().len() == 0,
            final(self).info() == (CollectInfo { n_ref_drops: 0, ..old(self).info() }),
            final(self).condition() == old(self).condition(),
            forall|h: Heap| final(self).wf(h),
    {
        let ghost h0 = *heap;
        let ghost d = self.dirty();
        proof {
            assert(crate::laws::dirty_live(h0, d));
        }
        self.n_ref_drops = 0;
        let n = heap.boxes.len();

        // the registered boxes
        let mut start: Vec<bool> = Vec::new();
        let mut i: usize = 0;
        while i < n
            invariant
                i <= n,
                start@ == Seq::new(i as nat, |j: int| false),
            decreases n - i,
        {
            start.push(false);
            i = i + 1;
            assert(start@ =~= Seq::new(i as nat, |j: int| false));
        }
        let mut k: usize = 0;
        while k < self.to_collect.len()
            invariant
                self.wf(h0),
                n == h0.size(),
                d == self.dirty(),
                k <= self.to_collect@.len(),
                start@.len() == n,
                forall|x: int|
                    0 <= x < n ==> (start@[x] <==> exists|l: int|
                        0 <= l < k && #[trigger] self.to_collect@[l].0 == x),
            decreases self.to_collect@.len() - k,
        {
            let id = self.to_collect[k].0;
            assert(self.dirty().contains(self.to_collect@[k as int].0 as int));
            start.set(id, true);
            k = k + 1;
            assert forall|x: int| 0 <= x < n implies (start@[x] <==> exists|l: int|
                0 <= l < k && #[trigger] self.to_collect@[l].0 == x) by {
                if x == id as int {
                    assert(self.to_collect@[k - 1].0 == x);
                }
            };
        }
        assert(marked(start@) =~= d);

        // pass one: walk every box reachable from the registered ones and count the
        // references between them
        let scanned_v = reach_closure(heap, &start);
        let ghost sset = scanned(h0, d);
        assert(marked(scanned_v@) =~= sset);
        let cyclic = count_refs(heap, &scanned_v);

        // pass two: mark everything that a root reaches
        let mut root_v: Vec<bool> = Vec::new();
        let mut b: usize = 0;
        while b < n
            invariant
                h0 == *heap,
                n == h0.size(),
                b <= n,
                cyclic@.len() == n,
                start@.len() == n,
                marked(start@) == d,
                forall|x: int| 0 <= x < n ==> #[trigger] cyclic@[x] == cyclic_count(h0, d, x),
                root_v@.len() == b,
                forall|x: int| 0 <= x < b ==> root_v@[x] == is_root(h0, d, x),
            decreases n - b,
        {
            let cnt = cyclic[b];
            let is_r = (cnt > 0 && heap.boxes[b].ref_count != cnt) || (start[b] && cnt == 0);
            assert(d.contains(b as int) == start@[b as int]);
            root_v.push(is_r);
            b = b + 1;
        }
        assert(marked(root_v@) =~= roots(h0, d));
        let reach_v = reach_closure(heap, &root_v);

        // pass three: destroy every walked box that no root reaches, and take the handles
        // those boxes held off the counts of the boxes that survive
        let mut dying_v: Vec<bool> = Vec::new();
        let mut x: usize = 0;
        while x < n
            invariant
                x <= n,
                scanned_v@.len() == n,
                reach_v@.len() == n,
                dying_v@.len() == x,
                forall|y: int| 0 <= y < x ==> #[trigger] dying_v@[y] == (scanned_v@[y] && !reach_v@[y]),
            decreases n - x,
        {
            dying_v.push(scanned_v[x] && !reach_v[x]);
            x = x + 1;
        }
        let ghost dset = dying(h0, d);
        assert(marked(dying_v@) =~= dset);
        let dec = count_refs(heap, &dying_v);
        let mut x: usize = 0;
        while x < n
            invariant
                n == h0.size(),
                heap.size() == n,
                x <= n,
                dying_v@.len() == n,
                dec@.len() == n,
                forall|y: int| 0 <= y < n ==> #[trigger] dying_v@[y] == dies(h0, d, y),
                forall|y: int| 0 <= y < n ==> #[trigger] dec@[y] == sat(h0.refs_from(dset, y)),
                dset == dying(h0, d),
                h0.wf(),
                h0.counts_cover(),
                crate::laws::dirty_live(h0, d),
                forall|y: int|
                    0 <= y < x ==> if #[trigger] dies(h0, d, y) {
                        &&& heap.boxes@[y].freed
                        &&& heap.count(y) == 0
                        &&& heap.kids(y).len() == 0
                    } else {
                        &&& heap.boxes@[y].freed == h0.boxes@[y].freed
                        &&& heap.count(y) == h0.count(y) - h0.refs_from(dset, y)
                        &&& heap.kids(y) == h0.kids(y)
                    },
                forall|y: int| x <= y < n ==> #[trigger] heap.boxes@[y] == h0.boxes@[y],
            decreases n - x,
        {
            assert(heap.boxes@[x as int] == h0.boxes@[x as int]);
            if dying_v[x] {
                let mut bx = heap.boxes.remove(x);
                bx.ref_count = 0;
                bx.children = Vec::new();
                bx.freed = true;
                heap.boxes.insert(x, bx);
            } else {
                proof {
                    crate::laws::lemma_dying_refs_bounded(h0, d, x as int);
                }
                let mut bx = heap.boxes.remove(x);
                bx.ref_count = bx.ref_count - dec[x];
                heap.boxes.insert(x, bx);
            }
            x = x + 1;
        }
        proof {
            let h1 = *heap;
            assert(collected(h0, d, h1));
            assert forall|a: int, j: int|
                0 <= a < h1.size() && 0 <= j < h1.kids(a).len() implies h1.live(
                #[trigger] h1.kids(a)[j] as int) by {
                let c = h1.kids(a)[j] as int;
                assert(!dies(h0, d, a));
                assert(h0.live(c));
                assert(h0.edge(a, c));
                if dies(h0, d, c) {
                    crate::laws::lemma_no_premature_free(h0, d, c);
                }
            };
            assert forall|a: int| 0 <= a < h1.size() && #[trigger] h1.boxes@[a].freed implies h1.kids(a).len()
                == 0 && h1.count(a) == 0 by {
                if !dies(h0, d, a) {
                    assert(h0.boxes@[a].freed);
                    crate::laws::lemma_dying_refs_bounded(h0, d, a);
                }
            };
            assert forall|b: int| #[trigger] h1.live(b) implies h1.count(b) >= h1.refs_from(h1.all(), b)
                && h1.count(b) > 0 by {
                assert(!dies(h0, d, b));
                assert(h0.live(b));
                crate::laws::lemma_collected_excess(h0, d, h1, b);
                crate::laws::lemma_survivor_positive(h0, d, b);
            };
        }
        self.to_collect = Vec::new();
        assert(self.dirty() =~= Set::empty());
    }
}

} // verus!
