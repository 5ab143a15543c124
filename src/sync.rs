//! The thread-safe variant's bookkeeping registry: a fixed-size open-addressing table
//! keyed by allocation identity, probed linearly from the key's hash slot.
use vstd::prelude::*;

use crate::erased::ErasedPtr;
use crate::heap::Heap;
use crate::unsync::{collected, default_condition_holds, CollectInfo};
use crate::AllocationId;

verus! {

/// The number of slots in the table.
pub const TABLE_SIZE: usize = 4096;

/// What is needed to collect an allocation later: the erased pointer to its box.
#[derive(Clone, Copy, Debug, PartialEq, Eq, Structural)]
pub struct TrashCan {
    pub ptr: ErasedPtr,
}

/// One slot of the table. A slot whose entry was removed stays `Deleted`, so that probes
/// for keys stored further along its chain pass over it.
#[derive(Clone, Copy, Debug, PartialEq, Eq, Structural)]
pub enum Slot {
    Vacant,
    Deleted,
    Full(AllocationId, TrashCan),
}

/// A collect condition for the shared variant that never collects.
pub fn sync_never_collect(_info: &CollectInfo) -> (r: bool)
    ensures
        !r,
{
    false
}

/// Whether a drop in the shared variant triggers a collection: when the table is full, or
/// when twice the drops since the last collection reach the living handles.
pub fn should_collect(info: &CollectInfo, table: &Dumpster) -> (r: bool)
    requires
        table.wf(),
    ensures
        r == (n_occupied(table@) > TABLE_SIZE / 2 || default_condition_holds(*info)),
{
    table.is_full() || crate::unsync::default_collect_condition(info)
}

/// The hash slot of a key: its bits folded once and reduced to the table size.
pub open spec fn hash_slot(k: AllocationId) -> int {
    ((k.0 ^ (k.0 >> 12usize)) % TABLE_SIZE) as int
}

/// The slot probed at the given offset for a key.
pub open spec fn probe(k: AllocationId, off: int) -> int {
    (hash_slot(k) + off) % (TABLE_SIZE as int)
}

/// Whether slot `i` holds key `k`.
pub open spec fn holds(s: Seq<Slot>, k: AllocationId, i: int) -> bool {
    match s[i] {
        Slot::Full(k2, _) => k2 == k,
        _ => false,
    }
}

/// Whether some slot holds key `k`.
pub open spec fn present(s: Seq<Slot>, k: AllocationId) -> bool {
    exists|i: int| 0 <= i < TABLE_SIZE && #[trigger] holds(s, k, i)
}

/// Whether slot `i` can take an entry: it is vacant or deleted.
pub open spec fn free(s: Seq<Slot>, i: int) -> bool {
    !(s[i] is Full)
}

/// Whether `off` is the first offset at which the probe for `k` meets a free slot.
pub open spec fn first_free(s: Seq<Slot>, k: AllocationId, off: int) -> bool {
    &&& 0 <= off < TABLE_SIZE
    &&& free(s, probe(k, off))
    &&& forall|o: int| 0 <= o < off ==> !free(s, #[trigger] probe(k, o))
}

/// Whether the probe for `k` meets no free slot in the whole table.
pub open spec fn no_free(s: Seq<Slot>, k: AllocationId) -> bool {
    forall|o: int| 0 <= o < TABLE_SIZE ==> !free(s, #[trigger] probe(k, o))
}

/// No two slots hold the same key.
pub open spec fn unique_keys(s: Seq<Slot>) -> bool {
    forall|k: AllocationId, i: int, j: int|
        0 <= i < TABLE_SIZE && 0 <= j < TABLE_SIZE && #[trigger] holds(s, k, i) && #[trigger] holds(s, k, j) ==> i == j
}

/// Every key sits on its probe chain with no vacant slot before it.
pub open spec fn chained(s: Seq<Slot>) -> bool {
    forall|k: AllocationId, off: int, o: int|
        0 <= o < off < TABLE_SIZE && #[trigger] holds(s, k, probe(k, off)) ==> !(#[trigger] s[probe(k, o)] is Vacant)
}

/// The offset at which the probe for `k` reaches slot `i`.
pub open spec fn offset_of(k: AllocationId, i: int) -> int {
    if i >= hash_slot(k) {
        i - hash_slot(k)
    } else {
        i - hash_slot(k) + TABLE_SIZE
    }
}

proof fn lemma_offset_of(k: AllocationId, i: int)
    requires
        0 <= i < TABLE_SIZE,
    ensures
        0 <= offset_of(k, i) < TABLE_SIZE,
        probe(k, offset_of(k, i)) == i,
{
    assert(0 <= hash_slot(k) < TABLE_SIZE);
    if i >= hash_slot(k) {
        assert((hash_slot(k) + (i - hash_slot(k))) % (TABLE_SIZE as int) == i);
    } else {
        assert((hash_slot(k) + (i - hash_slot(k) + TABLE_SIZE)) % (TABLE_SIZE as int) == i);
    }
}

/// Two offsets below the table size probe two different slots.
proof fn lemma_probe_injective(k: AllocationId, a: int, b: int)
    requires
        0 <= a < TABLE_SIZE,
        0 <= b < TABLE_SIZE,
        probe(k, a) == probe(k, b),
    ensures
        a == b,
{
    let h = hash_slot(k);
    assert(0 <= h < TABLE_SIZE);
    let ts = TABLE_SIZE as int;
    assert((h + a) % ts == if h + a < ts { h + a } else { h + a - ts });
    assert((h + b) % ts == if h + b < ts { h + b } else { h + b - ts });
}

/// A probe for `k` that passed no slot holding `k` and stops at a vacant slot, or runs
/// through the whole table, shows that no slot holds `k`.
proof fn lemma_absent(s: Seq<Slot>, k: AllocationId, v: int)
    requires
        s.len() == TABLE_SIZE,
        chained(s),
        0 <= v <= TABLE_SIZE,
        v < TABLE_SIZE ==> s[probe(k, v)] is Vacant,
        forall|o: int| 0 <= o < v ==> !holds(s, k, #[trigger] probe(k, o)),
    ensures
        !present(s, k),
{
    if present(s, k) {
        let i = choose|i: int| 0 <= i < TABLE_SIZE && #[trigger] holds(s, k, i);
        lemma_offset_of(k, i);
        let off = offset_of(k, i);
        assert(holds(s, k, probe(k, off)));
        if off < v {
        } else if off > v {
            assert(!(s[probe(k, v)] is Vacant));
        } else {
        }
    }
}

/// The number of slots holding an entry.
pub open spec fn n_occupied(s: Seq<Slot>) -> nat
    decreases s.len(),
{
    if s.len() == 0 {
        0
    } else {
        n_occupied(s.drop_last()) + if s.last() is Full { 1nat } else { 0nat }
    }
}

/// The entries of the slots that hold one, in slot order.
pub open spec fn entries(s: Seq<Slot>) -> Seq<(AllocationId, TrashCan)>
    decreases s.len(),
{
    if s.len() == 0 {
        seq![]
    } else {
        match s.last() {
            Slot::Full(k, v) => entries(s.drop_last()).push((k, v)),
            _ => entries(s.drop_last()),
        }
    }
}

/// The boxes named by the entries of the table.
pub open spec fn keys(s: Seq<Slot>) -> Set<int> {
    Set::new(|i: int| exists|k: int| 0 <= k < entries(s).len() && #[trigger] entries(s)[k].0.0 == i)
}

/// A table with every slot vacant.
pub open spec fn empty_table() -> Seq<Slot> {
    Seq::new(TABLE_SIZE as nat, |i: int| Slot::Vacant)
}

proof fn lemma_occupied_update(s: Seq<Slot>, i: int, x: Slot)
    requires
        0 <= i < s.len(),
    ensures
        n_occupied(s.update(i, x)) + (if s[i] is Full { 1int } else { 0int })
            == n_occupied(s) + (if x is Full { 1int } else { 0int }),
    decreases s.len(),
{
    let t = s.update(i, x);
    if i == s.len() - 1 {
        assert(t.drop_last() =~= s.drop_last());
    } else {
        lemma_occupied_update(s.drop_last(), i, x);
        assert(t.drop_last() =~= s.drop_last().update(i, x));
    }
}

proof fn lemma_occupied_bound(s: Seq<Slot>)
    ensures
        n_occupied(s) <= s.len(),
    decreases s.len(),
{
    if s.len() > 0 {
        lemma_occupied_bound(s.drop_last());
    }
}

/// A hash table for storing cleanup records of allocations that may need collecting.
#[derive(Debug)]
pub struct Dumpster {
    table: Vec<Slot>,
    n_entries: usize,
}

impl Dumpster {
    /// The table's slots.
    pub closed spec fn view(&self) -> Seq<Slot> {
        self.table@
    }

    /// The table has its fixed size, the entry counter counts the occupied slots, each key
    /// is held at most once, and each key is reachable along its probe chain.
    pub closed spec fn wf(&self) -> bool {
        &&& self.table@.len() == TABLE_SIZE
        &&& self.n_entries == n_occupied(self.table@)
        &&& unique_keys(self.table@)
        &&& chained(self.table@)
    }

    /// A well-formed table has its fixed number of slots, at most that many entries, and
    /// each key in at most one slot.
    pub proof fn lemma_table_size(&self)
        requires
            self.wf(),
        ensures
            self@.len() == TABLE_SIZE,
            n_occupied(self@) <= TABLE_SIZE,
            unique_keys(self@),
    {
        lemma_occupied_bound(self.table@);
    }

    /// Construct a new, empty dumpster.
    pub fn new() -> (d: Dumpster)
        ensures
            d.wf(),
            d@ == empty_table(),
    {
        let mut table: Vec<Slot> = Vec::new();
        let mut i: usize = 0;
        while i < TABLE_SIZE
            invariant
                i <= TABLE_SIZE,
                table@ == Seq::new(i as nat, |j: int| Slot::Vacant),
                n_occupied(table@) == 0,
            decreases TABLE_SIZE - i,
        {
            let ghost before = table@;
            table.push(Slot::Vacant);
            assert(table@.drop_last() =~= before);
            i = i + 1;
            assert(table@ =~= Seq::new(i as nat, |j: int| Slot::Vacant));
        }
        assert(table@ =~= empty_table());
        Dumpster { table, n_entries: 0 }
    }

    /// The hash slot of a key.
    fn slot_of(key: AllocationId) -> (r: usize)
        ensures
            r == hash_slot(key),
            r < TABLE_SIZE,
    {
        (key.0 ^ (key.0 >> 12usize)) % TABLE_SIZE
    }

    /// Attempt to insert an entry. When some slot holds `key` the table is left alone
    /// (`Ok(false)`). Otherwise the probe for `key` runs until a vacant slot, and the first
    /// free (vacant or deleted) slot it met takes the entry (`Ok(true)`); when the probe
    /// meets no free slot in the whole table, the insertion fails.
    pub fn try_insert(&mut self, key: AllocationId, value: TrashCan) -> (r: Result<bool, ()>)
        requires
            old(self).wf(),
        ensures
            final(self).wf(),
            (r == Ok::<bool, ()>(false)) <==> present(old(self)@, key),
            (r is Err) <==> (!present(old(self)@, key) && no_free(old(self)@, key)),
            !(r == Ok::<bool, ()>(true)) ==> final(self)@ == old(self)@,
            forall|off: int|
                first_free(old(self)@, key, off) && !present(old(self)@, key) ==> r == Ok::<bool, ()>(true)
                    && final(self)@ == old(self)@.update(probe(key, off), Slot::Full(key, value)),
            !(r is Err) ==> present(final(self)@, key),
    {
        let h = Self::slot_of(key);
        let mut off: usize = 0;
        let mut done = false;
        let mut free_off: usize = TABLE_SIZE;
        while off < TABLE_SIZE && !done
            invariant
                self.wf(),
                *self == *old(self),
                h == hash_slot(key),
                off <= TABLE_SIZE,
                done ==> off < TABLE_SIZE && self@[probe(key, off as int)] is Vacant && free_off < TABLE_SIZE,
                forall|o: int| 0 <= o < off ==> !holds(self@, key, #[trigger] probe(key, o)),
                forall|o: int| 0 <= o < off ==> !(#[trigger] self@[probe(key, o)] is Vacant),
                free_off <= TABLE_SIZE,
                free_off < TABLE_SIZE ==> free_off <= off && first_free(self@, key, free_off as int),
                free_off == TABLE_SIZE ==> forall|o: int| 0 <= o < off ==> !free(self@, #[trigger] probe(key, o)),
            decreases 2 * (TABLE_SIZE - off) + if done { 0int } else { 1int },
        {
            let idx: usize = (h + off) % TABLE_SIZE;
            assert(idx == probe(key, off as int));
            match self.table[idx] {
                Slot::Full(k2, _) => {
                    if k2 == key {
                        assert(holds(self@, key, idx as int));
                        return Ok(false);
                    }
                    off = off + 1;
                },
                Slot::Vacant => {
                    if free_off == TABLE_SIZE {
                        free_off = off;
                    }
                    done = true;
                },
                Slot::Deleted => {
                    if free_off == TABLE_SIZE {
                        free_off = off;
                    }
                    off = off + 1;
                },
            }
        }
        proof {
            lemma_absent(self@, key, off as int);
        }
        if free_off == TABLE_SIZE {
            assert(off == TABLE_SIZE);
            assert forall|off2: int| !first_free(self@, key, off2) by {
                if first_free(self@, key, off2) {
                    assert(!free(self@, probe(key, off2)));
                }
            };
            return Err(());
        }
        let i: usize = (h + free_off) % TABLE_SIZE;
        proof {
            let s = self.table@;
            let t = s.update(i as int, Slot::Full(key, value));
            assert(i == probe(key, free_off as int));
            assert forall|off2: int| first_free(s, key, off2) implies off2 == free_off by {
                if off2 < free_off {
                    assert(!free(s, probe(key, off2)));
                }
                if off2 > free_off {
                    assert(!free(s, probe(key, free_off as int)));
                }
            };
            lemma_occupied_update(s, i as int, Slot::Full(key, value));
            lemma_occupied_bound(s);
            assert(n_occupied(s) < TABLE_SIZE) by {
                lemma_occupied_update(s, i as int, Slot::Full(key, value));
                lemma_occupied_bound(t);
            };
            assert forall|k: AllocationId, a: int, b: int|
                0 <= a < TABLE_SIZE && 0 <= b < TABLE_SIZE && #[trigger] holds(t, k, a) && #[trigger] holds(t, k, b)
                implies a == b by {
                if a != i && b != i {
                    assert(holds(s, k, a) && holds(s, k, b));
                } else if a == i && b != i {
                    assert(holds(s, key, b));
                } else if b == i && a != i {
                    assert(holds(s, key, a));
                }
            };
            assert forall|k: AllocationId, offk: int, o: int|
                0 <= o < offk < TABLE_SIZE && #[trigger] holds(t, k, probe(k, offk)) implies !(#[trigger] t[probe(k, o)] is Vacant) by {
                if probe(k, offk) == i {
                    assert(k == key);
                    if probe(k, o) != i {
                        if o < free_off {
                            assert(!free(s, probe(key, o)));
                        } else {
                            // the probe at `free_off` ends the search for the first free slot
                            lemma_offset_of(key, i as int);
                            assert(offk == free_off) by {
                                lemma_probe_injective(key, offk, free_off as int);
                            };
                        }
                    }
                } else {
                    assert(holds(s, k, probe(k, offk)));
                    if probe(k, o) != i {
                        assert(!(s[probe(k, o)] is Vacant));
                    }
                }
            };
            assert(holds(t, key, i as int));
        }
        self.table.set(i, Slot::Full(key, value));
        self.n_entries = self.n_entries + 1;
        Ok(true)
    }

    /// Remove the entry for `key`: the probe for `key` runs until the slot holding it,
    /// which becomes deleted, or until a vacant slot. Returns whether the key was held;
    /// afterwards no slot holds it.
    pub fn remove(&mut self, key: AllocationId) -> (r: bool)
        requires
            old(self).wf(),
        ensures
            final(self).wf(),
            r == present(old(self)@, key),
            !r ==> final(self)@ == old(self)@,
            forall|i: int| 0 <= i < TABLE_SIZE && #[trigger] holds(old(self)@, key, i) ==> final(self)@ == old(self)@.update(i, Slot::Deleted),
            !present(final(self)@, key),
    {
        let h = Self::slot_of(key);
        let mut off: usize = 0;
        while off < TABLE_SIZE
            invariant
                self.wf(),
                *self == *old(self),
                h == hash_slot(key),
                off <= TABLE_SIZE,
                forall|o: int| 0 <= o < off ==> !holds(self@, key, #[trigger] probe(key, o)),
                forall|o: int| 0 <= o < off ==> !(#[trigger] self@[probe(key, o)] is Vacant),
            decreases TABLE_SIZE - off,
        {
            let idx: usize = (h + off) % TABLE_SIZE;
            assert(idx == probe(key, off as int));
            match self.table[idx] {
                Slot::Full(k2, _) => {
                    if k2 == key {
                        proof {
                            let s = self.table@;
                            let t = s.update(idx as int, Slot::Deleted);
                            assert(holds(s, key, idx as int));
                            lemma_occupied_update(s, idx as int, Slot::Deleted);
                            assert forall|k: AllocationId, a: int, b: int|
                                0 <= a < TABLE_SIZE && 0 <= b < TABLE_SIZE && #[trigger] holds(t, k, a) && #[trigger] holds(t, k, b)
                                implies a == b by {
                                assert(holds(s, k, a) && holds(s, k, b));
                            };
                            assert forall|k: AllocationId, offk: int, o: int|
                                0 <= o < offk < TABLE_SIZE && #[trigger] holds(t, k, probe(k, offk)) implies !(#[trigger] t[probe(k, o)] is Vacant) by {
                                assert(holds(s, k, probe(k, offk)));
                                if probe(k, o) != idx {
                                    assert(!(s[probe(k, o)] is Vacant));
                                }
                            };
                            assert forall|i: int| 0 <= i < TABLE_SIZE && #[trigger] holds(s, key, i) implies i == idx by {};
                            assert(!present(t, key)) by {
                                if present(t, key) {
                                    let j = choose|j: int| 0 <= j < TABLE_SIZE && #[trigger] holds(t, key, j);
                                    assert(holds(s, key, j));
                                }
                            };
                        }
                        self.table.set(idx, Slot::Deleted);
                        self.n_entries = self.n_entries - 1;
                        return true;
                    }
                },
                Slot::Vacant => {
                    proof {
                        lemma_absent(self@, key, off as int);
                    }
                    return false;
                },
                Slot::Deleted => {},
            }
            off = off + 1;
        }
        proof {
            lemma_absent(self@, key, TABLE_SIZE as int);
        }
        false
    }

    /// The number of entries currently in the table.
    pub fn len(&self) -> (r: usize)
        requires
            self.wf(),
        ensures
            r == n_occupied(self@),
            r <= TABLE_SIZE,
            self@.len() == TABLE_SIZE,
    {
        proof {
            lemma_occupied_bound(self.table@);
        }
        self.n_entries
    }

    /// Whether the table is full, and needs to be emptied: more than half of its slots
    /// are taken.
    pub fn is_full(&self) -> (r: bool)
        requires
            self.wf(),
        ensures
            r == (n_occupied(self@) > TABLE_SIZE / 2),
    {
        self.len() > TABLE_SIZE / 2
    }

    /// Move every entry out of the table, in slot order.
    pub fn drain(self) -> (r: Vec<(AllocationId, TrashCan)>)
        requires
            self.wf(),
        ensures
            r@ == entries(self@),
    {
        let mut out: Vec<(AllocationId, TrashCan)> = Vec::new();
        let mut i: usize = 0;
        while i < TABLE_SIZE
            invariant
                self.wf(),
                i <= TABLE_SIZE,
                out@ == entries(self@.take(i as int)),
            decreases TABLE_SIZE - i,
        {
            assert(self@.take(i + 1).drop_last() =~= self@.take(i as int));
            match self.table[i] {
                Slot::Full(k, v) => out.push((k, v)),
                _ => {},
            }
            i = i + 1;
        }
        assert(self@.take(TABLE_SIZE as int) =~= self@);
        out
    }

    /// Collect every unreachable allocation that the table registers: drain the table in
    /// slot order, walk from the drained boxes, and destroy every walked box that no root
    /// reaches. The table is left empty.
    pub fn collect_all(&mut self, heap: &mut Heap)
        requires
            old(self).wf(),
            old(heap).wf(),
            old(heap).counts_cover(),
            forall|i: int| #[trigger] keys(old(self)@).contains(i) ==> old(heap).live(i),
        ensures
            final(self).wf(),
            final(self)@ == empty_table(),
            collected(*old(heap), keys(old(self)@), *final(heap)),
            final(heap).wf(),
            final(heap).counts_cover(),
    {
        let mut table = Dumpster::new();
        std::mem::swap(self, &mut table);
        let ghost s0 = table@;
        let drained = table.drain();
        let mut local = crate::unsync::Dumpster::new();
        let mut k: usize = 0;
        while k < drained.len()
            invariant
                drained@ == entries(s0),
                k <= drained@.len(),
                local.unique(),
                local.dirty() == Set::new(|i: int| exists|l: int| 0 <= l < k && #[trigger] drained@[l].0.0 == i),
                local.info() == (CollectInfo { n_ref_drops: 0, n_refs_living: 0 }),
            decreases drained@.len() - k,
        {
            let ghost before = local.dirty();
            local.mark_dirty(drained[k].0);
            k = k + 1;
            assert(local.dirty() =~= Set::new(|i: int| exists|l: int| 0 <= l < k && #[trigger] drained@[l].0.0 == i)) by {
                assert forall|i: int| #[trigger] local.dirty().contains(i) implies (exists|l: int| 0 <= l < k && #[trigger] drained@[l].0.0 == i) by {
                    if i == drained@[k - 1].0.0 {
                    } else {
                        assert(before.contains(i));
                        let l = choose|l: int| 0 <= l < k - 1 && #[trigger] drained@[l].0.0 == i;
                        assert(drained@[l].0.0 == i);
                    }
                };
                assert forall|i: int| (exists|l: int| 0 <= l < k && #[trigger] drained@[l].0.0 == i) implies #[trigger] local.dirty().contains(i) by {
                    let l = choose|l: int| 0 <= l < k && #[trigger] drained@[l].0.0 == i;
                    if l < k - 1 {
                        assert(before.contains(i));
                    }
                };
            };
        }
        assert(local.dirty() =~= keys(s0));
        local.collect_all(heap);
    }
}

impl Dumpster {
    /// Register box `key` after one of its handles was dropped with its count still
    /// positive. When the probe for `key` runs through a full table, every registered
    /// allocation is collected first and the insertion tried once more, on the emptied
    /// table; a box that this collection destroyed is not registered. Returns whether a new
    /// entry was added.
    pub fn register(&mut self, key: AllocationId, value: TrashCan, heap: &mut Heap) -> (r: bool)
        requires
            old(self).wf(),
            old(heap).wf(),
            old(heap).counts_cover(),
            forall|i: int| #[trigger] keys(old(self)@).contains(i) ==> old(heap).live(i),
            old(heap).live(key.0 as int),
        ensures
            final(self).wf(),
            !(!present(old(self)@, key) && no_free(old(self)@, key)) ==> {
                &&& *final(heap) == *old(heap)
                &&& r == !present(old(self)@, key)
                &&& present(old(self)@, key) ==> final(self)@ == old(self)@
                &&& forall|off: int|
                    first_free(old(self)@, key, off) && !present(old(self)@, key) ==> final(self)@
                        == old(self)@.update(probe(key, off), Slot::Full(key, value))
            },
            !present(old(self)@, key) && no_free(old(self)@, key) ==> {
                &&& collected(*old(heap), keys(old(self)@), *final(heap))
                &&& final(heap).wf()
                &&& final(heap).counts_cover()
                &&& r == final(heap).live(key.0 as int)
                &&& final(self)@ == if r {
                    empty_table().update(probe(key, 0), Slot::Full(key, value))
                } else {
                    empty_table()
                }
            },
    {
        match self.try_insert(key, value) {
            Ok(added) => added,
            Err(()) => {
                self.collect_all(heap);
                if heap.boxes[key.0].freed {
                    false
                } else {
                    let ghost empty = self@;
                    proof {
                        assert(first_free(empty, key, 0));
                        assert(!present(empty, key));
                    }
                    match self.try_insert(key, value) {
                        Ok(added) => added,
                        Err(()) => false,
                    }
                }
            },
        }
    }
}

impl Default for Dumpster {
    fn default() -> (d: Dumpster)
        ensures
            d.wf(),
            d@ == empty_table(),
    {
        Dumpster::new()
    }
}

} // verus!
