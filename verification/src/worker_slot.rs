//! Worker slots and the mapping from virtual nodes to worker slots.

use vstd::prelude::*;

verus! {

/// Identifier of a worker node.
pub type WorkerId = u32;

/// One of the slots that a worker node offers to actors.
#[derive(Debug, Clone, Copy, PartialEq, Eq, PartialOrd, Ord, Hash, Structural)]
pub struct WorkerSlotId {
    /// The worker node that offers the slot.
    pub worker_id: WorkerId,
    /// The position of the slot among the slots of its worker.
    pub slot_idx: usize,
}

impl WorkerSlotId {
    /// Slots are ordered by worker first and by position second.
    pub open spec fn precedes(self, other: WorkerSlotId) -> bool {
        ||| self.worker_id < other.worker_id
        ||| self.worker_id == other.worker_id && self.slot_idx < other.slot_idx
    }

    /// The slot at position `slot_idx` of worker `worker_id`.
    pub fn new(worker_id: WorkerId, slot_idx: usize) -> (slot: WorkerSlotId)
        ensures
            slot == (WorkerSlotId { worker_id, slot_idx }),
    {
        WorkerSlotId { worker_id, slot_idx }
    }

    /// The worker node that offers the slot.
    pub fn worker_id(&self) -> (id: WorkerId)
        ensures
            id == self.worker_id,
    {
        self.worker_id
    }
}

/// Whether each slot precedes those that follow it in the sequence.
pub open spec fn ascending(slots: Seq<WorkerSlotId>) -> bool {
    forall|i: int, j: int| 0 <= i < j < slots.len() ==> (#[trigger] slots[i]).precedes(
        #[trigger] slots[j],
    )
}

/// In ascending order the workers ascend, and so do the positions of the slots of one worker.
pub proof fn law_ascending_goes_by_worker_and_position(slots: Seq<WorkerSlotId>)
    requires
        ascending(slots),
    ensures
        forall|i: int, j: int|
            0 <= i < j < slots.len() ==> {
                ||| (#[trigger] slots[i]).worker_id < (#[trigger] slots[j]).worker_id
                ||| slots[i].worker_id == slots[j].worker_id && slots[i].slot_idx
                    < slots[j].slot_idx
            },
{
    assert forall|i: int, j: int| 0 <= i < j < slots.len() implies {
        ||| (#[trigger] slots[i]).worker_id < (#[trigger] slots[j]).worker_id
        ||| slots[i].worker_id == slots[j].worker_id && slots[i].slot_idx < slots[j].slot_idx
    } by {
        assert(slots[i].precedes(slots[j]));
    }
}

/// There is only one way to list a set of slots in ascending order.
pub proof fn law_ascending_order_is_unique(a: Seq<WorkerSlotId>, b: Seq<WorkerSlotId>)
    requires
        ascending(a),
        ascending(b),
        forall|slot: WorkerSlotId| #[trigger] a.contains(slot) <==> b.contains(slot),
    ensures
        a == b,
    decreases a.len(),
{
    if a.len() == 0 {
        if b.len() > 0 {
            assert(b.contains(b[0]));
            assert(a.contains(b[0]));
        }
        assert(a =~= b);
    } else {
        assert(a.contains(a.last()));
        assert(b.contains(a.last()));
        assert(b.contains(b.last()));
        assert(a.contains(b.last()));
        let i = choose|i: int| 0 <= i < b.len() && b[i] == a.last();
        let j = choose|j: int| 0 <= j < a.len() && a[j] == b.last();
        assert(a.last() == b.last());
        let (p, q) = (a.drop_last(), b.drop_last());
        assert forall|slot: WorkerSlotId| #[trigger] p.contains(slot) <==> q.contains(slot) by {
            if p.contains(slot) {
                let k = choose|k: int| 0 <= k < p.len() && p[k] == slot;
                assert(a[k] == slot);
                assert(a.contains(slot));
                let m = choose|m: int| 0 <= m < b.len() && b[m] == slot;
                assert(a[k].precedes(a[a.len() - 1]));
                assert(q[m] == slot);
            }
            if q.contains(slot) {
                let k = choose|k: int| 0 <= k < q.len() && q[k] == slot;
                assert(b[k] == slot);
                assert(b.contains(slot));
                assert(a.contains(slot));
                let m = choose|m: int| 0 <= m < a.len() && a[m] == slot;
                assert(b[k].precedes(b[b.len() - 1]));
                assert(p[m] == slot);
            }
        }
        law_ascending_order_is_unique(p, q);
        assert(a =~= p.push(a.last()));
        assert(b =~= q.push(b.last()));
    }
}

/// Adds a slot to a list in ascending order, unless it is there.
fn insert_slot(slots: &mut Vec<WorkerSlotId>, slot: WorkerSlotId)
    requires
        ascending(old(slots)@),
    ensures
        ascending(final(slots)@),
        forall|other: WorkerSlotId| #[trigger]
            final(slots)@.contains(other) <==> old(slots)@.contains(other) || other == slot,
{
    let mut i: usize = 0;
    while i < slots.len() && (slots[i].worker_id < slot.worker_id || slots[i].worker_id
        == slot.worker_id && slots[i].slot_idx < slot.slot_idx)
        invariant
            i <= slots.len(),
            slots@ == old(slots)@,
            forall|j: int| 0 <= j < i ==> (#[trigger] slots@[j]).precedes(slot),
        decreases slots.len() - i,
    {
        i = i + 1;
    }
    if i < slots.len() && slots[i].worker_id == slot.worker_id && slots[i].slot_idx
        == slot.slot_idx {
        assert(slots@[i as int] == slot);
        return;
    }
    slots.insert(i, slot);
    proof {
        let before = old(slots)@;
        assert(slots@ =~= before.insert(i as int, slot));
        assert(i < before.len() ==> slot.precedes(before[i as int]));
        assert(slots@[i as int] == slot);
        assert forall|other: WorkerSlotId| #[trigger]
            slots@.contains(other) <==> before.contains(other) || other == slot by {
            if before.contains(other) {
                let j = choose|j: int| 0 <= j < before.len() && before[j] == other;
                assert(slots@[if j < i { j } else { j + 1 }] == other);
            }
            if slots@.contains(other) && other != slot {
                let j = choose|j: int| 0 <= j < slots@.len() && slots@[j] == other;
                assert(before[if j < i { j } else { j - 1 }] == other);
            }
        }
        assert forall|j: int, k: int| 0 <= j < k < slots@.len() implies (
            #[trigger] slots@[j]).precedes(#[trigger] slots@[k]) by {
            let (x, y) = (if j < i { j } else { j - 1 }, if k < i { k } else { k - 1 });
            if j != i && k != i {
                assert(before[x].precedes(before[y]));
            } else if j == i {
                assert(i < before.len());
                if i < y {
                    assert(before[i as int].precedes(before[y]));
                }
            }
        }
    }
}

/// A hash mapping: for each virtual node the worker slot that it is mapped to.
#[derive(Debug, PartialEq, Eq)]
pub struct WorkerSlotMapping {
    /// The worker slot of each virtual node, in the order of the virtual nodes.
    pub slots: Vec<WorkerSlotId>,
}

impl View for WorkerSlotMapping {
    type V = Seq<WorkerSlotId>;

    open spec fn view(&self) -> Seq<WorkerSlotId> {
        self.slots@
    }
}

/// A mapping stands for the slots that it holds, one for each virtual node: two mappings are the
/// same exactly if they map every virtual node to the same slot.
pub proof fn law_mapping_is_its_slots(a: WorkerSlotMapping, b: WorkerSlotMapping)
    ensures
        a@.len() == a.slots@.len(),
        forall|vnode: int| 0 <= vnode < a.slots@.len() ==> #[trigger] a@[vnode] == a.slots@[vnode],
        a@ == b@ <==> {
            &&& a.slots@.len() == b.slots@.len()
            &&& forall|vnode: int|
                0 <= vnode < a.slots@.len() ==> #[trigger] a.slots@[vnode] == b.slots@[vnode]
        },
{
    if a.slots@.len() == b.slots@.len() && (forall|vnode: int|
        0 <= vnode < a.slots@.len() ==> #[trigger] a.slots@[vnode] == b.slots@[vnode]) {
        assert(a@ =~= b@);
    }
}

impl Clone for WorkerSlotMapping {
    fn clone(&self) -> (copy: WorkerSlotMapping)
        ensures
            copy@ == self@,
    {
        WorkerSlotMapping { slots: self.slots.clone() }
    }
}

impl WorkerSlotMapping {
    /// The number of virtual nodes that are mapped.
    pub fn len(&self) -> (n: usize)
        ensures
            n == self@.len(),
    {
        self.slots.len()
    }

    /// The worker slots that some virtual node is mapped to, each once, in ascending order.
    pub fn iter_unique(&self) -> (unique: Vec<WorkerSlotId>)
        ensures
            ascending(unique@),
            forall|slot: WorkerSlotId| #[trigger] unique@.contains(slot) <==> self@.contains(slot),
    {
        let mut unique: Vec<WorkerSlotId> = Vec::new();
        let mut i: usize = 0;
        while i < self.slots.len()
            invariant
                i <= self@.len(),
                ascending(unique@),
                forall|slot: WorkerSlotId| #[trigger]
                    unique@.contains(slot) <==> self@.take(i as int).contains(slot),
            decreases self@.len() - i,
        {
            let ghost before = unique@;
            let slot = self.slots[i];
            insert_slot(&mut unique, slot);
            proof {
                let (seen, now) = (self@.take(i as int), self@.take(i + 1));
                assert(now =~= seen.push(slot));
                assert forall|other: WorkerSlotId| #[trigger]
                    unique@.contains(other) <==> now.contains(other) by {
                    seen.lemma_push_to_set_commute(slot);
                    assert(now.to_set().contains(other) <==> seen.to_set().insert(slot).contains(
                        other,
                    ));
                }
            }
            i = i + 1;
        }
        assert(self@.take(i as int) =~= self@);
        unique
    }
}

} // verus!
