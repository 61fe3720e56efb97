//! The scheduler of a streaming job.

use std::collections::{BTreeMap, HashMap};
use vstd::prelude::*;

use crate::distribution::{Distribution, DistributionView};
use crate::fragment_graph::{
    CompleteStreamFragmentGraph, Demand, NodeBody, decides, demand_of, law_demands_follow_the_graph,
    law_no_more_is_demanded, meets,
};
use crate::graph_facts::{
    collect_facts, collect_hash_mappings, demand_for, describes, indexes, is_indexed,
    law_requirements_are_the_demands, lemma_resolves_as_decided, mapping_len, mapping_views,
    matches_demands,
};
use crate::grouping::{exactly_one, into_group_map, lemma_values_of, values_of};
use crate::locations::WorkerNode;
use crate::maps::{keys_of, sorted_entries};
use crate::propagation::{DispatcherType, Id, connected, lemma_connected_step, propagate, required};
use crate::requirement::{
    HashMappingId, IncompatibleReqs, Req, computes, law_merging_is_order_free, resolves,
};
use crate::worker_slot::{WorkerId, WorkerSlotId, WorkerSlotMapping, ascending};

verus! {

/// [`Scheduler`] schedules the distribution of fragments in a stream graph.
#[derive(Debug)]
pub struct Scheduler {
    /// Worker slots to schedule. Used to generate a mapping if a vnode count other than the
    /// default is required.
    pub scheduled_worker_slots: Vec<WorkerSlotId>,
    /// The default hash mapping for hash-distributed fragments, if there's no requirement derived.
    pub default_hash_mapping: WorkerSlotMapping,
    /// The default worker slot for singleton fragments, if there's no requirement derived.
    pub default_singleton_worker_slot: WorkerSlotId,
}

/// The requirements on a fragment cannot be fulfilled together.
#[derive(Debug, Clone, Copy, PartialEq, Eq)]
pub struct ScheduleError {
    pub fragment: Id,
    /// Two requirements on the fragment that cannot hold together.
    pub conflict: IncompatibleReqs,
}

/// Whether one of two different demands only asks for the vnode count of the placement that the
/// other one names.
pub open spec fn compatible(a: Demand, b: Demand) -> bool {
    ||| !(b is AnyVnodeCount) && a.asks_only_for(b.vnode_count())
    ||| !(a is AnyVnodeCount) && b.asks_only_for(a.vnode_count())
}

/// Whether the two requirements stand for two of the demands that are not compatible, in the
/// given list of hash mappings.
pub open spec fn is_conflict(
    demands: Set<Demand>,
    conflict: IncompatibleReqs,
    mappings: Seq<Seq<WorkerSlotId>>,
) -> bool {
    let (a, b) = (demand_for(conflict.a, mappings), demand_for(conflict.b, mappings));
    &&& is_indexed(conflict.a, mappings)
    &&& is_indexed(conflict.b, mappings)
    &&& demands.contains(a)
    &&& demands.contains(b)
    &&& a != b
    &&& !compatible(a, b)
}

/// The number of slots that each worker offers.
pub open spec fn offered_slots(workers: Map<WorkerId, WorkerNode>) -> Map<WorkerId, usize> {
    Map::new(|id: WorkerId| workers.contains_key(id), |id: WorkerId| workers[id].parallelism)
}

/// The slots that are handed out where each worker gives the given number of its first slots.
pub open spec fn handed_out(units: Map<WorkerId, usize>) -> Set<WorkerSlotId> {
    Set::new(
        |slot: WorkerSlotId|
            units.contains_key(slot.worker_id) && slot.slot_idx < units[slot.worker_id],
    )
}

/// Whether the sequence lists the slots that are handed out, in ascending order.
pub open spec fn lists_handed_out(
    slots: Seq<WorkerSlotId>,
    units: Map<WorkerId, usize>,
) -> bool {
    &&& ascending(slots)
    &&& forall|slot: WorkerSlotId| #[trigger]
        slots.contains(slot) <==> handed_out(units).contains(slot)
}

/// Whether just one worker gives slots.
pub open spec fn is_single(units: Map<WorkerId, usize>) -> bool {
    exists|worker: WorkerId| #[trigger]
        units.contains_key(worker) && forall|other: WorkerId| #[trigger]
            units.contains_key(other) ==> other == worker
}

/// Lists the slots that are handed out where each worker gives the given number of its slots.
fn expand_slots(units: &BTreeMap<WorkerId, usize>) -> (slots: Vec<WorkerSlotId>)
    ensures
        lists_handed_out(slots@, units@),
{
    let entries = sorted_entries(units);
    let mut slots: Vec<WorkerSlotId> = Vec::new();
    let mut i: usize = 0;
    proof {
        assert forall|j: int| 0 <= j < entries@.len() implies units@.contains_key(
            (#[trigger] entries@[j]).0,
        ) && units@[entries@[j].0] == entries@[j].1 by {
            assert(entries@.contains((entries@[j].0, entries@[j].1)));
        }
    }
    while i < entries.len()
        invariant
            i <= entries.len(),
            forall|x: int, y: int|
                0 <= x < y < entries@.len() ==> (#[trigger] entries@[x]).0 < (
                #[trigger] entries@[y]).0,
            ascending(slots@),
            forall|slot: WorkerSlotId| #[trigger]
                slots@.contains(slot) <==> exists|j: int|
                    0 <= j < i && (#[trigger] entries@[j]).0 == slot.worker_id && slot.slot_idx
                        < entries@[j].1,
        decreases entries.len() - i,
    {
        let (worker, size) = entries[i];
        let ghost before = slots@;
        let mut n: usize = 0;
        while n < size
            invariant
                i < entries.len(),
                n <= size,
                entries@[i as int] == (worker, size),
                forall|x: int, y: int|
                    0 <= x < y < entries@.len() ==> (#[trigger] entries@[x]).0 < (
                    #[trigger] entries@[y]).0,
                forall|slot: WorkerSlotId| #[trigger]
                    before.contains(slot) ==> slot.worker_id < worker,
                ascending(slots@),
                forall|slot: WorkerSlotId| #[trigger]
                    slots@.contains(slot) <==> before.contains(slot) || slot.worker_id == worker
                        && slot.slot_idx < n,
            decreases size - n,
        {
            let slot = WorkerSlotId::new(worker, n);
            let ghost shorter = slots@;
            slots.push(slot);
            proof {
                assert forall|other: WorkerSlotId| #[trigger]
                    slots@.contains(other) <==> shorter.contains(other) || other == slot by {
                    shorter.lemma_push_to_set_commute(slot);
                    assert(slots@.to_set().contains(other) <==> shorter.to_set().insert(
                        slot,
                    ).contains(other));
                }
                assert forall|j: int| 0 <= j < shorter.len() implies (
                #[trigger] shorter[j]).precedes(slot) by {
                    assert(shorter.contains(shorter[j]));
                }
            }
            n = n + 1;
        }
        proof {
            assert forall|slot: WorkerSlotId| #[trigger]
                slots@.contains(slot) <==> exists|j: int|
                    0 <= j < i + 1 && (#[trigger] entries@[j]).0 == slot.worker_id && slot.slot_idx
                        < entries@[j].1 by {
                if before.contains(slot) {
                    let j = choose|j: int|
                        0 <= j < i && (#[trigger] entries@[j]).0 == slot.worker_id && slot.slot_idx
                            < entries@[j].1;
                    assert(entries@[j].0 == slot.worker_id);
                }
            }
        }
        i = i + 1;
    }
    proof {
        assert forall|slot: WorkerSlotId| #[trigger] slots@.contains(slot) <==> handed_out(
            units@,
        ).contains(slot) by {
            if handed_out(units@).contains(slot) {
                let (worker, size) = (slot.worker_id, units@[slot.worker_id]);
                assert(entries@.contains((worker, size)));
                let j = choose|j: int| 0 <= j < entries@.len() && entries@[j] == (worker, size);
                assert(entries@[j].0 == slot.worker_id);
            }
        }
    }
    slots
}

impl Scheduler {
    /// Create a new [`Scheduler`] with the given worker slots and the default parallelism.
    ///
    /// Each hash-distributed fragment will be scheduled to at most `default_parallelism` parallel
    /// units. `schedule_units_for_slots` decides how many units each worker takes, given the
    /// slots that the workers offer, the number of units and a salt; the streaming job id is the
    /// salt, which evens out possible skew between jobs. `build_from_ids` builds the default hash
    /// mapping from the slots and the vnode count.
    pub fn new<
        E,
        S: Fn(&HashMap<WorkerId, usize>, usize, u32) -> Result<BTreeMap<WorkerId, usize>, E>,
        B: Fn(&[WorkerSlotId], usize) -> WorkerSlotMapping,
    >(
        streaming_job_id: u32,
        workers: &HashMap<WorkerId, WorkerNode>,
        default_parallelism: usize,
        expected_vnode_count: usize,
        schedule_units_for_slots: &S,
        build_from_ids: &B,
    ) -> (r: Result<Scheduler, E>)
        requires
            0 < default_parallelism <= expected_vnode_count,
            forall|offered: HashMap<WorkerId, usize>, n: usize|
                offered@ == offered_slots(workers@) && (n == default_parallelism || n == 1)
                    ==> #[trigger] call_requires(
                    *schedule_units_for_slots,
                    (&offered, n, streaming_job_id),
                ),
            forall|offered: HashMap<WorkerId, usize>, units: BTreeMap<WorkerId, usize>|
                offered@ == offered_slots(workers@) && #[trigger] call_ensures(
                    *schedule_units_for_slots,
                    (&offered, default_parallelism, streaming_job_id),
                    Ok(units),
                ) ==> handed_out(units@).len() == default_parallelism,
            forall|offered: HashMap<WorkerId, usize>, units: BTreeMap<WorkerId, usize>|
                offered@ == offered_slots(workers@) && #[trigger] call_ensures(
                    *schedule_units_for_slots,
                    (&offered, 1, streaming_job_id),
                    Ok(units),
                ) ==> is_single(units@),
            forall|
                offered: HashMap<WorkerId, usize>,
                units: BTreeMap<WorkerId, usize>,
                ids: &[WorkerSlotId],
            |
                #![trigger
                    call_ensures(
                        *schedule_units_for_slots,
                        (&offered, default_parallelism, streaming_job_id),
                        Ok(units),
                    ),
                    call_requires(*build_from_ids, (ids, expected_vnode_count))
                ]
                offered@ == offered_slots(workers@) && call_ensures(
                    *schedule_units_for_slots,
                    (&offered, default_parallelism, streaming_job_id),
                    Ok(units),
                ) && lists_handed_out(ids@, units@) ==> call_requires(
                    *build_from_ids,
                    (ids, expected_vnode_count),
                ),
        ensures
            r matches Ok(scheduler) ==> exists|
                offered: HashMap<WorkerId, usize>,
                units: BTreeMap<WorkerId, usize>,
                single: BTreeMap<WorkerId, usize>,
            |
                {
                    &&& offered@ == offered_slots(workers@)
                    &&& #[trigger] call_ensures(
                        *schedule_units_for_slots,
                        (&offered, default_parallelism, streaming_job_id),
                        Ok(units),
                    )
                    &&& #[trigger] call_ensures(
                        *schedule_units_for_slots,
                        (&offered, 1, streaming_job_id),
                        Ok(single),
                    )
                    &&& scheduler.scheduled_worker_slots@.len() == default_parallelism
                    &&& scheduler.uses_units(
                        *build_from_ids,
                        units@,
                        single@,
                        expected_vnode_count,
                    )
                },
            r is Err ==> {
                ||| exists|offered: HashMap<WorkerId, usize>|
                    {
                        &&& offered@ == offered_slots(workers@)
                        &&& #[trigger] call_ensures(
                            *schedule_units_for_slots,
                            (&offered, default_parallelism, streaming_job_id),
                            Err(r->Err_0),
                        )
                    }
                ||| exists|offered: HashMap<WorkerId, usize>, units: BTreeMap<WorkerId, usize>|
                    {
                        &&& offered@ == offered_slots(workers@)
                        &&& #[trigger] call_ensures(
                            *schedule_units_for_slots,
                            (&offered, default_parallelism, streaming_job_id),
                            Ok(units),
                        )
                        &&& #[trigger] call_ensures(
                            *schedule_units_for_slots,
                            (&offered, 1, streaming_job_id),
                            Err(r->Err_0),
                        )
                    }
            },
    {
        let mut offered: HashMap<WorkerId, usize> = HashMap::new();
        let ids = keys_of(workers);
        let mut i: usize = 0;
        while i < ids.len()
            invariant
                i <= ids.len(),
                forall|id: WorkerId| #[trigger] ids@.contains(id) <==> workers@.contains_key(id),
                offered@.dom() == ids@.take(i as int).to_set(),
                forall|id: WorkerId| #[trigger]
                    offered@.contains_key(id) ==> offered@[id] == workers@[id].parallelism,
            decreases ids.len() - i,
        {
            let id = ids[i];
            assert(ids@.contains(ids@[i as int]));
            offered.insert(id, workers.get(&id).unwrap().compute_node_parallelism());
            proof {
                assert(ids@.take(i + 1) =~= ids@.take(i as int).push(id));
                ids@.take(i as int).lemma_push_to_set_commute(id);
                assert(offered@.dom() =~= ids@.take(i + 1).to_set());
            }
            i = i + 1;
        }
        proof {
            assert(ids@.take(i as int) =~= ids@);
            assert forall|id: WorkerId| offered@.contains_key(id) <==> workers@.contains_key(
                id,
            ) by {
                assert(ids@.to_set().contains(id) <==> ids@.contains(id));
            }
            assert(offered@ =~= offered_slots(workers@));
        }
        let units = match schedule_units_for_slots(
            &offered,
            default_parallelism,
            streaming_job_id,
        ) {
            Ok(units) => units,
            Err(e) => {
                let r: Result<Scheduler, E> = Err(e);
                assert(call_ensures(
                    *schedule_units_for_slots,
                    (&offered, default_parallelism, streaming_job_id),
                    Err(r->Err_0),
                ));
                return r;
            },
        };
        let single = match schedule_units_for_slots(&offered, 1, streaming_job_id) {
            Ok(single) => single,
            Err(e) => {
                let r: Result<Scheduler, E> = Err(e);
                assert(call_ensures(
                    *schedule_units_for_slots,
                    (&offered, 1, streaming_job_id),
                    Err(r->Err_0),
                ));
                return r;
            },
        };
        let scheduler = Self::from_units(&units, &single, expected_vnode_count, build_from_ids);
        proof {
            let slots = scheduler.scheduled_worker_slots@;
            assert(slots.no_duplicates());
            slots.unique_seq_to_set();
            assert(slots.to_set() =~= handed_out(units@));
        }
        Ok(scheduler)
    }

    /// Whether the scheduler works with the slots that `units` hands out, with the mapping that
    /// `build_from_ids` builds from them, and with the first slot of the worker in `single`.
    pub open spec fn uses_units<B: Fn(&[WorkerSlotId], usize) -> WorkerSlotMapping>(
        self,
        build_from_ids: B,
        units: Map<WorkerId, usize>,
        single: Map<WorkerId, usize>,
        vnode_count: usize,
    ) -> bool {
        &&& lists_handed_out(self.scheduled_worker_slots@, units)
        &&& exists|ids: &[WorkerSlotId]|
            ids@ == self.scheduled_worker_slots@ && #[trigger] call_ensures(
                build_from_ids,
                (ids, vnode_count),
                self.default_hash_mapping,
            )
        &&& single.contains_key(self.default_singleton_worker_slot.worker_id)
        &&& self.default_singleton_worker_slot.slot_idx == 0
    }

    /// Create a new [`Scheduler`] from the number of units that each worker takes, and from the
    /// worker that takes a single unit.
    pub fn from_units<B: Fn(&[WorkerSlotId], usize) -> WorkerSlotMapping>(
        units: &BTreeMap<WorkerId, usize>,
        single: &BTreeMap<WorkerId, usize>,
        vnode_count: usize,
        build_from_ids: &B,
    ) -> (scheduler: Scheduler)
        requires
            is_single(single@),
            forall|ids: &[WorkerSlotId]|
                lists_handed_out(ids@, units@) ==> #[trigger] call_requires(
                    *build_from_ids,
                    (ids, vnode_count),
                ),
        ensures
            scheduler.uses_units(*build_from_ids, units@, single@, vnode_count),
    {
        let scheduled_worker_slots = expand_slots(units);
        // Build the default hash mapping uniformly.
        let ids = scheduled_worker_slots.as_slice();
        let default_hash_mapping = build_from_ids(ids, vnode_count);
        let ghost built_from: &[WorkerSlotId] = ids;
        let entries = sorted_entries(single);
        proof {
            let worker = choose|worker: WorkerId| #[trigger]
                single@.contains_key(worker) && forall|other: WorkerId| #[trigger]
                    single@.contains_key(other) ==> other == worker;
            assert(entries@.contains((worker, single@[worker])));
            assert forall|j: int| 0 <= j < entries@.len() implies (#[trigger] entries@[j]).0
                == worker by {
                assert(entries@.contains((entries@[j].0, entries@[j].1)));
            }
            if entries@.len() >= 2 {
                assert(entries@[0].0 < entries@[1].0);
            }
        }
        let worker: WorkerId = exactly_one(&entries).unwrap().0;
        assert(entries@.contains((worker, entries@[0].1)));
        let scheduler = Scheduler {
            scheduled_worker_slots,
            default_hash_mapping,
            default_singleton_worker_slot: WorkerSlotId::new(worker, 0),
        };
        assert(call_ensures(
            *build_from_ids,
            (built_from, vnode_count),
            scheduler.default_hash_mapping,
        ));
        scheduler
    }

    /// The worker slots that a mapping with the given vnode count is built from: all of them, or
    /// as many as there are virtual nodes.
    pub open spec fn slots_for(self, vnode_count: usize) -> Seq<WorkerSlotId> {
        if vnode_count < self.scheduled_worker_slots@.len() {
            self.scheduled_worker_slots@.take(vnode_count as int)
        } else {
            self.scheduled_worker_slots@
        }
    }

    /// Whether the distribution is the one for a fragment of which `d` decides. A fragment that
    /// must be singleton takes the default slot; one that must have another vnode count takes a
    /// mapping that `build_from_ids` builds for it.
    pub open spec fn follows<B: Fn(&[WorkerSlotId], usize) -> WorkerSlotMapping>(
        self,
        build_from_ids: B,
        d: Demand,
        dist: Distribution,
    ) -> bool {
        match d {
            Demand::Singleton(slot) => dist@ == DistributionView::Singleton(slot),
            Demand::Hash(mapping) => dist@ == DistributionView::Hash(mapping),
            Demand::AnyVnodeCount(count) => if count == 1 {
                dist@ == DistributionView::Singleton(self.default_singleton_worker_slot)
            } else {
                &&& dist is Hash
                &&& exists|ids: &[WorkerSlotId]|
                    ids@ == self.slots_for(count) && #[trigger] call_ensures(
                        build_from_ids,
                        (ids, count),
                        dist->Hash_0,
                    )
            },
        }
    }

    /// Whether the distribution is the one for a fragment with the given demands: the default
    /// hash mapping without demands, and otherwise the one for the demand that decides.
    pub open spec fn places<B: Fn(&[WorkerSlotId], usize) -> WorkerSlotMapping>(
        self,
        build_from_ids: B,
        demands: Set<Demand>,
        dist: Distribution,
    ) -> bool {
        if demands == Set::<Demand>::empty() {
            dist@ == DistributionView::Hash(self.default_hash_mapping@)
        } else {
            exists|d: Demand| #[trigger]
                decides(demands, d) && self.follows(build_from_ids, d, dist)
        }
    }

    /// Derives the distribution from the requirement that all requirements of a fragment merge to.
    pub fn derive_distribution<B: Fn(&[WorkerSlotId], usize) -> WorkerSlotMapping>(
        &self,
        req: Req,
        mappings: &Vec<WorkerSlotMapping>,
        build_from_ids: &B,
    ) -> (dist: Distribution)
        requires
            is_indexed(req, mapping_views(mappings@)),
            forall|ids: &[WorkerSlotId], count: usize|
                req == Req::AnyVnodeCount(count) && count != 1 && ids@ == self.slots_for(count)
                    ==> #[trigger] call_requires(*build_from_ids, (ids, count)),
        ensures
            self.follows(*build_from_ids, demand_for(req, mapping_views(mappings@)), dist),
    {
        match req {
            Req::Singleton(slot) => Distribution::Singleton(slot),
            Req::Hash(id) => {
                assert(mapping_views(mappings@)[id as int] == mappings@[id as int]@);
                Distribution::Hash(mappings[id].clone())
            },
            Req::AnyVnodeCount(count) => {
                if count == 1 {
                    Distribution::Singleton(self.default_singleton_worker_slot)
                } else {
                    let slots = self.scheduled_worker_slots.as_slice();
                    let len: usize = if count < slots.len() {
                        count
                    } else {
                        slots.len()
                    };
                    let ids = vstd::slice::slice_subrange(slots, 0, len);
                    assert(ids@ =~= self.slots_for(count));
                    Distribution::Hash(build_from_ids(ids, count))
                }
            },
        }
    }

    /// The distribution of a fragment from its requirements, if it has any.
    fn distribute<B: Fn(&[WorkerSlotId], usize) -> WorkerSlotMapping>(
        &self,
        reqs: Option<&Vec<Req>>,
        all_hash_mappings: &Vec<WorkerSlotMapping>,
        build_from_ids: &B,
        Ghost(demands): Ghost<Set<Demand>>,
    ) -> (r: Result<Distribution, IncompatibleReqs>)
        requires
            mapping_views(all_hash_mappings@).no_duplicates(),
            match reqs {
                Some(reqs) => {
                    &&& reqs@.len() > 0
                    &&& reqs@.no_duplicates()
                    &&& matches_demands(
                        reqs@.to_set(),
                        demands,
                        mapping_views(all_hash_mappings@),
                    )
                },
                None => demands == Set::<Demand>::empty(),
            },
            forall|ids: &[WorkerSlotId], count: usize|
                decides(demands, Demand::AnyVnodeCount(count)) && count != 1 && ids@
                    == self.slots_for(count) ==> #[trigger] call_requires(
                    *build_from_ids,
                    (ids, count),
                ),
        ensures
            match r {
                Ok(dist) => self.places(*build_from_ids, demands, dist),
                Err(conflict) => {
                    &&& forall|d: Demand| !#[trigger] decides(demands, d)
                    &&& is_conflict(demands, conflict, mapping_views(all_hash_mappings@))
                },
            },
    {
        let ghost mappings = mapping_views(all_hash_mappings@);
        let ghost len = mapping_len(mappings);
        match reqs {
            // Merge all requirements.
            Some(reqs) => {
                let vnode_count_of = |id: HashMappingId| -> (n: usize)
                    requires
                        id < all_hash_mappings@.len(),
                    ensures
                        n == mapping_len(mapping_views(all_hash_mappings@))(id),
                    {
                        assert(mapping_views(all_hash_mappings@)[id as int]
                            == all_hash_mappings@[id as int]@);
                        all_hash_mappings[id].len()
                    };
                proof {
                    assert forall|i: int| 0 <= i < mappings.len() implies (
                    #[trigger] mappings[i]).len() <= usize::MAX by {
                        assert(mappings[i] == all_hash_mappings@[i].slots@);
                        assert(all_hash_mappings@[i].slots.len() <= usize::MAX);
                    }
                    lemma_resolves_as_decided(reqs@.to_set(), demands, mappings);
                    assert forall|id: HashMappingId|
                        reqs@.contains(Req::Hash(id)) implies #[trigger] call_requires(
                        vnode_count_of,
                        (id,),
                    ) by {
                        assert(reqs@.to_set().contains(Req::Hash(id)));
                    }
                }
                let merged = Req::merge_all(reqs, &vnode_count_of);
                proof {
                    assert(computes(vnode_count_of, len));
                    law_merging_is_order_free(vnode_count_of, len, reqs@, merged);
                }
                match merged {
                    Ok(Some(req)) => {
                        proof {
                            assert(resolves(reqs@.to_set(), len, req));
                            assert(reqs@.to_set().contains(req));
                            assert(decides(demands, demand_for(req, mappings)));
                        }
                        Ok(self.derive_distribution(req, all_hash_mappings, build_from_ids))
                    },
                    Ok(None) => vstd::pervasive::unreached(),
                    Err(conflict) => {
                        proof {
                            assert(reqs@.to_set().contains(conflict.a));
                            assert(reqs@.to_set().contains(conflict.b));
                        }
                        Err(conflict)
                    },
                }
            },
            // No requirement, use the default.
            None => Ok(Distribution::Hash(self.default_hash_mapping.clone())),
        }
    }

    /// Schedule the given complete graph and returns the distribution of each **building
    /// fragment**.
    pub fn schedule<B: Fn(&[WorkerSlotId], usize) -> WorkerSlotMapping>(
        &self,
        graph: &CompleteStreamFragmentGraph,
        build_from_ids: &B,
    ) -> (r: Result<HashMap<Id, Distribution>, ScheduleError>)
        requires
            graph.names_its_tables(),
            forall|ids: &[WorkerSlotId], count: usize, id: Id|
                #![trigger call_requires(*build_from_ids, (ids, count)), graph.demands(id)]
                graph.building_fragments@.contains_key(id) && decides(
                    graph.demands(id),
                    Demand::AnyVnodeCount(count),
                ) && count != 1 && ids@ == self.slots_for(count) ==> call_requires(
                    *build_from_ids,
                    (ids, count),
                ),
        ensures
            match r {
                Ok(distributions) => {
                    &&& distributions@.dom() == graph.building_fragments@.dom()
                    &&& forall|id: Id| #[trigger]
                        distributions@.contains_key(id) ==> self.places(
                            *build_from_ids,
                            graph.demands(id),
                            distributions@[id],
                        )
                },
                Err(e) => {
                    &&& graph.building_fragments@.contains_key(e.fragment)
                    &&& forall|d: Demand| !#[trigger] decides(graph.demands(e.fragment), d)
                    &&& exists|mappings: Seq<Seq<WorkerSlotId>>|
                        indexes(*graph, mappings) && #[trigger] is_conflict(
                            graph.demands(e.fragment),
                            e.conflict,
                            mappings,
                        )
                },
            },
    {
        // Build an index of all hash mappings.
        let all_hash_mappings = collect_hash_mappings(graph);
        let facts = collect_facts(graph, &all_hash_mappings);
        // Run the algorithm to propagate requirements.
        let reqs = propagate(&facts);
        let ghost listed = reqs@;
        let groups = into_group_map(reqs);
        let ghost mappings = mapping_views(all_hash_mappings@);
        proof {
            assert(all_hash_mappings.len() == mappings.len());
        }
        // Derive scheduling result from requirements.
        let mut distributions: HashMap<Id, Distribution> = HashMap::new();
        let ids = keys_of(&graph.building_fragments);
        let mut i: usize = 0;
        while i < ids.len()
            invariant
                i <= ids.len(),
                forall|ids: &[WorkerSlotId], count: usize, id: Id|
                    #![trigger call_requires(*build_from_ids, (ids, count)), graph.demands(id)]
                    graph.building_fragments@.contains_key(id) && decides(
                        graph.demands(id),
                        Demand::AnyVnodeCount(count),
                    ) && count != 1 && ids@ == self.slots_for(count) ==> call_requires(
                        *build_from_ids,
                        (ids, count),
                    ),
                mappings == mapping_views(all_hash_mappings@),
                mappings.len() <= usize::MAX,
                indexes(*graph, mappings),
                describes(facts@, *graph, mappings),
                listed.no_duplicates(),
                forall|id: Id, req: Req| #[trigger]
                    listed.contains((id, req)) <==> required(facts@, id, req),
                forall|id: Id| #[trigger]
                    groups@.contains_key(id) <==> values_of(listed, id).len() > 0,
                forall|id: Id| #[trigger]
                    groups@.contains_key(id) ==> groups@[id]@ == values_of(listed, id),
                forall|id: Id| #[trigger]
                    ids@.contains(id) <==> graph.building_fragments@.contains_key(id),
                distributions@.dom() == ids@.take(i as int).to_set(),
                forall|id: Id| #[trigger]
                    distributions@.contains_key(id) ==> self.places(
                        *build_from_ids,
                        graph.demands(id),
                        distributions@[id],
                    ),
            decreases ids.len() - i,
        {
            let id = ids[i];
            let reqs = groups.get(&id);
            proof {
                assert(ids@.contains(ids@[i as int]));
                lemma_values_of(listed, id);
                law_requirements_are_the_demands(facts@, *graph, mappings, id);
                let values = values_of(listed, id);
                assert forall|req: Req| #[trigger] values.contains(req) <==> required(
                    facts@,
                    id,
                    req,
                ) by {
                    assert(values.contains(req) <==> listed.contains((id, req)));
                }
                assert(matches_demands(values.to_set(), graph.demands(id), mappings)) by {
                    assert forall|d: Demand| #[trigger] graph.demands(id).contains(
                        d,
                    ) implies exists|req: Req|
                        values.to_set().contains(req) && d == demand_for(req, mappings) by {
                        let req = choose|req: Req|
                            required(facts@, id, req) && d == demand_for(req, mappings);
                        assert(values.contains(req));
                        assert(values.to_set().contains(req));
                    }
                    assert forall|req: Req| #[trigger] values.to_set().contains(req) <==> is_indexed(
                        req,
                        mappings,
                    ) && graph.demands(id).contains(demand_for(req, mappings)) by {
                        assert(values.contains(req) <==> required(facts@, id, req));
                    }
                }
                if reqs is None {
                    assert(values.len() == 0);
                    assert forall|d: Demand| !graph.demands(id).contains(d) by {
                        if graph.demands(id).contains(d) {
                            let req = choose|req: Req|
                                required(facts@, id, req) && d == demand_for(req, mappings);
                            assert(values.contains(req));
                        }
                    }
                    assert(graph.demands(id) =~= Set::<Demand>::empty());
                }
            }
            let ghost demands = graph.demands(id);
            let dist = match self.distribute(
                reqs,
                &all_hash_mappings,
                build_from_ids,
                Ghost(demands),
            ) {
                Ok(dist) => dist,
                Err(conflict) => {
                    let e = ScheduleError { fragment: id, conflict };
                    assert(is_conflict(graph.demands(e.fragment), e.conflict, mappings));
                    return Err(e);
                },
            };
            distributions.insert(id, dist);
            proof {
                assert(ids@.take(i + 1) =~= ids@.take(i as int).push(id));
                ids@.take(i as int).lemma_push_to_set_commute(id);
                assert(distributions@.dom() =~= ids@.take(i + 1).to_set());
            }
            i = i + 1;
        }
        proof {
            assert(ids@.take(i as int) =~= ids@);
            assert(ids@.to_set() =~= graph.building_fragments@.dom()) by {
                assert forall|id: Id| ids@.to_set().contains(id)
                    <==> graph.building_fragments@.dom().contains(id) by {
                    assert(ids@.contains(id) <==> graph.building_fragments@.contains_key(id));
                }
            }
        }
        Ok(distributions)
    }
}

/// Fragments that a `NoShuffle` edge links have the same demands.
pub proof fn law_linked_fragments_share_demands(graph: CompleteStreamFragmentGraph, x: Id, y: Id)
    requires
        graph.links()(x, y),
    ensures
        graph.demands(x) == graph.demands(y),
{
    let link = graph.links();
    assert(link(y, x));
    assert forall|d: Demand| graph.demands(x).contains(d) <==> graph.demands(y).contains(d) by {
        if graph.demands(x).contains(d) {
            let source = choose|source: Id| #[trigger]
                graph.demands_directly(source, d) && connected(link, source, x);
            lemma_connected_step(link, source, x, y);
            assert(graph.demands_directly(source, d));
        }
        if graph.demands(y).contains(d) {
            let source = choose|source: Id| #[trigger]
                graph.demands_directly(source, d) && connected(link, source, y);
            lemma_connected_step(link, source, y, x);
            assert(graph.demands_directly(source, d));
        }
    }
    assert(graph.demands(x) =~= graph.demands(y));
}

/// A fragment has no two distributions to choose from, save for what `build_from_ids` builds: at
/// most one of its demands decides.
pub proof fn law_deciding_demand_is_unique(demands: Set<Demand>, a: Demand, b: Demand)
    requires
        decides(demands, a),
        decides(demands, b),
    ensures
        a == b,
{
}

/// Whether `build_from_ids` builds the same mapping whenever it is given the same slots and the
/// same vnode count.
pub open spec fn builds_the_same<B: Fn(&[WorkerSlotId], usize) -> WorkerSlotMapping>(
    build_from_ids: B,
) -> bool {
    forall|
        a: &[WorkerSlotId],
        b: &[WorkerSlotId],
        count: usize,
        x: WorkerSlotMapping,
        y: WorkerSlotMapping,
    |
        a@ == b@ && #[trigger] call_ensures(build_from_ids, (a, count), x)
            && #[trigger] call_ensures(build_from_ids, (b, count), y) ==> x@ == y@
}

/// Fragments that a `NoShuffle` edge links get the same distribution, where the same mapping is
/// built from the same slots.
pub proof fn law_linked_fragments_share_distribution<
    B: Fn(&[WorkerSlotId], usize) -> WorkerSlotMapping,
>(
    scheduler: Scheduler,
    build_from_ids: B,
    graph: CompleteStreamFragmentGraph,
    x: Id,
    y: Id,
    dist_x: Distribution,
    dist_y: Distribution,
)
    requires
        graph.links()(x, y),
        builds_the_same(build_from_ids),
        scheduler.places(build_from_ids, graph.demands(x), dist_x),
        scheduler.places(build_from_ids, graph.demands(y), dist_y),
    ensures
        dist_x@ == dist_y@,
{
    law_linked_fragments_share_demands(graph, x, y);
    let demands = graph.demands(x);
    if demands != Set::<Demand>::empty() {
        let a = choose|d: Demand| #[trigger]
            decides(demands, d) && scheduler.follows(build_from_ids, d, dist_x);
        let b = choose|d: Demand| #[trigger]
            decides(demands, d) && scheduler.follows(build_from_ids, d, dist_y);
        law_deciding_demand_is_unique(demands, a, b);
    }
}

/// Whether every mapping that `build_from_ids` builds has the vnode count that it is given.
pub open spec fn keeps_vnode_count<B: Fn(&[WorkerSlotId], usize) -> WorkerSlotMapping>(
    build_from_ids: B,
) -> bool {
    forall|ids: &[WorkerSlotId], count: usize, mapping: WorkerSlotMapping| #[trigger]
        call_ensures(build_from_ids, (ids, count), mapping) ==> mapping@.len() == count
}

/// The distribution that a fragment gets meets each demand on the fragment, where the mappings
/// that are built have the vnode count that they are asked for.
pub proof fn law_every_demand_is_met<B: Fn(&[WorkerSlotId], usize) -> WorkerSlotMapping>(
    scheduler: Scheduler,
    build_from_ids: B,
    demands: Set<Demand>,
    dist: Distribution,
    d: Demand,
)
    requires
        scheduler.places(build_from_ids, demands, dist),
        keeps_vnode_count(build_from_ids),
        demands.contains(d),
    ensures
        meets(dist@, d),
{
    assert(demands != Set::<Demand>::empty());
    let e = choose|e: Demand| #[trigger]
        decides(demands, e) && scheduler.follows(build_from_ids, e, dist);
    assert(d == e || d.asks_only_for(e.vnode_count()));
}

/// A fragment that `NoShuffle` edges connect to an existing fragment gets the distribution of
/// that fragment.
pub proof fn law_existing_distribution_is_kept<
    B: Fn(&[WorkerSlotId], usize) -> WorkerSlotMapping,
>(
    scheduler: Scheduler,
    build_from_ids: B,
    graph: CompleteStreamFragmentGraph,
    existing: Id,
    id: Id,
    dist: Distribution,
)
    requires
        graph.existing_distribution@.contains_key(existing),
        connected(graph.links(), existing, id),
        scheduler.places(build_from_ids, graph.demands(id), dist),
    ensures
        dist@ == graph.existing_distribution@[existing]@,
{
    let d = demand_of(graph.existing_distribution@[existing]@);
    assert(graph.demands_directly(existing, d));
    assert(graph.demands(id).contains(d));
    let e = choose|e: Demand| #[trigger]
        decides(graph.demands(id), e) && scheduler.follows(build_from_ids, e, dist);
    assert(d == e);
}

/// A fragment that must be singleton, or is downstream of a `Simple` edge, or is connected to
/// such a fragment by `NoShuffle` edges, gets a single vnode.
pub proof fn law_singleton_has_one_vnode<B: Fn(&[WorkerSlotId], usize) -> WorkerSlotMapping>(
    scheduler: Scheduler,
    build_from_ids: B,
    graph: CompleteStreamFragmentGraph,
    singleton: Id,
    id: Id,
    dist: Distribution,
)
    requires
        graph.must_be_singleton(singleton) || graph.is_fed_simply(singleton),
        connected(graph.links(), singleton, id),
        scheduler.places(build_from_ids, graph.demands(id), dist),
    ensures
        dist@.vnode_count() == 1,
{
    let d = Demand::AnyVnodeCount(1);
    assert(graph.demands_directly(singleton, d));
    assert(graph.demands(id).contains(d));
    let e = choose|e: Demand| #[trigger]
        decides(graph.demands(id), e) && scheduler.follows(build_from_ids, e, dist);
    assert(d == e || d.asks_only_for(e.vnode_count()));
}

/// A fragment that looks up a table, or is connected by `NoShuffle` edges to one that does, has
/// the vnode count of the table, where the mappings that are built have the vnode count that
/// they are asked for.
pub proof fn law_lookup_has_the_vnode_count_of_its_table<
    B: Fn(&[WorkerSlotId], usize) -> WorkerSlotMapping,
>(
    scheduler: Scheduler,
    build_from_ids: B,
    graph: CompleteStreamFragmentGraph,
    lookup: Id,
    count: usize,
    id: Id,
    dist: Distribution,
)
    requires
        graph.looks_up(lookup, count),
        connected(graph.links(), lookup, id),
        keeps_vnode_count(build_from_ids),
        scheduler.places(build_from_ids, graph.demands(id), dist),
    ensures
        dist@.vnode_count() == count,
{
    let d = Demand::AnyVnodeCount(count);
    assert(graph.demands_directly(lookup, d));
    assert(graph.demands(id).contains(d));
    law_every_demand_is_met(scheduler, build_from_ids, graph.demands(id), dist, d);
}

/// Whether every mapping that `build_from_ids` builds maps to slots that it is given.
pub open spec fn stays_within_slots<B: Fn(&[WorkerSlotId], usize) -> WorkerSlotMapping>(
    build_from_ids: B,
) -> bool {
    forall|ids: &[WorkerSlotId], count: usize, mapping: WorkerSlotMapping| #[trigger]
        call_ensures(build_from_ids, (ids, count), mapping) ==> mapping@.to_set().subset_of(
            ids@.to_set(),
        )
}

/// A fragment that is not bound to the hash mapping of an existing fragment runs on at most as
/// many slots as the scheduler has, where mappings are built within the given slots.
pub proof fn law_parallelism_is_bounded<B: Fn(&[WorkerSlotId], usize) -> WorkerSlotMapping>(
    scheduler: Scheduler,
    build_from_ids: B,
    units: Map<WorkerId, usize>,
    single: Map<WorkerId, usize>,
    vnode_count: usize,
    demands: Set<Demand>,
    dist: Distribution,
)
    requires
        scheduler.scheduled_worker_slots@.len() > 0,
        scheduler.uses_units(build_from_ids, units, single, vnode_count),
        stays_within_slots(build_from_ids),
        scheduler.places(build_from_ids, demands, dist),
        forall|d: Demand| #[trigger] demands.contains(d) ==> !(d is Hash),
    ensures
        dist@.slots().len() <= scheduler.scheduled_worker_slots@.len(),
{
    broadcast use vstd::seq_lib::seq_to_set_is_finite;

    let all = scheduler.scheduled_worker_slots@;
    all.lemma_cardinality_of_set();
    if dist is Hash {
        assert(dist@.slots().subset_of(all.to_set())) by {
            if demands == Set::<Demand>::empty() {
                let ids = choose|ids: &[WorkerSlotId]|
                    ids@ == all && #[trigger] call_ensures(
                        build_from_ids,
                        (ids, vnode_count),
                        scheduler.default_hash_mapping,
                    );
                assert(ids@.to_set() == all.to_set());
            } else {
                let d = choose|d: Demand| #[trigger]
                    decides(demands, d) && scheduler.follows(build_from_ids, d, dist);
                assert(demands.contains(d));
                let count = d->AnyVnodeCount_0;
                let ids = choose|ids: &[WorkerSlotId]|
                    ids@ == scheduler.slots_for(count) && #[trigger] call_ensures(
                        build_from_ids,
                        (ids, count),
                        dist->Hash_0,
                    );
                assert forall|slot: WorkerSlotId| ids@.to_set().contains(
                    slot,
                ) implies all.to_set().contains(slot) by {
                    let i = choose|i: int| 0 <= i < ids@.len() && ids@[i] == slot;
                    assert(all[i] == slot);
                }
            }
        }
        vstd::set_lib::lemma_len_subset(dist@.slots(), all.to_set());
    }
}

/// Whichever node of a building fragment looks up a table, at whatever position it stands, the
/// fragment gets the vnode count of that table, where mappings are built with the vnode count that
/// is asked for.
pub proof fn law_every_node_gets_the_vnode_count_of_its_table<
    B: Fn(&[WorkerSlotId], usize) -> WorkerSlotMapping,
>(
    scheduler: Scheduler,
    build_from_ids: B,
    graph: CompleteStreamFragmentGraph,
    id: Id,
    i: int,
    dist: Distribution,
)
    requires
        graph.building_fragments@.contains_key(id),
        0 <= i < graph.building_fragments@[id].nodes@.len(),
        forall|ids: &[WorkerSlotId], count: usize, mapping: WorkerSlotMapping| #[trigger]
            call_ensures(build_from_ids, (ids, count), mapping) ==> mapping.slots@.len() == count,
        scheduler.places(build_from_ids, graph.demands(id), dist),
    ensures
        match graph.building_fragments@[id].nodes@[i] {
            NodeBody::StreamScan { arrangement_table: Some(table), .. } => match dist {
                Distribution::Singleton(_) => table.vnode_count == 1,
                Distribution::Hash(mapping) => mapping.slots@.len() == table.vnode_count,
            },
            NodeBody::StreamScan { arrangement_table: None, table_desc: Some(table) } => match dist {
                Distribution::Singleton(_) => table.vnode_count == 1,
                Distribution::Hash(mapping) => mapping.slots@.len() == table.vnode_count,
            },
            NodeBody::TemporalJoin { table_desc: Some(table) } => match dist {
                Distribution::Singleton(_) => table.vnode_count == 1,
                Distribution::Hash(mapping) => mapping.slots@.len() == table.vnode_count,
            },
            NodeBody::BatchPlan { table_desc: Some(table) } => match dist {
                Distribution::Singleton(_) => table.vnode_count == 1,
                Distribution::Hash(mapping) => mapping.slots@.len() == table.vnode_count,
            },
            NodeBody::Lookup { arrangement_table_info: Some(Some(table)) } => match dist {
                Distribution::Singleton(_) => table.vnode_count == 1,
                Distribution::Hash(mapping) => mapping.slots@.len() == table.vnode_count,
            },
            _ => true,
        },
{
    law_demands_follow_the_graph(graph);
    let node = graph.building_fragments@[id].nodes@[i];
    if let Some(table) = node.table() {
        let d = Demand::AnyVnodeCount(table.vnode_count);
        if graph.demands(id).contains(d) {
            law_every_demand_is_met(scheduler, build_from_ids, graph.demands(id), dist, d);
        }
    }
}

/// A building fragment that must be singleton, and any fragment at the end of a `Simple` edge,
/// gets one vnode.
pub proof fn law_singleton_fragment_gets_one_vnode<
    B: Fn(&[WorkerSlotId], usize) -> WorkerSlotMapping,
>(
    scheduler: Scheduler,
    build_from_ids: B,
    graph: CompleteStreamFragmentGraph,
    id: Id,
    k: int,
    dist: Distribution,
)
    requires
        ({
            ||| graph.building_fragments@.contains_key(id)
                && graph.building_fragments@[id].requires_singleton
            ||| 0 <= k < graph.edges@.len() && graph.edges@[k].1 == id && graph.edges@[k].2
                == DispatcherType::Simple
        }),
        scheduler.places(build_from_ids, graph.demands(id), dist),
    ensures
        match dist {
            Distribution::Singleton(_) => true,
            Distribution::Hash(mapping) => mapping.slots@.len() == 1,
        },
{
    law_demands_follow_the_graph(graph);
    let d = Demand::AnyVnodeCount(1);
    assert(graph.demands(id).contains(d));
    let e = choose|e: Demand| #[trigger]
        decides(graph.demands(id), e) && scheduler.follows(build_from_ids, e, dist);
    assert(d == e || d.asks_only_for(e.vnode_count()));
}

/// The ends of a `NoShuffle` edge get the same distribution, where the same mapping is built from
/// the same slots.
pub proof fn law_ends_of_a_no_shuffle_edge_get_the_same<
    B: Fn(&[WorkerSlotId], usize) -> WorkerSlotMapping,
>(
    scheduler: Scheduler,
    build_from_ids: B,
    graph: CompleteStreamFragmentGraph,
    k: int,
    upstream: Distribution,
    downstream: Distribution,
)
    requires
        0 <= k < graph.edges@.len(),
        graph.edges@[k].2 == DispatcherType::NoShuffle,
        forall|
            a: &[WorkerSlotId],
            b: &[WorkerSlotId],
            count: usize,
            x: WorkerSlotMapping,
            y: WorkerSlotMapping,
        |
            a@ == b@ && #[trigger] call_ensures(build_from_ids, (a, count), x)
                && #[trigger] call_ensures(build_from_ids, (b, count), y) ==> x.slots@ == y.slots@,
        scheduler.places(build_from_ids, graph.demands(graph.edges@[k].0), upstream),
        scheduler.places(build_from_ids, graph.demands(graph.edges@[k].1), downstream),
    ensures
        match (upstream, downstream) {
            (Distribution::Singleton(a), Distribution::Singleton(b)) => a == b,
            (Distribution::Hash(a), Distribution::Hash(b)) => a.slots@ == b.slots@,
            _ => false,
        },
{
    let (x, y) = (graph.edges@[k].0, graph.edges@[k].1);
    assert(graph.links()(x, y));
    law_linked_fragments_share_distribution(
        scheduler,
        build_from_ids,
        graph,
        x,
        y,
        upstream,
        downstream,
    );
}

/// The neighbour of an existing fragment along a `NoShuffle` edge, in either direction, gets the
/// distribution of the existing fragment.
pub proof fn law_neighbour_takes_the_existing_distribution<
    B: Fn(&[WorkerSlotId], usize) -> WorkerSlotMapping,
>(
    scheduler: Scheduler,
    build_from_ids: B,
    graph: CompleteStreamFragmentGraph,
    k: int,
    existing: Id,
    id: Id,
    dist: Distribution,
)
    requires
        0 <= k < graph.edges@.len(),
        graph.edges@[k].2 == DispatcherType::NoShuffle,
        graph.edges@[k].0 == existing && graph.edges@[k].1 == id || graph.edges@[k].0 == id
            && graph.edges@[k].1 == existing,
        graph.existing_distribution@.contains_key(existing),
        scheduler.places(build_from_ids, graph.demands(id), dist),
    ensures
        match (graph.existing_distribution@[existing], dist) {
            (Distribution::Singleton(a), Distribution::Singleton(b)) => a == b,
            (Distribution::Hash(a), Distribution::Hash(b)) => a.slots@ == b.slots@,
            _ => false,
        },
{
    law_demands_follow_the_graph(graph);
    let d = demand_of(graph.existing_distribution@[existing]@);
    assert(graph.demands(existing).contains(d));
    assert(graph.demands(id).contains(d));
    let e = choose|e: Demand| #[trigger]
        decides(graph.demands(id), e) && scheduler.follows(build_from_ids, e, dist);
    assert(d == e);
}

/// A fragment gets the default hash mapping if nothing is asked of it or of the fragments around
/// it: none of them exists, must be singleton, looks up a table or is at the end of a `Simple`
/// edge, and no `NoShuffle` edge leads out of them.
pub proof fn law_fragment_of_which_nothing_is_asked_gets_the_default<
    B: Fn(&[WorkerSlotId], usize) -> WorkerSlotMapping,
>(
    scheduler: Scheduler,
    build_from_ids: B,
    graph: CompleteStreamFragmentGraph,
    group: Set<Id>,
    id: Id,
    dist: Distribution,
)
    requires
        group.contains(id),
        forall|x: Id| #[trigger]
            group.contains(x) ==> !graph.existing_distribution@.contains_key(x) && (
            graph.building_fragments@.contains_key(x)
                ==> !graph.building_fragments@[x].requires_singleton),
        forall|x: Id, i: int|
            group.contains(x) && graph.building_fragments@.contains_key(x) && 0 <= i
                < graph.building_fragments@[x].nodes@.len() ==> match
                #[trigger] graph.building_fragments@[x].nodes@[i] {
                NodeBody::StreamScan { arrangement_table: None, table_desc: None } => true,
                NodeBody::Other => true,
                _ => false,
            },
        forall|k: int|
            0 <= k < graph.edges@.len() && (#[trigger] graph.edges@[k]).2 == DispatcherType::Simple
                ==> !group.contains(graph.edges@[k].1),
        forall|k: int|
            0 <= k < graph.edges@.len() && (#[trigger] graph.edges@[k]).2
                == DispatcherType::NoShuffle ==> (group.contains(graph.edges@[k].0)
                <==> group.contains(graph.edges@[k].1)),
        scheduler.places(build_from_ids, graph.demands(id), dist),
    ensures
        dist matches Distribution::Hash(mapping) && mapping.slots@
            == scheduler.default_hash_mapping.slots@,
{
    let s = Set::new(|p: (Id, Demand)| !group.contains(p.0));
    law_no_more_is_demanded(graph, s);
    assert forall|d: Demand| !graph.demands(id).contains(d) by {
        if graph.demands(id).contains(d) {
            assert(s.contains((id, d)));
        }
    }
    assert(graph.demands(id) =~= Set::<Demand>::empty());
}

/// Where nothing is asked of a fragment and of those around it but one vnode count, the fragment
/// gets it: the default slot for one vnode, and otherwise a mapping that is built from the first
/// scheduled slots, as many of them as there are virtual nodes or all of them.
pub proof fn law_fragment_of_which_a_vnode_count_is_asked_gets_it<
    B: Fn(&[WorkerSlotId], usize) -> WorkerSlotMapping,
>(
    scheduler: Scheduler,
    build_from_ids: B,
    graph: CompleteStreamFragmentGraph,
    group: Set<Id>,
    count: usize,
    id: Id,
    dist: Distribution,
)
    requires
        group.contains(id),
        graph.demands(id).contains(Demand::AnyVnodeCount(count)),
        forall|x: Id| #[trigger]
            group.contains(x) ==> !graph.existing_distribution@.contains_key(x) && (
            graph.building_fragments@.contains_key(x)
                && graph.building_fragments@[x].requires_singleton ==> count == 1),
        forall|x: Id, i: int|
            group.contains(x) && graph.building_fragments@.contains_key(x) && 0 <= i
                < graph.building_fragments@[x].nodes@.len() ==> match
                #[trigger] graph.building_fragments@[x].nodes@[i] {
                NodeBody::StreamScan { arrangement_table: Some(table), .. } => table.vnode_count == count,
                NodeBody::StreamScan { arrangement_table: None, table_desc: Some(table) } => table.vnode_count == count,
                NodeBody::TemporalJoin { table_desc: Some(table) } => table.vnode_count == count,
                NodeBody::BatchPlan { table_desc: Some(table) } => table.vnode_count == count,
                NodeBody::Lookup { arrangement_table_info: Some(Some(table)) } => table.vnode_count == count,
                _ => true,
            },
        forall|k: int|
            0 <= k < graph.edges@.len() && (#[trigger] graph.edges@[k]).2 == DispatcherType::Simple
                && group.contains(graph.edges@[k].1) ==> count == 1,
        forall|k: int|
            0 <= k < graph.edges@.len() && (#[trigger] graph.edges@[k]).2
                == DispatcherType::NoShuffle ==> (group.contains(graph.edges@[k].0)
                <==> group.contains(graph.edges@[k].1)),
        scheduler.places(build_from_ids, graph.demands(id), dist),
    ensures
        count == 1 ==> dist == Distribution::Singleton(scheduler.default_singleton_worker_slot),
        count != 1 ==> {
            &&& dist is Hash
            &&& exists|ids: &[WorkerSlotId]|
                    {
                        &&& ids@.len() == if count < scheduler.scheduled_worker_slots@.len() {
                            count as int
                        } else {
                            scheduler.scheduled_worker_slots@.len() as int
                        }
                        &&& forall|i: int|
                            0 <= i < ids@.len() ==> #[trigger] ids@[i]
                                == scheduler.scheduled_worker_slots@[i]
                        &&& #[trigger] call_ensures(build_from_ids, (ids, count), dist->Hash_0)
                    }
        },
{
    let only = Demand::AnyVnodeCount(count);
    let s = Set::new(|p: (Id, Demand)| group.contains(p.0) ==> p.1 == only);
    law_no_more_is_demanded(graph, s);
    let d = choose|d: Demand| #[trigger]
        decides(graph.demands(id), d) && scheduler.follows(build_from_ids, d, dist);
    assert(graph.demands(id).contains(d));
    assert(s.contains((id, d)));
    lemma_built_from_first_slots(scheduler, build_from_ids, count, dist);
}

/// A mapping that follows a vnode count other than one is built from the first scheduled slots.
proof fn lemma_built_from_first_slots<B: Fn(&[WorkerSlotId], usize) -> WorkerSlotMapping>(
    scheduler: Scheduler,
    build_from_ids: B,
    count: usize,
    dist: Distribution,
)
    requires
        scheduler.follows(build_from_ids, Demand::AnyVnodeCount(count), dist),
    ensures
        count == 1 ==> dist == Distribution::Singleton(scheduler.default_singleton_worker_slot),
        count != 1 ==> {
            &&& dist is Hash
            &&& exists|ids: &[WorkerSlotId]|
                    {
                        &&& ids@.len() == if count < scheduler.scheduled_worker_slots@.len() {
                            count as int
                        } else {
                            scheduler.scheduled_worker_slots@.len() as int
                        }
                        &&& forall|i: int|
                            0 <= i < ids@.len() ==> #[trigger] ids@[i]
                                == scheduler.scheduled_worker_slots@[i]
                        &&& #[trigger] call_ensures(build_from_ids, (ids, count), dist->Hash_0)
                    }
        },
{
    if count != 1 {
        let ids = choose|ids: &[WorkerSlotId]|
            ids@ == scheduler.slots_for(count) && #[trigger] call_ensures(
                build_from_ids,
                (ids, count),
                dist->Hash_0,
            );
        law_mapping_is_built_from_the_first_slots(scheduler, count);
        assert(call_ensures(build_from_ids, (ids, count), dist->Hash_0));
    }
}

/// A mapping is built from the first scheduled slots: from all of them if there are at least as
/// many virtual nodes, and otherwise from as many as there are virtual nodes.
pub proof fn law_mapping_is_built_from_the_first_slots(scheduler: Scheduler, vnode_count: usize)
    ensures
        vnode_count >= scheduler.scheduled_worker_slots@.len() ==> scheduler.slots_for(vnode_count)
            == scheduler.scheduled_worker_slots@,
        scheduler.slots_for(vnode_count).len() == if vnode_count
            < scheduler.scheduled_worker_slots@.len() {
            vnode_count as int
        } else {
            scheduler.scheduled_worker_slots@.len() as int
        },
        forall|i: int|
            0 <= i < scheduler.slots_for(vnode_count).len() ==> #[trigger] scheduler.slots_for(
                vnode_count,
            )[i] == scheduler.scheduled_worker_slots@[i],
{
}

/// What is derived from a requirement for a worker slot is that slot, from one for a hash mapping
/// that mapping, from one for a single vnode the default slot, and from one for another vnode
/// count a mapping that is built with it from the first scheduled slots, as many of them as there
/// are virtual nodes or all of them.
pub proof fn law_distribution_is_derived_from_the_requirement<
    B: Fn(&[WorkerSlotId], usize) -> WorkerSlotMapping,
>(
    scheduler: Scheduler,
    build_from_ids: B,
    req: Req,
    mappings: Seq<WorkerSlotMapping>,
    dist: Distribution,
)
    requires
        req matches Req::Hash(id) ==> id < mappings.len(),
        scheduler.follows(build_from_ids, demand_for(req, mapping_views(mappings)), dist),
    ensures
        match req {
            Req::Singleton(slot) => dist == Distribution::Singleton(slot),
            Req::Hash(id) => dist matches Distribution::Hash(mapping) && mapping.slots@
                == mappings[id as int].slots@,
            Req::AnyVnodeCount(count) => if count == 1 {
                dist == Distribution::Singleton(scheduler.default_singleton_worker_slot)
            } else {
                &&& dist is Hash
                &&& exists|ids: &[WorkerSlotId]|
                    {
                        &&& ids@.len() == if count < scheduler.scheduled_worker_slots@.len() {
                            count as int
                        } else {
                            scheduler.scheduled_worker_slots@.len() as int
                        }
                        &&& forall|i: int|
                            0 <= i < ids@.len() ==> #[trigger] ids@[i]
                                == scheduler.scheduled_worker_slots@[i]
                        &&& #[trigger] call_ensures(build_from_ids, (ids, count), dist->Hash_0)
                    }
            },
        },
{
    if let Req::AnyVnodeCount(count) = req {
        lemma_built_from_first_slots(scheduler, build_from_ids, count, dist);
    }
}

/// A fragment of which only a vnode count is asked runs on all scheduled slots, or on as many of
/// them as it has virtual nodes, where mappings that are built use every slot that they are given
/// when there are enough virtual nodes.
pub proof fn law_all_scheduled_slots_are_used<B: Fn(&[WorkerSlotId], usize) -> WorkerSlotMapping>(
    scheduler: Scheduler,
    build_from_ids: B,
    count: usize,
    dist: Distribution,
    i: int,
)
    requires
        count != 1,
        forall|ids: &[WorkerSlotId], n: usize, mapping: WorkerSlotMapping, j: int|
            #[trigger] call_ensures(build_from_ids, (ids, n), mapping) && ids@.len() <= n && 0 <= j
                < ids@.len() ==> mapping.slots@.contains(#[trigger] ids@[j]),
        scheduler.places(build_from_ids, set![Demand::AnyVnodeCount(count)], dist),
        0 <= i < scheduler.scheduled_worker_slots@.len(),
        i < count,
    ensures
        dist matches Distribution::Hash(mapping) && mapping.slots@.contains(
            scheduler.scheduled_worker_slots@[i],
        ),
{
    let demands = set![Demand::AnyVnodeCount(count)];
    assert(demands.contains(Demand::AnyVnodeCount(count)));
    let d = choose|d: Demand| #[trigger]
        decides(demands, d) && scheduler.follows(build_from_ids, d, dist);
    assert(d == Demand::AnyVnodeCount(count));
    lemma_built_from_first_slots(scheduler, build_from_ids, count, dist);
    let ids = choose|ids: &[WorkerSlotId]|
        {
            &&& ids@.len() == if count < scheduler.scheduled_worker_slots@.len() {
                count as int
            } else {
                scheduler.scheduled_worker_slots@.len() as int
            }
            &&& forall|i: int|
                0 <= i < ids@.len() ==> #[trigger] ids@[i] == scheduler.scheduled_worker_slots@[i]
            &&& #[trigger] call_ensures(build_from_ids, (ids, count), dist->Hash_0)
        };
    assert(ids@[i] == scheduler.scheduled_worker_slots@[i]);
}

/// A scheduler has the slots at the positions from zero on of each worker that takes units, as
/// many as the worker takes, and no other slots; it has them in the order of workers and
/// positions. Its default mapping is built from them, and its default slot is the first one of a
/// worker that takes a single unit.
pub proof fn law_scheduler_has_the_slots_that_are_taken<B: Fn(&[WorkerSlotId], usize) -> WorkerSlotMapping>(
    scheduler: Scheduler,
    build_from_ids: B,
    units: Map<WorkerId, usize>,
    single: Map<WorkerId, usize>,
    vnode_count: usize,
)
    requires
        scheduler.uses_units(build_from_ids, units, single, vnode_count),
    ensures
        forall|worker: WorkerId, position: usize| #[trigger]
            scheduler.scheduled_worker_slots@.contains(
                WorkerSlotId { worker_id: worker, slot_idx: position },
            ) <==> units.contains_key(worker) && 0 <= position < units[worker],
        forall|i: int, j: int|
            0 <= i < j < scheduler.scheduled_worker_slots@.len() ==> {
                let (a, b) = (
                    #[trigger] scheduler.scheduled_worker_slots@[i],
                    #[trigger] scheduler.scheduled_worker_slots@[j],
                );
                a.worker_id < b.worker_id || a.worker_id == b.worker_id && a.slot_idx < b.slot_idx
            },
        exists|ids: &[WorkerSlotId]|
            ids@ == scheduler.scheduled_worker_slots@ && #[trigger] call_ensures(
                build_from_ids,
                (ids, vnode_count),
                scheduler.default_hash_mapping,
            ),
        single.contains_key(scheduler.default_singleton_worker_slot.worker_id),
        scheduler.default_singleton_worker_slot.slot_idx == 0,
{
    let slots = scheduler.scheduled_worker_slots@;
    assert forall|i: int, j: int| 0 <= i < j < slots.len() implies {
        let (a, b) = (#[trigger] slots[i], #[trigger] slots[j]);
        a.worker_id < b.worker_id || a.worker_id == b.worker_id && a.slot_idx < b.slot_idx
    } by {
        assert(slots[i].precedes(slots[j]));
    }
    assert forall|worker: WorkerId, position: usize| #[trigger]
        slots.contains(WorkerSlotId { worker_id: worker, slot_idx: position })
            <==> units.contains_key(worker) && 0 <= position < units[worker] by {
        let slot = WorkerSlotId { worker_id: worker, slot_idx: position };
        assert(slots.contains(slot) <==> handed_out(units).contains(slot));
    }
}

/// Where each worker takes at most as many units as it offers slots, every scheduled slot is one
/// that its worker offers, and each worker that takes units gives its first slot.
pub proof fn law_scheduled_slots_are_offered<B: Fn(&[WorkerSlotId], usize) -> WorkerSlotMapping>(
    scheduler: Scheduler,
    build_from_ids: B,
    workers: Map<WorkerId, WorkerNode>,
    units: Map<WorkerId, usize>,
    single: Map<WorkerId, usize>,
    vnode_count: usize,
)
    requires
        scheduler.uses_units(build_from_ids, units, single, vnode_count),
        forall|worker: WorkerId| #[trigger]
            units.contains_key(worker) ==> workers.contains_key(worker) && units[worker]
                <= workers[worker].parallelism,
    ensures
        forall|i: int|
            0 <= i < scheduler.scheduled_worker_slots@.len() ==> {
                let slot = #[trigger] scheduler.scheduled_worker_slots@[i];
                workers.contains_key(slot.worker_id) && slot.slot_idx
                    < workers[slot.worker_id].parallelism
            },
        forall|worker: WorkerId| #[trigger]
            units.contains_key(worker) && units[worker] > 0
                ==> scheduler.scheduled_worker_slots@.contains(
                WorkerSlotId { worker_id: worker, slot_idx: 0 },
            ),
{
    law_scheduler_has_the_slots_that_are_taken(
        scheduler,
        build_from_ids,
        units,
        single,
        vnode_count,
    );
    let slots = scheduler.scheduled_worker_slots@;
    assert forall|i: int| 0 <= i < slots.len() implies {
        let slot = #[trigger] slots[i];
        workers.contains_key(slot.worker_id) && slot.slot_idx < workers[slot.worker_id].parallelism
    } by {
        let slot = slots[i];
        assert(slots.contains(slot));
        assert(slot == (WorkerSlotId { worker_id: slot.worker_id, slot_idx: slot.slot_idx }));
        assert(units.contains_key(slot.worker_id));
    }
}

/// The units are dealt out with the number of slots that each worker offers, for every worker and
/// for no other.
pub proof fn law_every_worker_offers_its_slots(workers: Map<WorkerId, WorkerNode>, worker: WorkerId)
    ensures
        offered_slots(workers).contains_key(worker) <==> workers.contains_key(worker),
        workers.contains_key(worker) ==> offered_slots(workers)[worker]
            == workers[worker].parallelism,
{
}

/// Each worker hands out as many slots as it takes units: those at the positions below.
pub proof fn law_units_are_handed_out(
    units: Map<WorkerId, usize>,
    worker: WorkerId,
    position: usize,
)
    ensures
        handed_out(units).contains(WorkerSlotId { worker_id: worker, slot_idx: position })
            <==> units.contains_key(worker) && 0 <= position < units[worker],
{
}

/// Units are single exactly if the worker that takes some is the only one.
pub proof fn law_single_unit_has_one_worker(
    units: Map<WorkerId, usize>,
    worker: WorkerId,
    other: WorkerId,
)
    ensures
        units.dom() == set![worker] ==> is_single(units),
        is_single(units) ==> exists|only: WorkerId| units.dom() == #[trigger] set![only],
        is_single(units) && units.contains_key(worker) && units.contains_key(other) ==> worker
            == other,
{
    if units.dom() == set![worker] {
        assert(units.contains_key(worker));
        assert forall|x: WorkerId| #[trigger] units.contains_key(x) implies x == worker by {
            assert(units.dom().contains(x));
        }
    }
    if is_single(units) {
        let only = choose|only: WorkerId| #[trigger]
            units.contains_key(only) && forall|x: WorkerId| #[trigger]
                units.contains_key(x) ==> x == only;
        assert forall|x: WorkerId| units.dom().contains(x) <==> x == only by {
            if units.dom().contains(x) {
                assert(units.contains_key(x));
            }
        }
        assert(units.dom() =~= set![only]);
    }
}

/// The two requirements that a conflict names are among what is asked of the fragment, and no
/// distribution meets both: it would have to be on the slot or to have the mapping where one is
/// required, and to have the vnode count where one is required.
pub proof fn law_conflict_cannot_be_met(
    demands: Set<Demand>,
    conflict: IncompatibleReqs,
    mappings: Seq<Seq<WorkerSlotId>>,
    dist: DistributionView,
)
    requires
        is_conflict(demands, conflict, mappings),
    ensures
        match conflict.a {
            Req::Singleton(slot) => demands.contains(Demand::Singleton(slot)),
            Req::Hash(id) => id < mappings.len() && demands.contains(
                Demand::Hash(mappings[id as int]),
            ),
            Req::AnyVnodeCount(count) => demands.contains(Demand::AnyVnodeCount(count)),
        },
        match conflict.b {
            Req::Singleton(slot) => demands.contains(Demand::Singleton(slot)),
            Req::Hash(id) => id < mappings.len() && demands.contains(
                Demand::Hash(mappings[id as int]),
            ),
            Req::AnyVnodeCount(count) => demands.contains(Demand::AnyVnodeCount(count)),
        },
        !(match conflict.a {
            Req::Singleton(slot) => dist == DistributionView::Singleton(slot),
            Req::Hash(id) => dist == DistributionView::Hash(mappings[id as int]),
            Req::AnyVnodeCount(count) => match dist {
                DistributionView::Singleton(_) => count == 1,
                DistributionView::Hash(mapping) => mapping.len() == count,
            },
        } && match conflict.b {
            Req::Singleton(slot) => dist == DistributionView::Singleton(slot),
            Req::Hash(id) => dist == DistributionView::Hash(mappings[id as int]),
            Req::AnyVnodeCount(count) => match dist {
                DistributionView::Singleton(_) => count == 1,
                DistributionView::Hash(mapping) => mapping.len() == count,
            },
        }),
{
}

} // verus!
