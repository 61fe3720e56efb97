//! Where the actors of a streaming job run.

use std::collections::{BTreeMap, HashMap};
use vstd::prelude::*;

use crate::distribution::ActorId;
use crate::grouping::{into_group_map, lemma_values_of, values_of};
use crate::maps::sorted_entries;
use crate::worker_slot::{WorkerId, WorkerSlotId};

verus! {

/// The address of a worker node.
#[derive(Debug, PartialEq, Eq)]
pub struct HostAddress {
    pub host: String,
    pub port: i32,
}

impl Clone for HostAddress {
    fn clone(&self) -> (copy: HostAddress)
        ensures
            copy == *self,
    {
        HostAddress { host: self.host.clone(), port: self.port }
    }
}

/// A worker node.
#[derive(Debug)]
pub struct WorkerNode {
    /// The address under which the node is reached.
    pub host: Option<HostAddress>,
    /// The number of slots that the node offers to actors.
    pub parallelism: usize,
}

impl WorkerNode {
    /// The number of slots that the node offers to actors.
    pub fn compute_node_parallelism(&self) -> (n: usize)
        ensures
            n == self.parallelism,
    {
        self.parallelism
    }
}

/// An actor and the address of the worker node that runs it.
#[derive(Debug, PartialEq, Eq)]
pub struct ActorInfo {
    pub actor_id: ActorId,
    pub host: Option<HostAddress>,
}

/// [`Locations`] represents the worker slot and worker locations of the actors.
#[derive(Debug)]
pub struct Locations {
    /// actor location map.
    pub actor_locations: BTreeMap<ActorId, WorkerSlotId>,
    /// worker location map.
    pub worker_locations: HashMap<WorkerId, WorkerNode>,
}

/// Whether each id is less than those that follow it in the sequence.
pub open spec fn ids_ascend(ids: Seq<u32>) -> bool {
    forall|i: int, j: int| 0 <= i < j < ids.len() ==> #[trigger] ids[i] < #[trigger] ids[j]
}

impl Locations {
    /// Whether the actor is located on the worker.
    pub open spec fn runs_on(self, actor: ActorId, worker: WorkerId) -> bool {
        &&& self.actor_locations@.contains_key(actor)
        &&& self.actor_locations@[actor].worker_id == worker
    }

    /// Returns all actors for every worker node, in ascending order.
    pub fn worker_actors(&self) -> (actors: HashMap<WorkerId, Vec<ActorId>>)
        ensures
            forall|worker: WorkerId| #[trigger]
                actors@.contains_key(worker) <==> exists|actor: ActorId|
                    self.runs_on(actor, worker),
            forall|worker: WorkerId| #[trigger]
                actors@.contains_key(worker) ==> {
                    &&& ids_ascend(actors@[worker]@)
                    &&& forall|actor: ActorId| #[trigger]
                        actors@[worker]@.contains(actor) <==> self.runs_on(actor, worker)
                },
    {
        let entries = sorted_entries(&self.actor_locations);
        let mut pairs: Vec<(WorkerId, ActorId)> = Vec::new();
        let mut i: usize = 0;
        while i < entries.len()
            invariant
                i <= entries.len(),
                pairs@.len() == i,
                forall|j: int|
                    0 <= j < i ==> #[trigger] pairs@[j] == (
                        entries@[j].1.worker_id,
                        entries@[j].0,
                    ),
            decreases entries.len() - i,
        {
            pairs.push((entries[i].1.worker_id(), entries[i].0));
            i = i + 1;
        }
        let actors = into_group_map(pairs);
        proof {
            assert(ids_ascend(seconds(pairs@)));
            assert forall|worker: WorkerId, actor: ActorId|
                pairs@.contains((worker, actor)) <==> self.runs_on(actor, worker) by {
                if pairs@.contains((worker, actor)) {
                    let j = choose|j: int| 0 <= j < pairs@.len() && pairs@[j] == (worker, actor);
                    assert(entries@[j].1.worker_id == worker && entries@[j].0 == actor);
                    assert(entries@.contains((entries@[j].0, entries@[j].1)));
                }
                if self.runs_on(actor, worker) {
                    let slot = self.actor_locations@[actor];
                    assert(entries@.contains((actor, slot)));
                    let j = choose|j: int|
                        0 <= j < entries@.len() && entries@[j] == (actor, slot);
                    assert(pairs@[j] == (worker, actor));
                }
            }
            assert forall|worker: WorkerId| true implies {
                &&& ids_ascend(#[trigger] values_of(pairs@, worker))
                &&& forall|actor: ActorId| #[trigger]
                    values_of(pairs@, worker).contains(actor) <==> self.runs_on(actor, worker)
            } by {
                lemma_values_of(pairs@, worker);
                lemma_values_ascend(pairs@, worker);
            }
            assert forall|worker: WorkerId| #[trigger]
                actors@.contains_key(worker) <==> exists|actor: ActorId|
                    self.runs_on(actor, worker) by {
                let values = values_of(pairs@, worker);
                if values.len() > 0 {
                    assert(values.contains(values[0]));
                    assert(self.runs_on(values[0], worker));
                }
                if exists|actor: ActorId| self.runs_on(actor, worker) {
                    let actor = choose|actor: ActorId| self.runs_on(actor, worker);
                    assert(values.contains(actor));
                }
            }
        }
        actors
    }

    /// Returns each actor with the address of its worker node, in ascending order.
    pub fn actor_infos(&self) -> (infos: Vec<ActorInfo>)
        requires
            forall|actor: ActorId| #[trigger]
                self.actor_locations@.contains_key(actor)
                    ==> self.worker_locations@.contains_key(
                    self.actor_locations@[actor].worker_id,
                ),
        ensures
            forall|i: int, j: int|
                0 <= i < j < infos@.len() ==> (#[trigger] infos@[i]).actor_id < (
                #[trigger] infos@[j]).actor_id,
            forall|i: int|
                0 <= i < infos@.len() ==> {
                    let info = #[trigger] infos@[i];
                    &&& self.actor_locations@.contains_key(info.actor_id)
                    &&& info.host
                        == self.worker_locations@[self.actor_locations@[info.actor_id].worker_id].host
                },
            forall|actor: ActorId| #[trigger]
                self.actor_locations@.contains_key(actor) ==> exists|i: int|
                    0 <= i < infos@.len() && (#[trigger] infos@[i]).actor_id == actor,
    {
        broadcast use vstd::std_specs::hash::group_hash_axioms;

        let entries = sorted_entries(&self.actor_locations);
        let mut infos: Vec<ActorInfo> = Vec::new();
        let mut i: usize = 0;
        proof {
            assert forall|j: int| 0 <= j < entries@.len() implies {
                &&& self.actor_locations@.contains_key((#[trigger] entries@[j]).0)
                &&& self.actor_locations@[entries@[j].0] == entries@[j].1
            } by {
                assert(entries@.contains((entries@[j].0, entries@[j].1)));
            }
        }
        while i < entries.len()
            invariant
                i <= entries.len(),
                infos@.len() == i,
                forall|actor: ActorId| #[trigger]
                    self.actor_locations@.contains_key(actor)
                        ==> self.worker_locations@.contains_key(
                        self.actor_locations@[actor].worker_id,
                    ),
                forall|j: int|
                    0 <= j < entries@.len() ==> {
                        &&& self.actor_locations@.contains_key((#[trigger] entries@[j]).0)
                        &&& self.actor_locations@[entries@[j].0] == entries@[j].1
                    },
                forall|j: int|
                    0 <= j < i ==> {
                        &&& (#[trigger] infos@[j]).actor_id == entries@[j].0
                        &&& infos@[j].host
                            == self.worker_locations@[entries@[j].1.worker_id].host
                    },
            decreases entries.len() - i,
        {
            let (actor_id, slot) = entries[i];
            assert(self.actor_locations@.contains_key(entries@[i as int].0));
            let worker = self.worker_locations.get(&slot.worker_id()).unwrap();
            let host = match &worker.host {
                Some(host) => Some(host.clone()),
                None => None,
            };
            infos.push(ActorInfo { actor_id, host });
            i = i + 1;
        }
        proof {
            assert forall|actor: ActorId| #[trigger]
                self.actor_locations@.contains_key(actor) implies exists|i: int|
                0 <= i < infos@.len() && (#[trigger] infos@[i]).actor_id == actor by {
                let slot = self.actor_locations@[actor];
                assert(entries@.contains((actor, slot)));
                let j = choose|j: int| 0 <= j < entries@.len() && entries@[j] == (actor, slot);
                assert(infos@[j].actor_id == actor);
            }
        }
        infos
    }
}

/// Every actor that is located runs on one worker and on no other.
pub proof fn law_actor_runs_on_one_worker(locations: Locations, actor: ActorId)
    requires
        locations.actor_locations@.contains_key(actor),
    ensures
        exists|worker: WorkerId| #[trigger]
            locations.runs_on(actor, worker) && forall|other: WorkerId| #[trigger]
                locations.runs_on(actor, other) ==> other == worker,
{
    assert(locations.runs_on(actor, locations.actor_locations@[actor].worker_id));
}

/// An actor runs on the worker that offers the slot on which it is located, and on no other; an
/// actor that is not located runs nowhere.
pub proof fn law_actor_runs_where_it_is_located(locations: Locations, actor: ActorId)
    ensures
        locations.actor_locations@.contains_key(actor) ==> forall|worker: WorkerId| #[trigger]
            locations.runs_on(actor, worker) <==> worker
                == locations.actor_locations@[actor].worker_id,
        !locations.actor_locations@.contains_key(actor) ==> forall|worker: WorkerId|
            !#[trigger] locations.runs_on(actor, worker),
{
}

/// Where ids ascend, each is less than all that follow it.
pub proof fn law_ascending_ids_grow(ids: Seq<u32>, i: int, j: int)
    requires
        ids_ascend(ids),
        0 <= i < j < ids.len(),
    ensures
        ids[i] < ids[j],
{
}

/// The second components of the pairs.
spec fn seconds(pairs: Seq<(u32, u32)>) -> Seq<u32> {
    pairs.map_values(|p: (u32, u32)| p.1)
}

/// Where the second components ascend, so do those that are paired with one key.
proof fn lemma_values_ascend(pairs: Seq<(u32, u32)>, key: u32)
    requires
        ids_ascend(seconds(pairs)),
    ensures
        ids_ascend(values_of(pairs, key)),
    decreases pairs.len(),
{
    reveal(Seq::filter);
    if pairs.len() > 0 {
        let (before, last) = (pairs.drop_last(), pairs.last());
        assert(seconds(before) =~= seconds(pairs).drop_last());
        lemma_values_ascend(before, key);
        lemma_values_of(before, key);
        let values = values_of(before, key);
        if last.0 == key {
            assert(values_of(pairs, key) =~= values.push(last.1));
            assert forall|i: int| 0 <= i < values.len() implies #[trigger] values[i] < last.1 by {
                assert(values.contains(values[i]));
                let j = choose|j: int| 0 <= j < before.len() && before[j] == (key, values[i]);
                assert(seconds(pairs)[j] == values[i]);
                assert(seconds(pairs)[pairs.len() - 1] == last.1);
            }
        } else {
            assert(values_of(pairs, key) =~= values);
        }
    } else {
        assert(values_of(pairs, key) =~= Seq::<u32>::empty());
    }
}

} // verus!
