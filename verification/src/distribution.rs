//! The distribution of a fragment: the result of scheduling it.

use std::collections::HashMap;
use vstd::prelude::*;

use crate::grouping::exactly_one;
use crate::worker_slot::{WorkerId, WorkerSlotId, WorkerSlotMapping, ascending};

verus! {

/// Identifier of an actor.
pub type ActorId = u32;

/// The distribution (scheduling result) of a fragment.
#[derive(Debug, PartialEq, Eq)]
pub enum Distribution {
    /// The fragment is singleton and is scheduled to the given worker slot.
    Singleton(WorkerSlotId),
    /// The fragment is hash-distributed and is scheduled by the given hash mapping.
    Hash(WorkerSlotMapping),
}

/// What a distribution stands for.
pub enum DistributionView {
    Singleton(WorkerSlotId),
    Hash(Seq<WorkerSlotId>),
}

impl View for Distribution {
    type V = DistributionView;

    open spec fn view(&self) -> DistributionView {
        match *self {
            Distribution::Singleton(slot) => DistributionView::Singleton(slot),
            Distribution::Hash(mapping) => DistributionView::Hash(mapping@),
        }
    }
}

impl DistributionView {
    /// The worker slots that the distribution requires.
    pub open spec fn slots(self) -> Set<WorkerSlotId> {
        match self {
            DistributionView::Singleton(slot) => set![slot],
            DistributionView::Hash(mapping) => mapping.to_set(),
        }
    }

    /// The vnode count of the distribution.
    pub open spec fn vnode_count(self) -> nat {
        match self {
            DistributionView::Singleton(_) => 1,
            DistributionView::Hash(mapping) => mapping.len(),
        }
    }

    /// The type under which a fragment with the distribution is persisted.
    pub open spec fn distribution_type(self) -> FragmentDistributionType {
        match self {
            DistributionView::Singleton(_) => FragmentDistributionType::Single,
            DistributionView::Hash(_) => FragmentDistributionType::Hash,
        }
    }
}

/// No distribution requires more worker slots than it has virtual nodes.
pub proof fn law_parallelism_is_within_vnode_count(dist: DistributionView)
    ensures
        dist.slots().len() <= dist.vnode_count(),
{
    match dist {
        DistributionView::Singleton(_) => {},
        DistributionView::Hash(mapping) => {
            mapping.lemma_cardinality_of_set();
        },
    }
}

/// A singleton takes the one slot that it names, for one virtual node.
pub proof fn law_singleton_takes_its_slot(slot: WorkerSlotId)
    ensures
        forall|other: WorkerSlotId|
            Distribution::Singleton(slot)@.slots().contains(other) <==> other == slot,
        Distribution::Singleton(slot)@.slots().len() == 1,
        Distribution::Singleton(slot)@.vnode_count() == 1,
        Distribution::Singleton(slot)@.distribution_type() == FragmentDistributionType::Single,
{
}

/// A hash distribution takes the slots that some virtual node is mapped to and no other, for as
/// many virtual nodes as are mapped.
pub proof fn law_hash_takes_the_slots_of_its_vnodes(mapping: WorkerSlotMapping)
    ensures
        forall|slot: WorkerSlotId| #[trigger]
            Distribution::Hash(mapping)@.slots().contains(slot) <==> exists|vnode: int|
                0 <= vnode < mapping.slots@.len() && #[trigger] mapping.slots@[vnode] == slot,
        Distribution::Hash(mapping)@.vnode_count() == mapping.slots@.len(),
        Distribution::Hash(mapping)@.distribution_type() == FragmentDistributionType::Hash,
{
    let dist = Distribution::Hash(mapping)@;
    assert forall|slot: WorkerSlotId| #[trigger] dist.slots().contains(slot) <==> exists|
        vnode: int,
    |
        0 <= vnode < mapping.slots@.len() && #[trigger] mapping.slots@[vnode] == slot by {
        assert(dist.slots().contains(slot) <==> mapping.slots@.contains(slot));
    }
}

/// How the actors of a persisted fragment share its data.
#[derive(Debug, Clone, Copy, PartialEq, Eq, Structural)]
pub enum FragmentDistributionType {
    Unspecified,
    Single,
    Hash,
}

/// An actor of a persisted fragment.
#[derive(Debug)]
pub struct StreamActor {
    pub actor_id: ActorId,
    /// For each virtual node, whether the actor owns it.
    pub vnode_bitmap: Option<Vec<bool>>,
}

/// A persisted fragment.
#[derive(Debug)]
pub struct Fragment {
    pub distribution_type: FragmentDistributionType,
    pub actors: Vec<StreamActor>,
}

/// The bitmap of each actor; of several actors with one id, the last one counts.
pub open spec fn actor_bitmaps(actors: Seq<StreamActor>) -> Map<ActorId, Seq<bool>>
    decreases actors.len(),
{
    if actors.len() == 0 {
        Map::empty()
    } else {
        actor_bitmaps(actors.drop_last()).insert(
            actors.last().actor_id,
            actors.last().vnode_bitmap->0@,
        )
    }
}

/// Whether the bitmaps in `map` are those of the actors.
pub open spec fn holds_bitmaps(
    map: HashMap<ActorId, Vec<bool>>,
    actors: Seq<StreamActor>,
) -> bool {
    &&& map@.dom() == actor_bitmaps(actors).dom()
    &&& forall|id: ActorId| #[trigger]
        map@.contains_key(id) ==> map@[id]@ == actor_bitmaps(actors)[id]
}

/// Every actor of the fragment is among those that the mapping to actors is built from, with its
/// own bitmap unless a later actor has the same id; and no other actor is.
pub proof fn law_every_actor_brings_its_bitmap(
    bitmaps: HashMap<ActorId, Vec<bool>>,
    actors: Seq<StreamActor>,
)
    requires
        holds_bitmaps(bitmaps, actors),
    ensures
        forall|i: int|
            0 <= i < actors.len() ==> bitmaps@.contains_key((#[trigger] actors[i]).actor_id),
        forall|i: int, bitmap: Vec<bool>|
            0 <= i < actors.len() && (#[trigger] actors[i]).vnode_bitmap == Some(bitmap) && (
            forall|j: int|
                i < j < actors.len() ==> (#[trigger] actors[j]).actor_id != actors[i].actor_id)
                ==> (#[trigger] bitmap@) == bitmaps@[actors[i].actor_id]@,
        forall|id: ActorId| #[trigger]
            bitmaps@.contains_key(id) ==> exists|i: int|
                0 <= i < actors.len() && (#[trigger] actors[i]).actor_id == id,
{
    lemma_bitmaps_of_actors(actors);
    assert forall|i: int| 0 <= i < actors.len() implies bitmaps@.contains_key(
        (#[trigger] actors[i]).actor_id,
    ) by {
        assert(actor_bitmaps(actors).dom().contains(actors[i].actor_id));
        assert(bitmaps@.dom().contains(actors[i].actor_id));
    }
    assert forall|id: ActorId| #[trigger] bitmaps@.contains_key(id) implies exists|i: int|
        0 <= i < actors.len() && (#[trigger] actors[i]).actor_id == id by {
        assert(bitmaps@.dom().contains(id));
        assert(actor_bitmaps(actors).contains_key(id));
    }
    assert forall|i: int, bitmap: Vec<bool>|
        0 <= i < actors.len() && (#[trigger] actors[i]).vnode_bitmap == Some(bitmap) && (forall|
            j: int,
        |
            i < j < actors.len() ==> (#[trigger] actors[j]).actor_id
                != actors[i].actor_id) implies (#[trigger] bitmap@)
        == bitmaps@[actors[i].actor_id]@ by {
        assert(bitmaps@.contains_key(actors[i].actor_id));
    }
}

/// Which ids have a bitmap, and which bitmap the last actor with an id gives it.
proof fn lemma_bitmaps_of_actors(actors: Seq<StreamActor>)
    ensures
        forall|i: int|
            0 <= i < actors.len() ==> actor_bitmaps(actors).contains_key(
                (#[trigger] actors[i]).actor_id,
            ),
        forall|i: int|
            0 <= i < actors.len() && (forall|j: int|
                i < j < actors.len() ==> (#[trigger] actors[j]).actor_id != actors[i].actor_id)
                ==> actor_bitmaps(actors)[(#[trigger] actors[i]).actor_id]
                == actors[i].vnode_bitmap->0@,
        forall|id: ActorId| #[trigger]
            actor_bitmaps(actors).contains_key(id) ==> exists|i: int|
                0 <= i < actors.len() && (#[trigger] actors[i]).actor_id == id,
    decreases actors.len(),
{
    if actors.len() > 0 {
        let (rest, last) = (actors.drop_last(), actors.len() - 1);
        lemma_bitmaps_of_actors(rest);
        assert forall|i: int| 0 <= i < actors.len() implies actor_bitmaps(actors).contains_key(
            (#[trigger] actors[i]).actor_id,
        ) by {
            if i < last {
                assert(rest[i] == actors[i]);
            }
        }
        assert forall|i: int|
            0 <= i < actors.len() && (forall|j: int|
                i < j < actors.len() ==> (#[trigger] actors[j]).actor_id
                    != actors[i].actor_id) implies actor_bitmaps(actors)[(
        #[trigger] actors[i]).actor_id] == actors[i].vnode_bitmap->0@ by {
            if i < last {
                assert(rest[i] == actors[i]);
                assert(actors[last].actor_id != actors[i].actor_id);
                assert forall|j: int| i < j < rest.len() implies (#[trigger] rest[j]).actor_id
                    != rest[i].actor_id by {
                    assert(rest[j] == actors[j]);
                }
            }
        }
        assert forall|id: ActorId| #[trigger]
            actor_bitmaps(actors).contains_key(id) implies exists|i: int|
            0 <= i < actors.len() && (#[trigger] actors[i]).actor_id == id by {
            if id == actors[last].actor_id {
                assert(actors[last].actor_id == id);
            } else {
                assert(actor_bitmaps(rest).contains_key(id));
                let i = choose|i: int| 0 <= i < rest.len() && (#[trigger] rest[i]).actor_id == id;
                assert(actors[i].actor_id == id);
            }
        }
    }
}

impl Distribution {
    /// The parallelism required by the distribution.
    pub fn parallelism(&self) -> (n: usize)
        ensures
            n == self@.slots().len(),
    {
        let slots = self.worker_slots();
        proof {
            assert(slots@.no_duplicates());
            slots@.unique_seq_to_set();
            assert(slots@.to_set() =~= self@.slots());
        }
        slots.len()
    }

    /// All worker slots required by the distribution, in ascending order.
    pub fn worker_slots(&self) -> (slots: Vec<WorkerSlotId>)
        ensures
            ascending(slots@),
            forall|slot: WorkerSlotId| #[trigger]
                slots@.contains(slot) <==> self@.slots().contains(slot),
    {
        match self {
            Distribution::Singleton(slot) => {
                let mut slots: Vec<WorkerSlotId> = Vec::new();
                slots.push(*slot);
                assert(slots@[0] == *slot);
                slots
            },
            Distribution::Hash(mapping) => mapping.iter_unique(),
        }
    }

    /// Get the vnode count of the distribution.
    pub fn vnode_count(&self) -> (n: usize)
        ensures
            n == self@.vnode_count(),
    {
        match self {
            Distribution::Singleton(_) => 1,
            Distribution::Hash(mapping) => mapping.len(),
        }
    }

    /// The hash mapping of a hash-distributed fragment.
    pub fn as_hash(&self) -> (mapping: Option<&WorkerSlotMapping>)
        ensures
            mapping == match *self {
                Distribution::Singleton(_) => None,
                Distribution::Hash(m) => Some(&m),
            },
    {
        match self {
            Distribution::Singleton(_) => None,
            Distribution::Hash(mapping) => Some(mapping),
        }
    }

    /// Convert the distribution to the distribution type of a persisted fragment.
    pub fn to_distribution_type(&self) -> (t: FragmentDistributionType)
        ensures
            t == self@.distribution_type(),
    {
        match self {
            Distribution::Singleton(_) => FragmentDistributionType::Single,
            Distribution::Hash(_) => FragmentDistributionType::Hash,
        }
    }

    /// Create a distribution from a persisted fragment.
    ///
    /// A singleton fragment takes the first slot of the worker of its only actor. For a
    /// hash-distributed fragment `from_bitmaps` builds the mapping to actors from the bitmaps of
    /// the actors, and `to_worker_slot` turns it into the mapping to worker slots.
    pub fn from_fragment<
        M,
        B: Fn(&HashMap<ActorId, Vec<bool>>) -> M,
        W: Fn(&M, &HashMap<ActorId, WorkerId>) -> WorkerSlotMapping,
    >(
        fragment: &Fragment,
        actor_location: &HashMap<ActorId, WorkerId>,
        from_bitmaps: &B,
        to_worker_slot: &W,
    ) -> (dist: Distribution)
        requires
            match fragment.distribution_type {
                FragmentDistributionType::Unspecified => false,
                FragmentDistributionType::Single => {
                    &&& fragment.actors@.len() == 1
                    &&& actor_location@.contains_key(fragment.actors@[0].actor_id)
                },
                FragmentDistributionType::Hash => {
                    &&& forall|i: int|
                        0 <= i < fragment.actors@.len()
                            ==> (#[trigger] fragment.actors@[i]).vnode_bitmap is Some
                    &&& forall|bitmaps: HashMap<ActorId, Vec<bool>>|
                        holds_bitmaps(bitmaps, fragment.actors@) ==> #[trigger] call_requires(
                            *from_bitmaps,
                            (&bitmaps,),
                        )
                    &&& forall|bitmaps: HashMap<ActorId, Vec<bool>>, mapping: M|
                        holds_bitmaps(bitmaps, fragment.actors@) && #[trigger] call_ensures(
                            *from_bitmaps,
                            (&bitmaps,),
                            mapping,
                        ) ==> call_requires(*to_worker_slot, (&mapping, actor_location))
                },
            },
        ensures
            dist@.distribution_type() == fragment.distribution_type,
            match fragment.distribution_type {
                FragmentDistributionType::Unspecified => false,
                FragmentDistributionType::Single => dist@ == DistributionView::Singleton(
                    WorkerSlotId {
                        worker_id: actor_location@[fragment.actors@[0].actor_id],
                        slot_idx: 0,
                    },
                ),
                FragmentDistributionType::Hash => exists|
                    bitmaps: HashMap<ActorId, Vec<bool>>,
                    mapping: M,
                |
                    {
                        &&& holds_bitmaps(bitmaps, fragment.actors@)
                        &&& #[trigger] call_ensures(*from_bitmaps, (&bitmaps,), mapping)
                        &&& call_ensures(
                            *to_worker_slot,
                            (&mapping, actor_location),
                            dist->Hash_0,
                        )
                    },
            },
    {
        match fragment.distribution_type {
            FragmentDistributionType::Hash => {
                let bitmaps = Self::collect_bitmaps(&fragment.actors);
                let mapping = from_bitmaps(&bitmaps);
                Distribution::Hash(to_worker_slot(&mapping, actor_location))
            },
            FragmentDistributionType::Single => {
                let actor_id: ActorId = exactly_one(&fragment.actors).unwrap().actor_id;
                let location: WorkerId = *actor_location.get(&actor_id).unwrap();
                Distribution::Singleton(WorkerSlotId::new(location, 0))
            },
            FragmentDistributionType::Unspecified => vstd::pervasive::unreached(),
        }
    }

    /// The bitmap of each actor, by the id of the actor.
    fn collect_bitmaps(actors: &Vec<StreamActor>) -> (bitmaps: HashMap<ActorId, Vec<bool>>)
        requires
            forall|i: int|
                0 <= i < actors@.len() ==> (#[trigger] actors@[i]).vnode_bitmap is Some,
        ensures
            holds_bitmaps(bitmaps, actors@),
    {
        broadcast use vstd::std_specs::hash::group_hash_axioms;

        let mut bitmaps: HashMap<ActorId, Vec<bool>> = HashMap::new();
        let mut i: usize = 0;
        assert(actors@.take(0).len() == 0);
        assert(bitmaps@.dom() =~= actor_bitmaps(actors@.take(0)).dom());
        while i < actors.len()
            invariant
                i <= actors.len(),
                forall|j: int|
                    0 <= j < actors@.len() ==> (#[trigger] actors@[j]).vnode_bitmap is Some,
                holds_bitmaps(bitmaps, actors@.take(i as int)),
            decreases actors.len() - i,
        {
            proof {
                assert(actors@.take(i + 1).drop_last() =~= actors@.take(i as int));
            }
            if let Some(bitmap) = &actors[i].vnode_bitmap {
                let copy = bitmap.clone();
                assert(copy@ =~= bitmap@);
                bitmaps.insert(actors[i].actor_id, copy);
            }
            assert(bitmaps@.dom() =~= actor_bitmaps(actors@.take(i + 1)).dom());
            i = i + 1;
        }
        assert(actors@.take(i as int) =~= actors@);
        bitmaps
    }
}

} // verus!
