use std::collections::{BTreeMap, HashMap};

use streaming_core::distribution::{
    Distribution, Fragment, FragmentDistributionType, StreamActor,
};
use streaming_core::locations::{ActorInfo, HostAddress, Locations, WorkerNode};
use streaming_core::worker_slot::{WorkerSlotId, WorkerSlotMapping};

fn slot(worker_id: u32, slot_idx: usize) -> WorkerSlotId {
    WorkerSlotId::new(worker_id, slot_idx)
}

/// The actor that owns each virtual node.
fn from_bitmaps(bitmaps: &HashMap<u32, Vec<bool>>) -> Vec<u32> {
    let len = bitmaps.values().map(|bitmap| bitmap.len()).max().unwrap_or(0);
    (0..len)
        .map(|vnode| *bitmaps.iter().find(|(_, bitmap)| bitmap[vnode]).unwrap().0)
        .collect()
}

/// Gives each actor of a worker a slot of its own, in the order of the actors.
fn to_worker_slot(actors: &Vec<u32>, locations: &HashMap<u32, u32>) -> WorkerSlotMapping {
    let slot_of = |actor: u32| {
        let worker = locations[&actor];
        let before = locations.iter().filter(|(a, w)| **w == worker && **a < actor).count();
        slot(worker, before)
    };
    WorkerSlotMapping { slots: actors.iter().map(|actor| slot_of(*actor)).collect() }
}

#[test]
fn slot_has_its_worker() {
    assert_eq!(slot(3, 1).worker_id(), 3);
    assert_eq!(slot(3, 1), WorkerSlotId { worker_id: 3, slot_idx: 1 });
}

#[test]
fn singleton_takes_one_slot() {
    let dist = Distribution::Singleton(slot(3, 1));
    assert_eq!(dist.parallelism(), 1);
    assert_eq!(dist.worker_slots(), vec![slot(3, 1)]);
    assert_eq!(dist.vnode_count(), 1);
    assert_eq!(dist.as_hash(), None);
    assert_eq!(dist.to_distribution_type(), FragmentDistributionType::Single);
}

#[test]
fn hash_takes_the_slots_of_its_mapping() {
    let mapping = WorkerSlotMapping {
        slots: vec![slot(2, 1), slot(1, 5), slot(2, 0), slot(1, 5), slot(2, 1)],
    };
    let dist = Distribution::Hash(mapping.clone());
    assert_eq!(dist.parallelism(), 3);
    assert_eq!(dist.worker_slots(), vec![slot(1, 5), slot(2, 0), slot(2, 1)]);
    assert_eq!(dist.vnode_count(), 5);
    assert_eq!(dist.as_hash(), Some(&mapping));
    assert_eq!(dist.to_distribution_type(), FragmentDistributionType::Hash);
}

#[test]
fn empty_mapping_takes_no_slot() {
    let dist = Distribution::Hash(WorkerSlotMapping { slots: vec![] });
    assert_eq!(dist.parallelism(), 0);
    assert_eq!(dist.vnode_count(), 0);
}

#[test]
fn singleton_fragment_is_placed_with_its_actor() {
    let fragment = Fragment {
        distribution_type: FragmentDistributionType::Single,
        actors: vec![StreamActor { actor_id: 12, vnode_bitmap: None }],
    };
    let locations = HashMap::from([(11, 1), (12, 2)]);
    let dist = Distribution::from_fragment(&fragment, &locations, &from_bitmaps, &to_worker_slot);
    assert_eq!(dist, Distribution::Singleton(slot(2, 0)));
    assert_eq!(dist.to_distribution_type(), fragment.distribution_type);
}

#[test]
fn hash_fragment_is_placed_by_its_bitmaps() {
    let actor = |actor_id: u32, bitmap: Vec<bool>| StreamActor {
        actor_id,
        vnode_bitmap: Some(bitmap),
    };
    let fragment = Fragment {
        distribution_type: FragmentDistributionType::Hash,
        actors: vec![
            actor(11, vec![true, false, false, true]),
            actor(12, vec![false, true, false, false]),
            actor(13, vec![false, false, true, false]),
        ],
    };
    let locations = HashMap::from([(11, 1), (12, 2), (13, 1)]);
    let dist = Distribution::from_fragment(&fragment, &locations, &from_bitmaps, &to_worker_slot);
    let expected = vec![slot(1, 0), slot(2, 0), slot(1, 1), slot(1, 0)];
    assert_eq!(dist, Distribution::Hash(WorkerSlotMapping { slots: expected }));
    assert_eq!(dist.to_distribution_type(), fragment.distribution_type);
}

#[test]
fn of_actors_with_one_id_the_last_counts() {
    let fragment = Fragment {
        distribution_type: FragmentDistributionType::Hash,
        actors: vec![
            StreamActor { actor_id: 11, vnode_bitmap: Some(vec![false, false]) },
            StreamActor { actor_id: 11, vnode_bitmap: Some(vec![true, true, true]) },
        ],
    };
    let seen = |bitmaps: &HashMap<u32, Vec<bool>>| bitmaps.clone();
    let check = |bitmaps: &HashMap<u32, Vec<bool>>, _: &HashMap<u32, u32>| {
        assert_eq!(*bitmaps, HashMap::from([(11, vec![true, true, true])]));
        WorkerSlotMapping { slots: vec![] }
    };
    Distribution::from_fragment(&fragment, &HashMap::new(), &seen, &check);
}

fn node(host: &str) -> WorkerNode {
    WorkerNode {
        host: Some(HostAddress { host: String::from(host), port: 5688 }),
        parallelism: 4,
    }
}

#[test]
fn actors_are_listed_by_worker() {
    let locations = Locations {
        actor_locations: BTreeMap::from([
            (30, slot(2, 0)),
            (10, slot(2, 1)),
            (20, slot(1, 0)),
            (5, slot(2, 1)),
        ]),
        worker_locations: HashMap::new(),
    };
    assert_eq!(
        locations.worker_actors(),
        HashMap::from([(1, vec![20]), (2, vec![5, 10, 30])])
    );
}

#[test]
fn no_actors_are_on_no_worker() {
    let locations = Locations {
        actor_locations: BTreeMap::new(),
        worker_locations: HashMap::from([(1, node("a"))]),
    };
    assert_eq!(locations.worker_actors(), HashMap::new());
    assert_eq!(locations.actor_infos(), vec![]);
}

#[test]
fn actor_infos_hold_the_host_of_the_worker() {
    let locations = Locations {
        actor_locations: BTreeMap::from([(30, slot(2, 0)), (10, slot(1, 1)), (20, slot(3, 0))]),
        worker_locations: HashMap::from([
            (1, node("a")),
            (2, node("b")),
            (3, WorkerNode { host: None, parallelism: 1 }),
        ]),
    };
    let host = |name: &str| Some(HostAddress { host: String::from(name), port: 5688 });
    assert_eq!(
        locations.actor_infos(),
        vec![
            ActorInfo { actor_id: 10, host: host("a") },
            ActorInfo { actor_id: 20, host: None },
            ActorInfo { actor_id: 30, host: host("b") },
        ]
    );
}

#[test]
fn worker_node_offers_its_parallelism() {
    assert_eq!(node("a").compute_node_parallelism(), 4);
}
