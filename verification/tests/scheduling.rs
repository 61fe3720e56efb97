use std::collections::{BTreeMap, HashMap};

use streaming_core::distribution::Distribution;
use streaming_core::fragment_graph::{
    BuildingFragment, CompleteStreamFragmentGraph, NodeBody, TableDesc,
};
use streaming_core::graph_facts::collect_hash_mappings;
use streaming_core::locations::WorkerNode;
use streaming_core::propagation::DispatcherType;
use streaming_core::requirement::{IncompatibleReqs, Req};
use streaming_core::scheduler::{ScheduleError, Scheduler};
use streaming_core::worker_slot::{WorkerSlotId, WorkerSlotMapping};

fn slot(worker_id: u32, slot_idx: usize) -> WorkerSlotId {
    WorkerSlotId::new(worker_id, slot_idx)
}

/// Deals the virtual nodes out to the slots in turn.
fn build_from_ids(ids: &[WorkerSlotId], vnode_count: usize) -> WorkerSlotMapping {
    WorkerSlotMapping { slots: (0..vnode_count).map(|i| ids[i % ids.len()]).collect() }
}

/// Takes units from the workers in turn, starting at the worker that the salt picks.
fn schedule_units(
    offered: &HashMap<u32, usize>,
    total: usize,
    salt: u32,
) -> Result<BTreeMap<u32, usize>, String> {
    if offered.values().sum::<usize>() < total {
        return Err(format!("not enough slots for {total}"));
    }
    let mut workers: Vec<u32> = offered.keys().copied().collect();
    workers.sort();
    let mut units = BTreeMap::new();
    let mut next = salt as usize;
    let mut left = total;
    while left > 0 {
        let worker = workers[next % workers.len()];
        let taken = units.get(&worker).copied().unwrap_or(0);
        if taken < offered[&worker] {
            units.insert(worker, taken + 1);
            left -= 1;
        }
        next += 1;
    }
    Ok(units)
}

fn workers() -> HashMap<u32, WorkerNode> {
    HashMap::from([
        (1, WorkerNode { host: None, parallelism: 2 }),
        (2, WorkerNode { host: None, parallelism: 3 }),
    ])
}

fn scheduler() -> Scheduler {
    Scheduler::new(0, &workers(), 3, 8, &schedule_units, &build_from_ids).unwrap()
}

fn fragment(requires_singleton: bool, nodes: Vec<NodeBody>) -> BuildingFragment {
    BuildingFragment { requires_singleton, nodes }
}

fn scan(vnode_count: usize) -> NodeBody {
    NodeBody::StreamScan {
        arrangement_table: None,
        table_desc: Some(TableDesc { vnode_count }),
    }
}

fn mapping(slots: Vec<WorkerSlotId>) -> WorkerSlotMapping {
    WorkerSlotMapping { slots }
}

#[test]
fn new_scheduler_hands_out_the_scheduled_slots() {
    let scheduler = scheduler();
    assert_eq!(scheduler.scheduled_worker_slots, vec![slot(1, 0), slot(1, 1), slot(2, 0)]);
    assert_eq!(
        scheduler.default_hash_mapping,
        build_from_ids(&[slot(1, 0), slot(1, 1), slot(2, 0)], 8)
    );
    assert_eq!(scheduler.default_singleton_worker_slot, slot(1, 0));
}

#[test]
fn job_id_is_the_salt() {
    let scheduler =
        Scheduler::new(1, &workers(), 3, 3, &schedule_units, &build_from_ids).unwrap();
    assert_eq!(scheduler.scheduled_worker_slots, vec![slot(1, 0), slot(2, 0), slot(2, 1)]);
    assert_eq!(scheduler.default_singleton_worker_slot, slot(2, 0));
    assert_eq!(scheduler.default_hash_mapping.len(), 3);
}

#[test]
fn new_scheduler_passes_the_error_on() {
    let r = Scheduler::new(0, &workers(), 6, 8, &schedule_units, &build_from_ids);
    assert_eq!(r.unwrap_err(), "not enough slots for 6");
}

#[test]
fn new_scheduler_fails_if_no_single_unit_is_found() {
    let only_many = |offered: &HashMap<u32, usize>, total: usize, salt: u32| {
        if total == 1 {
            Err(String::from("no single unit"))
        } else {
            schedule_units(offered, total, salt)
        }
    };
    let r = Scheduler::new(0, &workers(), 3, 8, &only_many, &build_from_ids);
    assert_eq!(r.unwrap_err(), "no single unit");
}

#[test]
fn scheduler_from_units() {
    let units = BTreeMap::from([(7, 1), (3, 2), (5, 0)]);
    let single = BTreeMap::from([(9, 1)]);
    let scheduler = Scheduler::from_units(&units, &single, 4, &build_from_ids);
    assert_eq!(scheduler.scheduled_worker_slots, vec![slot(3, 0), slot(3, 1), slot(7, 0)]);
    assert_eq!(
        scheduler.default_hash_mapping.slots,
        vec![slot(3, 0), slot(3, 1), slot(7, 0), slot(3, 0)]
    );
    assert_eq!(scheduler.default_singleton_worker_slot, slot(9, 0));
}

#[test]
fn requirement_decides_the_distribution() {
    let scheduler = scheduler();
    let mappings = vec![mapping(vec![slot(8, 0)]), mapping(vec![slot(8, 1), slot(8, 2)])];
    let derive = |req: Req| scheduler.derive_distribution(req, &mappings, &build_from_ids);
    assert_eq!(derive(Req::Singleton(slot(6, 6))), Distribution::Singleton(slot(6, 6)));
    assert_eq!(
        derive(Req::Hash(1)),
        Distribution::Hash(mapping(vec![slot(8, 1), slot(8, 2)]))
    );
    assert_eq!(derive(Req::AnyVnodeCount(1)), Distribution::Singleton(slot(1, 0)));
    // With fewer virtual nodes than slots, only the first slots are used.
    assert_eq!(
        derive(Req::AnyVnodeCount(2)),
        Distribution::Hash(mapping(vec![slot(1, 0), slot(1, 1)]))
    );
    assert_eq!(
        derive(Req::AnyVnodeCount(4)),
        Distribution::Hash(mapping(vec![slot(1, 0), slot(1, 1), slot(2, 0), slot(1, 0)]))
    );
}

// 1 -|-> 101 --> 103 --> 104    105
// 2 -|-> 102 -->
#[test]
fn graph_is_scheduled() {
    let scheduler = scheduler();
    let existing = mapping(vec![slot(2, 1), slot(2, 2), slot(2, 1)]);
    let graph = CompleteStreamFragmentGraph {
        building_fragments: HashMap::from([
            // The scanned table has as many virtual nodes as the existing mapping.
            (101, fragment(false, vec![NodeBody::Other, scan(3)])),
            (102, fragment(true, vec![])),
            (103, fragment(false, vec![])),
            (104, fragment(false, vec![NodeBody::Other])),
            (105, fragment(false, vec![scan(5)])),
        ]),
        existing_distribution: HashMap::from([
            (1, Distribution::Hash(existing.clone())),
            (2, Distribution::Singleton(slot(2, 2))),
        ]),
        edges: vec![
            (1, 101, DispatcherType::NoShuffle),
            (2, 102, DispatcherType::NoShuffle),
            (101, 103, DispatcherType::Hash),
            (102, 103, DispatcherType::Broadcast),
            (103, 104, DispatcherType::Simple),
        ],
    };
    let distributions = scheduler.schedule(&graph, &build_from_ids).unwrap();
    let expected = HashMap::from([
        (101, Distribution::Hash(existing)),
        (102, Distribution::Singleton(slot(2, 2))),
        (103, Distribution::Hash(scheduler.default_hash_mapping.clone())),
        (104, Distribution::Singleton(slot(1, 0))),
        (105, Distribution::Hash(build_from_ids(&scheduler.scheduled_worker_slots, 5))),
    ]);
    assert_eq!(distributions, expected);
    // Fragments that are linked share their distribution; each distribution stays within limits.
    for distribution in distributions.values() {
        assert!(distribution.parallelism() <= distribution.vnode_count());
        assert!(distribution.parallelism() <= 3);
    }
    assert_eq!(distributions[&104].vnode_count(), 1);
}

#[test]
fn linked_fragments_share_their_distribution() {
    let graph = CompleteStreamFragmentGraph {
        building_fragments: HashMap::from([
            (101, fragment(false, vec![])),
            (102, fragment(false, vec![scan(6)])),
            (103, fragment(false, vec![])),
            (104, fragment(false, vec![])),
        ]),
        existing_distribution: HashMap::new(),
        edges: vec![
            (101, 102, DispatcherType::NoShuffle),
            (103, 104, DispatcherType::NoShuffle),
        ],
    };
    let scheduler = scheduler();
    let distributions = scheduler.schedule(&graph, &build_from_ids).unwrap();
    assert_eq!(distributions[&101], distributions[&102]);
    assert_eq!(distributions[&101].vnode_count(), 6);
    assert_eq!(distributions[&103], distributions[&104]);
    assert_eq!(distributions[&103].vnode_count(), 8);
}

#[test]
fn equal_mappings_of_existing_fragments_are_one() {
    let shared = mapping(vec![slot(1, 0), slot(2, 0)]);
    let graph = CompleteStreamFragmentGraph {
        building_fragments: HashMap::from([(101, fragment(false, vec![]))]),
        existing_distribution: HashMap::from([
            (1, Distribution::Hash(shared.clone())),
            (2, Distribution::Hash(shared.clone())),
        ]),
        edges: vec![
            (1, 101, DispatcherType::NoShuffle),
            (2, 101, DispatcherType::NoShuffle),
        ],
    };
    assert_eq!(collect_hash_mappings(&graph), vec![shared.clone()]);
    let distributions = scheduler().schedule(&graph, &build_from_ids).unwrap();
    assert_eq!(distributions[&101], Distribution::Hash(shared));
}

#[test]
fn conflict_names_the_fragment_and_the_requirements() {
    let graph = CompleteStreamFragmentGraph {
        building_fragments: HashMap::from([
            (101, fragment(true, vec![scan(4)])),
            (102, fragment(false, vec![])),
        ]),
        existing_distribution: HashMap::new(),
        edges: vec![],
    };
    let e = scheduler().schedule(&graph, &build_from_ids).unwrap_err();
    assert_eq!(
        e,
        ScheduleError {
            fragment: 101,
            conflict: IncompatibleReqs { a: Req::AnyVnodeCount(1), b: Req::AnyVnodeCount(4) },
        }
    );
}

#[test]
fn two_upstream_mappings_are_in_conflict() {
    let graph = CompleteStreamFragmentGraph {
        building_fragments: HashMap::from([(101, fragment(false, vec![]))]),
        existing_distribution: HashMap::from([
            (1, Distribution::Hash(mapping(vec![slot(1, 0)]))),
            (2, Distribution::Hash(mapping(vec![slot(1, 1)]))),
        ]),
        edges: vec![
            (1, 101, DispatcherType::NoShuffle),
            (2, 101, DispatcherType::NoShuffle),
        ],
    };
    let e = scheduler().schedule(&graph, &build_from_ids).unwrap_err();
    assert_eq!(e.fragment, 101);
    assert_ne!(e.conflict.a, e.conflict.b);
    assert!(matches!(e.conflict.a, Req::Hash(_)));
    assert!(matches!(e.conflict.b, Req::Hash(_)));
}

#[test]
fn nodes_tell_the_vnode_count_of_the_table_they_look_up() {
    let table = |vnode_count: usize| Some(TableDesc { vnode_count });
    let both = NodeBody::StreamScan { arrangement_table: table(3), table_desc: table(4) };
    assert_eq!(both.vnode_count(), Some(3));
    assert_eq!(scan(4).vnode_count(), Some(4));
    let neither = NodeBody::StreamScan { arrangement_table: None, table_desc: None };
    assert_eq!(neither.vnode_count(), None);
    assert_eq!(NodeBody::TemporalJoin { table_desc: table(5) }.vnode_count(), Some(5));
    assert_eq!(NodeBody::BatchPlan { table_desc: table(6) }.vnode_count(), Some(6));
    let lookup = NodeBody::Lookup { arrangement_table_info: Some(table(7)) };
    assert_eq!(lookup.vnode_count(), Some(7));
    assert_eq!(NodeBody::Other.vnode_count(), None);
}
