use std::collections::HashMap;

use itertools::Itertools;
use streaming_core::propagation::{DispatcherType, Fact, Id, connected_fragments, propagate};
use streaming_core::requirement::{HashMappingId, IncompatibleReqs, Req};
use streaming_core::worker_slot::WorkerSlotId;

#[derive(Debug)]
enum Expected {
    DefaultHash,
    Required(Req),
}

fn default_singleton() -> Expected {
    Expected::Required(Req::any_singleton())
}

fn run_and_merge(
    facts: Vec<Fact>,
    mapping_len: impl Fn(HashMappingId) -> usize,
) -> Result<HashMap<Id, Req>, (Id, IncompatibleReqs)> {
    let reqs = propagate(&facts).into_iter().into_group_map();
    let mut merged = HashMap::new();
    for (id, reqs) in reqs {
        let req = Req::merge_all(&reqs, &mapping_len).map_err(|e| (id, e))?.unwrap();
        merged.insert(id, req);
    }
    Ok(merged)
}

fn test_success(facts: Vec<Fact>, expected: HashMap<Id, Expected>) {
    test_success_with_mapping_len(facts, expected, |_| 0);
}

fn test_success_with_mapping_len(
    facts: Vec<Fact>,
    expected: HashMap<Id, Expected>,
    mapping_len: impl Fn(HashMappingId) -> usize,
) {
    let reqs = run_and_merge(facts, mapping_len).unwrap();

    for (id, expected) in expected {
        match (reqs.get(&id), expected) {
            (None, Expected::DefaultHash) => {}
            (Some(actual), Expected::Required(expected)) if *actual == expected => {}
            (actual, expected) => panic!(
                "unexpected result for fragment {id:?}\nactual: {actual:?}\nexpected: {expected:?}"
            ),
        }
    }
}

fn test_failed(facts: Vec<Fact>) {
    run_and_merge(facts, |_| 0).unwrap_err();
}

// 101
#[test]
fn test_single_fragment_hash() {
    let facts = vec![];

    let expected = HashMap::from([(101, Expected::DefaultHash)]);

    test_success(facts, expected);
}

// 101
#[test]
fn test_single_fragment_singleton() {
    let facts = vec![Fact::Req { id: 101, req: Req::any_singleton() }];

    let expected = HashMap::from([(101, default_singleton())]);

    test_success(facts, expected);
}

// 1 -|-> 101 -->
//                103 --> 104
// 2 -|-> 102 -->
#[test]
fn test_scheduling_mv_on_mv() {
    let facts = vec![
        Fact::Req { id: 1, req: Req::Hash(1) },
        Fact::Req { id: 2, req: Req::Singleton(WorkerSlotId::new(0, 2)) },
        Fact::Edge { from: 1, to: 101, dt: DispatcherType::NoShuffle },
        Fact::Edge { from: 2, to: 102, dt: DispatcherType::NoShuffle },
        Fact::Edge { from: 101, to: 103, dt: DispatcherType::Hash },
        Fact::Edge { from: 102, to: 103, dt: DispatcherType::Hash },
        Fact::Edge { from: 103, to: 104, dt: DispatcherType::Simple },
    ];

    let expected = HashMap::from([
        (101, Expected::Required(Req::Hash(1))),
        (102, Expected::Required(Req::Singleton(WorkerSlotId::new(0, 2)))),
        (103, Expected::DefaultHash),
        (104, default_singleton()),
    ]);

    test_success(facts, expected);
}

// 1 -|-> 101 --> 103 -->
//             X          105
// 2 -|-> 102 --> 104 -->
#[test]
fn test_delta_join() {
    let facts = vec![
        Fact::Req { id: 1, req: Req::Hash(1) },
        Fact::Req { id: 2, req: Req::Hash(2) },
        Fact::Edge { from: 1, to: 101, dt: DispatcherType::NoShuffle },
        Fact::Edge { from: 2, to: 102, dt: DispatcherType::NoShuffle },
        Fact::Edge { from: 101, to: 103, dt: DispatcherType::NoShuffle },
        Fact::Edge { from: 102, to: 104, dt: DispatcherType::NoShuffle },
        Fact::Edge { from: 101, to: 104, dt: DispatcherType::Hash },
        Fact::Edge { from: 102, to: 103, dt: DispatcherType::Hash },
        Fact::Edge { from: 103, to: 105, dt: DispatcherType::Hash },
        Fact::Edge { from: 104, to: 105, dt: DispatcherType::Hash },
    ];

    let expected = HashMap::from([
        (101, Expected::Required(Req::Hash(1))),
        (102, Expected::Required(Req::Hash(2))),
        (103, Expected::Required(Req::Hash(1))),
        (104, Expected::Required(Req::Hash(2))),
        (105, Expected::DefaultHash),
    ]);

    test_success(facts, expected);
}

// 1 -|-> 101 -->
//                103
//        102 -->
#[test]
fn test_singleton_leaf() {
    let facts = vec![
        Fact::Req { id: 1, req: Req::Hash(1) },
        Fact::Edge { from: 1, to: 101, dt: DispatcherType::NoShuffle },
        Fact::Req { id: 102, req: Req::any_singleton() }, // like `Now`
        Fact::Edge { from: 101, to: 103, dt: DispatcherType::Hash },
        Fact::Edge { from: 102, to: 103, dt: DispatcherType::Broadcast },
    ];

    let expected = HashMap::from([
        (101, Expected::Required(Req::Hash(1))),
        (102, default_singleton()),
        (103, Expected::DefaultHash),
    ]);

    test_success(facts, expected);
}

// 1 -|->
//        101
// 2 -|->
#[test]
fn test_upstream_hash_shard_failed() {
    let facts = vec![
        Fact::Req { id: 1, req: Req::Hash(1) },
        Fact::Req { id: 2, req: Req::Hash(2) },
        Fact::Edge { from: 1, to: 101, dt: DispatcherType::NoShuffle },
        Fact::Edge { from: 2, to: 101, dt: DispatcherType::NoShuffle },
    ];

    test_failed(facts);
}

// 1 -|~> 101
#[test]
fn test_arrangement_backfill_vnode_count() {
    let facts = vec![
        Fact::Req { id: 1, req: Req::Hash(1) },
        Fact::Req { id: 101, req: Req::AnyVnodeCount(128) },
        Fact::Edge { from: 1, to: 101, dt: DispatcherType::Hash },
    ];

    let expected = HashMap::from([(101, Expected::Required(Req::AnyVnodeCount(128)))]);

    test_success(facts, expected);
}

// 1 -|~> 101
#[test]
fn test_no_shuffle_backfill_vnode_count() {
    let facts = vec![
        Fact::Req { id: 1, req: Req::Hash(1) },
        Fact::Req { id: 101, req: Req::AnyVnodeCount(128) },
        Fact::Edge { from: 1, to: 101, dt: DispatcherType::NoShuffle },
    ];

    let expected = HashMap::from([(101, Expected::Required(Req::Hash(1)))]);

    test_success_with_mapping_len(facts, expected, |id| {
        assert_eq!(id, 1);
        128
    });
}

// 1 -|~> 101
#[test]
fn test_no_shuffle_backfill_mismatched_vnode_count() {
    let facts = vec![
        Fact::Req { id: 1, req: Req::Hash(1) },
        Fact::Req { id: 101, req: Req::AnyVnodeCount(128) },
        Fact::Edge { from: 1, to: 101, dt: DispatcherType::NoShuffle },
    ];

    // Not specifying `mapping_len` should fail.
    test_failed(facts);
}

// 1 -|~> 101
#[test]
fn test_backfill_singleton_vnode_count() {
    let facts = vec![
        Fact::Req { id: 1, req: Req::Singleton(WorkerSlotId::new(0, 2)) },
        Fact::Req { id: 101, req: Req::any_singleton() },
        Fact::Edge { from: 1, to: 101, dt: DispatcherType::NoShuffle }, // or `Simple`
    ];

    let expected =
        HashMap::from([(101, Expected::Required(Req::Singleton(WorkerSlotId::new(0, 2))))]);

    test_success(facts, expected);
}

// 1 --> 101, with the edge that makes the downstream singleton
#[test]
fn simple_edge_requires_singleton_downstream_only() {
    let facts = vec![Fact::Edge { from: 1, to: 101, dt: DispatcherType::Simple }];
    assert_eq!(propagate(&facts), vec![(101, Req::AnyVnodeCount(1))]);
}

#[test]
fn propagation_goes_upstream_and_lists_each_requirement_once() {
    let facts = vec![
        Fact::Req { id: 3, req: Req::Hash(7) },
        Fact::Req { id: 1, req: Req::Hash(7) },
        Fact::Edge { from: 1, to: 2, dt: DispatcherType::NoShuffle },
        Fact::Edge { from: 2, to: 3, dt: DispatcherType::NoShuffle },
        Fact::Edge { from: 3, to: 1, dt: DispatcherType::NoShuffle },
        Fact::Edge { from: 3, to: 4, dt: DispatcherType::Broadcast },
    ];
    let mut reqs = propagate(&facts);
    reqs.sort_by_key(|(id, _)| *id);
    assert_eq!(reqs, vec![(1, Req::Hash(7)), (2, Req::Hash(7)), (3, Req::Hash(7))]);
}

#[test]
fn connected_fragments_follow_no_shuffle_edges_both_ways() {
    let facts = vec![
        Fact::Edge { from: 1, to: 2, dt: DispatcherType::NoShuffle },
        Fact::Edge { from: 3, to: 2, dt: DispatcherType::NoShuffle },
        Fact::Edge { from: 3, to: 4, dt: DispatcherType::Hash },
    ];
    let mut found = connected_fragments(&facts, 1);
    found.sort();
    assert_eq!(found, vec![1, 2, 3]);
    assert_eq!(connected_fragments(&facts, 4), vec![4]);
}

#[test]
fn any_singleton_is_a_vnode_count_of_one() {
    assert_eq!(Req::any_singleton(), Req::AnyVnodeCount(1));
}

#[test]
fn merging_keeps_the_placement() {
    let slot = WorkerSlotId::new(4, 1);
    let len = |id: HashMappingId| id * 10;
    let any = Req::AnyVnodeCount(30);
    assert_eq!(Req::merge(any, Req::Hash(3), &len), Ok(Req::Hash(3)));
    assert_eq!(Req::merge(Req::Hash(3), any, &len), Ok(Req::Hash(3)));
    let single = Req::Singleton(slot);
    assert_eq!(Req::merge(Req::any_singleton(), single, &len), Ok(single));
    assert_eq!(Req::merge(single, Req::any_singleton(), &len), Ok(single));
}

#[test]
fn merging_names_what_is_incompatible() {
    let len = |_: HashMappingId| 1;
    let cases = vec![
        (Req::Hash(1), Req::Hash(2)),
        (Req::AnyVnodeCount(2), Req::AnyVnodeCount(3)),
        (Req::AnyVnodeCount(2), Req::Hash(0)),
        (Req::Hash(0), Req::AnyVnodeCount(2)),
        (Req::Singleton(WorkerSlotId::new(0, 0)), Req::Hash(0)),
        (Req::Singleton(WorkerSlotId::new(0, 0)), Req::AnyVnodeCount(2)),
        (Req::Singleton(WorkerSlotId::new(0, 0)), Req::Singleton(WorkerSlotId::new(0, 1))),
    ];
    for (a, b) in cases {
        assert_eq!(Req::merge(a, b, &len), Err(IncompatibleReqs { a, b }));
    }
}

#[test]
fn merging_all_is_free_of_order() {
    let len = |_: HashMappingId| 64;
    let (x, y) = (Req::Hash(5), Req::AnyVnodeCount(64));
    assert_eq!(Req::merge_all(&vec![], &len), Ok(None));
    assert_eq!(Req::merge_all(&vec![y], &len), Ok(Some(y)));
    assert_eq!(Req::merge_all(&vec![x, y], &len), Ok(Some(x)));
    assert_eq!(Req::merge_all(&vec![y, x], &len), Ok(Some(x)));
    let z = Req::AnyVnodeCount(65);
    for reqs in vec![vec![x, y, z], vec![z, x, y], vec![y, z, x]] {
        assert!(Req::merge_all(&reqs, &len).is_err());
    }
    assert_eq!(
        Req::merge_all(&vec![y, x, z], &len),
        Err(IncompatibleReqs { a: x, b: z })
    );
}
