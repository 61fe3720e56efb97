//! The facts that a fragment graph gives to the propagation of requirements.

use vstd::prelude::*;

use crate::distribution::{Distribution, DistributionView};
use crate::fragment_graph::{
    BuildingFragment, CompleteStreamFragmentGraph, Demand, decides, demand_of,
};
use crate::grouping::{lemma_first_occurrences, lists, unique};
use crate::maps::keys_of;
use crate::propagation::{
    DispatcherType, Fact, Id, connected, fact_links, fact_requires, links, required,
};
use crate::requirement::{HashMappingId, Req, required_vnode_count, resolves, spec_any_singleton};
use crate::worker_slot::{WorkerSlotId, WorkerSlotMapping};

verus! {

/// The slots as pairs of worker and position.
spec fn pairs_of(slots: Seq<WorkerSlotId>) -> Seq<(u32, usize)> {
    slots.map_values(|slot: WorkerSlotId| (slot.worker_id, slot.slot_idx))
}

/// The slots that pairs of worker and position name.
spec fn slots_of(pairs: Seq<(u32, usize)>) -> Seq<WorkerSlotId> {
    pairs.map_values(|pair: (u32, usize)| WorkerSlotId { worker_id: pair.0, slot_idx: pair.1 })
}

/// Slots and pairs of worker and position name each other.
broadcast proof fn lemma_pairs_and_slots(slots: Seq<WorkerSlotId>, pairs: Seq<(u32, usize)>)
    ensures
        #![trigger pairs_of(slots), slots_of(pairs)]
        slots_of(pairs_of(slots)) == slots,
        pairs_of(slots_of(pairs)) == pairs,
{
    assert(slots_of(pairs_of(slots)) =~= slots);
    assert(pairs_of(slots_of(pairs)) =~= pairs);
}

/// The hash mapping as pairs of worker and position.
fn to_pairs(mapping: &WorkerSlotMapping) -> (pairs: Vec<(u32, usize)>)
    ensures
        pairs@ == pairs_of(mapping@),
{
    let mut pairs: Vec<(u32, usize)> = Vec::new();
    let mut i: usize = 0;
    while i < mapping.slots.len()
        invariant
            i <= mapping@.len(),
            pairs@ == pairs_of(mapping@).take(i as int),
        decreases mapping@.len() - i,
    {
        pairs.push((mapping.slots[i].worker_id, mapping.slots[i].slot_idx));
        assert(pairs@ =~= pairs_of(mapping@).take(i + 1));
        i = i + 1;
    }
    assert(pairs@ =~= pairs_of(mapping@));
    pairs
}

/// The hash mapping that pairs of worker and position name.
fn from_pairs(pairs: &Vec<(u32, usize)>) -> (mapping: WorkerSlotMapping)
    ensures
        mapping@ == slots_of(pairs@),
{
    let mut slots: Vec<WorkerSlotId> = Vec::new();
    let mut i: usize = 0;
    while i < pairs.len()
        invariant
            i <= pairs.len(),
            slots@ == slots_of(pairs@).take(i as int),
        decreases pairs.len() - i,
    {
        slots.push(WorkerSlotId::new(pairs[i].0, pairs[i].1));
        assert(slots@ =~= slots_of(pairs@).take(i + 1));
        i = i + 1;
    }
    assert(slots@ =~= slots_of(pairs@));
    WorkerSlotMapping { slots }
}

/// What the hash mappings stand for.
pub open spec fn mapping_views(mappings: Seq<WorkerSlotMapping>) -> Seq<Seq<WorkerSlotId>> {
    mappings.map_values(|mapping: WorkerSlotMapping| mapping@)
}

/// Whether the list holds each hash mapping of an existing fragment once, and no other.
pub open spec fn indexes(
    graph: CompleteStreamFragmentGraph,
    mappings: Seq<Seq<WorkerSlotId>>,
) -> bool {
    &&& mappings.no_duplicates()
    &&& forall|mapping: Seq<WorkerSlotId>| #[trigger]
        mappings.contains(mapping) <==> graph.uses_mapping(mapping)
}

/// The hash mappings of the existing fragments, each once.
pub fn collect_hash_mappings(graph: &CompleteStreamFragmentGraph) -> (mappings: Vec<
    WorkerSlotMapping,
>)
    ensures
        indexes(*graph, mapping_views(mappings@)),
{
    broadcast use lemma_pairs_and_slots;

    let ghost existing = graph.existing_distribution@;
    let ids = keys_of(&graph.existing_distribution);
    let mut all: Vec<Vec<(u32, usize)>> = Vec::new();
    let mut i: usize = 0;
    while i < ids.len()
        invariant
            i <= ids.len(),
            existing == graph.existing_distribution@,
            forall|id: Id| #[trigger] ids@.contains(id) <==> existing.contains_key(id),
            forall|m: Seq<WorkerSlotId>| #[trigger]
                lists(all@).contains(pairs_of(m)) <==> exists|j: int|
                    0 <= j < i && existing[#[trigger] ids@[j]]@ == DistributionView::Hash(m),
        decreases ids.len() - i,
    {
        assert(ids@.contains(ids@[i as int]));
        let ghost before = lists(all@);
        let dist = graph.existing_distribution.get(&ids[i]).unwrap();
        if let Some(mapping) = dist.as_hash() {
            let pairs = to_pairs(mapping);
            let ghost p = pairs@;
            all.push(pairs);
            proof {
                assert(lists(all@) =~= before.push(p));
                assert forall|m: Seq<WorkerSlotId>|
                    lists(all@).contains(pairs_of(m)) <==> before.contains(pairs_of(m)) || m
                        == mapping@ by {
                    before.lemma_push_to_set_commute(p);
                    assert(lists(all@).to_set().contains(pairs_of(m)) <==> before.to_set().insert(
                        p,
                    ).contains(pairs_of(m)));
                    lemma_pairs_and_slots(m, p);
                    lemma_pairs_and_slots(mapping@, p);
                }
            }
        }
        proof {
            assert forall|m: Seq<WorkerSlotId>| #[trigger]
                lists(all@).contains(pairs_of(m)) <==> exists|j: int|
                    0 <= j < i + 1 && existing[#[trigger] ids@[j]]@ == DistributionView::Hash(
                        m,
                    ) by {
                if before.contains(pairs_of(m)) {
                    let j = choose|j: int|
                        0 <= j < i && existing[#[trigger] ids@[j]]@ == DistributionView::Hash(m);
                    assert(existing[ids@[j]]@ == DistributionView::Hash(m));
                }
                if exists|j: int|
                    0 <= j < i + 1 && existing[#[trigger] ids@[j]]@ == DistributionView::Hash(m) {
                    let j = choose|j: int|
                        0 <= j < i + 1 && existing[#[trigger] ids@[j]]@ == DistributionView::Hash(
                            m,
                        );
                    if j < i {
                        assert(before.contains(pairs_of(m)));
                    } else {
                        assert(*dist == existing[ids@[i as int]]);
                        assert(dist is Hash);
                    }
                }
            }
        }
        i = i + 1;
    }
    let ghost all_lists = lists(all@);
    let kept = unique(all);
    let mut mappings: Vec<WorkerSlotMapping> = Vec::new();
    let mut k: usize = 0;
    while k < kept.len()
        invariant
            k <= kept.len(),
            mappings@.len() == k,
            forall|j: int| 0 <= j < k ==> (#[trigger] mappings@[j])@ == slots_of(kept@[j]@),
        decreases kept.len() - k,
    {
        mappings.push(from_pairs(&kept[k]));
        k = k + 1;
    }
    proof {
        let views = mapping_views(mappings@);
        let kept_lists = lists(kept@);
        lemma_first_occurrences(all_lists);
        assert forall|j: int| 0 <= j < views.len() implies #[trigger] pairs_of(views[j])
            == kept_lists[j] by {
            assert(views[j] == slots_of(kept_lists[j]));
        }
        assert forall|x: int, y: int| 0 <= x < y < views.len() implies views[x] != views[y] by {
            assert(pairs_of(views[x]) == kept_lists[x] && pairs_of(views[y]) == kept_lists[y]);
        }
        assert forall|m: Seq<WorkerSlotId>| #[trigger] views.contains(m) <==> graph.uses_mapping(
            m,
        ) by {
            if views.contains(m) {
                let j = choose|j: int| 0 <= j < views.len() && views[j] == m;
                assert(kept_lists[j] == pairs_of(m));
                assert(kept_lists.contains(pairs_of(m)));
                assert(all_lists.contains(pairs_of(m)));
                let x = choose|x: int|
                    0 <= x < ids@.len() && existing[#[trigger] ids@[x]]@ == DistributionView::Hash(
                        m,
                    );
                assert(ids@.contains(ids@[x]));
                assert(graph.exists_as(ids@[x], Demand::Hash(m)));
            }
            if graph.uses_mapping(m) {
                let id = choose|id: Id| graph.exists_as(id, Demand::Hash(m));
                assert(ids@.contains(id));
                let x = choose|x: int| 0 <= x < ids@.len() && ids@[x] == id;
                assert(existing[ids@[x]]@ == DistributionView::Hash(m));
                assert(all_lists.contains(pairs_of(m)));
                assert(kept_lists.contains(pairs_of(m)));
                let j = choose|j: int| 0 <= j < kept_lists.len() && kept_lists[j] == pairs_of(m);
                assert(pairs_of(views[j]) == pairs_of(m));
                assert(slots_of(pairs_of(views[j])) == slots_of(pairs_of(m)));
                assert(views[j] == m);
            }
        }
    }
    mappings
}

/// Whether two lists of slots are equal.
fn same_slots(a: &Vec<WorkerSlotId>, b: &Vec<WorkerSlotId>) -> (same: bool)
    ensures
        same == (a@ == b@),
{
    if a.len() != b.len() {
        return false;
    }
    let mut i: usize = 0;
    while i < a.len()
        invariant
            i <= a.len(),
            a.len() == b.len(),
            forall|j: int| 0 <= j < i ==> a@[j] == b@[j],
        decreases a.len() - i,
    {
        if a[i] != b[i] {
            assert(a@[i as int] != b@[i as int]);
            return false;
        }
        i = i + 1;
    }
    assert(a@ =~= b@);
    true
}

/// The position of a hash mapping in the list.
fn position_of(mappings: &Vec<WorkerSlotMapping>, mapping: &WorkerSlotMapping) -> (pos: usize)
    requires
        mapping_views(mappings@).contains(mapping@),
    ensures
        pos < mappings@.len(),
        mapping_views(mappings@)[pos as int] == mapping@,
{
    let mut i: usize = 0;
    while i < mappings.len()
        invariant
            i <= mappings.len(),
            mapping_views(mappings@).contains(mapping@),
            forall|j: int| 0 <= j < i ==> #[trigger] mapping_views(mappings@)[j] != mapping@,
        decreases mappings.len() - i,
    {
        if same_slots(&mappings[i].slots, &mapping.slots) {
            return i;
        }
        assert(mapping_views(mappings@)[i as int] != mapping@);
        i = i + 1;
    }
    vstd::pervasive::unreached()
}

/// The demand that a requirement stands for, given the list of hash mappings.
pub open spec fn demand_for(req: Req, mappings: Seq<Seq<WorkerSlotId>>) -> Demand {
    match req {
        Req::Singleton(slot) => Demand::Singleton(slot),
        Req::Hash(id) => Demand::Hash(mappings[id as int]),
        Req::AnyVnodeCount(count) => Demand::AnyVnodeCount(count),
    }
}

/// Whether a requirement that names a hash mapping names one of the list.
pub open spec fn is_indexed(req: Req, mappings: Seq<Seq<WorkerSlotId>>) -> bool {
    req matches Req::Hash(id) ==> id < mappings.len()
}

/// Whether some fact alone requires `req` of the fragment `id`.
pub open spec fn gives(facts: Seq<Fact>, id: Id, req: Req) -> bool {
    exists|k: int| 0 <= k < facts.len() && fact_requires(#[trigger] facts[k], id, req)
}

/// Whether the facts say of each fragment what the graph demands of it directly, and link the
/// fragments that the graph links.
pub open spec fn describes(
    facts: Seq<Fact>,
    graph: CompleteStreamFragmentGraph,
    mappings: Seq<Seq<WorkerSlotId>>,
) -> bool {
    &&& forall|id: Id, req: Req| #[trigger]
        gives(facts, id, req) <==> is_indexed(req, mappings) && graph.demands_directly(
            id,
            demand_for(req, mappings),
        )
    &&& forall|x: Id, y: Id| #[trigger] links(facts)(x, y) <==> graph.links()(x, y)
}

/// What one more fact gives and links.
proof fn lemma_one_more_fact(facts: Seq<Fact>, fact: Fact)
    ensures
        forall|id: Id, req: Req| #[trigger]
            gives(facts.push(fact), id, req) <==> gives(facts, id, req) || fact_requires(
                fact,
                id,
                req,
            ),
        forall|x: Id, y: Id| #[trigger]
            links(facts.push(fact))(x, y) <==> links(facts)(x, y) || fact_links(fact, x, y),
{
    let more = facts.push(fact);
    assert(more[facts.len() as int] == fact);
    assert forall|id: Id, req: Req| #[trigger]
        gives(more, id, req) <==> gives(facts, id, req) || fact_requires(fact, id, req) by {
        if gives(facts, id, req) {
            let k = choose|k: int|
                0 <= k < facts.len() && fact_requires(#[trigger] facts[k], id, req);
            assert(fact_requires(more[k], id, req));
        }
        if gives(more, id, req) && !fact_requires(fact, id, req) {
            let k = choose|k: int| 0 <= k < more.len() && fact_requires(#[trigger] more[k], id, req);
            assert(fact_requires(facts[k], id, req));
        }
    }
    assert forall|x: Id, y: Id| #[trigger]
        links(more)(x, y) <==> links(facts)(x, y) || fact_links(fact, x, y) by {
        if links(facts)(x, y) {
            let k = choose|k: int| 0 <= k < facts.len() && fact_links(#[trigger] facts[k], x, y);
            assert(fact_links(more[k], x, y));
        }
        if links(more)(x, y) && !fact_links(fact, x, y) {
            let k = choose|k: int| 0 <= k < more.len() && fact_links(#[trigger] more[k], x, y);
            assert(fact_links(facts[k], x, y));
        }
    }
}

/// One more element of a sequence is seen.
proof fn lemma_one_more_seen<A>(s: Seq<A>, i: int)
    requires
        0 <= i < s.len(),
    ensures
        forall|a: A| #[trigger]
            s.take(i + 1).contains(a) <==> s.take(i).contains(a) || a == s[i],
{
    assert(s.take(i + 1) =~= s.take(i).push(s[i]));
    assert forall|a: A| #[trigger] s.take(i + 1).contains(a) <==> s.take(i).contains(a) || a
        == s[i] by {
        s.take(i).lemma_push_to_set_commute(s[i]);
        assert(s.take(i + 1).to_set().contains(a) <==> s.take(i).to_set().insert(s[i]).contains(a));
    }
}

/// Adds the facts that fragments are singleton on their own account.
fn add_singletons(facts: &mut Vec<Fact>, graph: &CompleteStreamFragmentGraph)
    ensures
        forall|id: Id, req: Req| #[trigger]
            gives(final(facts)@, id, req) <==> gives(old(facts)@, id, req) || req
                == spec_any_singleton() && graph.must_be_singleton(id),
        forall|x: Id, y: Id| #[trigger]
            links(final(facts)@)(x, y) <==> links(old(facts)@)(x, y),
{
    let ids = keys_of(&graph.building_fragments);
    let mut i: usize = 0;
    while i < ids.len()
        invariant
            i <= ids.len(),
            forall|id: Id| #[trigger]
                ids@.contains(id) <==> graph.building_fragments@.contains_key(id),
            forall|id: Id, req: Req| #[trigger]
                gives(facts@, id, req) <==> gives(old(facts)@, id, req) || req
                    == spec_any_singleton() && graph.must_be_singleton(id) && ids@.take(
                    i as int,
                ).contains(id),
            forall|x: Id, y: Id| #[trigger]
                links(facts@)(x, y) <==> links(old(facts)@)(x, y),
        decreases ids.len() - i,
    {
        let id = ids[i];
        assert(ids@.contains(ids@[i as int]));
        proof {
            lemma_one_more_seen(ids@, i as int);
        }
        let fragment = graph.building_fragments.get(&id).unwrap();
        if fragment.requires_singleton {
            let fact = Fact::Req { id, req: Req::any_singleton() };
            proof {
                lemma_one_more_fact(facts@, fact);
            }
            facts.push(fact);
        }
        i = i + 1;
    }
    assert(ids@.take(i as int) =~= ids@);
}

/// Whether one of the first `upto` nodes of the fragment looks up a table with the vnode count.
spec fn looks_up_before(fragment: BuildingFragment, upto: int, count: usize) -> bool {
    exists|i: int|
        {
            &&& 0 <= i < upto
            &&& (#[trigger] fragment.nodes@[i]).table() matches Some(table)
            &&& table.vnode_count == count
        }
}

/// Adds the facts that the fragment has the vnode count of each table that it looks up.
fn add_lookups_of(facts: &mut Vec<Fact>, id: Id, fragment: &BuildingFragment)
    requires
        forall|i: int|
            0 <= i < fragment.nodes@.len() ==> (#[trigger] fragment.nodes@[i]).names_its_table(),
    ensures
        forall|of: Id, req: Req| #[trigger]
            gives(final(facts)@, of, req) <==> gives(old(facts)@, of, req) || of == id && (
            req matches Req::AnyVnodeCount(count) && looks_up_before(
                *fragment,
                fragment.nodes@.len() as int,
                count,
            )),
        forall|x: Id, y: Id| #[trigger]
            links(final(facts)@)(x, y) <==> links(old(facts)@)(x, y),
{
    let mut i: usize = 0;
    while i < fragment.nodes.len()
        invariant
            i <= fragment.nodes.len(),
            forall|j: int|
                0 <= j < fragment.nodes@.len() ==> (
                #[trigger] fragment.nodes@[j]).names_its_table(),
            forall|of: Id, req: Req| #[trigger]
                gives(facts@, of, req) <==> gives(old(facts)@, of, req) || of == id && (
                req matches Req::AnyVnodeCount(count) && looks_up_before(
                    *fragment,
                    i as int,
                    count,
                )),
            forall|x: Id, y: Id| #[trigger]
                links(facts@)(x, y) <==> links(old(facts)@)(x, y),
        decreases fragment.nodes.len() - i,
    {
        proof {
            let node = fragment.nodes@[i as int];
            assert forall|count: usize| #[trigger]
                looks_up_before(*fragment, i + 1, count) <==> looks_up_before(
                    *fragment,
                    i as int,
                    count,
                ) || (node.table() matches Some(table) && table.vnode_count == count) by {
                if looks_up_before(*fragment, i as int, count) {
                    let j = choose|j: int|
                        {
                            &&& 0 <= j < i
                            &&& (#[trigger] fragment.nodes@[j]).table() matches Some(table)
                            &&& table.vnode_count == count
                        };
                    assert(fragment.nodes@[j].table() is Some);
                }
            }
        }
        if let Some(count) = fragment.nodes[i].vnode_count() {
            let fact = Fact::Req { id, req: Req::AnyVnodeCount(count) };
            proof {
                lemma_one_more_fact(facts@, fact);
            }
            facts.push(fact);
        }
        i = i + 1;
    }
}

/// Adds the facts that fragments have the vnode counts of the tables that they look up.
fn add_lookups(facts: &mut Vec<Fact>, graph: &CompleteStreamFragmentGraph)
    requires
        graph.names_its_tables(),
    ensures
        forall|id: Id, req: Req| #[trigger]
            gives(final(facts)@, id, req) <==> gives(old(facts)@, id, req) || (
            req matches Req::AnyVnodeCount(count) && graph.looks_up(id, count)),
        forall|x: Id, y: Id| #[trigger]
            links(final(facts)@)(x, y) <==> links(old(facts)@)(x, y),
{
    let ids = keys_of(&graph.building_fragments);
    let mut i: usize = 0;
    while i < ids.len()
        invariant
            i <= ids.len(),
            graph.names_its_tables(),
            forall|id: Id| #[trigger]
                ids@.contains(id) <==> graph.building_fragments@.contains_key(id),
            forall|id: Id, req: Req| #[trigger]
                gives(facts@, id, req) <==> gives(old(facts)@, id, req) || (
                req matches Req::AnyVnodeCount(count) && graph.looks_up(id, count) && ids@.take(
                    i as int,
                ).contains(id)),
            forall|x: Id, y: Id| #[trigger]
                links(facts@)(x, y) <==> links(old(facts)@)(x, y),
        decreases ids.len() - i,
    {
        let id = ids[i];
        assert(ids@.contains(ids@[i as int]));
        let fragment = graph.building_fragments.get(&id).unwrap();
        proof {
            lemma_one_more_seen(ids@, i as int);
            assert forall|j: int| 0 <= j < fragment.nodes@.len() implies (
            #[trigger] fragment.nodes@[j]).names_its_table() by {
                assert(graph.building_fragments@[id].nodes@[j].names_its_table());
            }
            assert forall|count: usize| #[trigger]
                looks_up_before(*fragment, fragment.nodes@.len() as int, count) <==> graph.looks_up(
                    id,
                    count,
                ) by {
                if looks_up_before(*fragment, fragment.nodes@.len() as int, count) {
                    let j = choose|j: int|
                        {
                            &&& 0 <= j < fragment.nodes@.len()
                            &&& (#[trigger] fragment.nodes@[j]).table() matches Some(table)
                            &&& table.vnode_count == count
                        };
                    assert(graph.building_fragments@[id].nodes@[j].table() is Some);
                }
                if graph.looks_up(id, count) {
                    let j = choose|j: int|
                        {
                            &&& 0 <= j < graph.building_fragments@[id].nodes@.len()
                            &&& (#[trigger] graph.building_fragments@[id].nodes@[j]).table()
                                matches Some(table)
                            &&& table.vnode_count == count
                        };
                    assert(fragment.nodes@[j].table() is Some);
                }
            }
        }
        add_lookups_of(facts, id, fragment);
        i = i + 1;
    }
    assert(ids@.take(i as int) =~= ids@);
}

/// Adds the facts that existing fragments are distributed as they are.
fn add_existing(
    facts: &mut Vec<Fact>,
    graph: &CompleteStreamFragmentGraph,
    mappings: &Vec<WorkerSlotMapping>,
)
    requires
        indexes(*graph, mapping_views(mappings@)),
    ensures
        forall|id: Id, req: Req| #[trigger]
            gives(final(facts)@, id, req) <==> gives(old(facts)@, id, req) || is_indexed(
                req,
                mapping_views(mappings@),
            ) && graph.exists_as(id, demand_for(req, mapping_views(mappings@))),
        forall|x: Id, y: Id| #[trigger]
            links(final(facts)@)(x, y) <==> links(old(facts)@)(x, y),
{
    let ghost views = mapping_views(mappings@);
    let ids = keys_of(&graph.existing_distribution);
    let mut i: usize = 0;
    while i < ids.len()
        invariant
            i <= ids.len(),
            views == mapping_views(mappings@),
            indexes(*graph, views),
            forall|id: Id| #[trigger]
                ids@.contains(id) <==> graph.existing_distribution@.contains_key(id),
            forall|id: Id, req: Req| #[trigger]
                gives(facts@, id, req) <==> gives(old(facts)@, id, req) || is_indexed(req, views)
                    && graph.exists_as(id, demand_for(req, views)) && ids@.take(i as int).contains(
                    id,
                ),
            forall|x: Id, y: Id| #[trigger]
                links(facts@)(x, y) <==> links(old(facts)@)(x, y),
        decreases ids.len() - i,
    {
        let id = ids[i];
        assert(ids@.contains(ids@[i as int]));
        let dist = graph.existing_distribution.get(&id).unwrap();
        let req = match dist {
            Distribution::Singleton(slot) => Req::Singleton(*slot),
            Distribution::Hash(mapping) => {
                assert(graph.exists_as(id, Demand::Hash(mapping@)));
                assert(views.contains(mapping@));
                Req::Hash(position_of(mappings, mapping))
            },
        };
        let fact = Fact::Req { id, req };
        proof {
            lemma_one_more_seen(ids@, i as int);
            lemma_one_more_fact(facts@, fact);
            assert(demand_for(req, views) == demand_of(dist@));
            assert forall|other: Req|
                is_indexed(other, views) && demand_for(other, views) == demand_for(
                    req,
                    views,
                ) implies other == req by {
                lemma_demand_is_injective(other, req, views);
            }
        }
        facts.push(fact);
        i = i + 1;
    }
    assert(ids@.take(i as int) =~= ids@);
}

/// Different requirements stand for different demands.
proof fn lemma_demand_is_injective(a: Req, b: Req, mappings: Seq<Seq<WorkerSlotId>>)
    requires
        mappings.no_duplicates(),
        is_indexed(a, mappings),
        is_indexed(b, mappings),
        demand_for(a, mappings) == demand_for(b, mappings),
    ensures
        a == b,
{
}

/// Adds the edges of the graph.
fn add_edges(facts: &mut Vec<Fact>, graph: &CompleteStreamFragmentGraph)
    ensures
        forall|id: Id, req: Req| #[trigger]
            gives(final(facts)@, id, req) <==> gives(old(facts)@, id, req) || req
                == spec_any_singleton() && graph.is_fed_simply(id),
        forall|x: Id, y: Id| #[trigger]
            links(final(facts)@)(x, y) <==> links(old(facts)@)(x, y) || graph.links()(x, y),
{
    let mut i: usize = 0;
    while i < graph.edges.len()
        invariant
            i <= graph.edges.len(),
            forall|id: Id, req: Req| #[trigger]
                gives(facts@, id, req) <==> gives(old(facts)@, id, req) || req
                    == spec_any_singleton() && fed_before(graph.edges@, i as int, id),
            forall|x: Id, y: Id| #[trigger]
                links(facts@)(x, y) <==> links(old(facts)@)(x, y) || linked_before(
                    graph.edges@,
                    i as int,
                    x,
                    y,
                ),
        decreases graph.edges.len() - i,
    {
        let (from, to, dt) = graph.edges[i];
        let fact = Fact::Edge { from, to, dt };
        proof {
            lemma_one_more_fact(facts@, fact);
            lemma_one_more_edge(graph.edges@, i as int);
        }
        facts.push(fact);
        i = i + 1;
    }
}

/// Whether one of the first `upto` edges is a `Simple` edge to the fragment.
spec fn fed_before(edges: Seq<(Id, Id, DispatcherType)>, upto: int, id: Id) -> bool {
    exists|k: int|
        0 <= k < upto && (#[trigger] edges[k]).1 == id && edges[k].2 == DispatcherType::Simple
}

/// Whether one of the first `upto` edges is a `NoShuffle` edge between the fragments.
spec fn linked_before(edges: Seq<(Id, Id, DispatcherType)>, upto: int, x: Id, y: Id) -> bool {
    exists|k: int|
        {
            &&& 0 <= k < upto
            &&& (#[trigger] edges[k]).2 == DispatcherType::NoShuffle
            &&& (edges[k].0 == x && edges[k].1 == y || edges[k].0 == y && edges[k].1 == x)
        }
}

/// What one more edge adds.
proof fn lemma_one_more_edge(edges: Seq<(Id, Id, DispatcherType)>, i: int)
    requires
        0 <= i < edges.len(),
    ensures
        forall|id: Id| #[trigger]
            fed_before(edges, i + 1, id) <==> fed_before(edges, i, id) || edges[i].1 == id
                && edges[i].2 == DispatcherType::Simple,
        forall|x: Id, y: Id| #[trigger]
            linked_before(edges, i + 1, x, y) <==> linked_before(edges, i, x, y) || edges[i].2
                == DispatcherType::NoShuffle && (edges[i].0 == x && edges[i].1 == y || edges[i].0
                == y && edges[i].1 == x),
{
    let e = edges[i];
    assert forall|id: Id| #[trigger]
        fed_before(edges, i + 1, id) <==> fed_before(edges, i, id) || e.1 == id && e.2
            == DispatcherType::Simple by {
        if fed_before(edges, i, id) {
            let k = choose|k: int|
                0 <= k < i && (#[trigger] edges[k]).1 == id && edges[k].2 == DispatcherType::Simple;
            assert(edges[k].1 == id);
        }
    }
    assert forall|x: Id, y: Id| #[trigger]
        linked_before(edges, i + 1, x, y) <==> linked_before(edges, i, x, y) || e.2
            == DispatcherType::NoShuffle && (e.0 == x && e.1 == y || e.0 == y && e.1 == x) by {
        if linked_before(edges, i, x, y) {
            let k = choose|k: int|
                {
                    &&& 0 <= k < i
                    &&& (#[trigger] edges[k]).2 == DispatcherType::NoShuffle
                    &&& (edges[k].0 == x && edges[k].1 == y || edges[k].0 == y && edges[k].1 == x)
                };
            assert(edges[k].2 == DispatcherType::NoShuffle);
        }
    }
}

/// The facts of the graph, given the list of its hash mappings.
pub(crate) fn collect_facts(
    graph: &CompleteStreamFragmentGraph,
    mappings: &Vec<WorkerSlotMapping>,
) -> (facts: Vec<Fact>)
    requires
        graph.names_its_tables(),
        indexes(*graph, mapping_views(mappings@)),
    ensures
        describes(facts@, *graph, mapping_views(mappings@)),
{
    let ghost views = mapping_views(mappings@);
    let mut facts: Vec<Fact> = Vec::new();
    add_singletons(&mut facts, graph);
    add_lookups(&mut facts, graph);
    add_existing(&mut facts, graph, mappings);
    add_edges(&mut facts, graph);
    proof {
        assert forall|id: Id| #[trigger] graph.is_fed_simply(id) <==> fed_before(
            graph.edges@,
            graph.edges@.len() as int,
            id,
        ) by {}
        assert forall|id: Id, req: Req| #[trigger]
            gives(facts@, id, req) <==> is_indexed(req, views) && graph.demands_directly(
                id,
                demand_for(req, views),
            ) by {}
    }
    facts
}

/// What the propagation finds for the facts of a graph is what the graph demands.
pub proof fn law_requirements_are_the_demands(
    facts: Seq<Fact>,
    graph: CompleteStreamFragmentGraph,
    mappings: Seq<Seq<WorkerSlotId>>,
    id: Id,
)
    requires
        describes(facts, graph, mappings),
        indexes(graph, mappings),
        mappings.len() <= usize::MAX,
    ensures
        forall|req: Req| #[trigger]
            required(facts, id, req) <==> is_indexed(req, mappings) && graph.demands(id).contains(
                demand_for(req, mappings),
            ),
        forall|d: Demand| #[trigger]
            graph.demands(id).contains(d) ==> exists|req: Req|
                required(facts, id, req) && d == demand_for(req, mappings),
{
    assert(links(facts) =~= graph.links());
    let link = graph.links();
    assert forall|req: Req| #[trigger]
        required(facts, id, req) <==> is_indexed(req, mappings) && graph.demands(id).contains(
            demand_for(req, mappings),
        ) by {
        if required(facts, id, req) {
            let (k, source) = choose|k: int, source: Id|
                {
                    &&& 0 <= k < facts.len()
                    &&& #[trigger] fact_requires(facts[k], source, req)
                    &&& connected(link, source, id)
                };
            assert(gives(facts, source, req));
            assert(graph.demands_directly(source, demand_for(req, mappings)));
        }
        if is_indexed(req, mappings) && graph.demands(id).contains(demand_for(req, mappings)) {
            let source = choose|source: Id| #[trigger]
                graph.demands_directly(source, demand_for(req, mappings)) && connected(
                    link,
                    source,
                    id,
                );
            assert(gives(facts, source, req));
            let k = choose|k: int|
                0 <= k < facts.len() && fact_requires(#[trigger] facts[k], source, req);
            assert(fact_requires(facts[k], source, req));
        }
    }
    assert forall|d: Demand| #[trigger] graph.demands(id).contains(d) implies exists|req: Req|
        required(facts, id, req) && d == demand_for(req, mappings) by {
        let req = match d {
            Demand::Singleton(slot) => Req::Singleton(slot),
            Demand::Hash(mapping) => {
                let source = choose|source: Id| #[trigger]
                    graph.demands_directly(source, d) && connected(link, source, id);
                assert(graph.exists_as(source, Demand::Hash(mapping)));
                assert(mappings.contains(mapping));
                let i = choose|i: int| 0 <= i < mappings.len() && mappings[i] == mapping;
                Req::Hash(i as usize)
            },
            Demand::AnyVnodeCount(count) => Req::AnyVnodeCount(count),
        };
        assert(is_indexed(req, mappings));
        assert(required(facts, id, req));
    }
}

/// The length of each hash mapping in the list.
pub open spec fn mapping_len(mappings: Seq<Seq<WorkerSlotId>>) -> spec_fn(
    HashMappingId,
) -> usize {
    |id: HashMappingId| mappings[id as int].len() as usize
}

/// Whether requirements and demands are the same thing, given the list of hash mappings.
pub open spec fn matches_demands(
    reqs: Set<Req>,
    demands: Set<Demand>,
    mappings: Seq<Seq<WorkerSlotId>>,
) -> bool {
    &&& forall|req: Req| #[trigger]
        reqs.contains(req) <==> is_indexed(req, mappings) && demands.contains(
            demand_for(req, mappings),
        )
    &&& forall|d: Demand| #[trigger]
        demands.contains(d) ==> exists|req: Req|
            reqs.contains(req) && d == demand_for(req, mappings)
}

/// The requirement that decides stands for the demand that decides.
pub(crate) proof fn lemma_resolves_as_decided(
    reqs: Set<Req>,
    demands: Set<Demand>,
    mappings: Seq<Seq<WorkerSlotId>>,
)
    requires
        mappings.no_duplicates(),
        forall|i: int| 0 <= i < mappings.len() ==> (#[trigger] mappings[i]).len() <= usize::MAX,
        matches_demands(reqs, demands, mappings),
    ensures
        forall|req: Req| #[trigger]
            resolves(reqs, mapping_len(mappings), req) ==> decides(
                demands,
                demand_for(req, mappings),
            ),
        forall|d: Demand| #[trigger]
            decides(demands, d) ==> exists|req: Req| #[trigger]
                resolves(reqs, mapping_len(mappings), req) && d == demand_for(req, mappings),
{
    let len = mapping_len(mappings);
    assert forall|req: Req| reqs.contains(req) implies #[trigger] required_vnode_count(req, len)
        == demand_for(req, mappings).vnode_count() by {}
    assert forall|req: Req| #[trigger] resolves(reqs, len, req) implies decides(
        demands,
        demand_for(req, mappings),
    ) by {
        let d = demand_for(req, mappings);
        assert(reqs.contains(req));
        assert forall|other: Demand| #[trigger] demands.contains(other) && other != d implies !(
        d is AnyVnodeCount) && other.asks_only_for(d.vnode_count()) by {
            let q = choose|q: Req| reqs.contains(q) && other == demand_for(q, mappings);
            assert(q != req);
            assert(q == Req::AnyVnodeCount(required_vnode_count(req, len)));
        }
    }
    assert forall|d: Demand| #[trigger] decides(demands, d) implies exists|req: Req| #[trigger]
        resolves(reqs, len, req) && d == demand_for(req, mappings) by {
        assert(demands.contains(d));
        let req = choose|req: Req| reqs.contains(req) && d == demand_for(req, mappings);
        assert(required_vnode_count(req, len) == d.vnode_count());
        assert forall|other: Req| #[trigger] reqs.contains(other) && other != req implies {
            &&& !(req is AnyVnodeCount)
            &&& other == Req::AnyVnodeCount(required_vnode_count(req, len))
        } by {
            if demand_for(other, mappings) == d {
                lemma_demand_is_injective(other, req, mappings);
            }
            assert(demands.contains(demand_for(other, mappings)));
        }
        assert(resolves(reqs, len, req));
    }
}

/// The list of hash mappings holds the mapping of every existing fragment that is distributed by
/// one, and no mapping twice.
pub proof fn law_index_holds_the_existing_mappings(
    graph: CompleteStreamFragmentGraph,
    mappings: Seq<WorkerSlotMapping>,
)
    requires
        indexes(graph, mapping_views(mappings)),
    ensures
        forall|i: int, j: int|
            0 <= i < j < mappings.len() ==> (#[trigger] mappings[i]).slots@ != (
            #[trigger] mappings[j]).slots@,
        forall|id: Id| #[trigger]
            graph.existing_distribution@.contains_key(id) ==> match graph.existing_distribution@[id] {
                Distribution::Singleton(_) => true,
                Distribution::Hash(mapping) => exists|i: int|
                    0 <= i < mappings.len() && (#[trigger] mappings[i]).slots@ == mapping.slots@,
            },
{
    let views = mapping_views(mappings);
    assert forall|i: int| 0 <= i < mappings.len() implies #[trigger] views[i]
        == mappings[i].slots@ by {}
    assert forall|i: int, j: int| 0 <= i < j < mappings.len() implies (
    #[trigger] mappings[i]).slots@ != (#[trigger] mappings[j]).slots@ by {
        assert(views[i] != views[j]);
    }
    assert forall|id: Id| #[trigger]
        graph.existing_distribution@.contains_key(id) implies match graph.existing_distribution@[id] {
        Distribution::Singleton(_) => true,
        Distribution::Hash(mapping) => exists|i: int|
            0 <= i < mappings.len() && (#[trigger] mappings[i]).slots@ == mapping.slots@,
    } by {
        if let Distribution::Hash(mapping) = graph.existing_distribution@[id] {
            assert(graph.exists_as(id, Demand::Hash(mapping@)));
            assert(views.contains(mapping@));
            let i = choose|i: int| 0 <= i < views.len() && views[i] == mapping@;
            assert(mappings[i].slots@ == mapping.slots@);
        }
    }
}

/// Every hash mapping of the list is that of some existing fragment.
pub proof fn law_indexed_mapping_belongs_to_a_fragment(
    graph: CompleteStreamFragmentGraph,
    mappings: Seq<WorkerSlotMapping>,
    i: int,
) -> (id: Id)
    requires
        indexes(graph, mapping_views(mappings)),
        0 <= i < mappings.len(),
    ensures
        graph.existing_distribution@.contains_key(id),
        graph.existing_distribution@[id] matches Distribution::Hash(mapping) && mapping.slots@
            == mappings[i].slots@,
{
    let views = mapping_views(mappings);
    assert(views.contains(views[i]));
    let id = choose|id: Id| graph.exists_as(id, Demand::Hash(views[i]));
    assert(graph.exists_as(id, Demand::Hash(views[i])));
    id
}

/// Only a requirement for a hash mapping that is not in the list is not indexed.
pub proof fn law_requirement_names_a_listed_mapping(
    req: Req,
    mappings: Seq<Seq<WorkerSlotId>>,
)
    ensures
        is_indexed(req, mappings) <==> match req {
            Req::Hash(id) => 0 <= id < mappings.len(),
            _ => true,
        },
        match req {
            Req::Singleton(slot) => demand_for(req, mappings) == Demand::Singleton(slot),
            Req::Hash(id) => demand_for(req, mappings) == Demand::Hash(mappings[id as int]),
            Req::AnyVnodeCount(count) => demand_for(req, mappings) == Demand::AnyVnodeCount(count),
        },
{
}

} // verus!
