//! The complete fragment graph of a streaming job, and what it demands of its fragments.

use std::collections::HashMap;
use vstd::prelude::*;

use crate::distribution::{Distribution, DistributionView};
use crate::propagation::{
    DispatcherType, Id, connected, lemma_connected_step, lemma_reached_are_closed, reaches_in,
};
use crate::worker_slot::WorkerSlotId;

verus! {

/// A table that a stream node looks up.
#[derive(Debug)]
pub struct TableDesc {
    /// The number of virtual nodes that the table is distributed over.
    pub vnode_count: usize,
}

/// What the scheduler reads of a stream node.
#[derive(Debug)]
pub enum NodeBody {
    StreamScan { arrangement_table: Option<TableDesc>, table_desc: Option<TableDesc> },
    TemporalJoin { table_desc: Option<TableDesc> },
    BatchPlan { table_desc: Option<TableDesc> },
    /// The table of the arrangement that is looked up, if there is one.
    Lookup { arrangement_table_info: Option<Option<TableDesc>> },
    /// Any node that looks up no existing table.
    Other,
}

impl NodeBody {
    /// Whether a node that must look up a table names it.
    pub open spec fn names_its_table(self) -> bool {
        match self {
            NodeBody::StreamScan { .. } => true,
            NodeBody::TemporalJoin { table_desc } => table_desc is Some,
            NodeBody::BatchPlan { table_desc } => table_desc is Some,
            NodeBody::Lookup { arrangement_table_info } => arrangement_table_info matches Some(
                table_desc,
            ) && table_desc is Some,
            NodeBody::Other => true,
        }
    }

    /// The table that the node looks up; a scan prefers its arrangement table.
    pub open spec fn table(self) -> Option<TableDesc> {
        match self {
            NodeBody::StreamScan { arrangement_table, table_desc } => if arrangement_table is Some {
                arrangement_table
            } else {
                table_desc
            },
            NodeBody::TemporalJoin { table_desc } => table_desc,
            NodeBody::BatchPlan { table_desc } => table_desc,
            NodeBody::Lookup { arrangement_table_info } => match arrangement_table_info {
                Some(table_desc) => table_desc,
                None => None,
            },
            NodeBody::Other => None,
        }
    }

    /// The vnode count of the table that the node looks up: the fragment of the node must have
    /// the same.
    pub fn vnode_count(&self) -> (count: Option<usize>)
        requires
            self.names_its_table(),
        ensures
            count == match self.table() {
                Some(table) => Some(table.vnode_count),
                None => None,
            },
    {
        match self {
            NodeBody::StreamScan { arrangement_table, table_desc } => {
                if let Some(table) = arrangement_table {
                    Some(table.vnode_count)
                } else if let Some(table) = table_desc {
                    Some(table.vnode_count)
                } else {
                    None
                }
            },
            NodeBody::TemporalJoin { table_desc } => Some(
                table_desc.as_ref().unwrap().vnode_count,
            ),
            NodeBody::BatchPlan { table_desc } => Some(table_desc.as_ref().unwrap().vnode_count),
            NodeBody::Lookup { arrangement_table_info } => Some(
                arrangement_table_info.as_ref().unwrap().as_ref().unwrap().vnode_count,
            ),
            NodeBody::Other => None,
        }
    }
}

/// A fragment that is going to be built.
#[derive(Debug)]
pub struct BuildingFragment {
    /// Whether the fragment must be singleton on its own account.
    pub requires_singleton: bool,
    /// The stream nodes of the fragment.
    pub nodes: Vec<NodeBody>,
}

/// The fragments to build, the existing fragments next to them, and the edges between them.
#[derive(Debug)]
pub struct CompleteStreamFragmentGraph {
    pub building_fragments: HashMap<Id, BuildingFragment>,
    pub existing_distribution: HashMap<Id, Distribution>,
    /// The upstream fragment, the downstream fragment and the dispatcher of each edge.
    pub edges: Vec<(Id, Id, DispatcherType)>,
}

/// What may be demanded of the distribution of a fragment.
pub enum Demand {
    /// To be singleton, on the given worker slot.
    Singleton(WorkerSlotId),
    /// To be distributed by the given hash mapping.
    Hash(Seq<WorkerSlotId>),
    /// To have the given vnode count.
    AnyVnodeCount(usize),
}

impl Demand {
    /// The vnode count that is demanded.
    pub open spec fn vnode_count(self) -> nat {
        match self {
            Demand::Singleton(_) => 1,
            Demand::Hash(mapping) => mapping.len(),
            Demand::AnyVnodeCount(count) => count as nat,
        }
    }

    /// Whether the demand asks for nothing but the given vnode count.
    pub open spec fn asks_only_for(self, count: nat) -> bool {
        self matches Demand::AnyVnodeCount(n) && n == count
    }
}

/// The demand to be distributed in the given way.
pub open spec fn demand_of(dist: DistributionView) -> Demand {
    match dist {
        DistributionView::Singleton(slot) => Demand::Singleton(slot),
        DistributionView::Hash(mapping) => Demand::Hash(mapping),
    }
}

/// Of the demands `s`, `d` is the one that decides: it is among them, and any other only asks
/// for the vnode count of the placement that `d` names.
pub open spec fn decides(s: Set<Demand>, d: Demand) -> bool {
    &&& s.contains(d)
    &&& forall|other: Demand|
        #[trigger] s.contains(other) && other != d ==> !(d is AnyVnodeCount)
            && other.asks_only_for(d.vnode_count())
}

/// Whether a distribution does what a demand asks for.
pub open spec fn meets(dist: DistributionView, d: Demand) -> bool {
    match d {
        Demand::Singleton(slot) => dist == DistributionView::Singleton(slot),
        Demand::Hash(mapping) => dist == DistributionView::Hash(mapping),
        Demand::AnyVnodeCount(count) => dist.vnode_count() == count,
    }
}

impl CompleteStreamFragmentGraph {
    /// Whether every node that must look up a table names it.
    pub open spec fn names_its_tables(self) -> bool {
        forall|id: Id, i: int|
            self.building_fragments@.contains_key(id) && 0 <= i
                < self.building_fragments@[id].nodes@.len() ==> (
            #[trigger] self.building_fragments@[id].nodes@[i]).names_its_table()
    }

    /// Whether the fragment `id` is to be built and must be singleton on its own account.
    pub open spec fn must_be_singleton(self, id: Id) -> bool {
        self.building_fragments@.contains_key(id) && self.building_fragments@[id].requires_singleton
    }

    /// Whether the fragment `id` is to be built and looks up a table with the given vnode count.
    pub open spec fn looks_up(self, id: Id, count: usize) -> bool {
        &&& self.building_fragments@.contains_key(id)
        &&& exists|i: int|
            {
                &&& 0 <= i < self.building_fragments@[id].nodes@.len()
                &&& (#[trigger] self.building_fragments@[id].nodes@[i]).table() matches Some(table)
                &&& table.vnode_count == count
            }
    }

    /// Whether the fragment `id` exists and is distributed as `d` demands.
    pub open spec fn exists_as(self, id: Id, d: Demand) -> bool {
        self.existing_distribution@.contains_key(id) && d == demand_of(
            self.existing_distribution@[id]@,
        )
    }

    /// Whether the fragment `id` is downstream of a `Simple` edge.
    pub open spec fn is_fed_simply(self, id: Id) -> bool {
        exists|k: int|
            0 <= k < self.edges@.len() && (#[trigger] self.edges@[k]).1 == id && self.edges@[k].2
                == DispatcherType::Simple
    }

    /// Whether the graph demands `d` of the fragment `id`, leaving other fragments aside.
    pub open spec fn demands_directly(self, id: Id, d: Demand) -> bool {
        ||| d == Demand::AnyVnodeCount(1) && (self.must_be_singleton(id) || self.is_fed_simply(id))
        ||| d matches Demand::AnyVnodeCount(count) && self.looks_up(id, count)
        ||| self.exists_as(id, d)
    }

    /// The relation of being linked by a `NoShuffle` edge, in either direction.
    pub open spec fn links(self) -> spec_fn(Id, Id) -> bool {
        |x: Id, y: Id|
            exists|k: int|
                {
                    &&& 0 <= k < self.edges@.len()
                    &&& (#[trigger] self.edges@[k]).2 == DispatcherType::NoShuffle
                    &&& (self.edges@[k].0 == x && self.edges@[k].1 == y || self.edges@[k].0 == y
                        && self.edges@[k].1 == x)
                }
    }

    /// All that the graph demands of the fragment `id`: what it demands directly of the
    /// fragments that `NoShuffle` edges connect to it, itself among them.
    pub open spec fn demands(self, id: Id) -> Set<Demand> {
        Set::new(
            |d: Demand|
                exists|source: Id| #[trigger]
                    self.demands_directly(source, d) && connected(self.links(), source, id),
        )
    }

    /// Whether some existing fragment is distributed by the hash mapping.
    pub open spec fn uses_mapping(self, mapping: Seq<WorkerSlotId>) -> bool {
        exists|id: Id| self.exists_as(id, Demand::Hash(mapping))
    }
}

/// A scan looks up its arrangement table, or its own table if it has no arrangement table. A
/// temporal join, a batch plan and a lookup look up the table that they name, and must name one.
/// Other nodes look up nothing.
pub proof fn law_node_looks_up_the_table_it_names(node: NodeBody)
    ensures
        match node {
            NodeBody::StreamScan { arrangement_table: Some(table), .. } => node.table() == Some(
                table,
            ),
            NodeBody::StreamScan { arrangement_table: None, table_desc } => node.table()
                == table_desc,
            NodeBody::TemporalJoin { table_desc } => node.table() == table_desc,
            NodeBody::BatchPlan { table_desc } => node.table() == table_desc,
            NodeBody::Lookup { arrangement_table_info: Some(table_desc) } => node.table()
                == table_desc,
            NodeBody::Lookup { arrangement_table_info: None } => node.table() is None,
            NodeBody::Other => node.table() is None,
        },
        node.names_its_table() <==> match node {
            NodeBody::TemporalJoin { table_desc: None } => false,
            NodeBody::BatchPlan { table_desc: None } => false,
            NodeBody::Lookup { arrangement_table_info: None } => false,
            NodeBody::Lookup { arrangement_table_info: Some(None) } => false,
            _ => true,
        },
{
}

/// The graph asks of every building fragment the vnode count of the table that each of its nodes
/// looks up, wherever the node stands, and one vnode if the fragment must be singleton or is
/// downstream of a `Simple` edge. Of an existing fragment it asks for the distribution that the
/// fragment has. Of both ends of a `NoShuffle` edge it asks the same.
pub proof fn law_demands_follow_the_graph(graph: CompleteStreamFragmentGraph)
    ensures
        forall|id: Id| #[trigger]
            graph.building_fragments@.contains_key(id)
                && graph.building_fragments@[id].requires_singleton ==> graph.demands(id).contains(
                Demand::AnyVnodeCount(1),
            ),
        forall|id: Id, i: int|
            graph.building_fragments@.contains_key(id) && 0 <= i
                < graph.building_fragments@[id].nodes@.len() ==> match #[trigger] graph.building_fragments@[id].nodes@[i] {
                NodeBody::StreamScan { arrangement_table: Some(table), .. } => graph.demands(id).contains(
                    Demand::AnyVnodeCount(table.vnode_count),
                ),
                NodeBody::StreamScan { arrangement_table: None, table_desc: Some(table) } => graph.demands(id).contains(
                    Demand::AnyVnodeCount(table.vnode_count),
                ),
                NodeBody::TemporalJoin { table_desc: Some(table) } => graph.demands(id).contains(
                    Demand::AnyVnodeCount(table.vnode_count),
                ),
                NodeBody::BatchPlan { table_desc: Some(table) } => graph.demands(id).contains(
                    Demand::AnyVnodeCount(table.vnode_count),
                ),
                NodeBody::Lookup { arrangement_table_info: Some(Some(table)) } => graph.demands(id).contains(
                    Demand::AnyVnodeCount(table.vnode_count),
                ),
                _ => true,
            },
        forall|id: Id| #[trigger]
            graph.existing_distribution@.contains_key(id) ==> match graph.existing_distribution@[id] {
                Distribution::Singleton(slot) => graph.demands(id).contains(
                    Demand::Singleton(slot),
                ),
                Distribution::Hash(mapping) => graph.demands(id).contains(
                    Demand::Hash(mapping.slots@),
                ),
            },
        forall|k: int|
            0 <= k < graph.edges@.len() && (#[trigger] graph.edges@[k]).2 == DispatcherType::Simple
                ==> graph.demands(graph.edges@[k].1).contains(Demand::AnyVnodeCount(1)),
        forall|k: int|
            0 <= k < graph.edges@.len() && (#[trigger] graph.edges@[k]).2
                == DispatcherType::NoShuffle ==> graph.demands(graph.edges@[k].0) == graph.demands(
                graph.edges@[k].1,
            ),
{
    let link = graph.links();
    assert forall|id: Id, d: Demand| #[trigger]
        graph.demands_directly(id, d) implies graph.demands(id).contains(d) by {
        assert(reaches_in(link, id, id, 0));
    }
    assert forall|id: Id| #[trigger]
        graph.building_fragments@.contains_key(id)
            && graph.building_fragments@[id].requires_singleton implies graph.demands(id).contains(
        Demand::AnyVnodeCount(1),
    ) by {
        assert(graph.demands_directly(id, Demand::AnyVnodeCount(1)));
    }
    assert forall|id: Id, i: int|
        graph.building_fragments@.contains_key(id) && 0 <= i
            < graph.building_fragments@[id].nodes@.len() implies match #[trigger] graph.building_fragments@[id].nodes@[i] {
                NodeBody::StreamScan { arrangement_table: Some(table), .. } => graph.demands(id).contains(
                    Demand::AnyVnodeCount(table.vnode_count),
                ),
                NodeBody::StreamScan { arrangement_table: None, table_desc: Some(table) } => graph.demands(id).contains(
                    Demand::AnyVnodeCount(table.vnode_count),
                ),
                NodeBody::TemporalJoin { table_desc: Some(table) } => graph.demands(id).contains(
                    Demand::AnyVnodeCount(table.vnode_count),
                ),
                NodeBody::BatchPlan { table_desc: Some(table) } => graph.demands(id).contains(
                    Demand::AnyVnodeCount(table.vnode_count),
                ),
                NodeBody::Lookup { arrangement_table_info: Some(Some(table)) } => graph.demands(id).contains(
                    Demand::AnyVnodeCount(table.vnode_count),
                ),
                _ => true,
            } by {
        if let Some(table) = graph.building_fragments@[id].nodes@[i].table() {
            assert(graph.looks_up(id, table.vnode_count));
            assert(graph.demands_directly(id, Demand::AnyVnodeCount(table.vnode_count)));
        }
    }
    assert forall|id: Id| #[trigger]
        graph.existing_distribution@.contains_key(id) implies match graph.existing_distribution@[id] {
        Distribution::Singleton(slot) => graph.demands(id).contains(Demand::Singleton(slot)),
        Distribution::Hash(mapping) => graph.demands(id).contains(Demand::Hash(mapping.slots@)),
    } by {
        assert(graph.demands_directly(id, demand_of(graph.existing_distribution@[id]@)));
    }
    assert forall|k: int|
        0 <= k < graph.edges@.len() && (#[trigger] graph.edges@[k]).2
            == DispatcherType::Simple implies graph.demands(graph.edges@[k].1).contains(
        Demand::AnyVnodeCount(1),
    ) by {
        assert(graph.is_fed_simply(graph.edges@[k].1));
        assert(graph.demands_directly(graph.edges@[k].1, Demand::AnyVnodeCount(1)));
    }
    assert forall|k: int|
        0 <= k < graph.edges@.len() && (#[trigger] graph.edges@[k]).2
            == DispatcherType::NoShuffle implies graph.demands(graph.edges@[k].0) == graph.demands(
        graph.edges@[k].1,
    ) by {
        let (x, y) = (graph.edges@[k].0, graph.edges@[k].1);
        assert(link(x, y) && link(y, x));
        assert forall|d: Demand| graph.demands(x).contains(d) <==> graph.demands(y).contains(
            d,
        ) by {
            if graph.demands(x).contains(d) {
                let source = choose|source: Id| #[trigger]
                    graph.demands_directly(source, d) && connected(link, source, x);
                lemma_connected_step(link, source, x, y);
                assert(graph.demands_directly(source, d));
            }
            if graph.demands(y).contains(d) {
                let source = choose|source: Id| #[trigger]
                    graph.demands_directly(source, d) && connected(link, source, y);
                lemma_connected_step(link, source, y, x);
                assert(graph.demands_directly(source, d));
            }
        }
        assert(graph.demands(x) =~= graph.demands(y));
    }
}

/// The graph asks for nothing else: what holds of the vnode counts that building fragments ask
/// for themselves, of the distributions of existing fragments and of what `Simple` edges ask for,
/// and is carried on by `NoShuffle` edges, holds of all that the graph asks of its fragments.
pub proof fn law_no_more_is_demanded(graph: CompleteStreamFragmentGraph, s: Set<(Id, Demand)>)
    requires
        forall|id: Id| #[trigger]
            graph.building_fragments@.contains_key(id)
                && graph.building_fragments@[id].requires_singleton ==> s.contains(
                (id, Demand::AnyVnodeCount(1)),
            ),
        forall|id: Id, i: int|
            graph.building_fragments@.contains_key(id) && 0 <= i
                < graph.building_fragments@[id].nodes@.len() ==> match #[trigger] graph.building_fragments@[id].nodes@[i] {
                NodeBody::StreamScan { arrangement_table: Some(table), .. } => s.contains(
                    (id, Demand::AnyVnodeCount(table.vnode_count)),
                ),
                NodeBody::StreamScan { arrangement_table: None, table_desc: Some(table) } => s.contains(
                    (id, Demand::AnyVnodeCount(table.vnode_count)),
                ),
                NodeBody::TemporalJoin { table_desc: Some(table) } => s.contains(
                    (id, Demand::AnyVnodeCount(table.vnode_count)),
                ),
                NodeBody::BatchPlan { table_desc: Some(table) } => s.contains(
                    (id, Demand::AnyVnodeCount(table.vnode_count)),
                ),
                NodeBody::Lookup { arrangement_table_info: Some(Some(table)) } => s.contains(
                    (id, Demand::AnyVnodeCount(table.vnode_count)),
                ),
                _ => true,
            },
        forall|id: Id| #[trigger]
            graph.existing_distribution@.contains_key(id) ==> match graph.existing_distribution@[id] {
                Distribution::Singleton(slot) => s.contains((id, Demand::Singleton(slot))),
                Distribution::Hash(mapping) => s.contains((id, Demand::Hash(mapping.slots@))),
            },
        forall|k: int|
            0 <= k < graph.edges@.len() && (#[trigger] graph.edges@[k]).2 == DispatcherType::Simple
                ==> s.contains((graph.edges@[k].1, Demand::AnyVnodeCount(1))),
        forall|k: int, d: Demand|
            #![trigger graph.edges@[k], s.contains((graph.edges@[k].0, d))]
            #![trigger graph.edges@[k], s.contains((graph.edges@[k].1, d))]
            0 <= k < graph.edges@.len() && graph.edges@[k].2 == DispatcherType::NoShuffle ==> (
            s.contains((graph.edges@[k].0, d)) <==> s.contains((graph.edges@[k].1, d))),
    ensures
        forall|id: Id, d: Demand| #[trigger]
            graph.demands(id).contains(d) ==> s.contains((id, d)),
{
    let link = graph.links();
    assert forall|id: Id, d: Demand| #[trigger]
        graph.demands_directly(id, d) implies s.contains((id, d)) by {
        if d matches Demand::AnyVnodeCount(count) && graph.looks_up(id, count) {
            let count = d->AnyVnodeCount_0;
            let i = choose|i: int|
                {
                    &&& 0 <= i < graph.building_fragments@[id].nodes@.len()
                    &&& (#[trigger] graph.building_fragments@[id].nodes@[i]).table() matches Some(
                        table,
                    )
                    &&& table.vnode_count == count
                };
            let node = graph.building_fragments@[id].nodes@[i];
            assert(node.table() is Some);
        } else if graph.exists_as(id, d) {
            assert(graph.existing_distribution@.contains_key(id));
        } else if graph.must_be_singleton(id) {
            assert(graph.building_fragments@.contains_key(id));
        } else {
            assert(graph.is_fed_simply(id));
        }
    }
    assert forall|id: Id, d: Demand| #[trigger]
        graph.demands(id).contains(d) implies s.contains((id, d)) by {
        let source = choose|source: Id| #[trigger]
            graph.demands_directly(source, d) && connected(link, source, id);
        let holders = Set::new(|x: Id| s.contains((x, d)));
        assert forall|u: Id, v: Id| #[trigger] link(u, v) && holders.contains(
            u,
        ) implies holders.contains(v) by {
            assert(s.contains((u, d)));
            let k = choose|k: int|
                {
                    &&& 0 <= k < graph.edges@.len()
                    &&& (#[trigger] graph.edges@[k]).2 == DispatcherType::NoShuffle
                    &&& (graph.edges@[k].0 == u && graph.edges@[k].1 == v || graph.edges@[k].0 == v
                        && graph.edges@[k].1 == u)
                };
            assert(s.contains((graph.edges@[k].0, d)) <==> s.contains((graph.edges@[k].1, d)));
        }
        assert(s.contains((source, d)));
        let n = choose|n: nat| reaches_in(link, source, id, n);
        lemma_reached_are_closed(link, holders, source, id, n);
    }
}

/// Where some distribution meets all demands, one of the demands decides.
pub proof fn law_demands_that_can_be_met_are_decided(
    demands: Set<Demand>,
    some: Demand,
    dist: DistributionView,
)
    requires
        demands.contains(some),
        forall|d: Demand| #[trigger]
            demands.contains(d) ==> match d {
                Demand::Singleton(slot) => dist == DistributionView::Singleton(slot),
                Demand::Hash(mapping) => dist == DistributionView::Hash(mapping),
                Demand::AnyVnodeCount(count) => match dist {
                    DistributionView::Singleton(_) => count == 1,
                    DistributionView::Hash(mapping) => mapping.len() == count,
                },
            },
    ensures
        exists|d: Demand| #[trigger] decides(demands, d),
{
    let placed = demand_of(dist);
    if demands.contains(placed) {
        assert(decides(demands, placed));
    } else {
        assert(decides(demands, some)) by {
            assert forall|other: Demand| #[trigger]
                demands.contains(other) && other != some implies false by {}
        }
    }
}

/// The demand that decides is one of the demands. Next to one for a worker slot only one vnode
/// may be demanded, next to one for a hash mapping only the vnode count of the mapping, and next
/// to one for a vnode count nothing.
pub proof fn law_deciding_demand_speaks_for_all(demands: Set<Demand>, d: Demand)
    requires
        decides(demands, d),
    ensures
        demands.contains(d),
        forall|other: Demand| #[trigger]
            demands.contains(other) && other != d ==> match d {
                Demand::Singleton(_) => other == Demand::AnyVnodeCount(1),
                Demand::Hash(mapping) => other matches Demand::AnyVnodeCount(count)
                    && mapping.len() == count,
                Demand::AnyVnodeCount(_) => false,
            },
{
}

/// A graph names its tables unless a temporal join, a batch plan or a lookup of one of its building
/// fragments names none.
pub proof fn law_graph_names_its_tables(graph: CompleteStreamFragmentGraph)
    requires
        forall|id: Id, i: int|
            graph.building_fragments@.contains_key(id) && 0 <= i
                < graph.building_fragments@[id].nodes@.len() ==> match
                #[trigger] graph.building_fragments@[id].nodes@[i] {
                NodeBody::TemporalJoin { table_desc: None } => false,
                NodeBody::BatchPlan { table_desc: None } => false,
                NodeBody::Lookup { arrangement_table_info: None } => false,
                NodeBody::Lookup { arrangement_table_info: Some(None) } => false,
                _ => true,
            },
    ensures
        graph.names_its_tables(),
{
}

} // verus!
