//! Propagation of scheduling requirements through a fragment graph.
//!
//! The downstream fragment of a `Simple` edge must be singleton, and whatever is required of one
//! end of a `NoShuffle` edge is required of its other end.

use vstd::prelude::*;

use crate::requirement::{Req, spec_any_singleton};

verus! {

/// Identifier of a fragment, building or existing.
pub type Id = u32;

/// How the output of a fragment is dispatched to a downstream fragment.
#[derive(Debug, Clone, Copy, PartialEq, Eq, Hash, Structural)]
pub enum DispatcherType {
    Unspecified,
    /// Dispatch by hash key.
    Hash,
    /// Broadcast to all downstream actors.
    Broadcast,
    /// Dispatch to the single downstream actor.
    Simple,
    /// Dispatch one to one, to the downstream actor with the same distribution.
    NoShuffle,
}

/// Facts as the input of the propagation.
#[derive(Debug, Clone, Copy, PartialEq, Eq, Hash, Structural)]
pub enum Fact {
    /// An edge in the fragment graph.
    Edge { from: Id, to: Id, dt: DispatcherType },
    /// A scheduling requirement for a fragment.
    Req { id: Id, req: Req },
}

/// Whether the fact alone requires `req` of the fragment `id`.
pub open spec fn fact_requires(fact: Fact, id: Id, req: Req) -> bool {
    match fact {
        Fact::Edge { to, dt, .. } => dt == DispatcherType::Simple && to == id && req
            == spec_any_singleton(),
        Fact::Req { id: of, req: r } => of == id && r == req,
    }
}

/// Whether the fact is a `NoShuffle` edge between `x` and `y`, in either direction.
pub open spec fn fact_links(fact: Fact, x: Id, y: Id) -> bool {
    match fact {
        Fact::Edge { from, to, dt } => dt == DispatcherType::NoShuffle && (from == x && to == y
            || from == y && to == x),
        Fact::Req { .. } => false,
    }
}

/// The relation of being linked by a `NoShuffle` edge.
pub open spec fn links(facts: Seq<Fact>) -> spec_fn(Id, Id) -> bool {
    |x: Id, y: Id| exists|k: int| 0 <= k < facts.len() && fact_links(#[trigger] facts[k], x, y)
}

/// Whether `y` can be reached from `x` in `n` steps along `link`.
pub open spec fn reaches_in(link: spec_fn(Id, Id) -> bool, x: Id, y: Id, n: nat) -> bool
    decreases n,
{
    if n == 0 {
        x == y
    } else {
        exists|z: Id| reaches_in(link, x, z, (n - 1) as nat) && #[trigger] link(z, y)
    }
}

/// Whether `y` can be reached from `x` along `link`.
pub open spec fn connected(link: spec_fn(Id, Id) -> bool, x: Id, y: Id) -> bool {
    exists|n: nat| reaches_in(link, x, y, n)
}

/// Whether `req` is required of the fragment `id`: some fact requires it of a fragment that is
/// connected to `id` by `NoShuffle` edges.
pub open spec fn required(facts: Seq<Fact>, id: Id, req: Req) -> bool {
    exists|k: int, source: Id|
        {
            &&& 0 <= k < facts.len()
            &&& #[trigger] fact_requires(facts[k], source, req)
            &&& connected(links(facts), source, id)
        }
}

/// Whether a set of requirements on fragments holds the given ones and is closed under the
/// propagation rules.
pub open spec fn satisfies_rules(facts: Seq<Fact>, s: Set<(Id, Req)>) -> bool {
    &&& forall|id: Id, req: Req|
        #[trigger] facts.contains(Fact::Req { id, req }) ==> s.contains((id, req))
    &&& forall|from: Id, to: Id| #[trigger]
        facts.contains(Fact::Edge { from, to, dt: DispatcherType::Simple }) ==> s.contains(
            (to, spec_any_singleton()),
        )
    &&& forall|x: Id, y: Id, req: Req| #[trigger]
        facts.contains(Fact::Edge { from: x, to: y, dt: DispatcherType::NoShuffle })
            && #[trigger] s.contains((y, req)) ==> s.contains((x, req))
    &&& forall|x: Id, y: Id, req: Req| #[trigger]
        facts.contains(Fact::Edge { from: x, to: y, dt: DispatcherType::NoShuffle })
            && #[trigger] s.contains((x, req)) ==> s.contains((y, req))
}

/// The set of all requirements on fragments.
pub open spec fn requirements(facts: Seq<Fact>) -> Set<(Id, Req)> {
    Set::new(|p: (Id, Req)| required(facts, p.0, p.1))
}

/// A sequence without duplicates whose elements all occur in another one is no longer than it.
proof fn lemma_distinct_within<A>(s: Seq<A>, universe: Seq<A>)
    requires
        s.no_duplicates(),
        forall|i: int| 0 <= i < s.len() ==> universe.contains(#[trigger] s[i]),
    ensures
        s.len() <= universe.len(),
{
    broadcast use vstd::seq_lib::seq_to_set_is_finite;

    s.unique_seq_to_set();
    universe.lemma_cardinality_of_set();
    assert(s.to_set().subset_of(universe.to_set())) by {
        assert forall|a: A| s.to_set().contains(a) implies universe.to_set().contains(a) by {
            let i = choose|i: int| 0 <= i < s.len() && s[i] == a;
            assert(universe.contains(s[i]));
        }
    }
    vstd::set_lib::lemma_len_subset(s.to_set(), universe.to_set());
}

/// The ends of the edges among the facts.
spec fn edge_ends(facts: Seq<Fact>) -> Seq<Id> {
    Seq::new(
        2 * facts.len(),
        |i: int|
            match facts[i / 2] {
                Fact::Edge { from, to, .. } => if i % 2 == 0 {
                    from
                } else {
                    to
                },
                Fact::Req { id, .. } => id,
            },
    )
}

/// One more step along a link keeps the connection.
pub(crate) proof fn lemma_connected_step(link: spec_fn(Id, Id) -> bool, x: Id, y: Id, z: Id)
    requires
        connected(link, x, y),
        link(y, z),
    ensures
        connected(link, x, z),
{
    let n = choose|n: nat| reaches_in(link, x, y, n);
    assert(reaches_in(link, x, y, ((n + 1) - 1) as nat));
    assert(reaches_in(link, x, z, n + 1));
}

/// A property of the start that links carry over holds of all that can be reached.
pub(crate) proof fn lemma_reached_are_closed(
    link: spec_fn(Id, Id) -> bool,
    s: Set<Id>,
    x: Id,
    y: Id,
    n: nat,
)
    requires
        s.contains(x),
        forall|u: Id, v: Id| #[trigger] link(u, v) && s.contains(u) ==> s.contains(v),
        reaches_in(link, x, y, n),
    ensures
        s.contains(y),
    decreases n,
{
    if n > 0 {
        let z = choose|z: Id| reaches_in(link, x, z, (n - 1) as nat) && #[trigger] link(z, y);
        lemma_reached_are_closed(link, s, x, z, (n - 1) as nat);
    }
}

/// The fragments that `NoShuffle` edges connect to the fragment `source`, itself among them.
pub fn connected_fragments(facts: &Vec<Fact>, source: Id) -> (found: Vec<Id>)
    ensures
        found@.no_duplicates(),
        forall|id: Id| #[trigger]
            found@.contains(id) <==> connected(links(facts@), source, id),
{
    let ghost link = links(facts@);
    let ghost universe = edge_ends(facts@).push(source);
    let mut found: Vec<Id> = Vec::new();
    found.push(source);
    let mut i: usize = 0;
    proof {
        assert(reaches_in(link, source, source, 0));
        assert(found@[0] == source);
        assert(universe[universe.len() - 1] == source);
    }
    while i < found.len()
        invariant
            i <= found.len(),
            link == links(facts@),
            universe == edge_ends(facts@).push(source),
            found@.no_duplicates(),
            found@.contains(source),
            forall|j: int| 0 <= j < found.len() ==> connected(link, source, #[trigger] found@[j]),
            forall|j: int| 0 <= j < found.len() ==> universe.contains(#[trigger] found@[j]),
            forall|j: int, y: Id|
                0 <= j < i && #[trigger] link(found@[j], y) ==> found@.contains(y),
        decreases universe.len() - i,
    {
        let x = found[i];
        let mut k: usize = 0;
        while k < facts.len()
            invariant
                k <= facts.len(),
                i < found.len(),
                x == found@[i as int],
                link == links(facts@),
                universe == edge_ends(facts@).push(source),
                found@.no_duplicates(),
                found@.contains(source),
                forall|j: int|
                    0 <= j < found.len() ==> connected(link, source, #[trigger] found@[j]),
                forall|j: int| 0 <= j < found.len() ==> universe.contains(#[trigger] found@[j]),
                forall|j: int, y: Id|
                    0 <= j < i && #[trigger] link(found@[j], y) ==> found@.contains(y),
                forall|j: int, y: Id|
                    0 <= j < k && #[trigger] fact_links(facts@[j], x, y) ==> found@.contains(y),
            decreases facts.len() - k,
        {
            let ghost before = found@;
            if let Fact::Edge { from, to, dt } = facts[k] {
                if dt == DispatcherType::NoShuffle {
                    proof {
                        let ends = edge_ends(facts@);
                        assert(ends[2 * k] == from && ends[2 * k + 1] == to);
                        assert(universe[2 * k] == from && universe[2 * k + 1] == to);
                        assert(connected(link, source, found@[i as int]));
                        if from == x {
                            assert(fact_links(facts@[k as int], x, to));
                            lemma_connected_step(link, source, x, to);
                        }
                        if to == x {
                            assert(fact_links(facts@[k as int], x, from));
                            lemma_connected_step(link, source, x, from);
                        }
                    }
                    if from == x {
                        insert_id(&mut found, to);
                    }
                    let ghost middle = found@;
                    if to == x {
                        insert_id(&mut found, from);
                    }
                    proof {
                        assert forall|y: Id| before.contains(y) implies found@.contains(y) by {
                            assert(middle.contains(y));
                        }
                    }
                }
            }
            k = k + 1;
        }
        assert forall|y: Id| #[trigger] link(found@[i as int], y) implies found@.contains(y) by {
            let j = choose|j: int| 0 <= j < facts@.len() && fact_links(#[trigger] facts@[j], x, y);
            assert(fact_links(facts@[j], x, y));
        }
        proof {
            lemma_distinct_within(found@, universe);
        }
        i = i + 1;
    }
    assert forall|id: Id| #[trigger] found@.contains(id) <==> connected(link, source, id) by {
        if connected(link, source, id) {
            let n = choose|n: nat| reaches_in(link, source, id, n);
            let s = found@.to_set();
            assert forall|u: Id, v: Id| #[trigger] link(u, v) && s.contains(u) implies s.contains(
                v,
            ) by {
                let j = choose|j: int| 0 <= j < found@.len() && found@[j] == u;
                assert(link(found@[j], v));
            }
            lemma_reached_are_closed(link, s, source, id, n);
        }
    }
    found
}

/// Adds `id` at the end of a list without duplicates, unless it is there.
fn insert_id(ids: &mut Vec<Id>, id: Id)
    requires
        old(ids)@.no_duplicates(),
    ensures
        final(ids)@.no_duplicates(),
        final(ids)@ == if old(ids)@.contains(id) {
            old(ids)@
        } else {
            old(ids)@.push(id)
        },
        final(ids)@.contains(id),
        forall|other: Id| #[trigger] old(ids)@.contains(other) ==> final(ids)@.contains(other),
        old(ids)@.is_prefix_of(final(ids)@),
{
    let mut i: usize = 0;
    while i < ids.len()
        invariant
            i <= ids.len(),
            ids@ == old(ids)@,
            ids@.no_duplicates(),
            forall|j: int| 0 <= j < i ==> #[trigger] ids@[j] != id,
        decreases ids.len() - i,
    {
        if ids[i] == id {
            assert(ids@.contains(id));
            return;
        }
        i = i + 1;
    }
    ids.push(id);
    proof {
        assert(ids@[ids.len() - 1] == id);
        assert forall|other: Id| #[trigger] old(ids)@.contains(other) implies ids@.contains(
            other,
        ) by {
            let j = choose|j: int| 0 <= j < old(ids)@.len() && old(ids)@[j] == other;
            assert(ids@[j] == other);
        }
    }
}

/// Requires `req` of the fragment `source` and of all fragments connected to it.
fn spread(reqs: &mut Vec<(Id, Req)>, facts: &Vec<Fact>, source: Id, req: Req)
    requires
        old(reqs)@.no_duplicates(),
    ensures
        final(reqs)@.no_duplicates(),
        forall|p: (Id, Req)| #[trigger]
            final(reqs)@.contains(p) <==> old(reqs)@.contains(p) || p.1 == req && connected(
                links(facts@),
                source,
                p.0,
            ),
{
    let found = connected_fragments(facts, source);
    let mut i: usize = 0;
    while i < found.len()
        invariant
            i <= found.len(),
            reqs@.no_duplicates(),
            forall|p: (Id, Req)| #[trigger]
                reqs@.contains(p) <==> old(reqs)@.contains(p) || p.1 == req && found@.take(
                    i as int,
                ).contains(p.0),
        decreases found.len() - i,
    {
        let ghost before = reqs@;
        let id = found[i];
        insert_req(reqs, id, req);
        proof {
            let (seen, now) = (found@.take(i as int), found@.take(i + 1));
            assert(now =~= seen.push(id));
            assert forall|p: (Id, Req)| #[trigger]
                reqs@.contains(p) <==> old(reqs)@.contains(p) || p.1 == req && now.contains(
                p.0,
            ) by {
                assert(reqs@.contains(p) <==> before.contains(p) || p == (id, req));
                assert(now.contains(p.0) <==> seen.contains(p.0) || p.0 == id) by {
                    seen.lemma_push_to_set_commute(id);
                    assert(now.to_set().contains(p.0) <==> seen.to_set().insert(id).contains(p.0));
                }
            }
        }
        i = i + 1;
    }
    assert(found@.take(i as int) =~= found@);
}

/// Adds a requirement at the end of a list without duplicates, unless it is there.
fn insert_req(reqs: &mut Vec<(Id, Req)>, id: Id, req: Req)
    requires
        old(reqs)@.no_duplicates(),
    ensures
        final(reqs)@.no_duplicates(),
        forall|p: (Id, Req)| #[trigger]
            final(reqs)@.contains(p) <==> old(reqs)@.contains(p) || p == (id, req),
{
    let mut i: usize = 0;
    while i < reqs.len()
        invariant
            i <= reqs.len(),
            reqs@ == old(reqs)@,
            reqs@.no_duplicates(),
            forall|j: int| 0 <= j < i ==> #[trigger] reqs@[j] != (id, req),
        decreases reqs.len() - i,
    {
        if reqs[i].0 == id && reqs[i].1 == req {
            assert(reqs@[i as int] == (id, req));
            return;
        }
        i = i + 1;
    }
    reqs.push((id, req));
    proof {
        assert forall|p: (Id, Req)| #[trigger]
            reqs@.contains(p) <==> old(reqs)@.contains(p) || p == (id, req) by {
            old(reqs)@.lemma_push_to_set_commute((id, req));
            assert(reqs@.to_set().contains(p) <==> old(reqs)@.to_set().insert(
                (id, req),
            ).contains(p));
        }
    }
}

/// Whether one of the first `upto` facts requires `req` of a fragment connected to `id`.
spec fn required_by(facts: Seq<Fact>, upto: int, id: Id, req: Req) -> bool {
    exists|k: int, source: Id|
        {
            &&& 0 <= k < upto
            &&& #[trigger] fact_requires(facts[k], source, req)
            &&& connected(links(facts), source, id)
        }
}

/// Runs the propagation: lists each requirement on each fragment once.
pub fn propagate(facts: &Vec<Fact>) -> (reqs: Vec<(Id, Req)>)
    ensures
        reqs@.no_duplicates(),
        forall|id: Id, req: Req| #[trigger]
            reqs@.contains((id, req)) <==> required(facts@, id, req),
{
    let mut reqs: Vec<(Id, Req)> = Vec::new();
    let mut k: usize = 0;
    while k < facts.len()
        invariant
            k <= facts.len(),
            reqs@.no_duplicates(),
            forall|p: (Id, Req)| #[trigger]
                reqs@.contains(p) <==> required_by(facts@, k as int, p.0, p.1),
        decreases facts.len() - k,
    {
        let ghost before = reqs@;
        match facts[k] {
            Fact::Req { id, req } => {
                spread(&mut reqs, facts, id, req);
            },
            Fact::Edge { to, dt, .. } => {
                if dt == DispatcherType::Simple {
                    spread(&mut reqs, facts, to, Req::any_singleton());
                }
            },
        }
        proof {
            let link = links(facts@);
            assert forall|p: (Id, Req)| #[trigger]
                reqs@.contains(p) <==> required_by(facts@, k + 1, p.0, p.1) by {
                assert(before.contains(p) <==> required_by(facts@, k as int, p.0, p.1));
                if reqs@.contains(p) {
                    if before.contains(p) {
                        let (j, source) = choose|j: int, source: Id|
                            {
                                &&& 0 <= j < k
                                &&& #[trigger] fact_requires(facts@[j], source, p.1)
                                &&& connected(link, source, p.0)
                            };
                        assert(fact_requires(facts@[j], source, p.1));
                    } else {
                        let source = match facts@[k as int] {
                            Fact::Req { id, .. } => id,
                            Fact::Edge { to, .. } => to,
                        };
                        assert(fact_requires(facts@[k as int], source, p.1));
                    }
                }
                if required_by(facts@, k + 1, p.0, p.1) {
                    let (j, source) = choose|j: int, source: Id|
                        {
                            &&& 0 <= j < k + 1
                            &&& #[trigger] fact_requires(facts@[j], source, p.1)
                            &&& connected(link, source, p.0)
                        };
                    if j < k {
                        assert(fact_requires(facts@[j], source, p.1));
                    }
                }
            }
        }
        k = k + 1;
    }
    reqs
}

/// The requirements that the propagation finds hold the given ones and are closed under the
/// propagation rules.
pub proof fn law_requirements_satisfy_the_rules(facts: Seq<Fact>)
    ensures
        satisfies_rules(facts, requirements(facts)),
{
    let s = requirements(facts);
    let link = links(facts);
    assert forall|id: Id, req: Req|
        #[trigger] facts.contains(Fact::Req { id, req }) implies s.contains((id, req)) by {
        let k = choose|k: int| 0 <= k < facts.len() && facts[k] == (Fact::Req { id, req });
        assert(fact_requires(facts[k], id, req));
        assert(reaches_in(link, id, id, 0));
    }
    assert forall|from: Id, to: Id| #[trigger]
        facts.contains(
            Fact::Edge { from, to, dt: DispatcherType::Simple },
        ) implies s.contains((to, spec_any_singleton())) by {
        let k = choose|k: int|
            0 <= k < facts.len() && facts[k] == (Fact::Edge {
                from,
                to,
                dt: DispatcherType::Simple,
            });
        assert(fact_requires(facts[k], to, spec_any_singleton()));
        assert(reaches_in(link, to, to, 0));
    }
    assert forall|x: Id, y: Id|
        facts.contains(Fact::Edge { from: x, to: y, dt: DispatcherType::NoShuffle }) implies link(
        x,
        y,
    ) && link(y, x) by {
        let k = choose|k: int|
            0 <= k < facts.len() && facts[k] == (Fact::Edge {
                from: x,
                to: y,
                dt: DispatcherType::NoShuffle,
            });
        assert(fact_links(facts[k], x, y) && fact_links(facts[k], y, x));
    }
    assert forall|x: Id, y: Id, req: Req| link(x, y) && s.contains((x, req)) implies s.contains(
        (y, req),
    ) by {
        let (k, source) = choose|k: int, source: Id|
            {
                &&& 0 <= k < facts.len()
                &&& #[trigger] fact_requires(facts[k], source, req)
                &&& connected(link, source, x)
            };
        lemma_connected_step(link, source, x, y);
        assert(fact_requires(facts[k], source, req));
    }
}

/// Any set of requirements that holds the given ones and is closed under the propagation rules
/// holds all requirements that the propagation finds: they are the least such set.
pub proof fn law_requirements_are_least(facts: Seq<Fact>, s: Set<(Id, Req)>)
    requires
        satisfies_rules(facts, s),
    ensures
        requirements(facts).subset_of(s),
{
    let link = links(facts);
    assert forall|p: (Id, Req)| requirements(facts).contains(p) implies s.contains(p) by {
        let (id, req) = p;
        let (k, source) = choose|k: int, source: Id|
            {
                &&& 0 <= k < facts.len()
                &&& #[trigger] fact_requires(facts[k], source, req)
                &&& connected(link, source, id)
            };
        assert(s.contains((source, req))) by {
            assert(facts.contains(facts[k]));
            match facts[k] {
                Fact::Edge { from, to, dt } => {
                    assert(facts.contains(Fact::Edge { from, to, dt: DispatcherType::Simple }));
                },
                Fact::Req { id: of, req: r } => {
                    assert(facts.contains(Fact::Req { id: of, req: r }));
                },
            }
        }
        let holders = Set::new(|i: Id| s.contains((i, req)));
        assert forall|u: Id, v: Id| #[trigger] link(u, v) && holders.contains(
            u,
        ) implies holders.contains(v) by {
            let j = choose|j: int| 0 <= j < facts.len() && fact_links(#[trigger] facts[j], u, v);
            assert(facts.contains(facts[j]));
            assert(s.contains((u, req)));
        }
        let n = choose|n: nat| reaches_in(link, source, id, n);
        lemma_reached_are_closed(link, holders, source, id, n);
    }
}

/// What a fact says of a fragment is required of it, the downstream fragment of a `Simple` edge
/// must have one vnode, and the same is required of both ends of a `NoShuffle` edge.
pub proof fn law_requirements_follow_the_edges(facts: Seq<Fact>)
    ensures
        forall|id: Id, req: Req| #[trigger]
            facts.contains(Fact::Req { id, req }) ==> required(facts, id, req),
        forall|from: Id, to: Id| #[trigger]
            facts.contains(Fact::Edge { from, to, dt: DispatcherType::Simple }) ==> required(
                facts,
                to,
                Req::AnyVnodeCount(1),
            ),
        forall|x: Id, y: Id, req: Req|
            #![trigger
                facts.contains(Fact::Edge { from: x, to: y, dt: DispatcherType::NoShuffle }),
                required(facts, x, req)
            ]
            #![trigger
                facts.contains(Fact::Edge { from: x, to: y, dt: DispatcherType::NoShuffle }),
                required(facts, y, req)
            ]
            facts.contains(Fact::Edge { from: x, to: y, dt: DispatcherType::NoShuffle }) ==> (
            required(facts, x, req) <==> required(facts, y, req)),
{
    law_requirements_satisfy_the_rules(facts);
    let s = requirements(facts);
    assert forall|id: Id, req: Req| #[trigger] s.contains((id, req)) <==> required(
        facts,
        id,
        req,
    ) by {}
    assert forall|id: Id, req: Req| #[trigger] facts.contains(
        Fact::Req { id, req },
    ) implies required(facts, id, req) by {
        assert(s.contains((id, req)));
    }
    assert forall|from: Id, to: Id| #[trigger]
        facts.contains(Fact::Edge { from, to, dt: DispatcherType::Simple }) implies required(
        facts,
        to,
        Req::AnyVnodeCount(1),
    ) by {
        assert(s.contains((to, Req::AnyVnodeCount(1))));
    }
    assert forall|x: Id, y: Id, req: Req|
        facts.contains(Fact::Edge { from: x, to: y, dt: DispatcherType::NoShuffle }) implies (
    required(facts, x, req) <==> required(facts, y, req)) by {
        assert(s.contains((x, req)) <==> s.contains((y, req)));
    }
}

/// Nothing is required but what the facts say, what `Simple` edges ask for, and what `NoShuffle`
/// edges carry on: whatever holds of the former and is carried on by the latter holds of every
/// requirement.
pub proof fn law_no_more_is_required(facts: Seq<Fact>, s: Set<(Id, Req)>)
    requires
        forall|id: Id, req: Req| #[trigger]
            facts.contains(Fact::Req { id, req }) ==> s.contains((id, req)),
        forall|from: Id, to: Id| #[trigger]
            facts.contains(Fact::Edge { from, to, dt: DispatcherType::Simple }) ==> s.contains(
                (to, Req::AnyVnodeCount(1)),
            ),
        forall|x: Id, y: Id, req: Req| #[trigger]
            facts.contains(Fact::Edge { from: x, to: y, dt: DispatcherType::NoShuffle })
                && #[trigger] s.contains((y, req)) ==> s.contains((x, req)),
        forall|x: Id, y: Id, req: Req| #[trigger]
            facts.contains(Fact::Edge { from: x, to: y, dt: DispatcherType::NoShuffle })
                && #[trigger] s.contains((x, req)) ==> s.contains((y, req)),
    ensures
        forall|id: Id, req: Req| #[trigger] required(facts, id, req) ==> s.contains((id, req)),
{
    law_requirements_are_least(facts, s);
    assert forall|id: Id, req: Req| #[trigger] required(facts, id, req) implies s.contains(
        (id, req),
    ) by {
        assert(requirements(facts).contains((id, req)));
    }
}

/// A fragment is connected to itself, and to both ends of a `NoShuffle` edge or to neither.
pub proof fn law_connection_follows_no_shuffle_edges(facts: Seq<Fact>, source: Id)
    ensures
        connected(links(facts), source, source),
        forall|x: Id, y: Id| #[trigger]
            facts.contains(Fact::Edge { from: x, to: y, dt: DispatcherType::NoShuffle }) ==> (
            connected(links(facts), source, x) <==> connected(links(facts), source, y)),
{
    let link = links(facts);
    assert(reaches_in(link, source, source, 0));
    assert forall|x: Id, y: Id| #[trigger]
        facts.contains(Fact::Edge { from: x, to: y, dt: DispatcherType::NoShuffle }) implies (
    connected(link, source, x) <==> connected(link, source, y)) by {
        let fact = Fact::Edge { from: x, to: y, dt: DispatcherType::NoShuffle };
        let k = choose|k: int| 0 <= k < facts.len() && facts[k] == fact;
        assert(fact_links(facts[k], x, y) && fact_links(facts[k], y, x));
        assert(link(x, y) && link(y, x));
        if connected(link, source, x) {
            lemma_connected_step(link, source, x, y);
        }
        if connected(link, source, y) {
            lemma_connected_step(link, source, y, x);
        }
    }
}

/// A fragment is connected to no other fragments than `NoShuffle` edges lead to, step by step.
pub proof fn law_no_more_is_connected(facts: Seq<Fact>, source: Id, s: Set<Id>)
    requires
        s.contains(source),
        forall|x: Id, y: Id| #[trigger]
            facts.contains(Fact::Edge { from: x, to: y, dt: DispatcherType::NoShuffle }) ==> (
            s.contains(x) <==> s.contains(y)),
    ensures
        forall|id: Id| #[trigger] connected(links(facts), source, id) ==> s.contains(id),
{
    let link = links(facts);
    assert forall|u: Id, v: Id| #[trigger] link(u, v) && s.contains(u) implies s.contains(v) by {
        let k = choose|k: int| 0 <= k < facts.len() && fact_links(#[trigger] facts[k], u, v);
        assert(facts.contains(facts[k]));
    }
    assert forall|id: Id| #[trigger] connected(link, source, id) implies s.contains(id) by {
        let n = choose|n: nat| reaches_in(link, source, id, n);
        lemma_reached_are_closed(link, s, source, id, n);
    }
}

} // verus!
