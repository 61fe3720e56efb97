//! Scheduling requirements of fragments, and how several of them combine.

use vstd::prelude::*;

use crate::worker_slot::WorkerSlotId;

verus! {

/// Position of a hash mapping in the list of all hash mappings at hand.
pub type HashMappingId = usize;

/// A requirement on the scheduling of one fragment.
#[derive(Debug, Clone, Copy, PartialEq, Eq, Hash, Structural)]
pub enum Req {
    /// The fragment must be singleton and is scheduled to the given worker slot.
    Singleton(WorkerSlotId),
    /// The fragment must be hash-distributed and is scheduled by the given hash mapping.
    Hash(HashMappingId),
    /// The fragment must have the given vnode count, but can be scheduled anywhere.
    /// A vnode count of 1 means that the fragment must be singleton.
    AnyVnodeCount(usize),
}

/// Two requirements on one fragment that cannot hold together.
#[derive(Debug, Clone, Copy, PartialEq, Eq, Structural)]
pub struct IncompatibleReqs {
    pub a: Req,
    pub b: Req,
}

/// The requirement that a fragment is singleton, on whichever worker slot.
pub open spec fn spec_any_singleton() -> Req {
    Req::AnyVnodeCount(1)
}

/// The hash mapping whose length decides whether `a` and `b` can be merged, if there is one.
pub open spec fn deciding_mapping(a: Req, b: Req) -> Option<HashMappingId> {
    match (a, b) {
        (Req::AnyVnodeCount(_), Req::Hash(id)) => Some(id),
        (Req::Hash(id), Req::AnyVnodeCount(_)) => Some(id),
        _ => None,
    }
}

/// Whether `weak` only asks for a vnode count, and `strong` names a placement that has it.
/// `len` is the length of the hash mapping that `strong` names, if it names one.
pub open spec fn admits(weak: Req, strong: Req, len: usize) -> bool {
    match (weak, strong) {
        (Req::AnyVnodeCount(count), Req::Singleton(_)) => count == 1,
        (Req::AnyVnodeCount(count), Req::Hash(_)) => count == len,
        _ => false,
    }
}

/// What merging `a` and `b` gives when the mapping that decides has length `len`.
pub open spec fn merged(a: Req, b: Req, len: usize) -> Result<Req, IncompatibleReqs> {
    if admits(a, b, len) {
        Ok(b)
    } else if admits(b, a, len) {
        Ok(a)
    } else {
        Err(IncompatibleReqs { a, b })
    }
}

/// `r` is what merging `a` and `b` gives for a length that `mapping_len` returns.
pub open spec fn merges_to<F: Fn(HashMappingId) -> usize>(
    mapping_len: F,
    a: Req,
    b: Req,
    r: Result<Req, IncompatibleReqs>,
) -> bool {
    exists|len: usize|
        {
            &&& deciding_mapping(a, b) matches Some(id) ==> call_ensures(mapping_len, (id,), len)
            &&& r == #[trigger] merged(a, b, len)
        }
}

/// `r` is what merging `next` to the outcome `before` of earlier merging gives.
pub open spec fn reduce_step<F: Fn(HashMappingId) -> usize>(
    mapping_len: F,
    before: Result<Option<Req>, IncompatibleReqs>,
    next: Req,
    r: Result<Option<Req>, IncompatibleReqs>,
) -> bool {
    match before {
        Ok(Some(acc)) => match r {
            Ok(Some(req)) => merges_to(mapping_len, acc, next, Ok(req)),
            Ok(None) => false,
            Err(e) => merges_to(mapping_len, acc, next, Err(e)),
        },
        Ok(None) => r == Ok::<Option<Req>, IncompatibleReqs>(Some(next)),
        Err(e) => r == Err::<Option<Req>, IncompatibleReqs>(e),
    }
}

/// `r` is what merging the requirements `s` one after the other gives: nothing for no
/// requirement, and otherwise the merged requirement or the first two that are incompatible.
pub open spec fn reduces_to<F: Fn(HashMappingId) -> usize>(
    mapping_len: F,
    s: Seq<Req>,
    r: Result<Option<Req>, IncompatibleReqs>,
) -> bool
    decreases s.len(),
{
    if s.len() == 0 {
        r == Ok::<Option<Req>, IncompatibleReqs>(None)
    } else {
        exists|before: Result<Option<Req>, IncompatibleReqs>|
            {
                &&& reduces_to(mapping_len, s.drop_last(), before)
                &&& #[trigger] reduce_step(mapping_len, before, s.last(), r)
            }
    }
}

/// Every length that `mapping_len` can return for a hash mapping is the one that `len` gives.
pub open spec fn computes<F: Fn(HashMappingId) -> usize>(
    mapping_len: F,
    len: spec_fn(HashMappingId) -> usize,
) -> bool {
    forall|id: HashMappingId, n: usize|
        #[trigger] call_ensures(mapping_len, (id,), n) ==> n == len(id)
}

/// The vnode count that a requirement asks for.
pub open spec fn required_vnode_count(req: Req, len: spec_fn(HashMappingId) -> usize) -> usize {
    match req {
        Req::Singleton(_) => 1,
        Req::Hash(id) => len(id),
        Req::AnyVnodeCount(count) => count,
    }
}

/// Of the requirements `s`, `req` is the one that decides: it is among them, and any other
/// only asks for the vnode count of the placement that `req` names.
pub open spec fn resolves(
    s: Set<Req>,
    len: spec_fn(HashMappingId) -> usize,
    req: Req,
) -> bool {
    &&& s.contains(req)
    &&& forall|other: Req|
        #[trigger] s.contains(other) && other != req ==> {
            &&& !(req is AnyVnodeCount)
            &&& other == Req::AnyVnodeCount(required_vnode_count(req, len))
        }
}

impl Req {
    /// Equivalent to `Req::AnyVnodeCount(1)`.
    pub fn any_singleton() -> (req: Req)
        ensures
            req == spec_any_singleton(),
    {
        Req::AnyVnodeCount(1)
    }

    /// Merge two requirements. Returns an error if the requirements are incompatible.
    ///
    /// The `mapping_len` function is used to get the vnode count of a hash mapping by its id.
    pub fn merge<F: Fn(HashMappingId) -> usize>(a: Req, b: Req, mapping_len: &F) -> (r: Result<
        Req,
        IncompatibleReqs,
    >)
        requires
            deciding_mapping(a, b) matches Some(id) ==> call_requires(*mapping_len, (id,)),
        ensures
            merges_to(*mapping_len, a, b, r),
    {
        let ghost mut len: usize = 0;
        let stronger = match (a, b) {
            (Req::AnyVnodeCount(count), Req::Singleton(_)) => if count == 1 {
                Some(b)
            } else {
                None
            },
            (Req::Singleton(_), Req::AnyVnodeCount(count)) => if count == 1 {
                Some(a)
            } else {
                None
            },
            (Req::AnyVnodeCount(count), Req::Hash(id)) => {
                let vnode_count: usize = mapping_len(id);
                proof {
                    len = vnode_count;
                }
                if vnode_count == count {
                    Some(b)
                } else {
                    None
                }
            },
            (Req::Hash(id), Req::AnyVnodeCount(count)) => {
                let vnode_count: usize = mapping_len(id);
                proof {
                    len = vnode_count;
                }
                if vnode_count == count {
                    Some(a)
                } else {
                    None
                }
            },
            _ => None,
        };
        let r = match stronger {
            Some(req) => Ok(req),
            None => Err(IncompatibleReqs { a, b }),
        };
        assert(r == merged(a, b, len));
        r
    }

    /// Merge all requirements in `reqs`, from the first to the last.
    pub fn merge_all<F: Fn(HashMappingId) -> usize>(reqs: &Vec<Req>, mapping_len: &F) -> (r: Result<
        Option<Req>,
        IncompatibleReqs,
    >)
        requires
            forall|id: HashMappingId|
                reqs@.contains(Req::Hash(id)) ==> #[trigger] call_requires(*mapping_len, (id,)),
        ensures
            reduces_to(*mapping_len, reqs@, r),
    {
        let mut acc: Option<Req> = None;
        let mut i: usize = 0;
        while i < reqs.len()
            invariant
                i <= reqs.len(),
                acc matches Some(req) ==> reqs@.contains(req),
                reduces_to(*mapping_len, reqs@.take(i as int), Ok(acc)),
                forall|id: HashMappingId|
                    reqs@.contains(Req::Hash(id)) ==> #[trigger] call_requires(*mapping_len, (id,)),
            decreases reqs.len() - i,
        {
            let ghost before = Ok::<Option<Req>, IncompatibleReqs>(acc);
            let ghost upto = reqs@.take(i + 1);
            assert(upto.drop_last() =~= reqs@.take(i as int));
            assert(reqs@.contains(reqs@[i as int]));
            let next = reqs[i];
            match acc {
                None => {
                    acc = Some(next);
                },
                Some(req) => match Self::merge(req, next, mapping_len) {
                    Ok(req) => {
                        acc = Some(req);
                    },
                    Err(e) => {
                        proof {
                            assert(reduce_step(*mapping_len, before, upto.last(), Err(e)));
                            lemma_reduces_to_error_stays(*mapping_len, reqs@, i + 1, e);
                        }
                        return Err(e);
                    },
                },
            }
            assert(reduce_step(*mapping_len, before, upto.last(), Ok(acc)));
            i = i + 1;
        }
        assert(reqs@.take(i as int) =~= reqs@);
        Ok(acc)
    }
}

/// Once two requirements are found incompatible, the requirements that follow change nothing.
proof fn lemma_reduces_to_error_stays<F: Fn(HashMappingId) -> usize>(
    mapping_len: F,
    s: Seq<Req>,
    upto: int,
    e: IncompatibleReqs,
)
    requires
        0 <= upto <= s.len(),
        reduces_to(mapping_len, s.take(upto), Err(e)),
    ensures
        reduces_to(mapping_len, s, Err(e)),
    decreases s.len() - upto,
{
    if upto == s.len() {
        assert(s.take(upto) =~= s);
    } else {
        let next = s.take(upto + 1);
        assert(next.drop_last() =~= s.take(upto));
        assert(reduce_step(mapping_len, Err(e), next.last(), Err(e)));
        lemma_reduces_to_error_stays(mapping_len, s, upto + 1, e);
    }
}

/// At most one requirement decides.
pub proof fn law_resolution_is_unique(
    s: Set<Req>,
    len: spec_fn(HashMappingId) -> usize,
    x: Req,
    y: Req,
)
    requires
        resolves(s, len, x),
        resolves(s, len, y),
    ensures
        x == y,
{
}

/// Which requirement comes out of merging distinct requirements does not depend on the order in
/// which they are merged: it is the one that decides, and merging fails exactly if none does.
/// The error then names two of the requirements that cannot hold together.
pub proof fn law_merging_is_order_free<F: Fn(HashMappingId) -> usize>(
    mapping_len: F,
    len: spec_fn(HashMappingId) -> usize,
    s: Seq<Req>,
    r: Result<Option<Req>, IncompatibleReqs>,
)
    requires
        computes(mapping_len, len),
        s.no_duplicates(),
        reduces_to(mapping_len, s, r),
    ensures
        r == Ok::<Option<Req>, IncompatibleReqs>(None) <==> s.len() == 0,
        forall|req: Req|
            r == Ok::<Option<Req>, IncompatibleReqs>(Some(req)) <==> #[trigger] resolves(
                s.to_set(),
                len,
                req,
            ),
        r matches Err(e) ==> {
            &&& s.contains(e.a)
            &&& s.contains(e.b)
            &&& e.a != e.b
            &&& !admits(e.a, e.b, required_vnode_count(e.b, len))
            &&& !admits(e.b, e.a, required_vnode_count(e.a, len))
        },
    decreases s.len(),
{
    if s.len() == 0 {
        assert forall|req: Req| !#[trigger] resolves(s.to_set(), len, req) by {
            assert(!s.contains(req));
        }
    } else {
        let p = s.drop_last();
        let y = s.last();
        let before = choose|before: Result<Option<Req>, IncompatibleReqs>|
            {
                &&& reduces_to(mapping_len, p, before)
                &&& #[trigger] reduce_step(mapping_len, before, y, r)
            };
        law_merging_is_order_free(mapping_len, len, p, before);
        assert forall|q: Req| #[trigger] s.to_set().contains(q) <==> p.to_set().contains(q) || q
            == y by {
            if s.contains(q) {
                let i = choose|i: int| 0 <= i < s.len() && s[i] == q;
                assert(i < p.len() ==> p[i] == q);
            }
            if p.contains(q) {
                let i = choose|i: int| 0 <= i < p.len() && p[i] == q;
                assert(s[i] == q);
            }
            assert(s[s.len() - 1] == y);
        }
        assert(!p.contains(y));
        // A requirement that decides over all of `s` and is not the last one decides over `p`.
        assert forall|x: Req| #[trigger] resolves(s.to_set(), len, x) && x != y implies resolves(
            p.to_set(),
            len,
            x,
        ) by {
            assert forall|q: Req| #[trigger] p.to_set().contains(q) && q != x implies {
                &&& !(x is AnyVnodeCount)
                &&& q == Req::AnyVnodeCount(required_vnode_count(x, len))
            } by {
                assert(s.to_set().contains(q));
            }
            assert(s.to_set().contains(x));
        }
        match before {
            Ok(Some(acc)) => {
                assert(resolves(p.to_set(), len, acc));
                assert(p.to_set().contains(acc));
                match r {
                    Ok(Some(req)) => {
                        assert(resolves(s.to_set(), len, req));
                        assert forall|x: Req| resolves(s.to_set(), len, x) implies x == req by {
                            law_resolution_is_unique(s.to_set(), len, x, req);
                        }
                    },
                    Ok(None) => {},
                    Err(e) => {
                        assert forall|x: Req| !#[trigger] resolves(s.to_set(), len, x) by {
                            if resolves(s.to_set(), len, x) {
                                assert(s.to_set().contains(acc));
                                assert(s.to_set().contains(y));
                            }
                        }
                    },
                }
            },
            Ok(None) => {
                assert(resolves(s.to_set(), len, y));
            },
            Err(e) => {
                assert forall|x: Req| !#[trigger] resolves(s.to_set(), len, x) by {
                    if resolves(s.to_set(), len, x) {
                        if x == y {
                            let only = Req::AnyVnodeCount(required_vnode_count(y, len));
                            if p.len() >= 2 {
                                assert(p.contains(p[0]) && p.contains(p[1]));
                                assert(s.to_set().contains(p[0]) && s.to_set().contains(p[1]));
                                assert(p[0] == only && p[1] == only);
                            }
                        }
                    }
                }
            },
        }
    }
}

/// Of two requirements that can hold together, the one that names a placement comes out: a worker
/// slot where one vnode is asked for, and a hash mapping where its vnode count is asked for. Any
/// other two are incompatible, and both are named.
pub proof fn law_placement_comes_out<F: Fn(HashMappingId) -> usize>(
    mapping_len: F,
    a: Req,
    b: Req,
    r: Result<Req, IncompatibleReqs>,
)
    requires
        merges_to(mapping_len, a, b, r),
    ensures
        r matches Err(e) ==> e.a == a && e.b == b,
        match (a, b) {
            (Req::AnyVnodeCount(count), Req::Singleton(_)) => if count == 1 {
                r == Ok::<Req, IncompatibleReqs>(b)
            } else {
                r is Err
            },
            (Req::Singleton(_), Req::AnyVnodeCount(count)) => if count == 1 {
                r == Ok::<Req, IncompatibleReqs>(a)
            } else {
                r is Err
            },
            (Req::AnyVnodeCount(count), Req::Hash(id)) => exists|len: usize|
                #[trigger] call_ensures(mapping_len, (id,), len) && if len == count {
                    r == Ok::<Req, IncompatibleReqs>(b)
                } else {
                    r is Err
                },
            (Req::Hash(id), Req::AnyVnodeCount(count)) => exists|len: usize|
                #[trigger] call_ensures(mapping_len, (id,), len) && if len == count {
                    r == Ok::<Req, IncompatibleReqs>(a)
                } else {
                    r is Err
                },
            _ => r is Err,
        },
{
    let len = choose|len: usize|
        {
            &&& deciding_mapping(a, b) matches Some(id) ==> call_ensures(mapping_len, (id,), len)
            &&& r == #[trigger] merged(a, b, len)
        };
    match (a, b) {
        (Req::AnyVnodeCount(_), Req::Hash(id)) => {
            assert(call_ensures(mapping_len, (id,), len));
        },
        (Req::Hash(id), Req::AnyVnodeCount(_)) => {
            assert(call_ensures(mapping_len, (id,), len));
        },
        _ => {},
    }
}

/// Two requirements merge to the same whichever comes first.
pub proof fn law_merging_two_is_symmetric<F: Fn(HashMappingId) -> usize>(
    mapping_len: F,
    a: Req,
    b: Req,
    req: Req,
)
    ensures
        merges_to(mapping_len, a, b, Ok(req)) <==> merges_to(mapping_len, b, a, Ok(req)),
{
    assert forall|x: Req, y: Req| merges_to(mapping_len, x, y, Ok(req)) implies merges_to(
        mapping_len,
        y,
        x,
        Ok(req),
    ) by {
        let len = choose|len: usize|
            {
                &&& deciding_mapping(x, y) matches Some(id) ==> call_ensures(
                    mapping_len,
                    (id,),
                    len,
                )
                &&& Ok::<Req, IncompatibleReqs>(req) == #[trigger] merged(x, y, len)
            };
        assert(Ok::<Req, IncompatibleReqs>(req) == merged(y, x, len));
    }
}

/// No requirements merge to none, and one requirement merges to itself. One more is merged to what
/// the others merge to, unless two of those are incompatible.
pub proof fn law_requirements_are_merged_in_turn<F: Fn(HashMappingId) -> usize>(
    mapping_len: F,
    s: Seq<Req>,
    next: Req,
    r: Result<Option<Req>, IncompatibleReqs>,
)
    ensures
        reduces_to(mapping_len, Seq::empty(), r) <==> r == Ok::<Option<Req>, IncompatibleReqs>(
            None,
        ),
        reduces_to(mapping_len, seq![next], r) <==> r == Ok::<Option<Req>, IncompatibleReqs>(
            Some(next),
        ),
        reduces_to(mapping_len, s.push(next), r) ==> {
            ||| s.len() == 0
            ||| r is Err && reduces_to(mapping_len, s, r)
            ||| exists|before: Req|
                {
                    &&& #[trigger] reduces_to(mapping_len, s, Ok(Some(before)))
                    &&& match r {
                        Ok(Some(req)) => merges_to(mapping_len, before, next, Ok(req)),
                        Ok(None) => false,
                        Err(e) => merges_to(mapping_len, before, next, Err(e)),
                    }
                }
        },
{
    let none = Ok::<Option<Req>, IncompatibleReqs>(None);
    assert(reduces_to(mapping_len, Seq::empty(), none));
    let one = seq![next];
    assert(one.drop_last() =~= Seq::<Req>::empty());
    if reduces_to(mapping_len, one, r) {
        let before = choose|before: Result<Option<Req>, IncompatibleReqs>|
            {
                &&& reduces_to(mapping_len, one.drop_last(), before)
                &&& #[trigger] reduce_step(mapping_len, before, one.last(), r)
            };
        assert(reduces_to(mapping_len, Seq::empty(), before));
        assert(before == none);
    }
    if r == Ok::<Option<Req>, IncompatibleReqs>(Some(next)) {
        assert(reduce_step(mapping_len, none, one.last(), r));
    }
    let all = s.push(next);
    assert(all.drop_last() =~= s);
    if reduces_to(mapping_len, all, r) && s.len() > 0 {
        let before = choose|before: Result<Option<Req>, IncompatibleReqs>|
            {
                &&& reduces_to(mapping_len, all.drop_last(), before)
                &&& #[trigger] reduce_step(mapping_len, before, all.last(), r)
            };
        lemma_some_requirement_comes_out(mapping_len, s, before);
        if let Ok(Some(acc)) = before {
            assert(reduces_to(mapping_len, s, Ok(Some(acc))));
        }
    }
}

/// Merging some requirements does not give none.
proof fn lemma_some_requirement_comes_out<F: Fn(HashMappingId) -> usize>(
    mapping_len: F,
    s: Seq<Req>,
    r: Result<Option<Req>, IncompatibleReqs>,
)
    requires
        s.len() > 0,
        reduces_to(mapping_len, s, r),
    ensures
        r != Ok::<Option<Req>, IncompatibleReqs>(None),
{
    let before = choose|before: Result<Option<Req>, IncompatibleReqs>|
        {
            &&& reduces_to(mapping_len, s.drop_last(), before)
            &&& #[trigger] reduce_step(mapping_len, before, s.last(), r)
        };
}

/// What distinct requirements merge to is one of them, and any other asks for the vnode count of
/// its placement and for nothing else. Merging fails exactly if none of them is such.
pub proof fn law_merged_requirement_speaks_for_all<F: Fn(HashMappingId) -> usize>(
    mapping_len: F,
    len: spec_fn(HashMappingId) -> usize,
    s: Seq<Req>,
    r: Result<Option<Req>, IncompatibleReqs>,
)
    requires
        forall|id: HashMappingId, n: usize| #[trigger]
            call_ensures(mapping_len, (id,), n) ==> n == len(id),
        forall|i: int, j: int| 0 <= i < j < s.len() ==> #[trigger] s[i] != #[trigger] s[j],
        reduces_to(mapping_len, s, r),
    ensures
        r == Ok::<Option<Req>, IncompatibleReqs>(None) <==> s.len() == 0,
        forall|i: int|
            0 <= i < s.len() ==> (r == Ok::<Option<Req>, IncompatibleReqs>(
                Some(#[trigger] s[i]),
            ) <==> forall|j: int|
                0 <= j < s.len() && j != i ==> match s[i] {
                    Req::Singleton(_) => #[trigger] s[j] == Req::AnyVnodeCount(1),
                    Req::Hash(id) => s[j] == Req::AnyVnodeCount(len(id)),
                    Req::AnyVnodeCount(_) => false,
                }),
        r matches Ok(Some(req)) ==> s.contains(req),
        r matches Err(e) ==> s.contains(e.a) && s.contains(e.b),
{
    law_merging_is_order_free(mapping_len, len, s, r);
    assert forall|i: int| 0 <= i < s.len() implies (resolves(s.to_set(), len, #[trigger] s[i])
        <==> forall|j: int|
        0 <= j < s.len() && j != i ==> match s[i] {
            Req::Singleton(_) => #[trigger] s[j] == Req::AnyVnodeCount(1),
            Req::Hash(id) => s[j] == Req::AnyVnodeCount(len(id)),
            Req::AnyVnodeCount(_) => false,
        }) by {
        assert(s.contains(s[i]));
        if resolves(s.to_set(), len, s[i]) {
            assert forall|j: int| 0 <= j < s.len() && j != i implies match s[i] {
                Req::Singleton(_) => #[trigger] s[j] == Req::AnyVnodeCount(1),
                Req::Hash(id) => s[j] == Req::AnyVnodeCount(len(id)),
                Req::AnyVnodeCount(_) => false,
            } by {
                assert(s.to_set().contains(s[j]));
            }
        } else {
            let other = choose|other: Req|
                #[trigger] s.to_set().contains(other) && other != s[i] && !({
                    &&& !(s[i] is AnyVnodeCount)
                    &&& other == Req::AnyVnodeCount(required_vnode_count(s[i], len))
                });
            let j = choose|j: int| 0 <= j < s.len() && s[j] == other;
            assert(s[j] == other);
        }
    }
    if let Ok(Some(req)) = r {
        assert(resolves(s.to_set(), len, req));
    }
}

} // verus!
