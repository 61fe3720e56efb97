//! Grouping and deduplication of lists, as `itertools` provides them.

use itertools::Itertools;
use std::collections::HashMap;
use vstd::prelude::*;

verus! {

/// The values that `pairs` pairs with `key`, in their order.
pub open spec fn values_of<V>(pairs: Seq<(u32, V)>, key: u32) -> Seq<V> {
    pairs.filter(|p: (u32, V)| p.0 == key).map_values(|p: (u32, V)| p.1)
}

/// `itertools::Itertools::into_group_map` on the pairs: the keys of the result are the keys that
/// occur, and each is mapped to the values that it is paired with, in the order of the pairs.
#[verifier::external_body]
pub(crate) fn into_group_map<V>(pairs: Vec<(u32, V)>) -> (groups: HashMap<u32, Vec<V>>)
    ensures
        forall|key: u32| #[trigger]
            groups@.contains_key(key) <==> values_of(pairs@, key).len() > 0,
        forall|key: u32| #[trigger]
            groups@.contains_key(key) ==> groups@[key]@ == values_of(pairs@, key),
{
    pairs.into_iter().into_group_map()
}

/// `itertools::Itertools::exactly_one` on the items: the only item if there is just one, and
/// otherwise none (in place of the error that hands the iterator back).
#[verifier::external_body]
pub(crate) fn exactly_one<T>(items: &Vec<T>) -> (item: Option<&T>)
    ensures
        item == if items@.len() == 1 {
            Some(&items@[0])
        } else {
            None
        },
{
    items.iter().exactly_one().ok()
}

/// The sequence without the elements that occur earlier in it.
pub open spec fn first_occurrences<A>(s: Seq<A>) -> Seq<A>
    decreases s.len(),
{
    if s.len() == 0 {
        s
    } else if s.drop_last().contains(s.last()) {
        first_occurrences(s.drop_last())
    } else {
        first_occurrences(s.drop_last()).push(s.last())
    }
}

/// The lists that a list of lists holds.
pub open spec fn lists<A>(s: Seq<Vec<A>>) -> Seq<Seq<A>> {
    s.map_values(|list: Vec<A>| list@)
}

/// `itertools::Itertools::unique` on the lists: of equal lists the first is kept, and those that
/// are kept stay in their order.
#[verifier::external_body]
pub(crate) fn unique(items: Vec<Vec<(u32, usize)>>) -> (kept: Vec<Vec<(u32, usize)>>)
    ensures
        lists(kept@) == first_occurrences(lists(items@)),
{
    items.into_iter().unique().collect()
}

/// The first occurrences hold each element of the sequence, and no element twice.
pub(crate) proof fn lemma_first_occurrences<A>(s: Seq<A>)
    ensures
        first_occurrences(s).no_duplicates(),
        forall|a: A| #[trigger] first_occurrences(s).contains(a) <==> s.contains(a),
    decreases s.len(),
{
    if s.len() > 0 {
        let (p, a) = (s.drop_last(), s.last());
        lemma_first_occurrences(p);
        assert(s =~= p.push(a));
        assert forall|b: A| s.contains(b) <==> p.contains(b) || b == a by {
            p.lemma_push_to_set_commute(a);
            assert(s.to_set().contains(b) <==> p.to_set().insert(a).contains(b));
        }
        let f = first_occurrences(p);
        assert(f.contains(a) <==> p.contains(a));
        if !p.contains(a) {
            assert forall|b: A| f.push(a).contains(b) <==> f.contains(b) || b == a by {
                f.lemma_push_to_set_commute(a);
                assert(f.push(a).to_set().contains(b) <==> f.to_set().insert(a).contains(b));
            }
            assert(first_occurrences(s) == f.push(a));
        } else {
            assert(first_occurrences(s) == f);
        }
        assert forall|b: A| #[trigger] first_occurrences(s).contains(b) <==> s.contains(b) by {
            assert(f.contains(b) <==> p.contains(b));
            assert(s.contains(b) <==> p.contains(b) || b == a);
        }
    } else {
        assert(first_occurrences(s) == s);
    }
}

/// A key has the values that it is paired with.
pub(crate) proof fn lemma_values_of<V>(pairs: Seq<(u32, V)>, key: u32)
    ensures
        forall|v: V| #[trigger]
            values_of(pairs, key).contains(v) <==> pairs.contains((key, v)),
        pairs.no_duplicates() ==> values_of(pairs, key).no_duplicates(),
    decreases pairs.len(),
{
    reveal(Seq::filter);
    let keep = |p: (u32, V)| p.0 == key;
    let second = |p: (u32, V)| p.1;
    if pairs.len() > 0 {
        let (before, p) = (pairs.drop_last(), pairs.last());
        lemma_values_of(before, key);
        assert(pairs =~= before.push(p));
        let (old_values, values) = (values_of(before, key), values_of(pairs, key));
        assert forall|q: (u32, V)| pairs.contains(q) <==> before.contains(q) || q == p by {
            before.lemma_push_to_set_commute(p);
            assert(pairs.to_set().contains(q) <==> before.to_set().insert(p).contains(q));
        }
        if p.0 == key {
            assert(pairs.filter(keep) == before.filter(keep).push(p));
            assert(values =~= old_values.push(p.1));
            assert forall|v: V| values.contains(v) <==> old_values.contains(v) || v == p.1 by {
                old_values.lemma_push_to_set_commute(p.1);
                assert(values.to_set().contains(v) <==> old_values.to_set().insert(p.1).contains(
                    v,
                ));
            }
            if pairs.no_duplicates() {
                assert(!before.contains(p));
                assert(!old_values.contains(p.1));
            }
        } else {
            assert(pairs.filter(keep) == before.filter(keep));
        }
    } else {
        assert(values_of(pairs, key) =~= Seq::<V>::empty());
    }
}

} // verus!
