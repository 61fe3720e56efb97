//! The entries of a map with byte string keys, listed in the order of the keys.

use vstd::prelude::*;

use crate::byte_string::{
    law_order_is_asymmetric, law_order_is_irreflexive, law_order_is_total,
    law_order_is_transitive, lex_less,
};

verus! {

/// Whether some entry of the list has the key.
pub open spec fn lists_key(list: Seq<(Seq<u8>, Seq<u8>)>, key: Seq<u8>) -> bool {
    exists|i: int| 0 <= i < list.len() && (#[trigger] list[i]).0 == key
}

/// Whether the list holds the entries of the map, each once, in ascending order of the keys.
pub open spec fn lists_map(list: Seq<(Seq<u8>, Seq<u8>)>, map: Map<Seq<u8>, Seq<u8>>) -> bool {
    &&& forall|i: int, j: int|
        0 <= i < j < list.len() ==> lex_less((#[trigger] list[i]).0, (#[trigger] list[j]).0)
    &&& forall|key: Seq<u8>| #[trigger] map.contains_key(key) <==> lists_key(list, key)
    &&& forall|i: int| 0 <= i < list.len() ==> map[(#[trigger] list[i]).0] == list[i].1
}

/// The entries of the map in ascending order of the keys.
pub open spec fn listing(map: Map<Seq<u8>, Seq<u8>>) -> Seq<(Seq<u8>, Seq<u8>)> {
    choose|list: Seq<(Seq<u8>, Seq<u8>)>| lists_map(list, map)
}

/// The entries whose keys start with the prefix.
pub open spec fn matching(map: Map<Seq<u8>, Seq<u8>>, prefix: Seq<u8>) -> Map<
    Seq<u8>,
    Seq<u8>,
> {
    Map::new(
        |key: Seq<u8>| map.contains_key(key) && prefix.is_prefix_of(key),
        |key: Seq<u8>| map[key],
    )
}

/// The list up to the limit, if there is one.
pub open spec fn limited<A>(list: Seq<A>, limit: Option<usize>) -> Seq<A> {
    match limit {
        Some(n) if n < list.len() => list.take(n as int),
        _ => list,
    }
}

/// A map has at most one listing: a list that holds its entries in order is its listing.
pub proof fn law_listing_is_unique(
    list: Seq<(Seq<u8>, Seq<u8>)>,
    map: Map<Seq<u8>, Seq<u8>>,
)
    requires
        lists_map(list, map),
    ensures
        list == listing(map),
{
    lemma_same_list(list, listing(map), map);
}

proof fn lemma_same_list(
    a: Seq<(Seq<u8>, Seq<u8>)>,
    b: Seq<(Seq<u8>, Seq<u8>)>,
    map: Map<Seq<u8>, Seq<u8>>,
)
    requires
        lists_map(a, map),
        lists_map(b, map),
    ensures
        a == b,
    decreases a.len(),
{
    if a.len() == 0 {
        if b.len() > 0 {
            assert(lists_key(b, b[0].0));
            assert(map.contains_key(b[0].0));
            assert(lists_key(a, b[0].0));
        }
        assert(a =~= b);
    } else {
        let (x, y) = (a.last().0, b.last().0);
        assert(lists_key(a, a[a.len() - 1].0));
        assert(map.contains_key(x));
        assert(lists_key(b, x));
        assert(lists_key(b, b[b.len() - 1].0));
        assert(map.contains_key(y));
        assert(lists_key(a, y));
        let i = choose|i: int| 0 <= i < b.len() && (#[trigger] b[i]).0 == x;
        let j = choose|j: int| 0 <= j < a.len() && (#[trigger] a[j]).0 == y;
        if x != y {
            assert(lex_less(x, y));
            assert(lex_less(y, x));
            law_order_is_asymmetric(x, y);
        }
        lemma_without_last(a, map);
        lemma_without_last(b, map);
        lemma_same_list(a.drop_last(), b.drop_last(), map.remove(x));
        assert(a =~= a.drop_last().push(a.last()));
        assert(b =~= b.drop_last().push(b.last()));
    }
}

/// Without its last entry, a list holds the rest of the map.
proof fn lemma_without_last(list: Seq<(Seq<u8>, Seq<u8>)>, map: Map<Seq<u8>, Seq<u8>>)
    requires
        lists_map(list, map),
        list.len() > 0,
    ensures
        lists_map(list.drop_last(), map.remove(list.last().0)),
{
    let rest = list.drop_last();
    let x = list.last().0;
    law_order_is_irreflexive(x);
    assert forall|key: Seq<u8>| #[trigger] map.remove(x).contains_key(key) <==> lists_key(
        rest,
        key,
    ) by {
        if map.remove(x).contains_key(key) {
            let i = choose|i: int| 0 <= i < list.len() && (#[trigger] list[i]).0 == key;
            assert(rest[i].0 == key);
        }
        if lists_key(rest, key) {
            let i = choose|i: int| 0 <= i < rest.len() && (#[trigger] rest[i]).0 == key;
            assert(list[i].0 == key);
            assert(lex_less(list[i].0, list[list.len() - 1].0));
            assert(lists_key(list, key));
        }
    }
    assert forall|i: int| 0 <= i < rest.len() implies map.remove(x)[(#[trigger] rest[i]).0]
        == rest[i].1 by {
        assert(lex_less(list[i].0, list[list.len() - 1].0));
    }
}

/// Every finite map has a listing.
pub proof fn law_finite_map_is_listed(map: Map<Seq<u8>, Seq<u8>>)
    requires
        map.dom().finite(),
    ensures
        lists_map(listing(map), map),
    decreases map.dom().len(),
{
    if map.dom().len() == 0 {
        map.dom().lemma_len0_is_empty();
        assert(lists_map(Seq::empty(), map)) by {
            assert forall|key: Seq<u8>| #[trigger] map.contains_key(key) implies false by {
                assert(map.dom().contains(key));
            }
        }
    } else {
        let last = lemma_greatest(map.dom());
        law_finite_map_is_listed(map.remove(last));
        let rest = listing(map.remove(last));
        let list = rest.push((last, map[last]));
        assert forall|i: int, j: int| 0 <= i < j < list.len() implies lex_less(
            (#[trigger] list[i]).0,
            (#[trigger] list[j]).0,
        ) by {
            if j == rest.len() {
                assert(lists_key(rest, rest[i].0));
                assert(map.remove(last).contains_key(rest[i].0));
                assert(map.dom().contains(rest[i].0));
            } else {
                assert(rest[i] == list[i] && rest[j] == list[j]);
            }
        }
        assert forall|key: Seq<u8>| #[trigger] map.contains_key(key) <==> lists_key(
            list,
            key,
        ) by {
            if map.contains_key(key) {
                if key == last {
                    assert(list[rest.len() as int].0 == key);
                } else {
                    assert(map.remove(last).contains_key(key));
                    let i = choose|i: int| 0 <= i < rest.len() && (#[trigger] rest[i]).0 == key;
                    assert(list[i].0 == key);
                }
            }
            if lists_key(list, key) {
                let i = choose|i: int| 0 <= i < list.len() && (#[trigger] list[i]).0 == key;
                if i < rest.len() {
                    assert(rest[i].0 == key);
                    assert(lists_key(rest, key));
                    assert(map.remove(last).contains_key(key));
                }
            }
        }
        assert forall|i: int| 0 <= i < list.len() implies map[(#[trigger] list[i]).0]
            == list[i].1 by {
            if i < rest.len() {
                assert(rest[i] == list[i]);
                assert(lists_key(rest, rest[i].0));
                assert(map.remove(last).contains_key(rest[i].0));
            }
        }
        assert(lists_map(list, map));
    }
}

/// A set of byte strings that is finite and not empty has a greatest one.
proof fn lemma_greatest(keys: Set<Seq<u8>>) -> (greatest: Seq<u8>)
    requires
        keys.finite(),
        keys.len() > 0,
    ensures
        keys.contains(greatest),
        forall|key: Seq<u8>|
            #[trigger] keys.contains(key) && key != greatest ==> lex_less(key, greatest),
    decreases keys.len(),
{
    let some = keys.choose();
    let rest = keys.remove(some);
    if rest.len() == 0 {
        rest.lemma_len0_is_empty();
        assert forall|key: Seq<u8>| #[trigger] keys.contains(key) && key != some implies lex_less(
            key,
            some,
        ) by {
            assert(rest.contains(key));
        }
        some
    } else {
        let other = lemma_greatest(rest);
        law_order_is_total(some, other);
        let greatest = if lex_less(some, other) { other } else { some };
        assert forall|key: Seq<u8>| #[trigger] keys.contains(key) && key != greatest implies lex_less(
            key,
            greatest,
        ) by {
            if key != some {
                assert(rest.contains(key));
                if key != other && greatest == some {
                    law_order_is_transitive(key, other, some);
                }
            }
        }
        greatest
    }
}

/// With the empty prefix every entry matches.
pub proof fn law_empty_prefix_matches_all(map: Map<Seq<u8>, Seq<u8>>)
    ensures
        matching(map, Seq::empty()) == map,
{
    assert forall|key: Seq<u8>| #[trigger] Seq::<u8>::empty().is_prefix_of(key) by {
        assert(Seq::<u8>::empty() =~= key.subrange(0, 0));
    }
    assert(matching(map, Seq::empty()) =~= map);
}

/// Narrowing down to a longer prefix in two steps or in one gives the same entries.
pub proof fn law_prefixes_narrow_down(
    map: Map<Seq<u8>, Seq<u8>>,
    prefix: Seq<u8>,
    longer: Seq<u8>,
)
    requires
        prefix.is_prefix_of(longer),
    ensures
        matching(matching(map, prefix), longer) == matching(map, longer),
{
    assert forall|key: Seq<u8>| #[trigger] longer.is_prefix_of(key) implies prefix.is_prefix_of(
        key,
    ) by {
        assert(prefix =~= key.subrange(0, prefix.len() as int)) by {
            assert forall|i: int| 0 <= i < prefix.len() implies prefix[i] == #[trigger] key[i] by {
                assert(longer.subrange(0, prefix.len() as int)[i] == longer[i]);
                assert(key.subrange(0, longer.len() as int)[i] == key[i]);
            }
        }
    }
    assert(matching(matching(map, prefix), longer) =~= matching(map, longer));
}

/// Without a limit nothing is left out.
pub proof fn law_no_limit_keeps_all<A>(list: Seq<A>)
    ensures
        limited(list, None) == list,
{
}

/// A limited list is the beginning of the whole, as long as the limit allows.
pub proof fn law_limit_cuts_the_end<A>(list: Seq<A>, limit: usize)
    ensures
        limited(list, Some(limit)).is_prefix_of(list),
        limited(list, Some(limit)).len() == if limit < list.len() {
            limit as int
        } else {
            list.len() as int
        },
{
    assert(list =~= list.subrange(0, list.len() as int));
}

} // verus!
