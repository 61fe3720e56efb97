//! Walking maps.

use std::collections::{BTreeMap, HashMap};
use vstd::prelude::*;
use vstd::std_specs::iter::IteratorSpec;

verus! {

/// Whether each key is less than those that follow it in the list of entries.
pub open spec fn keys_ascend<V>(entries: Seq<(u32, V)>) -> bool {
    forall|i: int, j: int|
        0 <= i < j < entries.len() ==> (#[trigger] entries[i]).0 < (#[trigger] entries[j]).0
}

/// Whether the list holds the entries of the map and nothing else.
pub open spec fn lists_entries<V>(entries: Seq<(u32, V)>, map: Map<u32, V>) -> bool {
    forall|key: u32, value: V| #[trigger]
        entries.contains((key, value)) <==> map.contains_key(key) && map[key] == value
}

/// The entries of the map in the order of their keys.
pub(crate) fn sorted_entries<V: Copy>(map: &BTreeMap<u32, V>) -> (entries: Vec<(u32, V)>)
    ensures
        keys_ascend(entries@),
        lists_entries(entries@, map@),
{
    broadcast use vstd::std_specs::btree::group_btree_axioms;
    broadcast use vstd::laws_cmp::group_laws_cmp;

    let iter = map.iter();
    let ghost items = vstd::std_specs::btree::into_iter(iter);
    proof {
        let seq = iter.remaining();
        let keys = seq.map_values(|kv: (&u32, &V)| *kv.0);
        assert(items =~= seq.unref());
        assert(vstd::std_specs::btree::increasing_seq(keys));
        assert(vstd::laws_cmp::obeys_cmp::<u32>());
        assert forall|i: int, j: int| 0 <= i < j < items.len() implies (#[trigger] items[i]).0 < (
        #[trigger] items[j]).0 by {
            assert(keys[i] == items[i].0 && keys[j] == items[j].0);
            assert(vstd::std_specs::cmp::OrdSpec::cmp_spec(&keys[i], &keys[j]) is Less);
        }
        assert forall|key: u32, value: V| #[trigger]
            items.contains((key, value)) <==> map@.contains_key(key) && map@[key] == value by {
            assert(items.to_set().contains((key, value)) <==> map@.kv_pairs().contains(
                (key, value),
            ));
        }
    }
    let mut entries: Vec<(u32, V)> = Vec::new();
    for (key, value) in it: iter
        invariant
            it.seq().unref() == items,
            entries@ == items.take(it.index()),
    {
        proof {
            assert(items.take(it.index() + 1) =~= items.take(it.index()).push((*key, *value)));
        }
        entries.push((*key, *value));
    }
    assert(entries@ =~= items);
    entries
}

/// The keys of the map, each once, in whichever order the map yields them.
pub(crate) fn keys_of<V>(map: &HashMap<u32, V>) -> (keys: Vec<u32>)
    ensures
        keys@.no_duplicates(),
        forall|key: u32| #[trigger] keys@.contains(key) <==> map@.contains_key(key),
{
    broadcast use vstd::std_specs::hash::group_hash_axioms;

    let iter = map.keys();
    let ghost items = vstd::std_specs::hash::into_iter_keys(iter);
    proof {
        let seq = iter.remaining();
        assert(items =~= seq.unref());
        assert forall|i: int, j: int| 0 <= i < j < items.len() implies items[i] != items[j] by {
            assert(seq[i] != seq[j]);
        }
        assert forall|key: u32| #[trigger] items.contains(key) <==> map@.contains_key(key) by {
            assert(items.to_set().contains(key) <==> map@.dom().contains(key));
        }
    }
    let mut keys: Vec<u32> = Vec::new();
    for key in it: iter
        invariant
            it.seq().unref() == items,
            keys@ == items.take(it.index()),
    {
        proof {
            assert(items.take(it.index() + 1) =~= items.take(it.index()).push(*key));
        }
        keys.push(*key);
    }
    assert(keys@ =~= items);
    keys
}

} // verus!
