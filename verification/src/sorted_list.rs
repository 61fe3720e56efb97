//! Lists of entries with byte string keys, in the order of their keys.

use bytes::Bytes;
use vstd::prelude::*;

use crate::byte_string::{
    KeyOrder, bytes_as_slice, bytes_compare, compare_slices, contents, law_order_is_irreflexive,
    law_order_is_total, law_order_is_transitive, lex_less,
};

verus! {

/// The key of an entry.
pub open spec fn key_of<V>(entry: (Bytes, V)) -> Seq<u8> {
    contents(entry.0)
}

/// Whether each key comes before those that follow it.
pub open spec fn is_sorted<V>(entries: Seq<(Bytes, V)>) -> bool {
    forall|i: int, j: int|
        0 <= i < j < entries.len() ==> lex_less(
            key_of(#[trigger] entries[i]),
            key_of(#[trigger] entries[j]),
        )
}

/// Whether the entry at some position has the key.
pub open spec fn has_key<V>(entries: Seq<(Bytes, V)>, key: Seq<u8>) -> bool {
    exists|i: int| 0 <= i < entries.len() && key_of(#[trigger] entries[i]) == key
}

/// The value of each key.
pub open spec fn as_map<V>(entries: Seq<(Bytes, V)>) -> Map<Seq<u8>, V> {
    Map::new(
        |key: Seq<u8>| has_key(entries, key),
        |key: Seq<u8>|
            entries[choose|i: int|
                0 <= i < entries.len() && key_of(#[trigger] entries[i]) == key].1,
    )
}

/// In a sorted list the keys ascend, so that none occurs twice.
pub proof fn law_sorted_keys_ascend<V>(entries: Seq<(Bytes, V)>)
    requires
        is_sorted(entries),
    ensures
        forall|i: int, j: int|
            0 <= i < j < entries.len() ==> {
                &&& lex_less(contents((#[trigger] entries[i]).0), contents((#[trigger] entries[j]).0))
                &&& contents(entries[i].0) != contents(entries[j].0)
            },
{
    assert forall|i: int, j: int| 0 <= i < j < entries.len() implies {
        &&& lex_less(contents((#[trigger] entries[i]).0), contents((#[trigger] entries[j]).0))
        &&& contents(entries[i].0) != contents(entries[j].0)
    } by {
        assert(lex_less(key_of(entries[i]), key_of(entries[j])));
        law_order_is_irreflexive(contents(entries[i].0));
    }
}

/// Each entry of a sorted list gives the value of its key.
pub(crate) proof fn lemma_entry_value<V>(entries: Seq<(Bytes, V)>, i: int)
    requires
        is_sorted(entries),
        0 <= i < entries.len(),
    ensures
        as_map(entries).contains_key(key_of(entries[i])),
        as_map(entries)[key_of(entries[i])] == entries[i].1,
{
    let key = key_of(entries[i]);
    assert(has_key(entries, key));
    let j = choose|j: int| 0 <= j < entries.len() && key_of(#[trigger] entries[j]) == key;
    law_order_is_irreflexive(key);
    assert(i == j);
}

/// Whether `at` is where the key is or belongs in the list.
pub open spec fn is_place<V>(entries: Seq<(Bytes, V)>, key: Seq<u8>, at: int) -> bool {
    &&& 0 <= at <= entries.len()
    &&& forall|i: int| 0 <= i < at ==> lex_less(key_of(#[trigger] entries[i]), key)
    &&& forall|i: int|
        at <= i < entries.len() ==> !lex_less(key_of(#[trigger] entries[i]), key)
}

/// The entries before one that comes before the key come before it, and those after one that
/// does not come before it do not.
proof fn lemma_narrow<V>(entries: Seq<(Bytes, V)>, key: Seq<u8>, mid: int)
    requires
        is_sorted(entries),
        0 <= mid < entries.len(),
    ensures
        lex_less(key_of(entries[mid]), key) ==> forall|i: int|
            0 <= i <= mid ==> lex_less(key_of(#[trigger] entries[i]), key),
        !lex_less(key_of(entries[mid]), key) ==> forall|i: int|
            mid <= i < entries.len() ==> !lex_less(key_of(#[trigger] entries[i]), key),
{
    if lex_less(key_of(entries[mid]), key) {
        assert forall|i: int| 0 <= i <= mid implies lex_less(key_of(#[trigger] entries[i]), key) by {
            if i < mid {
                law_order_is_transitive(key_of(entries[i]), key_of(entries[mid]), key);
            }
        }
    } else {
        assert forall|i: int| mid <= i < entries.len() implies !lex_less(
            key_of(#[trigger] entries[i]),
            key,
        ) by {
            if mid < i && lex_less(key_of(entries[i]), key) {
                law_order_is_transitive(key_of(entries[mid]), key_of(entries[i]), key);
            }
        }
    }
}

/// The key is in the list exactly if it is at its place.
pub(crate) proof fn lemma_found_at_place<V>(entries: Seq<(Bytes, V)>, key: Seq<u8>, at: int)
    requires
        is_sorted(entries),
        is_place(entries, key, at),
    ensures
        has_key(entries, key) <==> at < entries.len() && key_of(entries[at]) == key,
{
    law_order_is_irreflexive(key);
    if has_key(entries, key) {
        let i = choose|i: int| 0 <= i < entries.len() && key_of(#[trigger] entries[i]) == key;
        if at < i {
            assert(lex_less(key_of(entries[at]), key_of(entries[i])));
        }
    }
}

/// Where the key is or belongs in the list.
fn locate<V>(entries: &Vec<(Bytes, V)>, key: &Bytes) -> (at: usize)
    requires
        is_sorted(entries@),
    ensures
        is_place(entries@, contents(*key), at as int),
{
    let mut low: usize = 0;
    let mut high: usize = entries.len();
    while low < high
        invariant
            low <= high <= entries.len(),
            is_sorted(entries@),
            forall|i: int|
                0 <= i < low ==> lex_less(key_of(#[trigger] entries@[i]), contents(*key)),
            forall|i: int|
                high <= i < entries@.len() ==> !lex_less(
                    key_of(#[trigger] entries@[i]),
                    contents(*key),
                ),
        decreases high - low,
    {
        let mid: usize = low + (high - low) / 2;
        proof {
            lemma_narrow(entries@, contents(*key), mid as int);
            law_order_is_irreflexive(contents(*key));
        }
        match bytes_compare(&entries[mid].0, key) {
            KeyOrder::Less => {
                low = mid + 1;
            },
            _ => {
                high = mid;
            },
        }
    }
    low
}

/// The position of the key in the list, if it is there.
pub(crate) fn find<V>(entries: &Vec<(Bytes, V)>, key: &[u8]) -> (at: Option<usize>)
    requires
        is_sorted(entries@),
    ensures
        match at {
            Some(i) => i < entries@.len() && key_of(entries@[i as int]) == key@,
            None => !has_key(entries@, key@),
        },
{
    let mut low: usize = 0;
    let mut high: usize = entries.len();
    while low < high
        invariant
            low <= high <= entries.len(),
            is_sorted(entries@),
            forall|i: int| 0 <= i < low ==> lex_less(key_of(#[trigger] entries@[i]), key@),
            forall|i: int|
                high <= i < entries@.len() ==> !lex_less(key_of(#[trigger] entries@[i]), key@),
        decreases high - low,
    {
        let mid: usize = low + (high - low) / 2;
        proof {
            lemma_narrow(entries@, key@, mid as int);
            law_order_is_irreflexive(key@);
        }
        match compare_slices(bytes_as_slice(&entries[mid].0), key) {
            KeyOrder::Equal => {
                return Some(mid);
            },
            KeyOrder::Less => {
                low = mid + 1;
            },
            KeyOrder::Greater => {
                high = mid;
            },
        }
    }
    proof {
        lemma_found_at_place(entries@, key@, low as int);
    }
    if low < entries.len() {
        match compare_slices(bytes_as_slice(&entries[low].0), key) {
            KeyOrder::Equal => Some(low),
            _ => None,
        }
    } else {
        None
    }
}

/// Sets the value of the key; says whether it had one.
pub(crate) fn put<V>(entries: &mut Vec<(Bytes, V)>, key: Bytes, value: V) -> (had: bool)
    requires
        is_sorted(old(entries)@),
    ensures
        is_sorted(final(entries)@),
        as_map(final(entries)@) == as_map(old(entries)@).insert(contents(key), value),
        had == as_map(old(entries)@).contains_key(contents(key)),
{
    let at = locate(entries, &key);
    let ghost k = contents(key);
    let ghost before = entries@;
    proof {
        lemma_found_at_place(before, k, at as int);
    }
    let had = at < entries.len() && match bytes_compare(&entries[at].0, &key) {
        KeyOrder::Equal => true,
        _ => false,
    };
    if had {
        entries.remove(at);
    }
    let ghost rest = entries@;
    entries.insert(at, (key, value));
    proof {
        let after = entries@;
        // The entries on both sides of the new one are those of the old list.
        assert forall|i: int| 0 <= i < at implies #[trigger] after[i] == before[i] by {}
        let shift = if had { 0int } else { 1int };
        assert forall|i: int| at < i < after.len() implies #[trigger] after[i] == before[i
            - shift] by {}
        assert(key_of(after[at as int]) == k);
        assert forall|i: int| at < i < after.len() implies lex_less(
            k,
            key_of(#[trigger] after[i]),
        ) by {
            let j = i - shift;
            law_order_is_total(key_of(before[j]), k);
            if had {
                assert(lex_less(key_of(before[at as int]), key_of(before[j])));
            } else {
                assert(key_of(before[j]) != k) by {
                    if key_of(before[j]) == k {
                        assert(has_key(before, k));
                    }
                }
            }
        }
        assert forall|i: int, j: int| 0 <= i < j < after.len() implies lex_less(
            key_of(#[trigger] after[i]),
            key_of(#[trigger] after[j]),
        ) by {
            if i < at {
                assert(after[i] == before[i]);
                if j > at {
                    assert(after[j] == before[j - shift]);
                    assert(lex_less(key_of(before[i]), key_of(before[j - shift])));
                }
            } else if i > at {
                assert(after[i] == before[i - shift] && after[j] == before[j - shift]);
                assert(lex_less(key_of(before[i - shift]), key_of(before[j - shift])));
            }
        }
        assert forall|other: Seq<u8>| #[trigger] has_key(after, other) <==> has_key(before, other)
            || other == k by {
            if has_key(before, other) {
                let i = choose|i: int| 0 <= i < before.len() && key_of(#[trigger] before[i])
                    == other;
                if i < at {
                    assert(after[i] == before[i]);
                } else if had && i == at {
                } else {
                    assert(after[i + shift] == before[i]);
                }
            }
            if has_key(after, other) {
                let i = choose|i: int| 0 <= i < after.len() && key_of(#[trigger] after[i]) == other;
                if i < at {
                    assert(key_of(before[i]) == other);
                } else if i > at {
                    assert(key_of(before[i - shift]) == other);
                }
            }
        }
        let (m, n) = (as_map(before).insert(k, value), as_map(after));
        assert forall|other: Seq<u8>| #[trigger] n.contains_key(other) implies n[other]
            == m[other] by {
            let i = choose|i: int| 0 <= i < after.len() && key_of(#[trigger] after[i]) == other;
            lemma_entry_value(after, i);
            if i < at {
                lemma_entry_value(before, i);
                assert(lex_less(key_of(before[i]), k));
                law_order_is_irreflexive(k);
            } else if i > at {
                lemma_entry_value(before, i - shift);
                law_order_is_irreflexive(k);
            }
        }
        assert(n =~= m);
    }
    had
}

/// Takes the key and its value out; says whether it was there.
pub(crate) fn take<V>(entries: &mut Vec<(Bytes, V)>, key: &Bytes) -> (had: bool)
    requires
        is_sorted(old(entries)@),
    ensures
        is_sorted(final(entries)@),
        as_map(final(entries)@) == as_map(old(entries)@).remove(contents(*key)),
        had == as_map(old(entries)@).contains_key(contents(*key)),
{
    let at = locate(entries, key);
    let ghost k = contents(*key);
    let ghost before = entries@;
    proof {
        lemma_found_at_place(before, k, at as int);
    }
    let had = at < entries.len() && match bytes_compare(&entries[at].0, key) {
        KeyOrder::Equal => true,
        _ => false,
    };
    if had {
        entries.remove(at);
        proof {
            let after = entries@;
            assert(after =~= before.remove(at as int));
            assert forall|other: Seq<u8>| #[trigger] has_key(after, other) <==> has_key(
                before,
                other,
            ) && other != k by {
                law_order_is_irreflexive(k);
                if has_key(after, other) {
                    let i = choose|i: int| 0 <= i < after.len() && key_of(#[trigger] after[i])
                        == other;
                    let j = if i < at { i } else { i + 1 };
                    assert(after[i] == before[j]);
                    assert(key_of(before[at as int]) == k);
                }
                if has_key(before, other) && other != k {
                    let i = choose|i: int| 0 <= i < before.len() && key_of(#[trigger] before[i])
                        == other;
                    assert(after[if i < at { i } else { i - 1 }] == before[i]);
                }
            }
            let (m, n) = (as_map(before).remove(k), as_map(after));
            assert forall|other: Seq<u8>| #[trigger] n.contains_key(other) implies n[other]
                == m[other] by {
                let i = choose|i: int| 0 <= i < after.len() && key_of(#[trigger] after[i]) == other;
                lemma_entry_value(after, i);
                let j = if i < at { i } else { i + 1 };
                assert(after[i] == before[j]);
                lemma_entry_value(before, j);
            }
            assert(n =~= m);
        }
    } else {
        assert(as_map(before).remove(k) =~= as_map(before));
    }
    had
}

} // verus!
