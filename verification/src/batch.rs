//! Batches of writes and what they do to a map.

use bytes::Bytes;
use vstd::prelude::*;

use crate::byte_string::contents;
use crate::sorted_list::key_of;

verus! {

/// The bytes of a written value; `None` deletes the key.
pub open spec fn written(value: Option<Bytes>) -> Option<Seq<u8>> {
    match value {
        Some(v) => Some(contents(v)),
        None => None,
    }
}

/// What the batch writes to each of its keys. If a key occurs more than once, its first
/// occurrence counts.
pub open spec fn first_writes(batch: Seq<(Bytes, Option<Bytes>)>) -> Map<
    Seq<u8>,
    Option<Seq<u8>>,
>
    decreases batch.len(),
{
    if batch.len() == 0 {
        Map::empty()
    } else {
        first_writes(batch.drop_first()).insert(key_of(batch[0]), written(batch[0].1))
    }
}

/// Whether no key occurs twice in the batch.
pub open spec fn distinct_keys(batch: Seq<(Bytes, Option<Bytes>)>) -> bool {
    forall|i: int, j: int|
        0 <= i < j < batch.len() ==> key_of(#[trigger] batch[i]) != key_of(#[trigger] batch[j])
}

/// The map after the writes.
pub open spec fn ingested(
    map: Map<Seq<u8>, Seq<u8>>,
    writes: Map<Seq<u8>, Option<Seq<u8>>>,
) -> Map<Seq<u8>, Seq<u8>> {
    Map::new(
        |key: Seq<u8>|
            if writes.contains_key(key) {
                writes[key] is Some
            } else {
                map.contains_key(key)
            },
        |key: Seq<u8>|
            if writes.contains_key(key) {
                writes[key]->0
            } else {
                map[key]
            },
    )
}

/// Whether the writes delete a key that the map does not have.
pub open spec fn is_phantom_delete(
    map: Map<Seq<u8>, Seq<u8>>,
    writes: Map<Seq<u8>, Option<Seq<u8>>>,
    key: Seq<u8>,
) -> bool {
    &&& writes.contains_key(key)
    &&& writes[key] is None
    &&& !map.contains_key(key)
}

/// The writes of a part of the batch from some position on.
pub(crate) proof fn lemma_first_writes_step(batch: Seq<(Bytes, Option<Bytes>)>, from: int)
    requires
        0 <= from < batch.len(),
    ensures
        first_writes(batch.skip(from)) == first_writes(batch.skip(from + 1)).insert(
            key_of(batch[from]),
            written(batch[from].1),
        ),
{
    assert(batch.skip(from).drop_first() =~= batch.skip(from + 1));
}

/// A batch writes to the keys that occur in it.
pub(crate) proof fn lemma_written_keys(batch: Seq<(Bytes, Option<Bytes>)>, key: Seq<u8>)
    ensures
        first_writes(batch).contains_key(key) <==> exists|i: int|
            0 <= i < batch.len() && key_of(#[trigger] batch[i]) == key,
    decreases batch.len(),
{
    if batch.len() > 0 {
        let rest = batch.drop_first();
        lemma_written_keys(rest, key);
        if key != key_of(batch[0]) {
            if first_writes(rest).contains_key(key) {
                let i = choose|i: int| 0 <= i < rest.len() && key_of(#[trigger] rest[i]) == key;
                assert(key_of(batch[i + 1]) == key);
            }
            if exists|i: int| 0 <= i < batch.len() && key_of(#[trigger] batch[i]) == key {
                let i = choose|i: int| 0 <= i < batch.len() && key_of(#[trigger] batch[i]) == key;
                assert(key_of(rest[i - 1]) == key);
            }
        }
    }
}

/// In a batch without repeated keys, what an entry writes is what the batch writes to its key.
pub(crate) proof fn lemma_entry_is_written(batch: Seq<(Bytes, Option<Bytes>)>, i: int)
    requires
        distinct_keys(batch),
        0 <= i < batch.len(),
    ensures
        first_writes(batch).contains_key(key_of(batch[i])),
        first_writes(batch)[key_of(batch[i])] == written(batch[i].1),
    decreases batch.len(),
{
    if i > 0 {
        let rest = batch.drop_first();
        assert(rest[i - 1] == batch[i]);
        assert(key_of(batch[0]) != key_of(batch[i]));
        lemma_entry_is_written(rest, i - 1);
    }
}

/// After a batch without repeated keys, each key that it puts has the value that was put, and
/// each key that it deletes is gone.
pub proof fn law_writes_are_read_back(
    map: Map<Seq<u8>, Seq<u8>>,
    batch: Seq<(Bytes, Option<Bytes>)>,
    i: int,
)
    requires
        distinct_keys(batch),
        0 <= i < batch.len(),
    ensures
        match batch[i].1 {
            Some(value) => ingested(map, first_writes(batch)).contains_pair(
                contents(batch[i].0),
                contents(value),
            ),
            None => !ingested(map, first_writes(batch)).contains_key(contents(batch[i].0)),
        },
{
    lemma_entry_is_written(batch, i);
}

/// Of the occurrences of a key in a batch, the first is the one that takes effect.
pub proof fn law_first_occurrence_wins(batch: Seq<(Bytes, Option<Bytes>)>, i: int)
    requires
        0 <= i < batch.len(),
        forall|j: int| 0 <= j < i ==> key_of(#[trigger] batch[j]) != key_of(batch[i]),
    ensures
        first_writes(batch).contains_pair(key_of(batch[i]), written(batch[i].1)),
    decreases batch.len(),
{
    if i > 0 {
        let rest = batch.drop_first();
        assert(rest[i - 1] == batch[i]);
        assert forall|j: int| 0 <= j < i - 1 implies key_of(#[trigger] rest[j]) != key_of(
            rest[i - 1],
        ) by {
            assert(rest[j] == batch[j + 1]);
        }
        assert(key_of(batch[0]) != key_of(batch[i]));
        law_first_occurrence_wins(rest, i - 1);
    }
}

/// Keys that a batch does not mention keep what they had.
pub proof fn law_other_keys_are_kept(
    map: Map<Seq<u8>, Seq<u8>>,
    batch: Seq<(Bytes, Option<Bytes>)>,
    key: Seq<u8>,
)
    requires
        forall|i: int| 0 <= i < batch.len() ==> key_of(#[trigger] batch[i]) != key,
    ensures
        ingested(map, first_writes(batch)).contains_key(key) <==> map.contains_key(key),
        map.contains_key(key) ==> ingested(map, first_writes(batch))[key] == map[key],
{
    lemma_written_keys(batch, key);
}

/// After a batch in which no two entries have the bytes of their keys in common, the key of each
/// entry has the value that the entry puts, or is gone if the entry deletes it.
pub proof fn law_entries_are_read_back(
    map: Map<Seq<u8>, Seq<u8>>,
    batch: Seq<(Bytes, Option<Bytes>)>,
    i: int,
)
    requires
        forall|x: int, y: int|
            0 <= x < y < batch.len() ==> contents((#[trigger] batch[x]).0) != contents(
                (#[trigger] batch[y]).0,
            ),
        0 <= i < batch.len(),
    ensures
        match batch[i].1 {
            Some(value) => ingested(map, first_writes(batch)).contains_pair(
                contents(batch[i].0),
                contents(value),
            ),
            None => !ingested(map, first_writes(batch)).contains_key(contents(batch[i].0)),
        },
{
    lemma_entry_is_written(batch, i);
}

/// Of the occurrences of a key in a batch, the first is the one that takes effect: after the
/// batch the key has the value that is put there, or is gone if it is deleted there.
pub proof fn law_first_mention_of_a_key_takes_effect(
    map: Map<Seq<u8>, Seq<u8>>,
    batch: Seq<(Bytes, Option<Bytes>)>,
    i: int,
)
    requires
        0 <= i < batch.len(),
        forall|j: int|
            0 <= j < i ==> contents((#[trigger] batch[j]).0) != contents(batch[i].0),
    ensures
        match batch[i].1 {
            Some(value) => {
                &&& first_writes(batch).contains_pair(
                    contents(batch[i].0),
                    Some(contents(value)),
                )
                &&& ingested(map, first_writes(batch)).contains_pair(
                    contents(batch[i].0),
                    contents(value),
                )
            },
            None => {
                &&& first_writes(batch).contains_pair(contents(batch[i].0), None)
                &&& !ingested(map, first_writes(batch)).contains_key(contents(batch[i].0))
            },
        },
    decreases batch.len(),
{
    if i > 0 {
        let rest = batch.drop_first();
        assert(rest[i - 1] == batch[i]);
        assert forall|j: int| 0 <= j < i - 1 implies contents((#[trigger] rest[j]).0) != contents(
            rest[i - 1].0,
        ) by {
            assert(rest[j] == batch[j + 1]);
        }
        assert(contents(batch[0].0) != contents(batch[i].0));
        law_first_mention_of_a_key_takes_effect(map, rest, i - 1);
    }
}

/// Keys that a batch does not mention are not written, and keep what they had.
pub proof fn law_unmentioned_keys_are_kept(
    map: Map<Seq<u8>, Seq<u8>>,
    batch: Seq<(Bytes, Option<Bytes>)>,
    key: Seq<u8>,
)
    requires
        forall|i: int| 0 <= i < batch.len() ==> contents((#[trigger] batch[i]).0) != key,
    ensures
        !first_writes(batch).contains_key(key),
        ingested(map, first_writes(batch)).contains_key(key) <==> map.contains_key(key),
        map.contains_key(key) ==> ingested(map, first_writes(batch))[key] == map[key],
{
    lemma_written_keys(batch, key);
}

/// A batch has distinct keys exactly if no two of its entries have the bytes of their keys in
/// common.
pub proof fn law_distinct_keys_differ_pairwise(batch: Seq<(Bytes, Option<Bytes>)>)
    ensures
        distinct_keys(batch) <==> forall|i: int, j: int|
            0 <= i < j < batch.len() ==> contents((#[trigger] batch[i]).0) != contents(
                (#[trigger] batch[j]).0,
            ),
{
    if distinct_keys(batch) {
        assert forall|i: int, j: int| 0 <= i < j < batch.len() implies contents(
            (#[trigger] batch[i]).0,
        ) != contents((#[trigger] batch[j]).0) by {
            assert(key_of(batch[i]) != key_of(batch[j]));
        }
    }
}

/// A batch deletes a key in vain exactly if the key is not there and the first entry of the
/// batch that mentions it deletes it.
pub proof fn law_phantom_delete_hits_nothing(
    map: Map<Seq<u8>, Seq<u8>>,
    batch: Seq<(Bytes, Option<Bytes>)>,
    key: Seq<u8>,
)
    ensures
        is_phantom_delete(map, first_writes(batch), key) <==> !map.contains_key(key) && exists|
            i: int,
        |
            {
                &&& 0 <= i < batch.len()
                &&& contents((#[trigger] batch[i]).0) == key
                &&& batch[i].1 is None
                &&& forall|j: int| 0 <= j < i ==> contents((#[trigger] batch[j]).0) != key
            },
{
    lemma_written_keys(batch, key);
    if first_writes(batch).contains_key(key) {
        let some = choose|i: int| 0 <= i < batch.len() && key_of(#[trigger] batch[i]) == key;
        let i = lemma_first_with_key(batch, key, some);
        law_first_mention_of_a_key_takes_effect(map, batch, i);
        assert(contents(batch[i].0) == key);
    }
    if exists|i: int|
        {
            &&& 0 <= i < batch.len()
            &&& contents((#[trigger] batch[i]).0) == key
            &&& batch[i].1 is None
            &&& forall|j: int| 0 <= j < i ==> contents((#[trigger] batch[j]).0) != key
        } {
        let i = choose|i: int|
            {
                &&& 0 <= i < batch.len()
                &&& contents((#[trigger] batch[i]).0) == key
                &&& batch[i].1 is None
                &&& forall|j: int| 0 <= j < i ==> contents((#[trigger] batch[j]).0) != key
            };
        law_first_mention_of_a_key_takes_effect(map, batch, i);
    }
}

/// A key that occurs has a first occurrence.
proof fn lemma_first_with_key(
    batch: Seq<(Bytes, Option<Bytes>)>,
    key: Seq<u8>,
    some: int,
) -> (first: int)
    requires
        0 <= some < batch.len(),
        contents(batch[some].0) == key,
    ensures
        0 <= first <= some,
        contents(batch[first].0) == key,
        forall|j: int| 0 <= j < first ==> contents((#[trigger] batch[j]).0) != key,
    decreases some,
{
    if exists|j: int| 0 <= j < some && contents((#[trigger] batch[j]).0) == key {
        let j = choose|j: int| 0 <= j < some && contents((#[trigger] batch[j]).0) == key;
        lemma_first_with_key(batch, key, j)
    } else {
        some
    }
}

/// The order of the entries in a batch without repeated keys makes no difference.
pub proof fn law_batch_order_is_irrelevant(
    a: Seq<(Bytes, Option<Bytes>)>,
    b: Seq<(Bytes, Option<Bytes>)>,
)
    requires
        distinct_keys(a),
        distinct_keys(b),
        a.to_multiset() == b.to_multiset(),
    ensures
        first_writes(a) == first_writes(b),
{
    let (x, y) = (first_writes(a), first_writes(b));
    a.to_multiset_ensures();
    b.to_multiset_ensures();
    assert forall|key: Seq<u8>| x.contains_key(key) <==> #[trigger] y.contains_key(key) by {
        lemma_written_keys(a, key);
        lemma_written_keys(b, key);
        if x.contains_key(key) {
            let i = choose|i: int| 0 <= i < a.len() && key_of(#[trigger] a[i]) == key;
            assert(a.contains(a[i]));
            assert(b.to_multiset().count(a[i]) > 0);
        }
        if y.contains_key(key) {
            let i = choose|i: int| 0 <= i < b.len() && key_of(#[trigger] b[i]) == key;
            assert(b.contains(b[i]));
            assert(a.to_multiset().count(b[i]) > 0);
        }
    }
    assert forall|key: Seq<u8>| x.contains_key(key) implies #[trigger] y[key] == x[key] by {
        lemma_written_keys(a, key);
        let i = choose|i: int| 0 <= i < a.len() && key_of(#[trigger] a[i]) == key;
        assert(a.contains(a[i]));
        assert(b.to_multiset().count(a[i]) > 0);
        let j = choose|j: int| 0 <= j < b.len() && b[j] == a[i];
        lemma_entry_is_written(a, i);
        lemma_entry_is_written(b, j);
    }
    assert(x =~= y);
}

/// Two batches in turn do what one does that writes all that they write, the later of the two
/// deciding where both write.
pub proof fn law_batches_compose(
    map: Map<Seq<u8>, Seq<u8>>,
    earlier: Map<Seq<u8>, Option<Seq<u8>>>,
    later: Map<Seq<u8>, Option<Seq<u8>>>,
)
    ensures
        ingested(ingested(map, earlier), later) == ingested(
            map,
            earlier.union_prefer_right(later),
        ),
{
    assert(ingested(ingested(map, earlier), later) =~= ingested(
        map,
        earlier.union_prefer_right(later),
    ));
}

/// Writing the same again changes nothing.
pub proof fn law_ingesting_twice_is_ingesting_once(
    map: Map<Seq<u8>, Seq<u8>>,
    writes: Map<Seq<u8>, Option<Seq<u8>>>,
)
    ensures
        ingested(ingested(map, writes), writes) == ingested(map, writes),
{
    assert(ingested(ingested(map, writes), writes) =~= ingested(map, writes));
}

} // verus!
