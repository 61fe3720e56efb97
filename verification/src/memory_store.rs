//! A key-value store in memory, with iteration over snapshots of it.

use std::collections::VecDeque;

use bytes::Bytes;
use vstd::prelude::*;

use crate::batch::{
    distinct_keys, first_writes, ingested, is_phantom_delete, lemma_first_writes_step,
    lemma_written_keys, written,
};
use crate::byte_string::{
    bytes_as_slice, bytes_clone, contents, law_order_is_irreflexive, lex_less, starts_with,
};
use crate::listing::{law_listing_is_unique, limited, listing, lists_key, lists_map, matching};
use crate::sorted_list::{as_map, find, has_key, is_sorted, key_of, lemma_entry_value, put, take};

verus! {

/// The bytes of a key and its value.
pub open spec fn pair(entry: (Bytes, Bytes)) -> (Seq<u8>, Seq<u8>) {
    (contents(entry.0), contents(entry.1))
}

/// The bytes of the keys and values of a list of entries.
pub open spec fn pairs(entries: Seq<(Bytes, Bytes)>) -> Seq<(Seq<u8>, Seq<u8>)> {
    entries.map_values(|entry: (Bytes, Bytes)| pair(entry))
}

/// What a batch had that it should not have had.
#[derive(Debug)]
pub struct IngestReport {
    /// Whether no key occurred twice.
    pub distinct_keys: bool,
    /// The first key, in their order, that was deleted without being there, if the store looks
    /// for such deletes.
    pub phantom_delete: Option<Bytes>,
}

/// An in-memory state store.
pub struct MemoryStateStore {
    entries: Vec<(Bytes, Bytes)>,
    sanity_check_phantom_delete: bool,
}

impl View for MemoryStateStore {
    type V = Map<Seq<u8>, Seq<u8>>;

    closed spec fn view(&self) -> Map<Seq<u8>, Seq<u8>> {
        as_map(self.entries@).map_values(|value: Bytes| contents(value))
    }
}

impl MemoryStateStore {
    /// Whether the entries are in the order of their keys.
    pub closed spec fn wf(&self) -> bool {
        is_sorted(self.entries@)
    }

    /// Whether deletes of keys that are not there are reported.
    pub closed spec fn checks_phantom_deletes(&self) -> bool {
        self.sanity_check_phantom_delete
    }

    /// An empty store that reports deletes of keys that are not there.
    pub fn new() -> (store: MemoryStateStore)
        ensures
            store.wf(),
            store@ == Map::<Seq<u8>, Seq<u8>>::empty(),
            store.checks_phantom_deletes(),
    {
        let store = MemoryStateStore { entries: Vec::new(), sanity_check_phantom_delete: true };
        assert(store@ =~= Map::<Seq<u8>, Seq<u8>>::empty());
        store
    }

    /// An empty store that lets deletes of keys that are not there pass.
    pub fn new_without_sanity_check() -> (store: MemoryStateStore)
        ensures
            store.wf(),
            store@ == Map::<Seq<u8>, Seq<u8>>::empty(),
            !store.checks_phantom_deletes(),
    {
        let store = MemoryStateStore { entries: Vec::new(), sanity_check_phantom_delete: false };
        assert(store@ =~= Map::<Seq<u8>, Seq<u8>>::empty());
        store
    }

    /// Sorts the batch by key, keeps the first entry of each key, and says whether no key
    /// occurred twice.
    pub fn verify_ingest_batch(&self, kv_pairs: &mut Vec<(Bytes, Option<Bytes>)>) -> (distinct:
        bool)
        ensures
            is_sorted(final(kv_pairs)@),
            first_writes(final(kv_pairs)@) == first_writes(old(kv_pairs)@),
            distinct == distinct_keys(old(kv_pairs)@),
    {
        let ghost batch = kv_pairs@;
        let mut sorted: Vec<(Bytes, Option<Bytes>)> = Vec::new();
        let mut distinct = true;
        assert(batch.skip(batch.len() as int) =~= Seq::empty());
        assert(as_map(sorted@).map_values(|value: Option<Bytes>| written(value)) =~= first_writes(
            batch.skip(batch.len() as int),
        ));
        while kv_pairs.len() > 0
            invariant
                kv_pairs@.len() <= batch.len(),
                kv_pairs@ == batch.take(kv_pairs@.len() as int),
                is_sorted(sorted@),
                as_map(sorted@).map_values(|value: Option<Bytes>| written(value)) == first_writes(
                    batch.skip(kv_pairs@.len() as int),
                ),
                distinct == distinct_keys(batch.skip(kv_pairs@.len() as int)),
            decreases kv_pairs@.len(),
        {
            let ghost at = kv_pairs@.len() - 1;
            let ghost done = batch.skip(at + 1);
            let ghost before = as_map(sorted@);
            match kv_pairs.pop() {
                Some((key, value)) => {
                    let had = put(&mut sorted, key, value);
                    proof {
                        assert((key, value) == batch[at]);
                        assert(kv_pairs@ =~= batch.take(at));
                        lemma_first_writes_step(batch, at);
                        assert(as_map(sorted@).map_values(|value: Option<Bytes>| written(value))
                            =~= before.map_values(|value: Option<Bytes>| written(value)).insert(
                            contents(key),
                            written(value),
                        ));
                        assert(had == first_writes(done).contains_key(contents(key)));
                        lemma_written_keys(done, contents(key));
                        lemma_distinct_step(batch, at);
                    }
                    distinct = distinct && !had;
                },
                None => {},
            }
        }
        proof {
            assert(batch.skip(0) =~= batch);
            lemma_sorted_writes(sorted@);
        }
        *kv_pairs = sorted;
        distinct
    }

    /// Writes the batch: puts a key with a value, deletes a key without one. If a key occurs more
    /// than once, its first occurrence counts.
    pub fn ingest_batch(&mut self, kv_pairs: Vec<(Bytes, Option<Bytes>)>) -> (report: IngestReport)
        requires
            old(self).wf(),
        ensures
            final(self).wf(),
            final(self)@ == ingested(old(self)@, first_writes(kv_pairs@)),
            final(self).checks_phantom_deletes() == old(self).checks_phantom_deletes(),
            report.distinct_keys == distinct_keys(kv_pairs@),
            match report.phantom_delete {
                Some(key) => {
                    &&& old(self).checks_phantom_deletes()
                    &&& is_phantom_delete(old(self)@, first_writes(kv_pairs@), contents(key))
                    &&& forall|other: Seq<u8>| #[trigger]
                        is_phantom_delete(old(self)@, first_writes(kv_pairs@), other) ==> !lex_less(
                            other,
                            contents(key),
                        )
                },
                None => old(self).checks_phantom_deletes() ==> forall|other: Seq<u8>|
                    !#[trigger] is_phantom_delete(old(self)@, first_writes(kv_pairs@), other),
            },
    {
        let mut batch = kv_pairs;
        let distinct = self.verify_ingest_batch(&mut batch);
        let phantom_delete = self.ingest_sorted(batch);
        IngestReport { distinct_keys: distinct, phantom_delete }
    }

    /// Writes a sorted batch and gives the first phantom delete.
    fn ingest_sorted(&mut self, kv_pairs: Vec<(Bytes, Option<Bytes>)>) -> (phantom_delete: Option<
        Bytes,
    >)
        requires
            old(self).wf(),
            is_sorted(kv_pairs@),
        ensures
            final(self).wf(),
            final(self)@ == ingested(old(self)@, first_writes(kv_pairs@)),
            final(self).checks_phantom_deletes() == old(self).checks_phantom_deletes(),
            match phantom_delete {
                Some(key) => {
                    &&& old(self).checks_phantom_deletes()
                    &&& is_phantom_delete(old(self)@, first_writes(kv_pairs@), contents(key))
                    &&& forall|other: Seq<u8>| #[trigger]
                        is_phantom_delete(old(self)@, first_writes(kv_pairs@), other) ==> !lex_less(
                            other,
                            contents(key),
                        )
                },
                None => old(self).checks_phantom_deletes() ==> forall|other: Seq<u8>|
                    !#[trigger] is_phantom_delete(old(self)@, first_writes(kv_pairs@), other),
            },
    {
        let ghost batch = kv_pairs@;
        let ghost start = self@;
        let mut rest = kv_pairs;
        let mut phantom_delete: Option<Bytes> = None;
        assert(batch.skip(batch.len() as int) =~= Seq::empty());
        assert(self@ =~= ingested(start, first_writes(batch.skip(batch.len() as int))));
        assert(batch.take(batch.len() as int) =~= batch);
        while rest.len() > 0
            invariant
                rest@.len() <= batch.len(),
                rest@ == batch.take(rest@.len() as int),
                is_sorted(batch),
                start == old(self)@,
                self.wf(),
                self.checks_phantom_deletes() == old(self).checks_phantom_deletes(),
                self@ == ingested(start, first_writes(batch.skip(rest@.len() as int))),
                match phantom_delete {
                    Some(key) => {
                        &&& self.checks_phantom_deletes()
                        &&& is_phantom_delete(
                            start,
                            first_writes(batch.skip(rest@.len() as int)),
                            contents(key),
                        )
                        &&& forall|other: Seq<u8>| #[trigger]
                            is_phantom_delete(
                                start,
                                first_writes(batch.skip(rest@.len() as int)),
                                other,
                            ) ==> !lex_less(other, contents(key))
                    },
                    None => self.checks_phantom_deletes() ==> forall|other: Seq<u8>|
                        !#[trigger] is_phantom_delete(
                            start,
                            first_writes(batch.skip(rest@.len() as int)),
                            other,
                        ),
                },
            decreases rest@.len(),
        {
            let ghost at = rest@.len() - 1;
            let ghost done = first_writes(batch.skip(at + 1));
            let ghost before = self@;
            match rest.pop() {
                Some((key, value)) => {
                    proof {
                        assert((key, value) == batch[at]);
                        assert(rest@ =~= batch.take(at));
                        lemma_first_writes_step(batch, at);
                        lemma_later_keys(batch, at);
                        law_order_is_irreflexive(contents(key));
                        assert(!done.contains_key(contents(key)));
                        assert(before.contains_key(contents(key)) == start.contains_key(
                            contents(key),
                        ));
                    }
                    let ghost now = done.insert(contents(key), written(value));
                    match value {
                        Some(value) => {
                            put(&mut self.entries, key, value);
                            proof {
                                assert(self@ =~= before.insert(contents(key), contents(value)));
                                assert(self@ =~= ingested(start, now));
                                assert forall|other: Seq<u8>|
                                    #![trigger is_phantom_delete(start, now, other)]
                                    #![trigger is_phantom_delete(start, done, other)]
                                    is_phantom_delete(start, now, other) == is_phantom_delete(
                                        start,
                                        done,
                                        other,
                                    ) by {}
                            }
                        },
                        None => {
                            let had = take(&mut self.entries, &key);
                            proof {
                                assert(self@ =~= before.remove(contents(key)));
                                assert(self@ =~= ingested(start, now));
                                assert(had == before.contains_key(contents(key)));
                                assert forall|other: Seq<u8>|
                                    #![trigger is_phantom_delete(start, now, other)]
                                    #![trigger is_phantom_delete(start, done, other)]
                                    other != contents(key) implies is_phantom_delete(
                                    start,
                                    now,
                                    other,
                                ) == is_phantom_delete(start, done, other) by {}
                                assert forall|other: Seq<u8>| #[trigger]
                                    is_phantom_delete(start, done, other) implies !lex_less(
                                    other,
                                    contents(key),
                                ) by {}
                            }
                            if self.sanity_check_phantom_delete && !had {
                                phantom_delete = Some(key);
                            }
                        },
                    }
                },
                None => {},
            }
        }
        assert(batch.skip(0) =~= batch);
        phantom_delete
    }

    /// The value of the key, if it is there.
    pub fn get(&self, key: &[u8]) -> (value: Option<Bytes>)
        requires
            self.wf(),
        ensures
            match value {
                Some(value) => self@.contains_pair(key@, contents(value)),
                None => !self@.contains_key(key@),
            },
    {
        match find(&self.entries, key) {
            Some(at) => {
                proof {
                    lemma_entry_value(self.entries@, at as int);
                }
                Some(bytes_clone(&self.entries[at].1))
            },
            None => None,
        }
    }

    /// The entries whose keys start with the prefix, in the order of the keys, no more of them
    /// than the limit allows.
    pub fn scan(&self, prefix: &[u8], limit: Option<usize>) -> (data: Vec<(Bytes, Bytes)>)
        requires
            self.wf(),
        ensures
            pairs(data@) == limited(listing(matching(self@, prefix@)), limit),
    {
        let mut data: Vec<(Bytes, Bytes)> = Vec::new();
        let ghost whole = selected(self.entries@, prefix@);
        proof {
            lemma_selected_is_listed(self.entries@, prefix@, self@);
            law_listing_is_unique(whole, matching(self@, prefix@));
        }
        if limit == Some(0usize) {
            assert(pairs(data@) =~= limited(whole, limit));
            return data;
        }
        let mut i: usize = 0;
        assert(pairs(data@) =~= selected(self.entries@.take(0), prefix@));
        while i < self.entries.len()
            invariant
                i <= self.entries@.len(),
                whole == selected(self.entries@, prefix@),
                whole == listing(matching(self@, prefix@)),
                pairs(data@) == selected(self.entries@.take(i as int), prefix@),
                limit matches Some(n) ==> data@.len() < n,
            decreases self.entries@.len() - i,
        {
            let ghost part = self.entries@.take(i + 1);
            assert(part.drop_last() =~= self.entries@.take(i as int));
            assert(part.last() == self.entries@[i as int]);
            if starts_with(bytes_as_slice(&self.entries[i].0), prefix) {
                let ghost before = data@;
                data.push((bytes_clone(&self.entries[i].0), bytes_clone(&self.entries[i].1)));
                assert(pairs(data@) =~= pairs(before).push(pair(self.entries@[i as int])));
                if let Some(n) = limit {
                    if data.len() >= n {
                        proof {
                            lemma_selected_grows(self.entries@, prefix@, i + 1);
                            assert(pairs(data@).len() == data@.len());
                            assert(pairs(data@) =~= limited(whole, limit));
                        }
                        return data;
                    }
                }
            }
            i = i + 1;
        }
        proof {
            assert(self.entries@.take(i as int) =~= self.entries@);
            assert(pairs(data@).len() == data@.len());
        }
        data
    }

    /// An iterator, not yet opened, over the entries whose keys start with the prefix.
    pub fn iter(&self, prefix: &[u8]) -> (iter: MemoryStateStoreIter)
        ensures
            iter.prefix() == prefix@,
            iter.remaining() is None,
    {
        MemoryStateStoreIter::new(vstd::slice::slice_to_vec(prefix))
    }
}

impl Default for MemoryStateStore {
    fn default() -> (store: MemoryStateStore)
        ensures
            store.wf(),
            store@ == Map::<Seq<u8>, Seq<u8>>::empty(),
            !store.checks_phantom_deletes(),
    {
        MemoryStateStore::new_without_sanity_check()
    }
}

/// A store holds finitely many keys, so that its entries have a listing.
pub proof fn law_store_is_listed(store: MemoryStateStore)
    requires
        store.wf(),
    ensures
        store@.dom().finite(),
        lists_map(listing(store@), store@),
{
    let keys = store.entries@.map_values(|entry: (Bytes, Bytes)| key_of(entry));
    assert forall|key: Seq<u8>| #[trigger] store@.dom().contains(key) implies keys.to_set().contains(
        key,
    ) by {
        assert(has_key(store.entries@, key));
        let i = choose|i: int|
            0 <= i < store.entries@.len() && key_of(#[trigger] store.entries@[i]) == key;
        assert(keys[i] == key);
    }
    vstd::seq_lib::seq_to_set_is_finite(keys);
    vstd::set_lib::lemma_len_subset(store@.dom(), keys.to_set());
    crate::listing::law_finite_map_is_listed(store@);
}

/// What a scan gives for a prefix are the keys that a read finds and that start with it, each
/// once, in order, with the values that a read finds.
pub proof fn law_scan_agrees_with_get(store: MemoryStateStore, prefix: Seq<u8>)
    requires
        store.wf(),
    ensures
        lists_map(listing(matching(store@, prefix)), matching(store@, prefix)),
{
    lemma_selected_is_listed(store.entries@, prefix, store@);
}

/// A scan without a limit gives an entry for every key of the store that starts with the prefix,
/// with the value of the key; it gives no other entries, and gives them in ascending order.
pub proof fn law_scan_without_limit_is_complete(
    store: MemoryStateStore,
    prefix: Seq<u8>,
    data: Seq<(Bytes, Bytes)>,
)
    requires
        store.wf(),
        pairs(data) == limited(listing(matching(store@, prefix)), None),
    ensures
        forall|key: Seq<u8>| #[trigger]
            store@.contains_key(key) && prefix.is_prefix_of(key) ==> exists|i: int|
                {
                    &&& 0 <= i < data.len()
                    &&& contents((#[trigger] data[i]).0) == key
                    &&& contents(data[i].1) == store@[key]
                },
        forall|i: int|
            0 <= i < data.len() ==> {
                &&& prefix.is_prefix_of(contents((#[trigger] data[i]).0))
                &&& store@.contains_key(contents(data[i].0))
                &&& store@[contents(data[i].0)] == contents(data[i].1)
            },
        forall|i: int, j: int|
            0 <= i < j < data.len() ==> lex_less(
                contents((#[trigger] data[i]).0),
                contents((#[trigger] data[j]).0),
            ),
{
    let part = matching(store@, prefix);
    let list = listing(part);
    law_scan_agrees_with_get(store, prefix);
    assert(pairs(data).len() == data.len());
    assert forall|i: int| 0 <= i < data.len() implies list[i] == (
        contents((#[trigger] data[i]).0),
        contents(data[i].1),
    ) by {
        assert(pairs(data)[i] == pair(data[i]));
    }
    assert forall|key: Seq<u8>| #[trigger]
        store@.contains_key(key) && prefix.is_prefix_of(key) implies exists|i: int|
        {
            &&& 0 <= i < data.len()
            &&& contents((#[trigger] data[i]).0) == key
            &&& contents(data[i].1) == store@[key]
        } by {
        assert(part.contains_key(key));
        let i = choose|i: int| 0 <= i < list.len() && (#[trigger] list[i]).0 == key;
        assert(contents(data[i].0) == key);
    }
    assert forall|i: int| 0 <= i < data.len() implies {
        &&& prefix.is_prefix_of(contents((#[trigger] data[i]).0))
        &&& store@.contains_key(contents(data[i].0))
        &&& store@[contents(data[i].0)] == contents(data[i].1)
    } by {
        assert(lists_key(list, list[i].0));
        assert(part.contains_key(list[i].0));
    }
}

/// A scan with a limit gives the first entries of the same scan without one: as many as the
/// limit allows, or all of them.
pub proof fn law_scan_with_limit_gives_the_first(
    map: Map<Seq<u8>, Seq<u8>>,
    prefix: Seq<u8>,
    limit: usize,
    all: Seq<(Bytes, Bytes)>,
    data: Seq<(Bytes, Bytes)>,
)
    requires
        pairs(all) == limited(listing(matching(map, prefix)), None),
        pairs(data) == limited(listing(matching(map, prefix)), Some(limit)),
    ensures
        data.len() == if limit < all.len() {
            limit as int
        } else {
            all.len() as int
        },
        forall|i: int|
            0 <= i < data.len() ==> {
                &&& contents((#[trigger] data[i]).0) == contents(all[i].0)
                &&& contents(data[i].1) == contents(all[i].1)
            },
{
    assert(pairs(all).len() == all.len() && pairs(data).len() == data.len());
    assert forall|i: int| 0 <= i < data.len() implies {
        &&& contents((#[trigger] data[i]).0) == contents(all[i].0)
        &&& contents(data[i].1) == contents(all[i].1)
    } by {
        assert(pairs(data)[i] == pairs(all)[i]);
        assert(pairs(data)[i] == pair(data[i]) && pairs(all)[i] == pair(all[i]));
    }
}

/// An iterator that was opened on a store has the entries to give that a scan of the store
/// without a limit gives, in the same order.
pub proof fn law_iterator_gives_what_a_scan_gives(
    map: Map<Seq<u8>, Seq<u8>>,
    iter: MemoryStateStoreIter,
    all: Seq<(Bytes, Bytes)>,
)
    requires
        iter.remaining() == Some(listing(matching(map, iter.prefix()))),
        pairs(all) == limited(listing(matching(map, iter.prefix())), None),
    ensures
        iter.remaining()->0.len() == all.len(),
        forall|i: int|
            0 <= i < all.len() ==> iter.remaining()->0[i] == (
                contents((#[trigger] all[i]).0),
                contents(all[i].1),
            ),
{
    assert(pairs(all).len() == all.len());
    assert forall|i: int| 0 <= i < all.len() implies iter.remaining()->0[i] == (
        contents((#[trigger] all[i]).0),
        contents(all[i].1),
    ) by {
        assert(pairs(all)[i] == pair(all[i]));
    }
}

/// The bytes of an entry are those of its key and those of its value.
pub proof fn law_pair_holds_key_and_value(entry: (Bytes, Bytes))
    ensures
        pair(entry).0 == contents(entry.0),
        pair(entry).1 == contents(entry.1),
{
}

/// The entries that start with the prefix, as bytes.
spec fn selected(entries: Seq<(Bytes, Bytes)>, prefix: Seq<u8>) -> Seq<(Seq<u8>, Seq<u8>)>
    decreases entries.len(),
{
    if entries.len() == 0 {
        Seq::empty()
    } else {
        let rest = selected(entries.drop_last(), prefix);
        if prefix.is_prefix_of(key_of(entries.last())) {
            rest.push(pair(entries.last()))
        } else {
            rest
        }
    }
}

/// What is selected of a part begins what is selected of the whole.
proof fn lemma_selected_grows(entries: Seq<(Bytes, Bytes)>, prefix: Seq<u8>, n: int)
    requires
        0 <= n <= entries.len(),
    ensures
        selected(entries.take(n), prefix).len() <= selected(entries, prefix).len(),
        selected(entries.take(n), prefix) == selected(entries, prefix).take(
            selected(entries.take(n), prefix).len() as int,
        ),
    decreases entries.len(),
{
    let part = selected(entries.take(n), prefix);
    let whole = selected(entries, prefix);
    if n == entries.len() {
        assert(entries.take(n) =~= entries);
        assert(whole.take(whole.len() as int) =~= whole);
    } else {
        lemma_selected_grows(entries.drop_last(), prefix, n);
        assert(entries.drop_last().take(n) =~= entries.take(n));
        assert(whole.take(part.len() as int) =~= selected(entries.drop_last(), prefix).take(
            part.len() as int,
        ));
    }
}

/// Every selected entry is one of the list.
proof fn lemma_selected_entry(entries: Seq<(Bytes, Bytes)>, prefix: Seq<u8>, i: int) -> (at: int)
    requires
        0 <= i < selected(entries, prefix).len(),
    ensures
        0 <= at < entries.len(),
        selected(entries, prefix)[i] == pair(entries[at]),
        prefix.is_prefix_of(key_of(entries[at])),
    decreases entries.len(),
{
    let rest = selected(entries.drop_last(), prefix);
    if i < rest.len() {
        let at = lemma_selected_entry(entries.drop_last(), prefix, i);
        assert(entries.drop_last()[at] == entries[at]);
        at
    } else {
        entries.len() - 1
    }
}

/// What is selected of a sorted list is sorted, and holds every key with the prefix.
proof fn lemma_selected_keys(entries: Seq<(Bytes, Bytes)>, prefix: Seq<u8>)
    requires
        is_sorted(entries),
    ensures
        forall|i: int, j: int|
            0 <= i < j < selected(entries, prefix).len() ==> lex_less(
                (#[trigger] selected(entries, prefix)[i]).0,
                (#[trigger] selected(entries, prefix)[j]).0,
            ),
        forall|at: int|
            0 <= at < entries.len() && prefix.is_prefix_of(key_of(#[trigger] entries[at]))
                ==> lists_key(selected(entries, prefix), key_of(entries[at])),
    decreases entries.len(),
{
    if entries.len() > 0 {
        let rest = entries.drop_last();
        let part = selected(rest, prefix);
        let whole = selected(entries, prefix);
        lemma_selected_keys(rest, prefix);
        assert forall|i: int, j: int| 0 <= i < j < whole.len() implies lex_less(
            (#[trigger] whole[i]).0,
            (#[trigger] whole[j]).0,
        ) by {
            let at = lemma_selected_entry(rest, prefix, i);
            assert(whole[i] == part[i]);
            assert(rest[at] == entries[at]);
            if j == part.len() {
                assert(lex_less(key_of(entries[at]), key_of(entries[entries.len() - 1])));
            } else {
                assert(whole[j] == part[j]);
            }
        }
        assert forall|at: int|
            0 <= at < entries.len() && prefix.is_prefix_of(
                key_of(#[trigger] entries[at]),
            ) implies lists_key(whole, key_of(entries[at])) by {
            if at < rest.len() {
                assert(rest[at] == entries[at]);
                let i = choose|i: int|
                    0 <= i < part.len() && (#[trigger] part[i]).0 == key_of(rest[at]);
                assert(whole[i] == part[i]);
            } else {
                assert(whole[part.len() as int].0 == key_of(entries[at]));
            }
        }
    }
}

/// What is selected of a sorted list lists the part of its map with the prefix.
proof fn lemma_selected_is_listed(
    entries: Seq<(Bytes, Bytes)>,
    prefix: Seq<u8>,
    map: Map<Seq<u8>, Seq<u8>>,
)
    requires
        is_sorted(entries),
        map == as_map(entries).map_values(|value: Bytes| contents(value)),
    ensures
        lists_map(selected(entries, prefix), matching(map, prefix)),
{
    let list = selected(entries, prefix);
    let part = matching(map, prefix);
    lemma_selected_keys(entries, prefix);
    assert forall|key: Seq<u8>| #[trigger] part.contains_key(key) <==> lists_key(list, key) by {
        if part.contains_key(key) {
            assert(has_key(entries, key));
            let at = choose|at: int|
                0 <= at < entries.len() && key_of(#[trigger] entries[at]) == key;
            assert(lists_key(list, key_of(entries[at])));
        }
        if lists_key(list, key) {
            let i = choose|i: int| 0 <= i < list.len() && (#[trigger] list[i]).0 == key;
            let at = lemma_selected_entry(entries, prefix, i);
            lemma_entry_value(entries, at);
        }
    }
    assert forall|i: int| 0 <= i < list.len() implies part[(#[trigger] list[i]).0]
        == list[i].1 by {
        let at = lemma_selected_entry(entries, prefix, i);
        lemma_entry_value(entries, at);
        assert(part.contains_key(list[i].0));
    }
}

/// A sorted batch has no repeated keys, and writes the values that it holds.
proof fn lemma_sorted_writes(batch: Seq<(Bytes, Option<Bytes>)>)
    requires
        is_sorted(batch),
    ensures
        first_writes(batch) == as_map(batch).map_values(|value: Option<Bytes>| written(value)),
{
    let (x, y) = (
        first_writes(batch),
        as_map(batch).map_values(|value: Option<Bytes>| written(value)),
    );
    assert(distinct_keys(batch)) by {
        assert forall|i: int, j: int| 0 <= i < j < batch.len() implies key_of(#[trigger] batch[i])
            != key_of(#[trigger] batch[j]) by {
            law_order_is_irreflexive(key_of(batch[i]));
        }
    }
    assert forall|key: Seq<u8>| x.contains_key(key) == #[trigger] y.contains_key(key) by {
        lemma_written_keys(batch, key);
        assert(y.contains_key(key) == has_key(batch, key));
    }
    assert forall|key: Seq<u8>| y.contains_key(key) implies x[key] == #[trigger] y[key] by {
        assert(has_key(batch, key));
        let i = choose|i: int| 0 <= i < batch.len() && key_of(#[trigger] batch[i]) == key;
        crate::batch::lemma_entry_is_written(batch, i);
        lemma_entry_value(batch, i);
    }
    assert(x =~= y);
}

/// The keys of a part are distinct if those of the rest are and the first is not among them.
proof fn lemma_distinct_step(batch: Seq<(Bytes, Option<Bytes>)>, at: int)
    requires
        0 <= at < batch.len(),
    ensures
        distinct_keys(batch.skip(at)) <==> distinct_keys(batch.skip(at + 1)) && !exists|i: int|
            0 <= i < batch.skip(at + 1).len() && key_of(#[trigger] batch.skip(at + 1)[i]) == key_of(
                batch[at],
            ),
{
    let (all, rest) = (batch.skip(at), batch.skip(at + 1));
    if distinct_keys(all) {
        assert forall|i: int, j: int| 0 <= i < j < rest.len() implies key_of(#[trigger] rest[i])
            != key_of(#[trigger] rest[j]) by {
            assert(all[i + 1] == rest[i] && all[j + 1] == rest[j]);
        }
        assert forall|i: int| 0 <= i < rest.len() implies key_of(#[trigger] rest[i]) != key_of(
            batch[at],
        ) by {
            assert(all[i + 1] == rest[i] && all[0] == batch[at]);
        }
    }
    if distinct_keys(rest) && !exists|i: int|
        0 <= i < rest.len() && key_of(#[trigger] rest[i]) == key_of(batch[at]) {
        assert forall|i: int, j: int| 0 <= i < j < all.len() implies key_of(#[trigger] all[i])
            != key_of(#[trigger] all[j]) by {
            assert(rest[j - 1] == all[j]);
            if i > 0 {
                assert(rest[i - 1] == all[i]);
            }
        }
    }
}

/// In a sorted batch, the keys that are written later come after the key at the position.
proof fn lemma_later_keys(batch: Seq<(Bytes, Option<Bytes>)>, at: int)
    requires
        is_sorted(batch),
        0 <= at < batch.len(),
    ensures
        forall|key: Seq<u8>| #[trigger]
            first_writes(batch.skip(at + 1)).contains_key(key) ==> {
                &&& lex_less(key_of(batch[at]), key)
                &&& !lex_less(key, key_of(batch[at]))
            },
{
    let rest = batch.skip(at + 1);
    assert forall|key: Seq<u8>| #[trigger] first_writes(rest).contains_key(key) implies {
        &&& lex_less(key_of(batch[at]), key)
        &&& !lex_less(key, key_of(batch[at]))
    } by {
        lemma_written_keys(rest, key);
        let i = choose|i: int| 0 <= i < rest.len() && key_of(#[trigger] rest[i]) == key;
        assert(rest[i] == batch[at + 1 + i]);
        crate::byte_string::law_order_is_asymmetric(key_of(batch[at]), key);
    }
}

/// An iterator over the entries of a store whose keys start with a prefix. What it gives out is
/// what the store held when the iterator was opened.
pub struct MemoryStateStoreIter {
    prefix: Vec<u8>,
    snapshot: Option<VecDeque<(Bytes, Bytes)>>,
}

impl MemoryStateStoreIter {
    /// The prefix of the keys.
    pub closed spec fn prefix(&self) -> Seq<u8> {
        self.prefix@
    }

    /// The entries that are still to come, if the iterator is open.
    pub closed spec fn remaining(&self) -> Option<Seq<(Seq<u8>, Seq<u8>)>> {
        match self.snapshot {
            Some(snapshot) => Some(pairs(snapshot@)),
            None => None,
        }
    }

    /// An iterator that is not yet open.
    pub fn new(prefix: Vec<u8>) -> (iter: MemoryStateStoreIter)
        ensures
            iter.prefix() == prefix@,
            iter.remaining() is None,
    {
        MemoryStateStoreIter { prefix, snapshot: None }
    }

    /// Whether the iterator is open.
    pub fn is_open(&self) -> (open: bool)
        ensures
            open == self.remaining() is Some,
    {
        self.snapshot.is_some()
    }

    /// Opens the iterator on what the store holds. If it was open, it starts anew.
    pub fn open(&mut self, store: &MemoryStateStore)
        requires
            store.wf(),
        ensures
            final(self).prefix() == old(self).prefix(),
            final(self).remaining() == Some(listing(matching(store@, old(self).prefix()))),
    {
        let mut data = store.scan(self.prefix.as_slice(), None);
        let ghost whole = data@;
        let mut snapshot: VecDeque<(Bytes, Bytes)> = VecDeque::new();
        while data.len() > 0
            invariant
                data@ + snapshot@ == whole,
            decreases data@.len(),
        {
            let ghost before = data@ + snapshot@;
            if let Some(entry) = data.pop() {
                snapshot.push_front(entry);
            }
            assert(data@ + snapshot@ =~= before);
        }
        assert(data@ + snapshot@ =~= snapshot@);
        self.snapshot = Some(snapshot);
    }

    /// Takes out the next entry, if one is left.
    pub fn next(&mut self) -> (entry: Option<(Bytes, Bytes)>)
        requires
            old(self).remaining() is Some,
        ensures
            final(self).prefix() == old(self).prefix(),
            match entry {
                Some(entry) => {
                    &&& old(self).remaining()->0.len() > 0
                    &&& pair(entry) == old(self).remaining()->0[0]
                    &&& final(self).remaining() == Some(old(self).remaining()->0.drop_first())
                },
                None => {
                    &&& old(self).remaining()->0.len() == 0
                    &&& final(self).remaining() == old(self).remaining()
                },
            },
    {
        match &mut self.snapshot {
            Some(snapshot) => {
                let ghost before = snapshot@;
                let entry = snapshot.pop_front();
                assert(entry is Some ==> pairs(snapshot@) =~= pairs(before).drop_first());
                entry
            },
            None => None,
        }
    }
}

} // verus!
