//! A dictionary as mathematics: entries in ascending order of their keys,
//! what it is to look a key up in them and to store a value under a key, and
//! what holds of the two.

use crate::keys::{
    lemma_precedes_asymmetric, lemma_precedes_irreflexive, lemma_precedes_total,
    lemma_precedes_transitive, precedes,
};
use vstd::prelude::*;

verus! {

/// Each entry's key comes strictly before the keys of all later entries.
pub open spec fn ascending<V>(entries: Seq<(Seq<u8>, V)>) -> bool {
    forall|i: int, j: int|
        #![trigger entries[i], entries[j]]
        0 <= i < j < entries.len() ==> precedes(entries[i].0, entries[j].0)
}

/// Among ascending entries no key occurs twice.
pub proof fn lemma_ascending_keys_differ<V>(entries: Seq<(Seq<u8>, V)>, first: int, second: int)
    requires
        ascending(entries),
        0 <= first < entries.len(),
        0 <= second < entries.len(),
        first != second,
    ensures
        entries[first].0 != entries[second].0,
{
    if first < second {
        lemma_precedes_asymmetric(entries[first].0, entries[second].0);
    } else {
        lemma_precedes_asymmetric(entries[second].0, entries[first].0);
    }
}

/// The number of entries whose key comes before `key`. Among ascending entries
/// this is the place of the entry with that key, if there is one, and the place
/// where one belongs, if there is none.
pub open spec fn rank<V>(entries: Seq<(Seq<u8>, V)>, key: Seq<u8>) -> int
    decreases entries.len(),
{
    if entries.len() == 0 {
        0
    } else {
        rank(entries.drop_last(), key) + if precedes(entries.last().0, key) {
            1int
        } else {
            0int
        }
    }
}

/// The value that ascending entries hold under `key`, if any.
pub open spec fn lookup<V>(entries: Seq<(Seq<u8>, V)>, key: Seq<u8>) -> Option<V> {
    let place = rank(entries, key);
    if place < entries.len() && entries[place].0 == key {
        Some(entries[place].1)
    } else {
        None
    }
}

/// Ascending entries after `value` was stored under `key`: the new entry takes
/// the place of an entry with the same key, and otherwise goes between the
/// entries with smaller keys and those with larger ones.
pub open spec fn insert_entry<V>(entries: Seq<(Seq<u8>, V)>, key: Seq<u8>, value: V) -> Seq<
    (Seq<u8>, V),
> {
    let place = rank(entries, key);
    if place < entries.len() && entries[place].0 == key {
        entries.update(place, (key, value))
    } else {
        entries.insert(place, (key, value))
    }
}

/// `rank` is the index that splits the entries into those before `key` and the
/// rest.
pub proof fn lemma_rank_is_split<V>(entries: Seq<(Seq<u8>, V)>, key: Seq<u8>, place: int)
    requires
        0 <= place <= entries.len(),
        forall|j: int| 0 <= j < place ==> precedes((#[trigger] entries[j]).0, key),
        forall|j: int| place <= j < entries.len() ==> !precedes((#[trigger] entries[j]).0, key),
    ensures
        rank(entries, key) == place,
    decreases entries.len(),
{
    if entries.len() > 0 {
        let front = entries.drop_last();
        if place == entries.len() {
            lemma_rank_is_split(front, key, place - 1);
        } else {
            lemma_rank_is_split(front, key, place);
        }
    }
}

/// Among ascending entries, those before `rank` have keys before `key`, and
/// the others have not.
pub proof fn lemma_rank_splits<V>(entries: Seq<(Seq<u8>, V)>, key: Seq<u8>)
    requires
        ascending(entries),
    ensures
        0 <= rank(entries, key) <= entries.len(),
        forall|j: int| 0 <= j < rank(entries, key) ==> precedes((#[trigger] entries[j]).0, key),
        forall|j: int|
            rank(entries, key) <= j < entries.len() ==> !precedes((#[trigger] entries[j]).0, key),
    decreases entries.len(),
{
    if entries.len() > 0 {
        let front = entries.drop_last();
        let last = entries.last();
        lemma_rank_splits(front, key);
        assert forall|j: int| 0 <= j < front.len() implies front[j] == entries[j] by {}
        if precedes(last.0, key) {
            assert forall|j: int| 0 <= j < entries.len() implies precedes(
                (#[trigger] entries[j]).0,
                key,
            ) by {
                if j < entries.len() - 1 {
                    assert(precedes(entries[j].0, last.0));
                    lemma_precedes_transitive(entries[j].0, last.0, key);
                }
            }
            lemma_rank_is_split(entries, key, entries.len() as int);
        } else {
            let place = rank(front, key);
            assert forall|j: int| 0 <= j < place implies precedes(
                (#[trigger] entries[j]).0,
                key,
            ) by {
                assert(front[j] == entries[j]);
            }
            assert forall|j: int| place <= j < entries.len() implies !precedes(
                (#[trigger] entries[j]).0,
                key,
            ) by {
                if j < entries.len() - 1 {
                    assert(front[j] == entries[j]);
                }
            }
        }
    }
}

/// Storing a value keeps ascending entries ascending.
pub proof fn lemma_insert_entry_ascending<V>(entries: Seq<(Seq<u8>, V)>, key: Seq<u8>, value: V)
    requires
        ascending(entries),
    ensures
        ascending(insert_entry(entries, key, value)),
{
    lemma_rank_splits(entries, key);
    let place = rank(entries, key);
    let after = insert_entry(entries, key, value);
    if place < entries.len() && entries[place].0 == key {
        assert forall|i: int, j: int| 0 <= i < j < after.len() implies precedes(
            after[i].0,
            after[j].0,
        ) by {
            assert(precedes(entries[i].0, entries[j].0));
        }
    } else {
        assert forall|j: int| place <= j < entries.len() implies precedes(
            key,
            (#[trigger] entries[j]).0,
        ) by {
            lemma_precedes_total(key, entries[j].0);
            if j > place {
                assert(precedes(entries[place].0, entries[j].0));
                if entries[place].0 != key {
                    lemma_precedes_total(key, entries[place].0);
                    lemma_precedes_transitive(key, entries[place].0, entries[j].0);
                }
            }
        }
        assert forall|i: int, j: int| 0 <= i < j < after.len() implies precedes(
            after[i].0,
            after[j].0,
        ) by {
            if j < place {
                assert(precedes(entries[i].0, entries[j].0));
            } else if j == place {
                assert(precedes(entries[i].0, key));
            } else if i < place {
                assert(precedes(entries[i].0, entries[j - 1].0));
            } else if i == place {
                assert(precedes(key, entries[j - 1].0));
            } else {
                assert(precedes(entries[i - 1].0, entries[j - 1].0));
            }
        }
    }
}

/// A value stored under a key that comes after all keys goes to the end.
pub proof fn lemma_insert_entry_behind<V>(read: Seq<(Seq<u8>, V)>, key: Seq<u8>, value: V)
    requires
        forall|j: int| 0 <= j < read.len() ==> precedes((#[trigger] read[j]).0, key),
    ensures
        insert_entry(read, key, value) == read.push((key, value)),
{
    lemma_rank_is_split(read, key, read.len() as int);
    assert(insert_entry(read, key, value) =~= read.push((key, value)));
}

/// After a value was stored, each entry is the new one or was there before,
/// and the new one is there.
pub proof fn lemma_insert_entry_members<V>(entries: Seq<(Seq<u8>, V)>, key: Seq<u8>, value: V)
    requires
        ascending(entries),
    ensures
        forall|i: int|
            0 <= i < insert_entry(entries, key, value).len() ==> {
                let entry = #[trigger] insert_entry(entries, key, value)[i];
                entry == (key, value) || entries.contains(entry)
            },
        insert_entry(entries, key, value).contains((key, value)),
{
    lemma_rank_splits(entries, key);
    let place = rank(entries, key);
    let after = insert_entry(entries, key, value);
    assert(after[place] == (key, value));
    assert forall|i: int| 0 <= i < after.len() implies {
        let entry = #[trigger] after[i];
        entry == (key, value) || entries.contains(entry)
    } by {
        if i < place {
            assert(after[i] == entries[i]);
        } else if i > place {
            if place < entries.len() && entries[place].0 == key {
                assert(after[i] == entries[i]);
            } else {
                assert(after[i] == entries[i - 1]);
            }
        }
    }
}

/// Among ascending entries each one stands at the rank of its key, so that
/// looking its key up finds its value.
pub proof fn lemma_lookup_finds_entry<V>(entries: Seq<(Seq<u8>, V)>, index: int)
    requires
        ascending(entries),
        0 <= index < entries.len(),
    ensures
        rank(entries, entries[index].0) == index,
        lookup(entries, entries[index].0) == Some(entries[index].1),
{
    let key = entries[index].0;
    assert forall|j: int| index <= j < entries.len() implies !precedes(
        (#[trigger] entries[j]).0,
        key,
    ) by {
        if j == index {
            lemma_precedes_irreflexive(key);
        } else {
            lemma_precedes_asymmetric(key, entries[j].0);
        }
    }
    lemma_rank_is_split(entries, key, index);
}

/// The rank of a key after a value was stored under another or the same key:
/// it grows by one where the stored key is new and comes before it.
pub proof fn lemma_rank_after_insert<V>(
    entries: Seq<(Seq<u8>, V)>,
    key: Seq<u8>,
    value: V,
    other: Seq<u8>,
)
    requires
        ascending(entries),
    ensures
        rank(insert_entry(entries, key, value), other) == rank(entries, other) + if lookup(
            entries,
            key,
        ) is None && precedes(key, other) {
            1int
        } else {
            0int
        },
{
    lemma_rank_splits(entries, key);
    lemma_rank_splits(entries, other);
    let place = rank(entries, key);
    let at = rank(entries, other);
    let after = insert_entry(entries, key, value);
    if place < entries.len() && entries[place].0 == key {
        assert forall|j: int| 0 <= j < after.len() implies (#[trigger] after[j]).0
            == entries[j].0 by {}
        lemma_rank_is_split(after, other, at);
    } else if precedes(key, other) {
        if at < place {
            lemma_precedes_transitive(entries[at].0, key, other);
        }
        assert forall|j: int| 0 <= j < at + 1 implies precedes((#[trigger] after[j]).0, other) by {
            if j < place {
                assert(after[j] == entries[j]);
            } else if j > place {
                assert(after[j] == entries[j - 1]);
            }
        }
        assert forall|j: int| at + 1 <= j < after.len() implies !precedes(
            (#[trigger] after[j]).0,
            other,
        ) by {
            assert(after[j] == entries[j - 1]);
        }
        lemma_rank_is_split(after, other, at + 1);
    } else {
        if place < at {
            lemma_precedes_total(key, entries[place].0);
            lemma_precedes_transitive(key, entries[place].0, other);
        }
        assert forall|j: int| 0 <= j < at implies precedes((#[trigger] after[j]).0, other) by {
            assert(after[j] == entries[j]);
        }
        assert forall|j: int| at <= j < after.len() implies !precedes(
            (#[trigger] after[j]).0,
            other,
        ) by {
            if j < place {
                assert(after[j] == entries[j]);
            } else if j > place {
                assert(after[j] == entries[j - 1]);
            }
        }
        lemma_rank_is_split(after, other, at);
    }
}

/// Looking up after storing: the stored key has the stored value, and every
/// other key has what it had.
pub proof fn lemma_lookup_after_insert<V>(
    entries: Seq<(Seq<u8>, V)>,
    key: Seq<u8>,
    value: V,
    other: Seq<u8>,
)
    requires
        ascending(entries),
    ensures
        lookup(insert_entry(entries, key, value), other) == if other == key {
            Some(value)
        } else {
            lookup(entries, other)
        },
{
    lemma_rank_splits(entries, key);
    lemma_rank_splits(entries, other);
    lemma_rank_after_insert(entries, key, value, other);
    lemma_precedes_irreflexive(key);
    let place = rank(entries, key);
    let at = rank(entries, other);
    let after = insert_entry(entries, key, value);
    if other != key {
        lemma_precedes_total(key, other);
        if place < entries.len() && entries[place].0 == key {
            if at < entries.len() && at != place {
                assert(after[at] == entries[at]);
            }
        } else if precedes(key, other) {
            if at < place {
                lemma_precedes_transitive(entries[at].0, key, other);
            }
            if at < entries.len() {
                assert(after[at + 1] == entries[at]);
            }
        } else {
            if place < at {
                lemma_precedes_total(key, entries[place].0);
                lemma_precedes_transitive(key, entries[place].0, other);
            }
            if at < place {
                assert(after[at] == entries[at]);
            } else {
                assert(after[at] == (key, value));
            }
        }
    } else {
        assert(after[place] == (key, value));
    }
}

/// Ascending entries are told by what is looked up in them: two dictionaries
/// that hold the same value under every key have the same entries.
pub proof fn lemma_same_lookups_same_entries<V>(
    first: Seq<(Seq<u8>, V)>,
    second: Seq<(Seq<u8>, V)>,
)
    requires
        ascending(first),
        ascending(second),
        forall|key: Seq<u8>| #[trigger] lookup(first, key) == lookup(second, key),
    ensures
        first == second,
{
    if first.len() > 0 {
        lemma_entry_at_least(first, second, first.len() - 1);
    }
    if second.len() > 0 {
        lemma_entry_at_least(second, first, second.len() - 1);
    }
    assert forall|i: int| 0 <= i < first.len() implies #[trigger] first[i] == second[i] by {
        let key = first[i].0;
        let there = rank(second, key);
        lemma_entry_at_least(first, second, i);
        lemma_entry_at_least(second, first, there);
        lemma_lookup_finds_entry(first, i);
        lemma_lookup_finds_entry(second, there);
        assert(lookup(first, key) == lookup(second, key));
    }
    assert(first =~= second);
}

/// An entry of `first` stands in `second`, where the same lookups succeed,
/// at its own index or behind it.
proof fn lemma_entry_at_least<V>(first: Seq<(Seq<u8>, V)>, second: Seq<(Seq<u8>, V)>, index: int)
    requires
        ascending(first),
        ascending(second),
        forall|key: Seq<u8>| #[trigger] lookup(first, key) == lookup(second, key),
        0 <= index < first.len(),
    ensures
        index <= rank(second, first[index].0) < second.len(),
        second[rank(second, first[index].0)].0 == first[index].0,
    decreases index,
{
    let key = first[index].0;
    lemma_lookup_finds_entry(first, index);
    assert(lookup(second, key) == Some(first[index].1));
    lemma_rank_splits(second, key);
    if index > 0 {
        lemma_entry_at_least(first, second, index - 1);
        let before = rank(second, first[index - 1].0);
        assert(precedes(first[index - 1].0, key));
        if rank(second, key) <= before {
            if rank(second, key) < before {
                assert(precedes(second[rank(second, key)].0, second[before].0));
            }
            lemma_precedes_asymmetric(first[index - 1].0, key);
        }
    }
}

/// The order in which values are stored under different keys does not
/// matter.
pub proof fn lemma_insert_entry_commutes<V>(
    entries: Seq<(Seq<u8>, V)>,
    first_key: Seq<u8>,
    first_value: V,
    second_key: Seq<u8>,
    second_value: V,
)
    requires
        ascending(entries),
        first_key != second_key,
    ensures
        insert_entry(insert_entry(entries, first_key, first_value), second_key, second_value)
            == insert_entry(
            insert_entry(entries, second_key, second_value),
            first_key,
            first_value,
        ),
{
    let first = insert_entry(entries, first_key, first_value);
    let second = insert_entry(entries, second_key, second_value);
    let one = insert_entry(first, second_key, second_value);
    let other = insert_entry(second, first_key, first_value);
    lemma_insert_entry_ascending(entries, first_key, first_value);
    lemma_insert_entry_ascending(entries, second_key, second_value);
    lemma_insert_entry_ascending(first, second_key, second_value);
    lemma_insert_entry_ascending(second, first_key, first_value);
    assert forall|key: Seq<u8>| #[trigger] lookup(one, key) == lookup(other, key) by {
        lemma_lookup_after_insert(entries, first_key, first_value, key);
        lemma_lookup_after_insert(entries, second_key, second_value, key);
        lemma_lookup_after_insert(first, second_key, second_value, key);
        lemma_lookup_after_insert(second, first_key, first_value, key);
    }
    lemma_same_lookups_same_entries(one, other);
}

} // verus!
