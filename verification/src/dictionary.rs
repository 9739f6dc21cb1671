//! The dictionary of the value model: a mapping from text keys to values that
//! keeps its entries in ascending byte-lexicographic order of the keys, so
//! that walking it yields the canonical order of the encoding.

use crate::bencode::{Bencode, Value};
use crate::entries::{
    ascending, insert_entry, lemma_insert_entry_ascending, lemma_rank_is_split,
    lemma_rank_splits, lookup, rank,
};
use crate::keys::{
    compare, lemma_precedes_asymmetric, lemma_precedes_irreflexive, lemma_precedes_transitive,
    precedes, Placement,
};
use vstd::prelude::*;
use vstd::utf8::{encode_utf8, encode_utf8_valid_utf8, valid_utf8};

verus! {

/// A dictionary: text keys, each with one value. The entries are kept in
/// ascending byte-lexicographic order of the keys' UTF-8 bytes, which is the
/// order in which the canonical encoding lists them.
#[derive(Debug, Eq)]
pub struct Dictionary {
    entries: Vec<(String, Bencode)>,
}

impl View for Dictionary {
    type V = Seq<(Seq<u8>, Value)>;

    /// The entries in order, each key as its UTF-8 bytes.
    closed spec fn view(&self) -> Seq<(Seq<u8>, Value)>
        decreases self,
    {
        model(self.entries@)
    }
}

/// The view of a dictionary that holds `stored`.
spec fn model(stored: Seq<(String, Bencode)>) -> Seq<(Seq<u8>, Value)>
    decreases stored,
{
    if stored.len() == 0 {
        Seq::empty()
    } else {
        model(stored.drop_last()).push((encode_utf8(stored.last().0@), stored.last().1@))
    }
}

/// `model` keeps the length and takes each key as its bytes and each value as
/// its view.
proof fn lemma_model(stored: Seq<(String, Bencode)>)
    ensures
        model(stored).len() == stored.len(),
        forall|i: int|
            0 <= i < stored.len() ==> (#[trigger] model(stored)[i]) == (
                encode_utf8(stored[i].0@),
                stored[i].1@,
            ),
    decreases stored.len(),
{
    if stored.len() > 0 {
        lemma_model(stored.drop_last());
        assert(model(stored) == model(stored.drop_last()).push(
            (encode_utf8(stored.last().0@), stored.last().1@),
        ));
    } else {
        assert(model(stored) =~= Seq::<(Seq<u8>, Value)>::empty());
    }
}

impl Dictionary {
    /// What holds of every dictionary: the keys ascend strictly, so none
    /// occurs twice, and each is valid UTF-8.
    #[verifier::type_invariant]
    pub open spec fn well_formed(&self) -> bool {
        &&& ascending(self@)
        &&& forall|i: int| 0 <= i < self@.len() ==> valid_utf8((#[trigger] self@[i]).0)
    }

    /// An empty dictionary.
    pub fn new() -> (dictionary: Dictionary)
        ensures
            dictionary@ == Seq::<(Seq<u8>, Value)>::empty(),
    {
        Dictionary { entries: Vec::new() }
    }

    /// The number of entries.
    pub fn len(&self) -> (count: usize)
        ensures
            count == self@.len(),
    {
        proof {
            lemma_model(self.entries@);
        }
        self.entries.len()
    }

    /// The key and the value of the entry at `index`, counting in ascending
    /// order of the keys, if there are that many entries.
    pub fn entry(&self, index: usize) -> (entry: Option<(&String, &Bencode)>)
        ensures
            match entry {
                Some((key, value)) => {
                    &&& index < self@.len()
                    &&& encode_utf8(key@) == self@[index as int].0
                    &&& value@ == self@[index as int].1
                },
                None => index >= self@.len(),
            },
    {
        proof {
            lemma_model(self.entries@);
        }
        if index < self.entries.len() {
            let held = &self.entries[index];
            Some((&held.0, &held.1))
        } else {
            None
        }
    }

    /// Finds `key` among the entries: the rank of the key, and whether the
    /// entry at that place has this key.
    fn locate(&self, key: &[u8]) -> (place: (usize, bool))
        ensures
            place.0 == rank(self@, key@),
            place.1 == (place.0 < self@.len() && self@[place.0 as int].0 == key@),
    {
        proof {
            use_type_invariant(self);
            lemma_model(self.entries@);
        }
        let mut index = self.entries.len();
        while index > 0
            invariant
                index <= self@.len(),
                self@ == model(self.entries@),
                self@.len() == self.entries@.len(),
                forall|j: int|
                    0 <= j < self@.len() ==> (#[trigger] self@[j]).0 == encode_utf8(
                        self.entries@[j].0@,
                    ),
                ascending(self@),
                forall|j: int| index <= j < self@.len() ==> precedes(key@, (#[trigger] self@[j]).0),
            decreases index,
        {
            let held = self.entries[index - 1].0.as_str().as_bytes();
            assert(held@ == self@[index - 1].0);
            match compare(held, key) {
                Placement::Before => {
                    proof {
                        self.lemma_located(key@, index as int, false);
                    }
                    return (index, false);
                },
                Placement::Same => {
                    proof {
                        self.lemma_located(key@, index - 1, true);
                    }
                    return (index - 1, true);
                },
                Placement::After => {
                    index -= 1;
                },
            }
        }
        proof {
            self.lemma_located(key@, 0, false);
        }
        (0, false)
    }

    /// The place that a scan from the back arrives at is the rank of the key.
    proof fn lemma_located(&self, key: Seq<u8>, place: int, found: bool)
        requires
            ascending(self@),
            0 <= place <= self@.len(),
            found ==> place < self@.len() && self@[place].0 == key,
            !found ==> place == 0 || precedes(self@[place - 1].0, key),
            forall|j: int|
                place + if found { 1int } else { 0int } <= j < self@.len() ==> precedes(
                    key,
                    (#[trigger] self@[j]).0,
                ),
        ensures
            place == rank(self@, key),
            found == (place < self@.len() && self@[place].0 == key),
    {
        let entries = self@;
        assert forall|j: int| 0 <= j < place implies precedes((#[trigger] entries[j]).0, key) by {
            if found {
                assert(precedes(entries[j].0, entries[place].0));
            } else if j < place - 1 {
                assert(precedes(entries[j].0, entries[place - 1].0));
                lemma_precedes_transitive(entries[j].0, entries[place - 1].0, key);
            }
        }
        assert forall|j: int| place <= j < entries.len() implies !precedes(
            (#[trigger] entries[j]).0,
            key,
        ) by {
            if found && j == place {
                lemma_precedes_irreflexive(key);
            } else {
                lemma_precedes_asymmetric(key, entries[j].0);
            }
        }
        lemma_rank_is_split(entries, key, place);
        if !found && place < entries.len() {
            lemma_precedes_asymmetric(key, entries[place].0);
        }
    }

    /// The value stored under `key`, if there is one.
    pub fn get(&self, key: &str) -> (value: Option<&Bencode>)
        ensures
            match value {
                Some(held) => lookup(self@, encode_utf8(key@)) == Some(held@),
                None => lookup(self@, encode_utf8(key@)) is None,
            },
    {
        let (index, found) = self.locate(key.as_bytes());
        proof {
            lemma_model(self.entries@);
        }
        if found {
            Some(&self.entries[index].1)
        } else {
            None
        }
    }

    /// Stores `value` under `key` and returns the value that the key had
    /// before, if any: the last value stored under a key is the one it keeps.
    pub fn insert(&mut self, key: String, value: Bencode) -> (previous: Option<Bencode>)
        ensures
            final(self)@ == insert_entry(old(self)@, encode_utf8(key@), value@),
            match previous {
                Some(held) => lookup(old(self)@, encode_utf8(key@)) == Some(held@),
                None => lookup(old(self)@, encode_utf8(key@)) is None,
            },
    {
        proof {
            use_type_invariant(&*self);
            lemma_insert_entry_ascending(self@, encode_utf8(key@), value@);
            lemma_rank_splits(self@, encode_utf8(key@));
            encode_utf8_valid_utf8(key@);
        }
        let (index, found) = self.locate(key.as_str().as_bytes());
        let ghost before = self@;
        let ghost after = insert_entry(before, encode_utf8(key@), value@);
        let ghost stored = self.entries@;
        proof {
            lemma_model(stored);
        }
        // The entries are taken out while they change: the invariant of the
        // type holds of the dictionary at every step.
        let mut entries: Vec<(String, Bencode)> = Vec::new();
        core::mem::swap(&mut entries, &mut self.entries);
        assert(entries@ == stored);
        let previous = if found {
            let replaced = entries.remove(index);
            assert(replaced.1@ == before[index as int].1);
            Some(replaced.1)
        } else {
            None
        };
        entries.insert(index, (key, value));
        assert(model(entries@) =~= after) by {
            lemma_model(entries@);
            assert(model(entries@).len() == after.len());
            assert forall|i: int| 0 <= i < after.len() implies model(entries@)[i] == after[i] by {
                if i < index {
                    assert(entries@[i] == stored[i]);
                } else if i > index {
                    if found {
                        assert(entries@[i] == stored[i]);
                    } else {
                        assert(entries@[i] == stored[i - 1]);
                    }
                }
            }
        }
        assert forall|i: int| 0 <= i < after.len() implies valid_utf8((#[trigger] after[i]).0) by {
            if i < index {
                assert(after[i] == before[i]);
            } else if i > index {
                if found {
                    assert(after[i] == before[i]);
                } else {
                    assert(after[i] == before[i - 1]);
                }
            }
        }
        self.entries = entries;
        previous
    }

    /// Whether two dictionaries hold the same values under the same keys.
    pub(crate) fn same(&self, other: &Dictionary) -> (result: bool)
        ensures
            result == (self@ == other@),
        decreases self@,
    {
        proof {
            lemma_model(self.entries@);
            lemma_model(other.entries@);
        }
        if self.entries.len() != other.entries.len() {
            return false;
        }
        let mut index: usize = 0;
        while index < self.entries.len()
            invariant
                index <= self.entries@.len(),
                self.entries@.len() == other.entries@.len(),
                self@ == model(self.entries@),
                other@ == model(other.entries@),
                self@.len() == self.entries@.len(),
                other@.len() == other.entries@.len(),
                forall|i: int|
                    0 <= i < self@.len() ==> (#[trigger] self@[i]) == (
                        encode_utf8(self.entries@[i].0@),
                        self.entries@[i].1@,
                    ),
                forall|i: int|
                    0 <= i < other@.len() ==> (#[trigger] other@[i]) == (
                        encode_utf8(other.entries@[i].0@),
                        other.entries@[i].1@,
                    ),
                forall|i: int| 0 <= i < index ==> (#[trigger] self@[i]) == other@[i],
            decreases self.entries@.len() - index,
        {
            let ours = &self.entries[index];
            let theirs = &other.entries[index];
            assert(self@[index as int].1 == ours.1@);
            if compare(ours.0.as_str().as_bytes(), theirs.0.as_str().as_bytes())
                != Placement::Same || !ours.1.same(&theirs.1) {
                assert(self@[index as int] != other@[index as int]);
                return false;
            }
            index += 1;
        }
        assert(self@ =~= other@);
        true
    }
}

impl PartialEq for Dictionary {
    /// Two dictionaries are equal where they hold the same values under the
    /// same keys.
    fn eq(&self, other: &Self) -> (result: bool) {
        self.same(other)
    }
}

impl vstd::std_specs::cmp::PartialEqSpecImpl for Dictionary {
    open spec fn obeys_eq_spec() -> bool {
        true
    }

    open spec fn eq_spec(&self, other: &Self) -> bool {
        self@ == other@
    }
}

} // verus!
