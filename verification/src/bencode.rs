//! The value model: the four shapes of a Bencode value, as a tree that the
//! program holds and as the mathematical value that the tree stands for.

use crate::dictionary::Dictionary;
use crate::entries::ascending;
use crate::keys::{compare, Placement};
use vstd::prelude::*;
use vstd::utf8::valid_utf8;

verus! {

/// The mathematical value of a [`Bencode`] tree. Contracts are stated over
/// this type. A dictionary is the sequence of its entries, each a key with its
/// value, in ascending order of the keys; a key is the UTF-8 bytes of the text.
#[verifier::ext_equal]
pub enum Value {
    Integer(int),
    String(Seq<u8>),
    List(Seq<Value>),
    Dictionary(Seq<(Seq<u8>, Value)>),
}

impl Value {
    /// The value belongs to the data model: every integer fits 64 signed bits,
    /// and in every dictionary the keys are UTF-8 text, no key occurs twice and
    /// the entries stand in ascending byte-lexicographic order of their keys.
    pub open spec fn well_formed(self) -> bool
        decreases self,
    {
        match self {
            Value::Integer(number) => i64::MIN <= number <= i64::MAX,
            Value::String(_) => true,
            Value::List(items) => forall|i: int|
                0 <= i < items.len() ==> (#[trigger] items[i]).well_formed(),
            Value::Dictionary(entries) => {
                &&& ascending(entries)
                &&& forall|i: int|
                    0 <= i < entries.len() ==> valid_utf8((#[trigger] entries[i]).0)
                        && entries[i].1.well_formed()
            },
        }
    }

    /// The value is one that the decoder gives back. The decoder reads the
    /// magnitude of an integer, and the length of a string, as a numeral of at
    /// most `i64::MAX`: it takes neither the least 64-bit integer, whose
    /// magnitude is one more, nor a string or a key of more bytes than that.
    pub open spec fn decodable(self) -> bool
        decreases self,
    {
        match self {
            Value::Integer(number) => number != i64::MIN,
            Value::String(bytes) => bytes.len() <= i64::MAX,
            Value::List(items) => forall|i: int|
                0 <= i < items.len() ==> (#[trigger] items[i]).decodable(),
            Value::Dictionary(entries) => forall|i: int|
                0 <= i < entries.len() ==> (#[trigger] entries[i]).0.len() <= i64::MAX
                    && entries[i].1.decodable(),
        }
    }

    /// What `well_formed` and `decodable` say of a list, item by item.
    pub proof fn lemma_list(items: Seq<Value>)
        ensures
            Value::List(items).well_formed() <==> forall|i: int|
                0 <= i < items.len() ==> (#[trigger] items[i]).well_formed(),
            Value::List(items).decodable() <==> forall|i: int|
                0 <= i < items.len() ==> (#[trigger] items[i]).decodable(),
    {
        assert(Value::List(items)->List_0 == items);
    }

    /// What `well_formed` and `decodable` say of a dictionary, entry by entry.
    pub proof fn lemma_dictionary(entries: Seq<(Seq<u8>, Value)>)
        ensures
            Value::Dictionary(entries).well_formed() <==> ascending(entries) && forall|i: int|
                0 <= i < entries.len() ==> valid_utf8((#[trigger] entries[i]).0)
                    && entries[i].1.well_formed(),
            Value::Dictionary(entries).decodable() <==> forall|i: int|
                0 <= i < entries.len() ==> (#[trigger] entries[i]).0.len() <= i64::MAX
                    && entries[i].1.decodable(),
    {
        assert(Value::Dictionary(entries)->Dictionary_0 == entries);
    }
}

/// A Bencode value: an integer, a byte string, a list of values, or a
/// dictionary from text keys to values. Each node owns its children.
#[derive(Debug, Eq)]
pub enum Bencode {
    Integer(i64),
    String(Vec<u8>),
    List(Vec<Bencode>),
    Dictionary(Dictionary),
}

impl View for Bencode {
    type V = Value;

    open spec fn view(&self) -> Value
        decreases self,
    {
        match self {
            Bencode::Integer(number) => Value::Integer(*number as int),
            Bencode::String(bytes) => Value::String(bytes@),
            Bencode::List(items) => Value::List(values(items@)),
            Bencode::Dictionary(dictionary) => Value::Dictionary(dictionary@),
        }
    }
}

/// The values of the trees in `items`, in the same order.
pub open spec fn values(items: Seq<Bencode>) -> Seq<Value>
    decreases items,
{
    if items.len() == 0 {
        Seq::empty()
    } else {
        values(items.drop_last()).push(items.last()@)
    }
}

/// `values` keeps the length and takes the value of each item.
pub proof fn lemma_values(items: Seq<Bencode>)
    ensures
        values(items).len() == items.len(),
        forall|i: int| 0 <= i < items.len() ==> (#[trigger] values(items)[i]) == items[i]@,
    decreases items.len(),
{
    if items.len() > 0 {
        lemma_values(items.drop_last());
        assert(values(items) == values(items.drop_last()).push(items.last()@));
    } else {
        assert(values(items) =~= Seq::<Value>::empty());
    }
}

impl Bencode {
    /// Whether two trees stand for the same value.
    pub(crate) fn same(&self, other: &Bencode) -> (result: bool)
        ensures
            result == (self@ == other@),
        decreases self@,
    {
        match (self, other) {
            (Bencode::Integer(left), Bencode::Integer(right)) => *left == *right,
            (Bencode::String(left), Bencode::String(right)) => {
                compare(left.as_slice(), right.as_slice()) == Placement::Same
            },
            (Bencode::List(left), Bencode::List(right)) => {
                proof {
                    lemma_values(left@);
                    lemma_values(right@);
                }
                if left.len() != right.len() {
                    return false;
                }
                let mut index: usize = 0;
                while index < left.len()
                    invariant
                        index <= left.len(),
                        left.len() == right.len(),
                        self@ == Value::List(values(left@)),
                        other@ == Value::List(values(right@)),
                        values(left@).len() == left@.len(),
                        values(right@).len() == right@.len(),
                        forall|i: int|
                            0 <= i < left@.len() ==> (#[trigger] values(left@)[i]) == left@[i]@,
                        forall|i: int|
                            0 <= i < right@.len() ==> (#[trigger] values(right@)[i]) == right@[i]@,
                        forall|i: int|
                            0 <= i < index ==> (#[trigger] values(left@)[i]) == values(right@)[i],
                    decreases left.len() - index,
                {
                    assert(values(left@)[index as int] == left@[index as int]@);
                    assert(self@->List_0 == values(left@));
                    if !left[index].same(&right[index]) {
                        assert(values(left@)[index as int] != values(right@)[index as int]);
                        return false;
                    }
                    index += 1;
                }
                assert(values(left@) =~= values(right@));
                true
            },
            (Bencode::Dictionary(left), Bencode::Dictionary(right)) => {
                assert(self@->Dictionary_0 == left@);
                left.same(right)
            },
            _ => false,
        }
    }
}

impl PartialEq for Bencode {
    /// Two trees are equal where they stand for the same value.
    fn eq(&self, other: &Self) -> (result: bool) {
        self.same(other)
    }
}

impl vstd::std_specs::cmp::PartialEqSpecImpl for Bencode {
    open spec fn obeys_eq_spec() -> bool {
        true
    }

    open spec fn eq_spec(&self, other: &Self) -> bool {
        self@ == other@
    }
}

} // verus!
