//! The wire format as mathematics: the bytes that a value is written as, and
//! what a sequence of bytes reads as. The encoder and the decoder are proved
//! against these functions.

use crate::bencode::Value;
use crate::decimal::{decimal_digits, decimal_value, digit_count, integer_text, is_digit};
use crate::entries::insert_entry;
use crate::symbols::{COLON, DICTIONARY, END, INTEGER, LIST, MINUS};
use vstd::prelude::*;
use vstd::utf8::valid_utf8;

verus! {

/// Why bytes do not read as a value.
pub enum Failure {
    /// The bytes end where the format wants more.
    EOF,
    /// A byte stands where a digit, or the end of a numeral, belongs.
    NAN,
    /// An integer without digits and without a sign: `ie`.
    EmptyNumber,
    /// A numeral denotes more than 64 signed bits hold.
    IntegerOverflow,
    /// What stands for a dictionary's key is this value, which is no string.
    DictionaryKeyIsNotString(Value),
    /// A dictionary closes behind a key.
    DictionaryValueMissing,
    /// A dictionary's key is not UTF-8.
    InvalidUtf8,
    /// A value begins with a byte that opens none of the four shapes.
    UnrecognizedTag,
}

/// The bytes of a byte string: the decimal length, a colon, the bytes
/// themselves.
pub open spec fn string_encoding(bytes: Seq<u8>) -> Seq<u8> {
    decimal_digits(bytes.len()) + seq![COLON] + bytes
}

/// The bytes of a value. Integers are written without leading zeros; the
/// entries of a dictionary follow each other in the order that the value holds
/// them in, which for a well-formed value is the ascending order of the keys.
pub open spec fn encoding(value: Value) -> Seq<u8>
    decreases value,
{
    match value {
        Value::Integer(number) => seq![INTEGER] + integer_text(number) + seq![END],
        Value::String(bytes) => string_encoding(bytes),
        Value::List(items) => seq![LIST] + items_encoding(items) + seq![END],
        Value::Dictionary(entries) => seq![DICTIONARY] + entries_encoding(entries) + seq![END],
    }
}

/// The bytes of the items of a list, one behind the other.
pub open spec fn items_encoding(items: Seq<Value>) -> Seq<u8>
    decreases items,
{
    if items.len() == 0 {
        Seq::empty()
    } else {
        encoding(items[0]) + items_encoding(items.drop_first())
    }
}

/// The bytes of the entries of a dictionary: each key as a byte string, then
/// its value.
pub open spec fn entries_encoding(entries: Seq<(Seq<u8>, Value)>) -> Seq<u8>
    decreases entries,
{
    if entries.len() == 0 {
        Seq::empty()
    } else {
        string_encoding(entries[0].0) + encoding(entries[0].1) + entries_encoding(
            entries.drop_first(),
        )
    }
}

/// A numeral at the front of `bytes`: the number it denotes and the bytes
/// behind it, of which there must be one. The numeral may be empty and then
/// denotes zero.
pub open spec fn parse_number(bytes: Seq<u8>) -> Result<(int, Seq<u8>), Failure> {
    let count = digit_count(bytes) as int;
    let number = decimal_value(bytes.take(count));
    if number > i64::MAX {
        Err(Failure::IntegerOverflow)
    } else if count == bytes.len() {
        Err(Failure::EOF)
    } else {
        Ok((number as int, bytes.skip(count)))
    }
}

/// An integer, read from the bytes behind its `i`: an optional `-`, at least
/// one digit, and `e`. Zeros at the front of the numeral do not count, and
/// `-0` is zero. The numeral is read as a magnitude of at most `i64::MAX`, so
/// that the least 64-bit integer is not read.
pub open spec fn parse_integer(bytes: Seq<u8>) -> Result<(Value, Seq<u8>), Failure> {
    if bytes.len() == 0 {
        Err(Failure::EOF)
    } else if bytes[0] == END {
        Err(Failure::EmptyNumber)
    } else {
        let negative = bytes[0] == MINUS;
        let numeral = if negative {
            bytes.skip(1)
        } else {
            bytes
        };
        if numeral.len() == 0 {
            Err(Failure::EOF)
        } else {
            match parse_number(numeral) {
                Err(failure) => Err(failure),
                Ok((magnitude, rest)) => if rest.len() == numeral.len() || rest[0] != END {
                    Err(Failure::NAN)
                } else if negative {
                    Ok((Value::Integer(-magnitude), rest.skip(1)))
                } else {
                    Ok((Value::Integer(magnitude), rest.skip(1)))
                },
            }
        }
    }
}

/// A byte string, read from its first digit on: the length, a colon, and as
/// many bytes as the length says.
pub open spec fn parse_string(bytes: Seq<u8>) -> Result<(Value, Seq<u8>), Failure> {
    match parse_number(bytes) {
        Err(failure) => Err(failure),
        Ok((length, rest)) => if rest[0] != COLON {
            Err(Failure::NAN)
        } else if rest.len() - 1 < length {
            Err(Failure::EOF)
        } else {
            Ok((Value::String(rest.subrange(1, 1 + length)), rest.skip(1 + length)))
        },
    }
}

/// One value at the front of `bytes`, and the bytes behind it. The first byte
/// decides the shape.
pub open spec fn parse_value(bytes: Seq<u8>) -> Result<(Value, Seq<u8>), Failure>
    decreases bytes.len(), 0int,
{
    if bytes.len() == 0 {
        Err(Failure::EOF)
    } else if bytes[0] == INTEGER {
        parse_integer(bytes.skip(1))
    } else if is_digit(bytes[0]) {
        parse_string(bytes)
    } else if bytes[0] == LIST {
        parse_list(bytes.skip(1), Seq::empty())
    } else if bytes[0] == DICTIONARY {
        parse_dictionary(bytes.skip(1), Seq::empty())
    } else {
        Err(Failure::UnrecognizedTag)
    }
}

/// The rest of a list of which `items` have been read: values up to an `e`.
pub open spec fn parse_list(bytes: Seq<u8>, items: Seq<Value>) -> Result<
    (Value, Seq<u8>),
    Failure,
>
    decreases bytes.len(), 1int,
{
    if bytes.len() == 0 {
        Err(Failure::EOF)
    } else if bytes[0] == END {
        Ok((Value::List(items), bytes.skip(1)))
    } else {
        match parse_value(bytes) {
            Err(failure) => Err(failure),
            Ok((item, rest)) => if rest.len() < bytes.len() {
                parse_list(rest, items.push(item))
            } else {
                Err(Failure::EOF)
            },
        }
    }
}

/// The rest of a dictionary of which `entries` have been read: pairs of a key
/// and a value up to an `e`. A key is a byte string that holds UTF-8. Of two
/// entries with one key the later one stays.
pub open spec fn parse_dictionary(bytes: Seq<u8>, entries: Seq<(Seq<u8>, Value)>) -> Result<
    (Value, Seq<u8>),
    Failure,
>
    decreases bytes.len(), 1int,
{
    if bytes.len() == 0 {
        Err(Failure::EOF)
    } else if bytes[0] == END {
        Ok((Value::Dictionary(entries), bytes.skip(1)))
    } else {
        match parse_value(bytes) {
            Err(failure) => Err(failure),
            Ok((Value::String(key), rest)) => if !valid_utf8(key) {
                Err(Failure::InvalidUtf8)
            } else if rest.len() == 0 {
                Err(Failure::EOF)
            } else if rest[0] == END {
                Err(Failure::DictionaryValueMissing)
            } else if rest.len() < bytes.len() {
                match parse_value(rest) {
                    Err(failure) => Err(failure),
                    Ok((value, rest)) => if rest.len() < bytes.len() {
                        parse_dictionary(rest, insert_entry(entries, key, value))
                    } else {
                        Err(Failure::EOF)
                    },
                }
            } else {
                Err(Failure::EOF)
            },
            Ok((key, _)) => Err(Failure::DictionaryKeyIsNotString(key)),
        }
    }
}

/// What is left behind a numeral is the bytes from its end on, the byte
/// that ended it first.
pub proof fn lemma_parse_number_rest(bytes: Seq<u8>)
    ensures
        parse_number(bytes) matches Ok((number, rest)) ==> {
            &&& 0 <= number <= i64::MAX
            &&& 0 < rest.len() <= bytes.len()
            &&& rest == bytes.skip(bytes.len() - rest.len())
            &&& !is_digit(rest[0])
            &&& rest.len() == bytes.len() <==> !is_digit(bytes[0])
        },
{
    crate::decimal::lemma_digit_count_splits(bytes);
}

/// A value that was read took at least one byte, and what is left is the end
/// of the input.
pub proof fn lemma_parse_value_rest(bytes: Seq<u8>)
    ensures
        parse_value(bytes) matches Ok((_, rest)) ==> rest.len() < bytes.len() && rest
            == bytes.skip(bytes.len() - rest.len()),
    decreases bytes.len(), 0int,
{
    if bytes.len() > 0 {
        let inner = bytes.skip(1);
        if bytes[0] == INTEGER {
            if inner.len() > 0 {
                let numeral = if inner[0] == MINUS {
                    inner.skip(1)
                } else {
                    inner
                };
                lemma_parse_number_rest(numeral);
                if let Ok((_, rest)) = parse_integer(inner) {
                    assert(rest =~= bytes.skip(bytes.len() - rest.len()));
                }
            }
        } else if is_digit(bytes[0]) {
            lemma_parse_number_rest(bytes);
            if let Ok((_, rest)) = parse_string(bytes) {
                assert(rest =~= bytes.skip(bytes.len() - rest.len()));
            }
        } else if bytes[0] == LIST {
            lemma_parse_list_rest(inner, Seq::empty());
            if let Ok((_, rest)) = parse_list(inner, Seq::empty()) {
                assert(rest =~= bytes.skip(bytes.len() - rest.len()));
            }
        } else if bytes[0] == DICTIONARY {
            lemma_parse_dictionary_rest(inner, Seq::empty());
            if let Ok((_, rest)) = parse_dictionary(inner, Seq::empty()) {
                assert(rest =~= bytes.skip(bytes.len() - rest.len()));
            }
        }
    }
}

/// A list that was read to its end took at least one byte, and what is left
/// is the end of the input.
pub proof fn lemma_parse_list_rest(bytes: Seq<u8>, items: Seq<Value>)
    ensures
        parse_list(bytes, items) matches Ok((_, rest)) ==> rest.len() < bytes.len() && rest
            == bytes.skip(bytes.len() - rest.len()),
    decreases bytes.len(), 1int,
{
    if bytes.len() > 0 && bytes[0] != END {
        lemma_parse_value_rest(bytes);
        if let Ok((item, middle)) = parse_value(bytes) {
            lemma_parse_list_rest(middle, items.push(item));
            if let Ok((_, rest)) = parse_list(middle, items.push(item)) {
                assert(rest =~= bytes.skip(bytes.len() - rest.len()));
            }
        }
    }
}

/// A dictionary that was read to its end took at least one byte, and what is
/// left is the end of the input.
pub proof fn lemma_parse_dictionary_rest(bytes: Seq<u8>, entries: Seq<(Seq<u8>, Value)>)
    ensures
        parse_dictionary(bytes, entries) matches Ok((_, rest)) ==> rest.len() < bytes.len() && rest
            == bytes.skip(bytes.len() - rest.len()),
    decreases bytes.len(), 1int,
{
    if bytes.len() > 0 && bytes[0] != END {
        lemma_parse_value_rest(bytes);
        if let Ok((Value::String(key), middle)) = parse_value(bytes) {
            if middle.len() > 0 {
                lemma_parse_value_rest(middle);
                if let Ok((value, last)) = parse_value(middle) {
                    let longer = insert_entry(entries, key, value);
                    lemma_parse_dictionary_rest(last, longer);
                    if let Ok((_, rest)) = parse_dictionary(last, longer) {
                        assert(last =~= bytes.skip(bytes.len() - last.len()));
                        assert(rest =~= bytes.skip(bytes.len() - rest.len()));
                    }
                }
            }
        }
    }
}

/// What is read as a value belongs to the data model, and is read back when
/// it is written.
pub proof fn lemma_parse_value_sound(bytes: Seq<u8>)
    ensures
        parse_value(bytes) matches Ok((value, _)) ==> value.well_formed() && value.decodable(),
    decreases bytes.len(), 0int,
{
    if bytes.len() > 0 {
        let inner = bytes.skip(1);
        if bytes[0] == INTEGER {
            if inner.len() > 0 {
                let numeral = if inner[0] == MINUS {
                    inner.skip(1)
                } else {
                    inner
                };
                lemma_parse_number_rest(numeral);
            }
        } else if is_digit(bytes[0]) {
            lemma_parse_number_rest(bytes);
        } else if bytes[0] == LIST {
            lemma_parse_list_sound(inner, Seq::empty());
        } else if bytes[0] == DICTIONARY {
            lemma_parse_dictionary_sound(inner, Seq::empty());
        }
    }
}

/// What is read as a list belongs to the data model, and is read back when it
/// is written, if that holds of the items read before.
pub proof fn lemma_parse_list_sound(bytes: Seq<u8>, items: Seq<Value>)
    requires
        Value::List(items).well_formed(),
        Value::List(items).decodable(),
    ensures
        parse_list(bytes, items) matches Ok((value, _)) ==> value.well_formed()
            && value.decodable(),
    decreases bytes.len(), 1int,
{
    Value::lemma_list(items);
    if bytes.len() > 0 && bytes[0] != END {
        lemma_parse_value_sound(bytes);
        if let Ok((item, rest)) = parse_value(bytes) {
            if rest.len() < bytes.len() {
                let longer = items.push(item);
                assert forall|i: int| 0 <= i < longer.len() implies (
                #[trigger] longer[i]).well_formed() && longer[i].decodable() by {
                    if i < items.len() {
                        assert(longer[i] == items[i]);
                        assert(items[i].well_formed() && items[i].decodable());
                    } else {
                        assert(longer[i] == item);
                    }
                }
                Value::lemma_list(longer);
                lemma_parse_list_sound(rest, longer);
            }
        }
    }
}

/// What is read as a dictionary belongs to the data model, and is read back
/// when it is written, if that holds of the entries read before.
pub proof fn lemma_parse_dictionary_sound(bytes: Seq<u8>, entries: Seq<(Seq<u8>, Value)>)
    requires
        Value::Dictionary(entries).well_formed(),
        Value::Dictionary(entries).decodable(),
    ensures
        parse_dictionary(bytes, entries) matches Ok((value, _)) ==> value.well_formed()
            && value.decodable(),
    decreases bytes.len(), 1int,
{
    if bytes.len() > 0 && bytes[0] != END {
        lemma_parse_value_sound(bytes);
        if let Ok((Value::String(key), middle)) = parse_value(bytes) {
            if valid_utf8(key) && 0 < middle.len() < bytes.len() && middle[0] != END {
                lemma_parse_value_sound(middle);
                if let Ok((value, rest)) = parse_value(middle) {
                    if rest.len() < bytes.len() {
                        let longer = insert_entry(entries, key, value);
                        Value::lemma_dictionary(entries);
                        Value::lemma_dictionary(longer);
                        crate::entries::lemma_insert_entry_ascending(entries, key, value);
                        crate::entries::lemma_insert_entry_members(entries, key, value);
                        assert forall|i: int| 0 <= i < longer.len() implies valid_utf8(
                            (#[trigger] longer[i]).0,
                        ) && longer[i].1.well_formed() && longer[i].0.len() <= i64::MAX
                            && longer[i].1.decodable() by {
                            if longer[i] != (key, value) {
                                let j = choose|j: int|
                                    0 <= j < entries.len() && entries[j] == longer[i];
                                assert(entries[j] == longer[i]);
                            }
                        }
                        lemma_parse_dictionary_sound(rest, longer);
                    }
                }
            }
        }
    }
}

} // verus!
