//! Decoding inverts encoding: the theorems that tie the two directions of the
//! codec together.

use crate::bencode::{Bencode, Value};
use crate::decimal::{decimal_digits, is_digit, lemma_decimal_digits, lemma_digit_count};
use crate::entries::{ascending, insert_entry, lemma_insert_entry_behind};
use crate::symbols::{COLON, DICTIONARY, END, INTEGER, LIST, MINUS};
use crate::wire::{
    encoding, entries_encoding, items_encoding, parse_dictionary, parse_list,
    parse_number, parse_value, string_encoding, Failure,
};
use vstd::prelude::*;

verus! {

/// The bytes of a value begin with the byte that tells its shape.
pub proof fn lemma_encoding_begins_with_tag(value: Value)
    ensures
        encoding(value).len() > 0,
        match value {
            Value::Integer(_) => encoding(value)[0] == INTEGER,
            Value::String(_) => is_digit(encoding(value)[0]),
            Value::List(_) => encoding(value)[0] == LIST,
            Value::Dictionary(_) => encoding(value)[0] == DICTIONARY,
        },
{
    if let Value::String(bytes) = value {
        lemma_decimal_digits(bytes.len());
        assert(encoding(value)[0] == decimal_digits(bytes.len())[0]);
    }
}

/// A numeral that was written is read back as its number, up to the byte
/// behind it.
pub proof fn lemma_numeral_reads_back(number: nat, rest: Seq<u8>)
    requires
        number <= i64::MAX,
        rest.len() > 0,
        !is_digit(rest[0]),
    ensures
        parse_number(decimal_digits(number) + rest) == Ok::<(int, Seq<u8>), Failure>(
            (number as int, rest),
        ),
{
    let digits = decimal_digits(number);
    let bytes = digits + rest;
    let count = digits.len() as int;
    lemma_decimal_digits(number);
    assert(bytes.take(count) =~= digits);
    assert(bytes[count] == rest[0]);
    lemma_digit_count(bytes, count);
    assert(bytes.skip(count) =~= rest);
}

/// An integer that was written is read back.
pub proof fn lemma_integer_reads_back(number: int, rest: Seq<u8>)
    requires
        i64::MIN < number <= i64::MAX,
    ensures
        parse_value(encoding(Value::Integer(number)) + rest) == Ok::<(Value, Seq<u8>), Failure>(
            (Value::Integer(number), rest),
        ),
{
    let bytes = encoding(Value::Integer(number)) + rest;
    let magnitude = if number < 0 {
        (-number) as nat
    } else {
        number as nat
    };
    let digits = decimal_digits(magnitude);
    let tail = seq![END] + rest;
    lemma_decimal_digits(magnitude);
    lemma_numeral_reads_back(magnitude, tail);
    let inner = bytes.skip(1);
    assert(bytes[0] == INTEGER);
    if number < 0 {
        assert(inner =~= seq![MINUS] + (digits + tail));
        assert(inner.skip(1) =~= digits + tail);
    } else {
        assert(inner =~= digits + tail);
        assert(inner[0] == digits[0]);
    }
    assert(tail.skip(1) =~= rest);
}

/// A byte string that was written is read back.
pub proof fn lemma_string_reads_back(bytes: Seq<u8>, rest: Seq<u8>)
    requires
        bytes.len() <= i64::MAX,
    ensures
        parse_value(string_encoding(bytes) + rest) == Ok::<(Value, Seq<u8>), Failure>(
            (Value::String(bytes), rest),
        ),
{
    let input = string_encoding(bytes) + rest;
    let digits = decimal_digits(bytes.len());
    let tail = seq![COLON] + bytes + rest;
    lemma_decimal_digits(bytes.len());
    lemma_numeral_reads_back(bytes.len(), tail);
    assert(input =~= digits + tail);
    assert(input[0] == digits[0]);
    assert(tail.subrange(1, 1 + bytes.len() as int) =~= bytes);
    assert(tail.skip(1 + bytes.len() as int) =~= rest);
}

/// Decoding inverts encoding. Whatever bytes follow, the bytes of a
/// well-formed value that the decoder can give back at all are read as that
/// value, and what follows them is left unread.
pub proof fn theorem_decoding_inverts_encoding(value: Value, rest: Seq<u8>)
    requires
        value.well_formed(),
        value.decodable(),
    ensures
        parse_value(encoding(value) + rest) == Ok::<(Value, Seq<u8>), Failure>((value, rest)),
    decreases value,
{
    let bytes = encoding(value) + rest;
    match value {
        Value::Integer(number) => {
            lemma_integer_reads_back(number, rest);
        },
        Value::String(payload) => {
            lemma_string_reads_back(payload, rest);
        },
        Value::List(items) => {
            lemma_items_read_back(items, Seq::empty(), rest);
            assert(bytes[0] == LIST);
            assert(bytes.skip(1) =~= items_encoding(items) + seq![END] + rest);
            assert(Seq::<Value>::empty() + items =~= items);
        },
        Value::Dictionary(entries) => {
            assert(Seq::<(Seq<u8>, Value)>::empty() + entries =~= entries);
            lemma_entries_read_back(entries, Seq::empty(), rest);
            assert(bytes[0] == DICTIONARY);
            assert(bytes.skip(1) =~= entries_encoding(entries) + seq![END] + rest);
        },
    }
}

/// Encoding is deterministic: trees that stand for one value are written as
/// the same bytes, and so is one tree that is written twice.
pub proof fn theorem_encoding_is_deterministic(first: Bencode, second: Bencode)
    requires
        first@ == second@,
    ensures
        encoding(first@) == encoding(second@),
{
}

/// What was decoded is decoded again from what it is written as: the decoder
/// gives nothing that the encoder and the decoder do not carry back to it.
pub proof fn theorem_decoded_values_come_back(bytes: Seq<u8>, rest: Seq<u8>)
    ensures
        parse_value(bytes) matches Ok((value, _)) ==> parse_value(encoding(value) + rest) == Ok::<
            (Value, Seq<u8>),
            Failure,
        >((value, rest)),
{
    if let Ok((value, _)) = parse_value(bytes) {
        crate::wire::lemma_parse_value_sound(bytes);
        theorem_decoding_inverts_encoding(value, rest);
    }
}

/// No value is written as the beginning of what another is written as: from
/// bytes that begin with an encoding, the value and what follows it can be
/// told in one way only. In particular two values with the same bytes are the
/// same value.
pub proof fn theorem_encoding_is_unambiguous(
    first: Value,
    first_rest: Seq<u8>,
    second: Value,
    second_rest: Seq<u8>,
)
    requires
        first.well_formed(),
        first.decodable(),
        second.well_formed(),
        second.decodable(),
        encoding(first) + first_rest == encoding(second) + second_rest,
    ensures
        first == second,
        first_rest == second_rest,
{
    theorem_decoding_inverts_encoding(first, first_rest);
    theorem_decoding_inverts_encoding(second, second_rest);
}

/// The items of a list that were written are read back behind the items
/// `read` before them.
proof fn lemma_items_read_back(items: Seq<Value>, read: Seq<Value>, rest: Seq<u8>)
    requires
        forall|i: int| 0 <= i < items.len() ==> (#[trigger] items[i]).well_formed(),
        forall|i: int| 0 <= i < items.len() ==> (#[trigger] items[i]).decodable(),
    ensures
        parse_list(items_encoding(items) + seq![END] + rest, read) == Ok::<
            (Value, Seq<u8>),
            Failure,
        >((Value::List(read + items), rest)),
    decreases items,
{
    let bytes = items_encoding(items) + seq![END] + rest;
    if items.len() == 0 {
        assert(bytes =~= seq![END] + rest);
        assert(bytes.skip(1) =~= rest);
        assert(read + items =~= read);
    } else {
        let first = items[0];
        let others = items.drop_first();
        let tail = items_encoding(others) + seq![END] + rest;
        assert(first.well_formed() && first.decodable());
        assert forall|i: int| 0 <= i < others.len() implies (#[trigger] others[i]).well_formed()
            && others[i].decodable() by {
            assert(others[i] == items[i + 1]);
        }
        lemma_encoding_begins_with_tag(first);
        theorem_decoding_inverts_encoding(first, tail);
        lemma_items_read_back(others, read.push(first), rest);
        assert(bytes =~= encoding(first) + tail);
        assert(bytes[0] == encoding(first)[0]);
        assert(read.push(first) + others =~= read + items);
    }
}

/// An entry that was written is read as the key and the value it was made of,
/// given that the value alone is read back.
proof fn lemma_entry_reads_back(
    key: Seq<u8>,
    value: Value,
    read: Seq<(Seq<u8>, Value)>,
    tail: Seq<u8>,
)
    requires
        vstd::utf8::valid_utf8(key),
        key.len() <= i64::MAX,
        parse_value(encoding(value) + tail) == Ok::<(Value, Seq<u8>), Failure>((value, tail)),
    ensures
        parse_dictionary(string_encoding(key) + encoding(value) + tail, read) == parse_dictionary(
            tail,
            insert_entry(read, key, value),
        ),
{
    let middle = encoding(value) + tail;
    let bytes = string_encoding(key) + encoding(value) + tail;
    lemma_string_reads_back(key, middle);
    lemma_encoding_begins_with_tag(Value::String(key));
    lemma_encoding_begins_with_tag(value);
    assert(bytes =~= string_encoding(key) + middle);
    assert(bytes[0] == string_encoding(key)[0]);
    assert(middle[0] == encoding(value)[0]);
    assert(parse_value(bytes) == Ok::<(Value, Seq<u8>), Failure>((Value::String(key), middle)));
    assert(middle.len() < bytes.len());
    assert(tail.len() < bytes.len());
}

/// The entries of a dictionary that were written are read back behind the
/// entries `read` before them.
proof fn lemma_entries_read_back(
    entries: Seq<(Seq<u8>, Value)>,
    read: Seq<(Seq<u8>, Value)>,
    rest: Seq<u8>,
)
    requires
        Value::Dictionary(entries).well_formed(),
        Value::Dictionary(entries).decodable(),
        ascending(read + entries),
    ensures
        parse_dictionary(entries_encoding(entries) + seq![END] + rest, read) == Ok::<
            (Value, Seq<u8>),
            Failure,
        >((Value::Dictionary(read + entries), rest)),
    decreases entries,
{
    let bytes = entries_encoding(entries) + seq![END] + rest;
    if entries.len() == 0 {
        assert(bytes =~= seq![END] + rest);
        assert(bytes.skip(1) =~= rest);
        assert(read + entries =~= read);
    } else {
        let key = entries[0].0;
        let value = entries[0].1;
        let others = entries.drop_first();
        let longer = read.push((key, value));
        let tail = entries_encoding(others) + seq![END] + rest;
        let whole = read + entries;
        Value::lemma_dictionary(entries);
        Value::lemma_dictionary(others);
        assert(value.well_formed() && value.decodable());
        assert(Value::Dictionary(others).well_formed() && Value::Dictionary(others).decodable())
            by {
            assert forall|i: int| 0 <= i < others.len() implies others[i] == entries[i + 1] by {}
            assert forall|i: int, j: int| 0 <= i < j < others.len() implies crate::keys::precedes(
                others[i].0,
                others[j].0,
            ) by {
                assert(crate::keys::precedes(entries[i + 1].0, entries[j + 1].0));
            }
        }
        assert forall|j: int| 0 <= j < read.len() implies crate::keys::precedes(
            (#[trigger] read[j]).0,
            key,
        ) by {
            assert(whole[j] == read[j]);
            assert(whole[read.len() as int] == entries[0]);
        }
        assert(longer + others =~= whole);
        theorem_decoding_inverts_encoding(value, tail);
        lemma_entry_reads_back(key, value, read, tail);
        lemma_insert_entry_behind(read, key, value);
        lemma_entries_read_back(others, longer, rest);
        assert(bytes =~= string_encoding(key) + encoding(value) + tail);
    }
}

} // verus!
