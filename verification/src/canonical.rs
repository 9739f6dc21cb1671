//! Canonical input: bytes in the one form that the encoder writes. What is
//! decoded from canonical input is encoded as that input again.

use crate::bencode::Value;
use crate::decimal::{
    all_digits, decimal_digits, decimal_value, digit_count, is_digit, lemma_decimal_digits,
    lemma_digit_count, lemma_digit_count_splits,
};
use crate::entries::{ascending, insert_entry, lemma_insert_entry_behind};
use crate::keys::{lemma_precedes_transitive, precedes};
use crate::roundtrip::{lemma_encoding_begins_with_tag, theorem_decoding_inverts_encoding};
use crate::symbols::{COLON, DICTIONARY, END, INTEGER, LIST, MINUS, ZERO};
use crate::wire::{
    encoding, entries_encoding, items_encoding, parse_dictionary, parse_list, parse_number,
    parse_value, string_encoding,
};
use vstd::prelude::*;

verus! {

/// A numeral without zeros to spare: it has a digit, and begins with `0`
/// only where it is `0`.
pub open spec fn plain_numeral(digits: Seq<u8>) -> bool {
    digits.len() >= 1 && (digits[0] == ZERO ==> digits.len() == 1)
}

/// The integer behind an `i` is in canonical form: its numeral is plain, and
/// zero has no sign.
pub open spec fn canonical_integer(bytes: Seq<u8>) -> bool {
    bytes.len() > 0 && {
        let negative = bytes[0] == MINUS;
        let numeral = if negative {
            bytes.skip(1)
        } else {
            bytes
        };
        let digits = numeral.take(digit_count(numeral) as int);
        plain_numeral(digits) && !(negative && digits[0] == ZERO)
    }
}

/// The value at the front of `bytes` is in canonical form: every numeral in
/// it is plain, no zero has a sign, and in every dictionary each key comes
/// after the key before it.
pub open spec fn canonical_value(bytes: Seq<u8>) -> bool
    decreases bytes.len(), 0int,
{
    if bytes.len() == 0 {
        false
    } else if bytes[0] == INTEGER {
        canonical_integer(bytes.skip(1))
    } else if is_digit(bytes[0]) {
        plain_numeral(bytes.take(digit_count(bytes) as int))
    } else if bytes[0] == LIST {
        canonical_items(bytes.skip(1))
    } else if bytes[0] == DICTIONARY {
        canonical_entries(bytes.skip(1), None)
    } else {
        false
    }
}

/// The items up to the `e` of a list are in canonical form.
pub open spec fn canonical_items(bytes: Seq<u8>) -> bool
    decreases bytes.len(), 1int,
{
    if bytes.len() == 0 {
        false
    } else if bytes[0] == END {
        true
    } else {
        canonical_value(bytes) && match parse_value(bytes) {
            Ok((_, rest)) => rest.len() < bytes.len() && canonical_items(rest),
            Err(_) => false,
        }
    }
}

/// The entries up to the `e` of a dictionary are in canonical form, and the
/// first key comes after the key `previous` of the entry before it.
pub open spec fn canonical_entries(bytes: Seq<u8>, previous: Option<Seq<u8>>) -> bool
    decreases bytes.len(), 1int,
{
    if bytes.len() == 0 {
        false
    } else if bytes[0] == END {
        true
    } else {
        canonical_value(bytes) && match parse_value(bytes) {
            Ok((Value::String(key), middle)) => {
                &&& previous matches Some(before) ==> precedes(before, key)
                &&& middle.len() < bytes.len()
                &&& canonical_value(middle)
                &&& match parse_value(middle) {
                    Ok((_, rest)) => rest.len() < bytes.len() && canonical_entries(rest, Some(key)),
                    Err(_) => false,
                }
            },
            _ => false,
        }
    }
}

/// A numeral that begins with another digit than `0` denotes more than zero.
proof fn lemma_decimal_value_positive(digits: Seq<u8>)
    requires
        all_digits(digits),
        digits.len() >= 1,
        digits[0] != ZERO,
    ensures
        decimal_value(digits) >= 1,
    decreases digits.len(),
{
    let front = digits.drop_last();
    if front.len() > 0 {
        assert(front[0] == digits[0]);
        assert forall|i: int| 0 <= i < front.len() implies is_digit(#[trigger] front[i]) by {
            assert(front[i] == digits[i]);
        }
        lemma_decimal_value_positive(front);
    } else {
        assert(digits.last() == digits[0]);
        assert(decimal_value(front) == 0);
    }
}

/// A plain numeral is the numeral of the number it denotes.
proof fn lemma_plain_numeral_restored(digits: Seq<u8>)
    requires
        all_digits(digits),
        plain_numeral(digits),
    ensures
        decimal_digits(decimal_value(digits)) == digits,
    decreases digits.len(),
{
    let front = digits.drop_last();
    let last = digits.last();
    assert(is_digit(last));
    assert(decimal_value(digits) == decimal_value(front) * 10 + (last - ZERO));
    if front.len() == 0 {
        assert(decimal_value(front) == 0);
        assert(decimal_digits(decimal_value(digits)) =~= digits);
    } else {
        assert(front[0] == digits[0]);
        assert forall|i: int| 0 <= i < front.len() implies is_digit(#[trigger] front[i]) by {
            assert(front[i] == digits[i]);
        }
        lemma_decimal_value_positive(front);
        lemma_plain_numeral_restored(front);
        let number = decimal_value(digits);
        assert(number >= 10);
        assert(number / 10 == decimal_value(front));
        assert(number % 10 == last - ZERO);
        assert(decimal_digits(number) == decimal_digits(number / 10).push(
            (ZERO + number % 10) as u8,
        ));
        assert(decimal_digits(number) =~= digits);
    }
}

/// The plain numeral at the front of `bytes` and the bytes behind it make up
/// `bytes`.
proof fn lemma_number_restored(bytes: Seq<u8>)
    requires
        plain_numeral(bytes.take(digit_count(bytes) as int)),
    ensures
        parse_number(bytes) matches Ok((number, rest)) ==> decimal_digits(number as nat) + rest
            == bytes,
{
    if let Ok((number, rest)) = parse_number(bytes) {
        let count = digit_count(bytes) as int;
        lemma_digit_count_splits(bytes);
        lemma_plain_numeral_restored(bytes.take(count));
        assert(bytes.take(count) + bytes.skip(count) =~= bytes);
    }
}

/// Canonical input is restored: where the value at the front of the input is
/// in canonical form, what is decoded from the input is encoded as the bytes
/// that it was decoded from.
pub proof fn theorem_canonical_input_is_restored(bytes: Seq<u8>)
    requires
        canonical_value(bytes),
    ensures
        parse_value(bytes) matches Ok((value, rest)) ==> encoding(value) + rest == bytes,
    decreases bytes.len(), 0int,
{
    if let Ok((value, rest)) = parse_value(bytes) {
        let inner = bytes.skip(1);
        assert(seq![bytes[0]] + inner =~= bytes);
        if bytes[0] == INTEGER {
            let negative = inner[0] == MINUS;
            let numeral = if negative {
                inner.skip(1)
            } else {
                inner
            };
            let digits = numeral.take(digit_count(numeral) as int);
            lemma_number_restored(numeral);
            lemma_digit_count_splits(numeral);
            let magnitude = parse_number(numeral)->Ok_0.0;
            let behind = parse_number(numeral)->Ok_0.1;
            assert(seq![END] + rest =~= behind);
            if negative {
                lemma_decimal_value_positive(digits);
                assert(seq![MINUS] + numeral =~= inner);
                assert(encoding(value) + rest =~= seq![INTEGER] + (seq![MINUS] + (decimal_digits(
                    magnitude as nat,
                ) + behind)));
            } else {
                assert(encoding(value) + rest =~= seq![INTEGER] + (decimal_digits(magnitude as nat)
                    + behind));
            }
        } else if is_digit(bytes[0]) {
            lemma_number_restored(bytes);
            let length = parse_number(bytes)->Ok_0.0;
            let behind = parse_number(bytes)->Ok_0.1;
            let payload = behind.subrange(1, 1 + length);
            assert(seq![COLON] + payload + rest =~= behind);
            assert(encoding(value) + rest =~= decimal_digits(length as nat) + behind);
        } else if bytes[0] == LIST {
            lemma_items_restored(inner, Seq::empty());
            let all = value->List_0;
            assert(all.skip(0) =~= all);
            assert(encoding(value) + rest =~= seq![LIST] + (items_encoding(all) + seq![END]
                + rest));
        } else {
            lemma_entries_restored(inner, Seq::empty(), None);
            let all = value->Dictionary_0;
            assert(all.skip(0) =~= all);
            assert(encoding(value) + rest =~= seq![DICTIONARY] + (entries_encoding(all) + seq![END]
                + rest));
        }
    }
}

/// A sequence that begins with `read` and then `next` continues, behind
/// `read`, with `next` and what stands behind that.
proof fn lemma_continues<T>(all: Seq<T>, read: Seq<T>, next: T)
    requires
        all.len() > read.len(),
        all.take(read.len() as int + 1) == read.push(next),
    ensures
        all.take(read.len() as int) == read,
        all.skip(read.len() as int)[0] == next,
        all.skip(read.len() as int).drop_first() == all.skip(read.len() as int + 1),
{
    let place = read.len() as int;
    let longer = read.push(next);
    assert forall|i: int| 0 <= i < place implies all[i] == read[i] by {
        assert(all.take(place + 1)[i] == all[i]);
        assert(longer[i] == read[i]);
    }
    assert(all[place] == next) by {
        assert(all.take(place + 1)[place] == all[place]);
        assert(longer[place] == next);
    }
    assert(all.take(place) =~= read);
    assert(all.skip(place).drop_first() =~= all.skip(place + 1));
}

/// A value stored under a key that comes after the last key of ascending
/// entries goes to the end, and the entries stay ascending.
proof fn lemma_insert_behind_last<V>(read: Seq<(Seq<u8>, V)>, key: Seq<u8>, value: V)
    requires
        ascending(read),
        read.len() > 0 ==> precedes(read.last().0, key),
    ensures
        insert_entry(read, key, value) == read.push((key, value)),
        ascending(read.push((key, value))),
{
    assert forall|j: int| 0 <= j < read.len() implies precedes((#[trigger] read[j]).0, key) by {
        if j < read.len() - 1 {
            assert(precedes(read[j].0, read[read.len() - 1].0));
            lemma_precedes_transitive(read[j].0, read.last().0, key);
        }
    }
    lemma_insert_entry_behind(read, key, value);
    crate::entries::lemma_insert_entry_ascending(read, key, value);
}

/// The canonical items of a list are restored behind the items `read`
/// before them.
proof fn lemma_items_restored(bytes: Seq<u8>, read: Seq<Value>)
    requires
        canonical_items(bytes),
    ensures
        parse_list(bytes, read) matches Ok((value, rest)) ==> {
            &&& value matches Value::List(all)
            &&& all.len() >= read.len()
            &&& all.take(read.len() as int) == read
            &&& items_encoding(all.skip(read.len() as int)) + seq![END] + rest == bytes
        },
    decreases bytes.len(), 1int,
{
    if let Ok((value, rest)) = parse_list(bytes, read) {
        let all = value->List_0;
        if bytes[0] == END {
            assert(all.take(read.len() as int) =~= read);
            assert(all.skip(read.len() as int) =~= Seq::<Value>::empty());
            assert(seq![END] + rest =~= bytes);
        } else {
            let item = parse_value(bytes)->Ok_0.0;
            let middle = parse_value(bytes)->Ok_0.1;
            theorem_canonical_input_is_restored(bytes);
            lemma_items_restored(middle, read.push(item));
            let place = read.len() as int;
            lemma_continues(all, read, item);
            let behind = all.skip(place);
            assert(items_encoding(behind) + seq![END] + rest =~= encoding(item) + (items_encoding(
                all.skip(place + 1),
            ) + seq![END] + rest));
        }
    }
}

/// The canonical entries of a dictionary are restored behind the entries
/// `read` before them.
proof fn lemma_entries_restored(
    bytes: Seq<u8>,
    read: Seq<(Seq<u8>, Value)>,
    previous: Option<Seq<u8>>,
)
    requires
        canonical_entries(bytes, previous),
        ascending(read),
        match previous {
            Some(key) => read.len() > 0 && read.last().0 == key,
            None => read.len() == 0,
        },
    ensures
        parse_dictionary(bytes, read) matches Ok((value, rest)) ==> {
            &&& value matches Value::Dictionary(all)
            &&& all.len() >= read.len()
            &&& all.take(read.len() as int) == read
            &&& entries_encoding(all.skip(read.len() as int)) + seq![END] + rest == bytes
        },
    decreases bytes.len(), 1int,
{
    if let Ok((value, rest)) = parse_dictionary(bytes, read) {
        let all = value->Dictionary_0;
        if bytes[0] == END {
            assert(all.take(read.len() as int) =~= read);
            assert(all.skip(read.len() as int) =~= Seq::<(Seq<u8>, Value)>::empty());
            assert(seq![END] + rest =~= bytes);
        } else {
            let key = parse_value(bytes)->Ok_0.0->String_0;
            let middle = parse_value(bytes)->Ok_0.1;
            let held = parse_value(middle)->Ok_0.0;
            let last = parse_value(middle)->Ok_0.1;
            let longer = read.push((key, held));
            let place = read.len() as int;
            theorem_canonical_input_is_restored(bytes);
            theorem_canonical_input_is_restored(middle);
            lemma_insert_behind_last(read, key, held);
            lemma_entries_restored(last, longer, Some(key));
            lemma_continues(all, read, (key, held));
            let behind = all.skip(place);
            assert(string_encoding(key) + middle == bytes);
            assert(encoding(held) + last == middle);
            assert(entries_encoding(all.skip(place + 1)) + seq![END] + rest == last);
            assert(entries_encoding(behind) == string_encoding(key) + encoding(held)
                + entries_encoding(all.skip(place + 1)));
            assert(entries_encoding(behind) + seq![END] + rest =~= string_encoding(key) + (encoding(
                held,
            ) + (entries_encoding(all.skip(place + 1)) + seq![END] + rest)));
        }
    }
}

/// The numeral of a number, with a byte behind it that is no digit, is the
/// plain numeral at the front of the bytes.
proof fn lemma_written_numeral_is_plain(number: nat, rest: Seq<u8>)
    requires
        rest.len() > 0,
        !is_digit(rest[0]),
    ensures
        (decimal_digits(number) + rest).take(
            digit_count(decimal_digits(number) + rest) as int,
        ) == decimal_digits(number),
        plain_numeral(decimal_digits(number)),
{
    let digits = decimal_digits(number);
    let bytes = digits + rest;
    lemma_decimal_digits(number);
    assert(bytes.take(digits.len() as int) =~= digits);
    assert(bytes[digits.len() as int] == rest[0]);
    lemma_digit_count(bytes, digits.len() as int);
}

/// A byte string is written in canonical form.
proof fn lemma_written_string_is_canonical(payload: Seq<u8>, rest: Seq<u8>)
    ensures
        canonical_value(string_encoding(payload) + rest),
{
    let bytes = string_encoding(payload) + rest;
    let tail = seq![COLON] + payload + rest;
    lemma_written_numeral_is_plain(payload.len(), tail);
    lemma_decimal_digits(payload.len());
    assert(bytes =~= decimal_digits(payload.len()) + tail);
    assert(bytes[0] == decimal_digits(payload.len())[0]);
}

/// What the encoder writes is canonical: the bytes of a well-formed, decodable
/// value, with anything behind them, begin with a value in canonical form.
pub proof fn theorem_encoding_is_canonical(value: Value, rest: Seq<u8>)
    requires
        value.well_formed(),
        value.decodable(),
    ensures
        canonical_value(encoding(value) + rest),
    decreases value,
{
    let bytes = encoding(value) + rest;
    match value {
        Value::Integer(number) => {
            let magnitude = if number < 0 {
                (-number) as nat
            } else {
                number as nat
            };
            let digits = decimal_digits(magnitude);
            let tail = seq![END] + rest;
            lemma_written_numeral_is_plain(magnitude, tail);
            lemma_decimal_digits(magnitude);
            let inner = bytes.skip(1);
            assert(bytes[0] == INTEGER);
            if number < 0 {
                assert(inner =~= seq![MINUS] + (digits + tail));
                assert(inner.skip(1) =~= digits + tail);
            } else {
                assert(inner =~= digits + tail);
                assert(inner[0] == digits[0]);
            }
        },
        Value::String(payload) => {
            lemma_written_string_is_canonical(payload, rest);
        },
        Value::List(items) => {
            lemma_written_items_are_canonical(items, rest);
            assert(bytes[0] == LIST);
            assert(bytes.skip(1) =~= items_encoding(items) + seq![END] + rest);
        },
        Value::Dictionary(entries) => {
            lemma_written_entries_are_canonical(entries, rest, None);
            assert(bytes[0] == DICTIONARY);
            assert(bytes.skip(1) =~= entries_encoding(entries) + seq![END] + rest);
        },
    }
}

/// The items of a list are written in canonical form.
proof fn lemma_written_items_are_canonical(items: Seq<Value>, rest: Seq<u8>)
    requires
        forall|i: int| 0 <= i < items.len() ==> (#[trigger] items[i]).well_formed(),
        forall|i: int| 0 <= i < items.len() ==> (#[trigger] items[i]).decodable(),
    ensures
        canonical_items(items_encoding(items) + seq![END] + rest),
    decreases items,
{
    let bytes = items_encoding(items) + seq![END] + rest;
    if items.len() == 0 {
        assert(bytes[0] == END);
    } else {
        let first = items[0];
        let others = items.drop_first();
        let tail = items_encoding(others) + seq![END] + rest;
        assert(first.well_formed() && first.decodable());
        assert forall|i: int| 0 <= i < others.len() implies (#[trigger] others[i]).well_formed()
            && others[i].decodable() by {
            assert(others[i] == items[i + 1]);
        }
        lemma_encoding_begins_with_tag(first);
        theorem_encoding_is_canonical(first, tail);
        theorem_decoding_inverts_encoding(first, tail);
        lemma_written_items_are_canonical(others, rest);
        assert(bytes =~= encoding(first) + tail);
        assert(bytes[0] == encoding(first)[0]);
    }
}

/// The entries of a dictionary are written in canonical form.
proof fn lemma_written_entries_are_canonical(
    entries: Seq<(Seq<u8>, Value)>,
    rest: Seq<u8>,
    previous: Option<Seq<u8>>,
)
    requires
        Value::Dictionary(entries).well_formed(),
        Value::Dictionary(entries).decodable(),
        previous matches Some(before) ==> entries.len() > 0 ==> precedes(before, entries[0].0),
    ensures
        canonical_entries(entries_encoding(entries) + seq![END] + rest, previous),
    decreases entries,
{
    let bytes = entries_encoding(entries) + seq![END] + rest;
    if entries.len() == 0 {
        assert(bytes[0] == END);
    } else {
        let key = entries[0].0;
        let value = entries[0].1;
        let others = entries.drop_first();
        let tail = entries_encoding(others) + seq![END] + rest;
        let middle = encoding(value) + tail;
        Value::lemma_dictionary(entries);
        Value::lemma_dictionary(others);
        assert(value.well_formed() && value.decodable());
        assert(Value::Dictionary(others).well_formed() && Value::Dictionary(others).decodable())
            by {
            assert forall|i: int| 0 <= i < others.len() implies others[i] == entries[i + 1] by {}
            assert forall|i: int, j: int| 0 <= i < j < others.len() implies precedes(
                others[i].0,
                others[j].0,
            ) by {
                assert(precedes(entries[i + 1].0, entries[j + 1].0));
            }
        }
        if others.len() > 0 {
            assert(others[0] == entries[1]);
            assert(precedes(entries[0].0, entries[1].0));
        }
        lemma_written_string_is_canonical(key, middle);
        crate::roundtrip::lemma_string_reads_back(key, middle);
        lemma_encoding_begins_with_tag(Value::String(key));
        lemma_encoding_begins_with_tag(value);
        theorem_encoding_is_canonical(value, tail);
        theorem_decoding_inverts_encoding(value, tail);
        lemma_written_entries_are_canonical(others, rest, Some(key));
        assert(bytes =~= string_encoding(key) + middle);
        assert(bytes[0] == string_encoding(key)[0]);
    }
}

/// Input that holds a value is canonical exactly where the value is written
/// as the bytes it was read from.
pub proof fn theorem_canonical_means_restored(bytes: Seq<u8>)
    ensures
        parse_value(bytes) matches Ok((value, rest)) ==> (canonical_value(bytes) <==> encoding(
            value,
        ) + rest == bytes),
{
    if let Ok((value, rest)) = parse_value(bytes) {
        if canonical_value(bytes) {
            theorem_canonical_input_is_restored(bytes);
        }
        if encoding(value) + rest == bytes {
            crate::wire::lemma_parse_value_sound(bytes);
            theorem_encoding_is_canonical(value, rest);
        }
    }
}

} // verus!
