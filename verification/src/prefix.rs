//! A value is read from its own bytes alone: what follows them has no part in
//! what is decoded.

use crate::bencode::Value;
use crate::decimal::{digit_count, is_digit, lemma_digit_count, lemma_digit_count_splits};
use crate::entries::insert_entry;
use crate::symbols::{END, INTEGER, LIST, MINUS};
use crate::wire::{
    lemma_parse_dictionary_rest, lemma_parse_list_rest, lemma_parse_number_rest,
    lemma_parse_value_rest, parse_dictionary, parse_integer, parse_list, parse_number,
    parse_string, parse_value, Failure,
};
use vstd::prelude::*;

verus! {

/// Inputs that agree on their first `shared` bytes hold the same byte at each
/// of these places.
proof fn lemma_agreement_at(first: Seq<u8>, second: Seq<u8>, shared: int, place: int)
    requires
        0 <= place < shared,
        shared <= first.len(),
        shared <= second.len(),
        first.take(shared) == second.take(shared),
    ensures
        first[place] == second[place],
{
    assert(first.take(shared)[place] == first[place]);
    assert(second.take(shared)[place] == second[place]);
}

/// Two inputs that agree up to the byte behind a numeral hold the same
/// numeral.
proof fn lemma_parse_number_agrees(first: Seq<u8>, second: Seq<u8>, shared: int)
    requires
        parse_number(first) is Ok,
        digit_count(first) < shared <= first.len(),
        shared <= second.len(),
        first.take(shared) == second.take(shared),
    ensures
        parse_number(second) == Ok::<(int, Seq<u8>), Failure>(
            (parse_number(first)->Ok_0.0, second.skip(digit_count(first) as int)),
        ),
{
    let count = digit_count(first) as int;
    lemma_digit_count_splits(first);
    assert(second.take(count) =~= first.take(count)) by {
        assert forall|i: int| 0 <= i < count implies second[i] == first[i] by {
            lemma_agreement_at(first, second, shared, i);
        }
    }
    assert(second[count] == first[count]) by {
        lemma_agreement_at(first, second, shared, count);
    }
    lemma_digit_count(second, count);
}

/// Two inputs that agree on the bytes of an integer hold the same integer.
proof fn lemma_parse_integer_agrees(first: Seq<u8>, second: Seq<u8>)
    requires
        parse_integer(first) matches Ok((_, rest)) && rest.len() <= first.len() && first.len()
            - rest.len() <= second.len() && first.take(first.len() - rest.len()) == second.take(
            first.len() - rest.len(),
        ),
    ensures
        parse_integer(first) matches Ok((value, rest)) && parse_integer(second) == Ok::<
            (Value, Seq<u8>),
            Failure,
        >((value, second.skip(first.len() - rest.len()))),
{
    let rest = parse_integer(first)->Ok_0.1;
    let used = first.len() - rest.len();
    let sign: int = if first[0] == MINUS {
        1
    } else {
        0
    };
    let numeral = if first[0] == MINUS {
        first.skip(1)
    } else {
        first
    };
    let other = if first[0] == MINUS {
        second.skip(1)
    } else {
        second
    };
    lemma_parse_number_rest(numeral);
    let behind = parse_number(numeral)->Ok_0.1;
    let count = digit_count(numeral) as int;
    lemma_digit_count_splits(numeral);
    assert(behind.len() == numeral.len() - count);
    assert(used == sign + count + 1);
    assert(second[0] == first[0]) by {
        lemma_agreement_at(first, second, used, 0);
    }
    assert(numeral.take(count + 1) =~= other.take(count + 1)) by {
        assert forall|i: int| 0 <= i < count + 1 implies numeral[i] == other[i] by {
            lemma_agreement_at(first, second, used, i + sign);
        }
    }
    lemma_parse_number_agrees(numeral, other, count + 1);
    assert(other.skip(count)[0] == behind[0]) by {
        lemma_agreement_at(numeral, other, count + 1, count);
    }
    assert(other.skip(count).skip(1) =~= second.skip(used));
}

/// Two inputs that agree on the bytes of a byte string hold the same string.
proof fn lemma_parse_string_agrees(first: Seq<u8>, second: Seq<u8>)
    requires
        parse_string(first) matches Ok((_, rest)) && rest.len() <= first.len() && first.len()
            - rest.len() <= second.len() && first.take(first.len() - rest.len()) == second.take(
            first.len() - rest.len(),
        ),
    ensures
        parse_string(first) matches Ok((value, rest)) && parse_string(second) == Ok::<
            (Value, Seq<u8>),
            Failure,
        >((value, second.skip(first.len() - rest.len()))),
{
    let rest = parse_string(first)->Ok_0.1;
    let used = first.len() - rest.len();
    lemma_parse_number_rest(first);
    let length = parse_number(first)->Ok_0.0;
    let behind = parse_number(first)->Ok_0.1;
    let count = digit_count(first) as int;
    lemma_digit_count_splits(first);
    assert(behind.len() == first.len() - count);
    assert(used == count + 1 + length);
    assert(first.take(count + 1) =~= second.take(count + 1)) by {
        assert forall|i: int| 0 <= i < count + 1 implies first[i] == second[i] by {
            lemma_agreement_at(first, second, used, i);
        }
    }
    lemma_parse_number_agrees(first, second, count + 1);
    let other = second.skip(count);
    assert(other[0] == behind[0]) by {
        lemma_agreement_at(first, second, count + 1, count);
    }
    assert(other.subrange(1, 1 + length) =~= behind.subrange(1, 1 + length)) by {
        assert forall|i: int| 1 <= i < 1 + length implies other[i] == behind[i] by {
            lemma_agreement_at(first, second, used, count + i);
        }
    }
    assert(other.skip(1 + length) =~= second.skip(used));
}

/// Two inputs that agree on the bytes of a value hold the same value.
pub proof fn lemma_parse_value_agrees(first: Seq<u8>, second: Seq<u8>)
    requires
        parse_value(first) matches Ok((_, rest)) && rest.len() <= first.len() && first.len()
            - rest.len() <= second.len() && first.take(first.len() - rest.len()) == second.take(
            first.len() - rest.len(),
        ),
    ensures
        parse_value(first) matches Ok((value, rest)) && parse_value(second) == Ok::<
            (Value, Seq<u8>),
            Failure,
        >((value, second.skip(first.len() - rest.len()))),
    decreases first.len(), 0int,
{
    let rest = parse_value(first)->Ok_0.1;
    let used = first.len() - rest.len();
    lemma_parse_value_rest(first);
    assert(second[0] == first[0]) by {
        lemma_agreement_at(first, second, used, 0);
    }
    let inner = first.skip(1);
    let other = second.skip(1);
    assert(inner.take(used - 1) =~= other.take(used - 1)) by {
        assert forall|i: int| 0 <= i < used - 1 implies inner[i] == other[i] by {
            lemma_agreement_at(first, second, used, i + 1);
        }
    }
    if first[0] == INTEGER {
        lemma_parse_integer_agrees(inner, other);
        assert(other.skip(used - 1) =~= second.skip(used));
    } else if is_digit(first[0]) {
        lemma_parse_string_agrees(first, second);
    } else if first[0] == LIST {
        lemma_parse_list_agrees(inner, other, Seq::empty());
        assert(other.skip(used - 1) =~= second.skip(used));
    } else {
        lemma_parse_dictionary_agrees(inner, other, Seq::empty());
        assert(other.skip(used - 1) =~= second.skip(used));
    }
}

/// Two inputs that agree on the bytes of the rest of a list hold the same
/// list.
proof fn lemma_parse_list_agrees(first: Seq<u8>, second: Seq<u8>, items: Seq<Value>)
    requires
        parse_list(first, items) matches Ok((_, rest)) && rest.len() <= first.len() && first.len()
            - rest.len() <= second.len() && first.take(first.len() - rest.len()) == second.take(
            first.len() - rest.len(),
        ),
    ensures
        parse_list(first, items) matches Ok((value, rest)) && parse_list(second, items) == Ok::<
            (Value, Seq<u8>),
            Failure,
        >((value, second.skip(first.len() - rest.len()))),
    decreases first.len(), 1int,
{
    let rest = parse_list(first, items)->Ok_0.1;
    let used = first.len() - rest.len();
    lemma_parse_list_rest(first, items);
    assert(second[0] == first[0]) by {
        lemma_agreement_at(first, second, used, 0);
    }
    if first[0] != END {
        lemma_parse_value_rest(first);
        let item = parse_value(first)->Ok_0.0;
        let middle = parse_value(first)->Ok_0.1;
        let step = first.len() - middle.len();
        lemma_parse_list_rest(middle, items.push(item));
        lemma_agreement_narrows(first, second, used, 0, step);
        lemma_parse_value_agrees(first, second);
        lemma_agreement_narrows(first, second, used, step, used);
        lemma_parse_list_agrees(middle, second.skip(step), items.push(item));
        assert(second.skip(step).skip(used - step) =~= second.skip(used));
    }
}

/// Two inputs that agree on the bytes of the rest of a dictionary hold the
/// same dictionary.
proof fn lemma_parse_dictionary_agrees(
    first: Seq<u8>,
    second: Seq<u8>,
    entries: Seq<(Seq<u8>, Value)>,
)
    requires
        parse_dictionary(first, entries) matches Ok((_, rest)) && rest.len() <= first.len()
            && first.len() - rest.len() <= second.len() && first.take(first.len() - rest.len())
            == second.take(first.len() - rest.len()),
    ensures
        parse_dictionary(first, entries) matches Ok((value, rest)) && parse_dictionary(
            second,
            entries,
        ) == Ok::<(Value, Seq<u8>), Failure>((value, second.skip(first.len() - rest.len()))),
    decreases first.len(), 1int,
{
    let rest = parse_dictionary(first, entries)->Ok_0.1;
    let used = first.len() - rest.len();
    lemma_parse_dictionary_rest(first, entries);
    assert(second[0] == first[0]) by {
        lemma_agreement_at(first, second, used, 0);
    }
    if first[0] != END {
        lemma_parse_value_rest(first);
        let key = parse_value(first)->Ok_0.0->String_0;
        let middle = parse_value(first)->Ok_0.1;
        let step = first.len() - middle.len();
        lemma_parse_value_rest(middle);
        let value = parse_value(middle)->Ok_0.0;
        let last = parse_value(middle)->Ok_0.1;
        let stride = first.len() - last.len();
        let longer = insert_entry(entries, key, value);
        lemma_parse_dictionary_rest(last, longer);
        assert(last =~= first.skip(stride));
        lemma_agreement_narrows(first, second, used, 0, step);
        lemma_parse_value_agrees(first, second);
        lemma_agreement_narrows(first, second, used, step, stride);
        assert(second.skip(step)[0] == middle[0]) by {
            lemma_agreement_at(first, second, used, step);
        }
        lemma_parse_value_agrees(middle, second.skip(step));
        assert(second.skip(step).skip(stride - step) =~= second.skip(stride));
        lemma_agreement_narrows(first, second, used, stride, used);
        lemma_parse_dictionary_agrees(last, second.skip(stride), longer);
        assert(second.skip(stride).skip(used - stride) =~= second.skip(used));
    }
}

/// Inputs that agree on their first `shared` bytes agree on every stretch of
/// them.
proof fn lemma_agreement_narrows(
    first: Seq<u8>,
    second: Seq<u8>,
    shared: int,
    from: int,
    to: int,
)
    requires
        0 <= from <= to <= shared,
        shared <= first.len(),
        shared <= second.len(),
        first.take(shared) == second.take(shared),
    ensures
        first.skip(from).take(to - from) == second.skip(from).take(to - from),
        from == 0 ==> first.take(to) == second.take(to),
{
    assert(first.skip(0) =~= first);
    assert(second.skip(0) =~= second);
    let left = first.skip(from).take(to - from);
    let right = second.skip(from).take(to - from);
    assert forall|i: int| 0 <= i < to - from implies #[trigger] left[i] == right[i] by {
        lemma_agreement_at(first, second, shared, from + i);
    }
    assert(left =~= right);
}

/// What follows a value has no part in how the value is read: where input
/// holds a value, the bytes of that value with anything else behind them are
/// read as the same value, up to the same place.
pub proof fn theorem_decoding_ignores_what_follows(bytes: Seq<u8>, other: Seq<u8>)
    ensures
        parse_value(bytes) matches Ok((value, rest)) ==> rest.len() < bytes.len() && parse_value(
            bytes.take(bytes.len() - rest.len()) + other,
        ) == Ok::<(Value, Seq<u8>), Failure>((value, other)),
{
    if let Ok((value, rest)) = parse_value(bytes) {
        lemma_parse_value_rest(bytes);
        let used = bytes.len() - rest.len();
        let changed = bytes.take(used) + other;
        assert(changed.take(used) =~= bytes.take(used));
        assert(changed.skip(used) =~= other);
        lemma_parse_value_agrees(bytes, changed);
    }
}

} // verus!
