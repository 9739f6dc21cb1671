//! The encoder: writes the canonical bytes of a value, shape by shape.

use crate::bencode::{lemma_values, values, Bencode, Value};
use crate::decimal::{decimal_digits, integer_text};
use crate::dictionary::Dictionary;
use crate::symbols::{COLON, DICTIONARY, END, INTEGER, LIST, MINUS, ZERO};
use crate::wire::{encoding, entries_encoding, items_encoding, string_encoding};
use vstd::prelude::*;

verus! {

/// An encoder that appends to bytes held in memory.
pub struct Encoder {
    pub writer: Vec<u8>,
}

impl Encoder {
    /// An encoder that writes behind what `writer` holds.
    pub fn new(writer: Vec<u8>) -> (encoder: Self)
        ensures
            encoder.writer == writer,
    {
        Self { writer }
    }

    /// Writes the canonical bytes of `decoded` behind what has been written.
    /// The result has the type that sinks of the standard library answer
    /// with; writing to memory cannot fail, and it is always `Ok`. Every tree
    /// is well formed, so the keys of each dictionary come out in ascending
    /// order.
    pub fn encode(&mut self, decoded: &Bencode) -> (result: Result<(), std::io::Error>)
        ensures
            result is Ok,
            final(self).writer@ == old(self).writer@ + encoding(decoded@),
            decoded@.well_formed(),
        decreases decoded@,
    {
        match decoded {
            Bencode::Integer(number) => self.encode_number(number),
            Bencode::String(bytes) => self.encode_string(bytes),
            Bencode::List(list) => {
                assert(decoded@ == Value::List(values(list@)));
                assert(decoded@->List_0 == values(list@));
                self.encode_list(list)
            },
            Bencode::Dictionary(dictionary) => {
                assert(decoded@ == Value::Dictionary(dictionary@));
                assert(decoded@->Dictionary_0 == dictionary@);
                self.encode_dictionary(dictionary)
            },
        }
    }

    /// Writes the decimal numeral of `number`.
    fn write_decimal(&mut self, number: u64)
        ensures
            final(self).writer@ == old(self).writer@ + decimal_digits(number as nat),
        decreases number,
    {
        if number >= 10 {
            self.write_decimal(number / 10);
        }
        self.writer.push(ZERO + (number % 10) as u8);
        assert(self.writer@ =~= old(self).writer@ + decimal_digits(number as nat));
    }

    /// Writes an integer: `i`, the numeral, `e`.
    fn encode_number(&mut self, number: &i64) -> (result: Result<(), std::io::Error>)
        ensures
            result is Ok,
            final(self).writer@ == old(self).writer@ + encoding(Value::Integer(*number as int)),
    {
        self.writer.push(INTEGER);
        if *number < 0 {
            self.writer.push(MINUS);
            self.write_decimal((-(*number + 1)) as u64 + 1);
        } else {
            self.write_decimal(*number as u64);
        }
        self.writer.push(END);
        assert(self.writer@ =~= old(self).writer@ + (seq![INTEGER] + integer_text(*number as int)
            + seq![END]));
        Ok(())
    }

    /// Writes a byte string: the length, a colon, the bytes.
    fn encode_string(&mut self, bytes: &[u8]) -> (result: Result<(), std::io::Error>)
        ensures
            result is Ok,
            final(self).writer@ == old(self).writer@ + string_encoding(bytes@),
    {
        self.write_decimal(bytes.len() as u64);
        self.writer.push(COLON);
        let ghost written = self.writer@;
        let mut index: usize = 0;
        while index < bytes.len()
            invariant
                index <= bytes.len(),
                self.writer@ == written + bytes@.take(index as int),
            decreases bytes.len() - index,
        {
            self.writer.push(bytes[index]);
            index += 1;
            assert(self.writer@ =~= written + bytes@.take(index as int));
        }
        assert(bytes@.take(index as int) =~= bytes@);
        assert(self.writer@ =~= old(self).writer@ + string_encoding(bytes@));
        Ok(())
    }

    /// Writes a list: `l`, the items in order, `e`.
    fn encode_list(&mut self, list: &[Bencode]) -> (result: Result<(), std::io::Error>)
        ensures
            result is Ok,
            final(self).writer@ == old(self).writer@ + encoding(Value::List(values(list@))),
            Value::List(values(list@)).well_formed(),
        decreases values(list@),
    {
        let ghost items = values(list@);
        proof {
            lemma_values(list@);
        }
        self.writer.push(LIST);
        let mut index: usize = 0;
        assert(items.skip(0) =~= items);
        while index < list.len()
            invariant
                index <= list.len(),
                items == values(list@),
                items.len() == list@.len(),
                forall|i: int| 0 <= i < items.len() ==> (#[trigger] items[i]) == list@[i]@,
                forall|i: int| 0 <= i < index ==> (#[trigger] items[i]).well_formed(),
                self.writer@ + items_encoding(items.skip(index as int)) == old(self).writer@
                    + seq![LIST] + items_encoding(items),
            decreases list.len() - index,
        {
            let ghost before = self.writer@;
            let ghost rest = items.skip(index as int);
            self.encode(&list[index])?;
            proof {
                assert(rest[0] == items[index as int]);
                assert(rest.drop_first() =~= items.skip(index + 1));
                assert(self.writer@ + items_encoding(items.skip(index + 1)) =~= before
                    + items_encoding(rest));
            }
            index += 1;
        }
        self.writer.push(END);
        proof {
            assert(items.skip(index as int) =~= Seq::<Value>::empty());
            assert(self.writer@ =~= old(self).writer@ + (seq![LIST] + items_encoding(items)
                + seq![END]));
        }
        Ok(())
    }

    /// Writes a dictionary: `d`, then each key as a byte string with its
    /// value behind it, in ascending order of the keys, then `e`.
    fn encode_dictionary(&mut self, dictionary: &Dictionary) -> (result: Result<
        (),
        std::io::Error,
    >)
        ensures
            result is Ok,
            final(self).writer@ == old(self).writer@ + encoding(Value::Dictionary(dictionary@)),
            Value::Dictionary(dictionary@).well_formed(),
        decreases dictionary@,
    {
        let ghost entries = dictionary@;
        proof {
            use_type_invariant(dictionary);
        }
        self.writer.push(DICTIONARY);
        let count = dictionary.len();
        let mut index: usize = 0;
        assert(entries.skip(0) =~= entries);
        while index < count
            invariant
                index <= count,
                count == entries.len(),
                entries == dictionary@,
                forall|i: int| 0 <= i < index ==> (#[trigger] entries[i]).1.well_formed(),
                self.writer@ + entries_encoding(entries.skip(index as int)) == old(self).writer@
                    + seq![DICTIONARY] + entries_encoding(entries),
            decreases count - index,
        {
            let ghost before = self.writer@;
            let ghost rest = entries.skip(index as int);
            if let Some((key, value)) = dictionary.entry(index) {
                self.encode_string(key.as_str().as_bytes())?;
                self.encode(value)?;
            }
            proof {
                assert(rest[0] == entries[index as int]);
                assert(rest.drop_first() =~= entries.skip(index + 1));
                assert(self.writer@ + entries_encoding(entries.skip(index + 1)) =~= before
                    + entries_encoding(rest));
            }
            index += 1;
        }
        self.writer.push(END);
        proof {
            assert(entries.skip(index as int) =~= Seq::<(Seq<u8>, Value)>::empty());
            assert(self.writer@ =~= old(self).writer@ + (seq![DICTIONARY] + entries_encoding(
                entries,
            ) + seq![END]));
        }
        Ok(())
    }
}

} // verus!
