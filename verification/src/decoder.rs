//! The decoder: a recursive-descent parser that reads its input one byte at
//! a time and never looks past the value it is reading.

use crate::bencode::{values, Bencode, Value};
use crate::decimal::{
    all_digits, decimal_value, digit_count, is_digit, lemma_decimal_value_grows,
    lemma_digit_count, lemma_digit_count_splits,
};
use crate::dictionary::Dictionary;
use crate::symbols::{COLON, DICTIONARY, END, INTEGER, LIST, MINUS, NINE, ZERO};
use crate::wire::{
    parse_dictionary, parse_integer, parse_list, parse_number, parse_string, parse_value, Failure,
};
use std::string::FromUtf8Error;
use vstd::prelude::*;
use vstd::slice::{slice_subrange, slice_to_vec};

verus! {

/// Why decoding failed.
#[derive(Debug, PartialEq, Eq)]
pub enum DecoderError {
    /// The input ended where the format wants more.
    EOF,
    /// A byte stands where a digit, or the end of a numeral, belongs.
    NAN,
    /// An integer without digits and without a sign: `ie`.
    EmptyNumber,
    /// A numeral denotes more than 64 signed bits hold.
    IntegerOverflow,
    /// What stands for a dictionary's key is this value, which is no string.
    DictionaryKeyIsNotString(Bencode),
    /// A dictionary closes behind a key.
    DictionaryValueMissing,
    /// A dictionary's key is not UTF-8.
    InvalidUtf8(FromUtf8Error),
    /// A value begins with a byte that opens none of the four shapes.
    UnrecognizedTag,
}

impl View for DecoderError {
    type V = Failure;

    open spec fn view(&self) -> Failure {
        match self {
            DecoderError::EOF => Failure::EOF,
            DecoderError::NAN => Failure::NAN,
            DecoderError::EmptyNumber => Failure::EmptyNumber,
            DecoderError::IntegerOverflow => Failure::IntegerOverflow,
            DecoderError::DictionaryKeyIsNotString(value) => Failure::DictionaryKeyIsNotString(
                value@,
            ),
            DecoderError::DictionaryValueMissing => Failure::DictionaryValueMissing,
            DecoderError::InvalidUtf8(_) => Failure::InvalidUtf8,
            DecoderError::UnrecognizedTag => Failure::UnrecognizedTag,
        }
    }
}

impl From<FromUtf8Error> for DecoderError {
    /// The failure of a key that is not UTF-8, with what the standard library
    /// says of it.
    fn from(error: FromUtf8Error) -> (result: Self) {
        DecoderError::InvalidUtf8(error)
    }
}

impl vstd::std_specs::convert::FromSpecImpl<FromUtf8Error> for DecoderError {
    open spec fn obeys_from_spec() -> bool {
        true
    }

    open spec fn from_spec(error: FromUtf8Error) -> Self {
        DecoderError::InvalidUtf8(error)
    }
}

pub type DecoderResult<T> = Result<T, DecoderError>;

/// A decoder over bytes held in memory. It remembers how far it has read, so
/// that values written one behind the other can be decoded one by one. Lists
/// and dictionaries are decoded by recursion: the calls nest as deep as the
/// input does.
pub struct Decoder<'a> {
    reader: &'a [u8],
    position: usize,
    current: u8,
}

impl<'a> View for Decoder<'a> {
    type V = Seq<u8>;

    /// The bytes not yet read.
    closed spec fn view(&self) -> Seq<u8> {
        self.reader@.skip(self.position as int)
    }
}

/// `result` and the bytes left `unread` are what `outcome` says.
pub open spec fn agrees(
    result: DecoderResult<Bencode>,
    unread: Seq<u8>,
    outcome: Result<(Value, Seq<u8>), Failure>,
) -> bool {
    match outcome {
        Ok((value, rest)) => result matches Ok(decoded) && decoded@ == value && unread == rest,
        Err(failure) => result matches Err(error) && error@ == failure,
    }
}

impl<'a> Decoder<'a> {
    #[verifier::type_invariant]
    spec fn within_input(&self) -> bool {
        self.position <= self.reader@.len()
    }

    /// The byte read last, followed by the bytes not yet read.
    spec fn pending(&self) -> Seq<u8> {
        seq![self.current] + self@
    }

    /// A decoder that has read nothing of `reader` yet.
    pub fn new(reader: &'a [u8]) -> (decoder: Self)
        ensures
            decoder@ == reader@,
    {
        Self { reader, position: 0, current: 0 }
    }

    /// The bytes not yet read.
    pub fn remaining(&self) -> (bytes: &'a [u8])
        ensures
            bytes@ == self@,
    {
        proof {
            use_type_invariant(self);
        }
        slice_subrange(self.reader, self.position, self.reader.len())
    }

    /// Reads one byte.
    fn advance(&mut self) -> (result: DecoderResult<u8>)
        ensures
            final(self).reader == old(self).reader,
            match result {
                Ok(byte) => {
                    &&& old(self)@.len() > 0
                    &&& byte == old(self)@[0]
                    &&& final(self).current == byte
                    &&& final(self)@ == old(self)@.skip(1)
                },
                Err(error) => {
                    &&& old(self)@.len() == 0
                    &&& error@ == Failure::EOF
                    &&& *final(self) == *old(self)
                },
            },
    {
        proof {
            use_type_invariant(&*self);
        }
        if self.position >= self.reader.len() {
            return Err(DecoderError::EOF);
        }
        let byte = self.reader[self.position];
        self.position = self.position + 1;
        self.current = byte;
        assert(self@ =~= old(self)@.skip(1));
        Ok(byte)
    }

    /// Requires the byte read last to be `expected`.
    fn expect(&self, expected: u8, error: DecoderError) -> (result: DecoderResult<()>)
        ensures
            self.current == expected ==> result is Ok,
            self.current != expected ==> result == Err::<(), DecoderError>(error),
    {
        if self.current != expected {
            return Err(error);
        }
        Ok(())
    }

    /// The byte read last as a decimal digit.
    fn decode_digit(&self) -> (digit: Option<i64>)
        ensures
            is_digit(self.current) ==> digit == Some((self.current - ZERO) as i64),
            !is_digit(self.current) ==> digit is None,
    {
        if ZERO <= self.current && self.current <= NINE {
            Some((self.current - ZERO) as i64)
        } else {
            None
        }
    }

    /// Reads a `-` if the byte read last is one, and says by `-1` or `1`
    /// whether it did.
    fn decode_integer_sign(&mut self) -> (result: DecoderResult<i64>)
        ensures
            final(self).reader == old(self).reader,
            old(self).current != MINUS ==> result == Ok::<i64, DecoderError>(1) && *final(self)
                == *old(self),
            old(self).current == MINUS ==> match result {
                Ok(sign) => sign == -1 && old(self)@.len() > 0 && final(self).pending() == old(
                    self,
                )@,
                Err(error) => old(self)@.len() == 0 && error@ == Failure::EOF,
            },
    {
        if self.current == MINUS {
            self.advance()?;
            assert(self.pending() =~= old(self)@);
            return Ok(-1);
        }
        Ok(1)
    }

    /// Reads the digits that begin with the byte read last, and the byte
    /// behind them.
    fn decode_number(&mut self) -> (result: DecoderResult<i64>)
        ensures
            final(self).reader == old(self).reader,
            match parse_number(old(self).pending()) {
                Ok((number, rest)) => result == Ok::<i64, DecoderError>(number as i64)
                    && final(self).pending() == rest,
                Err(failure) => result matches Err(error) && error@ == failure,
            },
    {
        let ghost start = self.pending();
        let ghost mut count: int = 0;
        let mut number: i64 = 0;
        assert(start.take(0) =~= Seq::<u8>::empty());
        assert(start.skip(0) =~= start);
        loop
            invariant
                self.reader == old(self).reader,
                start == old(self).pending(),
                0 <= count < start.len(),
                self.pending() == start.skip(count),
                all_digits(start.take(count)),
                number == decimal_value(start.take(count)),
            decreases start.len() - count,
        {
            let digit = match self.decode_digit() {
                Some(digit) => digit,
                None => {
                    proof {
                        assert(start[count] == self.pending()[0]);
                        lemma_digit_count(start, count);
                    }
                    return Ok(number);
                },
            };
            proof {
                assert(start[count] == self.pending()[0]);
                let longer = start.take(count + 1);
                assert(longer.drop_last() =~= start.take(count));
                assert(all_digits(longer)) by {
                    assert forall|i: int| 0 <= i < longer.len() implies is_digit(
                        #[trigger] longer[i],
                    ) by {
                        if i < count {
                            assert(longer[i] == start.take(count)[i]);
                        }
                    }
                }
                assert(decimal_value(longer) == number * 10 + digit);
                lemma_digit_count_splits(start);
                let total = digit_count(start) as int;
                if total < count + 1 {
                    assert(start[total] == longer[total]);
                }
                assert(start.take(total).take(count + 1) =~= longer);
                lemma_decimal_value_grows(start.take(total), count + 1);
            }
            number = match number.checked_mul(10) {
                Some(tenfold) => match tenfold.checked_add(digit) {
                    Some(sum) => sum,
                    None => { return Err(DecoderError::IntegerOverflow); },
                },
                None => { return Err(DecoderError::IntegerOverflow); },
            };
            let ghost before = self.pending();
            match self.advance() {
                Ok(_) => {},
                Err(error) => {
                    proof {
                        assert(start.take(count + 1) =~= start);
                        lemma_digit_count(start, count + 1);
                    }
                    return Err(error);
                },
            }
            proof {
                assert(self.pending() =~= before.skip(1));
                assert(before.skip(1) =~= start.skip(count + 1));
                count = count + 1;
            }
        }
    }

    /// Reads `amount` bytes.
    fn read_bytes(&mut self, amount: u64) -> (result: DecoderResult<Vec<u8>>)
        ensures
            final(self).reader == old(self).reader,
            final(self).current == old(self).current,
            match result {
                Ok(bytes) => {
                    &&& amount <= old(self)@.len()
                    &&& bytes@ == old(self)@.take(amount as int)
                    &&& final(self)@ == old(self)@.skip(amount as int)
                },
                Err(error) => amount > old(self)@.len() && error@ == Failure::EOF,
            },
    {
        proof {
            use_type_invariant(&*self);
        }
        let available = self.reader.len() - self.position;
        if amount > available as u64 {
            return Err(DecoderError::EOF);
        }
        let end = self.position + amount as usize;
        let bytes = slice_to_vec(slice_subrange(self.reader, self.position, end));
        assert(bytes@ =~= self@.take(amount as int));
        self.position = end;
        assert(self@ =~= old(self)@.skip(amount as int));
        Ok(bytes)
    }

    /// Decodes an integer, of which the `i` has been read.
    fn decode_integer(&mut self) -> (result: DecoderResult<Bencode>)
        ensures
            final(self).reader == old(self).reader,
            agrees(result, final(self)@, parse_integer(old(self)@)),
    {
        if self.advance()? == END {
            return Err(DecoderError::EmptyNumber);
        }
        assert(self.pending() =~= old(self)@);
        let sign = self.decode_integer_sign()?;
        proof {
            crate::wire::lemma_parse_number_rest(self.pending());
        }
        if self.decode_digit().is_none() {
            return Err(DecoderError::NAN);
        }
        let magnitude = self.decode_number()?;
        assert(sign * magnitude == if sign == 1 {
            magnitude as int
        } else {
            -magnitude
        }) by (nonlinear_arith)
            requires
                sign == 1 || sign == -1,
        ;
        let number = sign * magnitude;
        self.expect(END, DecoderError::NAN)?;
        assert(self@ =~= self.pending().skip(1));
        Ok(Bencode::Integer(number))
    }

    /// Decodes a byte string, of which the first digit has been read.
    fn decode_string(&mut self) -> (result: DecoderResult<Bencode>)
        ensures
            final(self).reader == old(self).reader,
            agrees(result, final(self)@, parse_string(old(self).pending())),
    {
        proof {
            crate::wire::lemma_parse_number_rest(self.pending());
        }
        let length = self.decode_number()?;
        self.expect(COLON, DecoderError::NAN)?;
        let ghost rest = self.pending();
        assert(self@ =~= rest.skip(1));
        let bytes = self.read_bytes(length as u64)?;
        assert(bytes@ =~= rest.subrange(1, 1 + length));
        assert(self@ =~= rest.skip(1 + length));
        Ok(Bencode::String(bytes))
    }

    /// Decodes a list, of which the `l` has been read.
    fn decode_list(&mut self) -> (result: DecoderResult<Bencode>)
        ensures
            final(self).reader == old(self).reader,
            agrees(result, final(self)@, parse_list(old(self)@, Seq::empty())),
        decreases old(self)@.len(), 0int,
    {
        let mut items: Vec<Bencode> = Vec::new();
        assert(values(items@) =~= Seq::empty());
        loop
            invariant
                self.reader == old(self).reader,
                self@.len() <= old(self)@.len(),
                parse_list(old(self)@, Seq::empty()) == parse_list(self@, values(items@)),
            decreases self@.len(),
        {
            let ghost before = self@;
            let ghost held = items@;
            if self.advance()? == END {
                return Ok(Bencode::List(items));
            }
            assert(self.pending() =~= before);
            proof {
                crate::wire::lemma_parse_value_rest(before);
            }
            let item = self.decode_current()?;
            items.push(item);
            assert(items@.drop_last() =~= held);
        }
    }

    /// Decodes a dictionary, of which the `d` has been read.
    fn decode_dictionary(&mut self) -> (result: DecoderResult<Bencode>)
        ensures
            final(self).reader == old(self).reader,
            agrees(result, final(self)@, parse_dictionary(old(self)@, Seq::empty())),
        decreases old(self)@.len(), 0int,
    {
        let mut map = Dictionary::new();
        loop
            invariant
                self.reader == old(self).reader,
                self@.len() <= old(self)@.len(),
                parse_dictionary(old(self)@, Seq::empty()) == parse_dictionary(self@, map@),
            decreases self@.len(),
        {
            let ghost before = self@;
            if self.advance()? == END {
                return Ok(Bencode::Dictionary(map));
            }
            assert(self.pending() =~= before);
            proof {
                crate::wire::lemma_parse_value_rest(before);
            }
            match self.decode_current()? {
                Bencode::String(raw_key) => {
                    let key = match String::from_utf8(raw_key) {
                        Ok(key) => key,
                        Err(error) => { return Err(DecoderError::from(error)); },
                    };
                    let ghost middle = self@;
                    if self.advance()? == END {
                        return Err(DecoderError::DictionaryValueMissing);
                    }
                    assert(self.pending() =~= middle);
                    proof {
                        crate::wire::lemma_parse_value_rest(middle);
                    }
                    let value = self.decode_current()?;
                    map.insert(key, value);
                },
                bencode => { return Err(DecoderError::DictionaryKeyIsNotString(bencode)); },
            }
        }
    }

    /// Decodes the value whose first byte has been read.
    fn decode_current(&mut self) -> (result: DecoderResult<Bencode>)
        ensures
            final(self).reader == old(self).reader,
            agrees(result, final(self)@, parse_value(old(self).pending())),
        decreases old(self)@.len(), 1int,
    {
        assert(self@ =~= self.pending().skip(1));
        match self.current {
            INTEGER => self.decode_integer(),
            ZERO..=NINE => self.decode_string(),
            LIST => self.decode_list(),
            DICTIONARY => self.decode_dictionary(),
            _ => Err(DecoderError::UnrecognizedTag),
        }
    }

    /// Decodes the next value of the input. The decoder reads no byte behind
    /// the value, and the next call goes on from there. The value belongs to
    /// the data model and is one that is decoded again when it is encoded. On a
    /// failure nothing is promised of how far the decoder has read.
    pub fn decode(&mut self) -> (result: DecoderResult<Bencode>)
        ensures
            match parse_value(old(self)@) {
                Ok((value, rest)) => {
                    &&& result matches Ok(decoded) && decoded@ == value
                    &&& final(self)@ == rest
                    &&& value.well_formed()
                    &&& value.decodable()
                },
                Err(failure) => result matches Err(error) && error@ == failure,
            },
        decreases old(self)@.len(), 2int,
    {
        proof {
            crate::wire::lemma_parse_value_sound(self@);
        }
        self.advance()?;
        assert(self.pending() =~= old(self)@);
        self.decode_current()
    }
}

} // verus!
