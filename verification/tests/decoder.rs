use bencode::bencode::Bencode;
use bencode::decoder::{Decoder, DecoderError};
use bencode::dictionary::Dictionary;

fn create_decoder(encoded: &[u8]) -> Decoder<'_> {
    Decoder::new(encoded)
}

fn dictionary<const N: usize>(entries: [(String, Bencode); N]) -> Dictionary {
    let mut dictionary = Dictionary::new();
    for (key, value) in entries {
        dictionary.insert(key, value);
    }
    dictionary
}

#[test]
fn test_decode_integer() {
    // Arrange
    let mut decoder = create_decoder(b"i123e");

    // Act
    let result = decoder.decode();

    // Assert
    assert_eq!(result, Ok(Bencode::Integer(123)));
}

#[test]
fn test_decode_negative_integer() {
    // Arrange
    let mut decoder = create_decoder(b"i-123e");

    // Act
    let result = decoder.decode();

    // Assert
    assert_eq!(result, Ok(Bencode::Integer(-123)));
}

#[test]
fn test_decode_zero() {
    // Arrange
    let mut decoder = create_decoder(b"i0e");

    // Act
    let result = decoder.decode();

    // Assert
    assert_eq!(result, Ok(Bencode::Integer(0)));
}

#[test]
fn test_decode_empty_integer() {
    // Arrange
    let mut decoder = create_decoder(b"ie");

    // Act
    let result = decoder.decode();

    // Assert
    assert_eq!(result, Err(DecoderError::EmptyNumber));
}

#[test]
fn test_decode_nan_integer() {
    // Arrange
    let mut decoder = create_decoder(b"i123a123e");

    // Act
    let result = decoder.decode();

    // Assert
    assert_eq!(result, Err(DecoderError::NAN));
}

#[test]
fn test_decode_overflow_integer() {
    // Arrange
    let mut decoder = create_decoder(b"i9223372036854775808e"); // i64::MAX + 1

    // Act
    let result = decoder.decode();

    // Assert
    assert_eq!(result, Err(DecoderError::IntegerOverflow));
}

#[test]
fn test_decode_integer_missing_end() {
    // Arrange
    let mut decoder = create_decoder(b"i123");

    // Act
    let result = decoder.decode();

    // Assert
    assert_eq!(result, Err(DecoderError::EOF));
}

#[test]
fn test_decode_ascii_string() {
    // Arrange
    let mut decoder = create_decoder(b"4:spam");

    // Act
    let result = decoder.decode();

    // Assert
    assert_eq!(result, Ok(Bencode::String(b"spam".to_vec())));
}

#[test]
fn test_decode_raw_byte_string() {
    // Arrange
    let mut decoder = create_decoder(b"4:\x00\x01\x02\x03");

    // Act
    let result = decoder.decode();

    // Assert
    assert_eq!(result, Ok(Bencode::String(b"\x00\x01\x02\x03".to_vec())));
}

#[test]
fn tets_decode_empty_string() {
    // Arrange
    let mut decoder = create_decoder(b"0:");

    // Act
    let result = decoder.decode();

    // Assert
    assert_eq!(result, Ok(Bencode::String(vec![])));
}

#[test]
fn test_decode_too_long_ascii_string() {
    // Arrange
    let mut decoder = create_decoder(b"4:spam+");

    // Act
    let result = decoder.decode();

    // Assert
    assert_eq!(result, Ok(Bencode::String(b"spam".to_vec())));
}

#[test]
fn test_decode_too_short_ascii_string() {
    // Arrange
    let mut decoder = create_decoder(b"4:spa");

    // Act
    let result = decoder.decode();

    // Assert
    assert_eq!(result, Err(DecoderError::EOF));
}

#[test]
fn test_decode_list() {
    // Arrange
    let mut decoder = create_decoder(b"l4:spam4:eggse");

    // Act
    let result = decoder.decode();

    // Assert
    assert_eq!(
        result,
        Ok(Bencode::List(vec![
            Bencode::String(b"spam".to_vec()),
            Bencode::String(b"eggs".to_vec())
        ]))
    );
}

#[test]
fn test_decode_empty_list() {
    // Arrange
    let mut decoder = create_decoder(b"le");

    // Act
    let result = decoder.decode();

    // Assert
    assert_eq!(result, Ok(Bencode::List(vec![])));
}

#[test]
fn test_decode_list_missing_end() {
    // Arrange
    let mut decoder = create_decoder(b"l4:spam");

    // Act
    let result = decoder.decode();

    // Assert
    assert_eq!(result, Err(DecoderError::EOF));
}

#[test]
fn test_decode_dictionary_with_strings() {
    // Arrange
    let mut decoder = create_decoder(b"d3:cow3:moo4:spam4:eggse");

    // Act
    let result = decoder.decode();

    // Assert
    assert_eq!(
        result,
        Ok(Bencode::Dictionary(dictionary([
            ("cow".to_string(), Bencode::String(b"moo".to_vec())),
            ("spam".to_string(), Bencode::String(b"eggs".to_vec())),
        ])))
    );
}

#[test]
fn test_decode_dictionary_with_list() {
    // Arrange
    let mut decoder = create_decoder(b"d4:spaml1:a1:bee");

    // Act
    let result = decoder.decode();

    // Assert
    assert_eq!(
        result,
        Ok(Bencode::Dictionary(dictionary([(
            "spam".to_string(),
            Bencode::List(vec![
                Bencode::String(b"a".to_vec()),
                Bencode::String(b"b".to_vec())
            ]),
        )])))
    );
}

#[test]
fn test_decode_empty_dictionary() {
    // Arrange
    let mut decoder = create_decoder(b"de");

    // Act
    let result = decoder.decode();

    // Assert
    assert_eq!(result, Ok(Bencode::Dictionary(Dictionary::new())));
}

#[test]
fn test_decode_dictionary_empty_key() {
    // Arrange
    let mut decoder = create_decoder(b"d0:4:spame");

    // Act
    let result = decoder.decode();

    // Assert
    assert_eq!(
        result,
        Ok(Bencode::Dictionary(dictionary([(
            "".to_string(),
            Bencode::String(b"spam".to_vec()),
        )])))
    );
}

#[test]
fn test_decode_dictionary_missing_value() {
    // Arrange
    let mut decoder = create_decoder(b"d3:cow3:moo4:spame");

    // Act
    let result = decoder.decode();

    // Assert
    assert_eq!(result, Err(DecoderError::DictionaryValueMissing));
}

#[test]
fn test_decode_dictionary_missing_end() {
    // Arrange
    let mut decoder = create_decoder(b"d3:cow3:moo4:spam");

    // Act
    let result = decoder.decode();

    // Assert
    assert_eq!(result, Err(DecoderError::EOF));
}
#[test]
fn test_decode_largest_integer() {
    let mut decoder = create_decoder(b"i9223372036854775807e");

    let result = decoder.decode();

    assert_eq!(result, Ok(Bencode::Integer(i64::MAX)));
}

#[test]
fn test_decode_most_negative_magnitude() {
    let mut decoder = create_decoder(b"i-9223372036854775807e");

    let result = decoder.decode();

    assert_eq!(result, Ok(Bencode::Integer(-i64::MAX)));
}

#[test]
fn test_decode_least_integer_overflows() {
    let mut decoder = create_decoder(b"i-9223372036854775808e");

    let result = decoder.decode();

    assert_eq!(result, Err(DecoderError::IntegerOverflow));
}

#[test]
fn test_decode_overflow_comes_before_missing_end() {
    let mut decoder = create_decoder(b"i99999999999999999999");

    let result = decoder.decode();

    assert_eq!(result, Err(DecoderError::IntegerOverflow));
}

#[test]
fn test_decode_negative_zero() {
    let mut decoder = create_decoder(b"i-0e");

    let result = decoder.decode();

    assert_eq!(result, Ok(Bencode::Integer(0)));
}

#[test]
fn test_decode_leading_zeros() {
    let mut decoder = create_decoder(b"i007e");

    let result = decoder.decode();

    assert_eq!(result, Ok(Bencode::Integer(7)));
}

#[test]
fn test_decode_sign_without_digits() {
    let mut decoder = create_decoder(b"i-e");

    let result = decoder.decode();

    assert_eq!(result, Err(DecoderError::NAN));
}

#[test]
fn test_decode_sign_at_end_of_input() {
    let mut decoder = create_decoder(b"i-");

    let result = decoder.decode();

    assert_eq!(result, Err(DecoderError::EOF));
}

#[test]
fn test_decode_integer_without_digits() {
    let mut decoder = create_decoder(b"ixe");

    let result = decoder.decode();

    assert_eq!(result, Err(DecoderError::NAN));
}

#[test]
fn test_decode_plus_sign_is_not_a_number() {
    let mut decoder = create_decoder(b"i+1e");

    let result = decoder.decode();

    assert_eq!(result, Err(DecoderError::NAN));
}

#[test]
fn test_decode_double_sign_is_not_a_number() {
    let mut decoder = create_decoder(b"i--1e");

    let result = decoder.decode();

    assert_eq!(result, Err(DecoderError::NAN));
}

#[test]
fn test_decode_integer_only_tag() {
    let mut decoder = create_decoder(b"i");

    let result = decoder.decode();

    assert_eq!(result, Err(DecoderError::EOF));
}

#[test]
fn test_decode_empty_input() {
    let mut decoder = create_decoder(b"");

    let result = decoder.decode();

    assert_eq!(result, Err(DecoderError::EOF));
}

#[test]
fn test_decode_unrecognized_tag() {
    let mut decoder = create_decoder(b"x");

    let result = decoder.decode();

    assert_eq!(result, Err(DecoderError::UnrecognizedTag));
}

#[test]
fn test_decode_end_marker_alone_is_unrecognized() {
    let mut decoder = create_decoder(b"e");

    let result = decoder.decode();

    assert_eq!(result, Err(DecoderError::UnrecognizedTag));
}

#[test]
fn test_decode_unrecognized_tag_in_list() {
    let mut decoder = create_decoder(b"li1e?e");

    let result = decoder.decode();

    assert_eq!(result, Err(DecoderError::UnrecognizedTag));
}

#[test]
fn test_decode_string_leaves_nothing_unread() {
    let mut decoder = create_decoder(b"4:spam");

    let result = decoder.decode();

    assert_eq!(result, Ok(Bencode::String(b"spam".to_vec())));
    assert_eq!(decoder.remaining(), b"");
}

#[test]
fn test_decode_string_leaves_trailing_bytes_unread() {
    let mut decoder = create_decoder(b"4:spam+");

    let result = decoder.decode();

    assert_eq!(result, Ok(Bencode::String(b"spam".to_vec())));
    assert_eq!(decoder.remaining(), b"+");
}

#[test]
fn test_decode_string_without_colon() {
    let mut decoder = create_decoder(b"4spam");

    let result = decoder.decode();

    assert_eq!(result, Err(DecoderError::NAN));
}

#[test]
fn test_decode_string_length_only() {
    let mut decoder = create_decoder(b"4");

    let result = decoder.decode();

    assert_eq!(result, Err(DecoderError::EOF));
}

#[test]
fn test_decode_string_length_with_leading_zero() {
    let mut decoder = create_decoder(b"03:abc");

    let result = decoder.decode();

    assert_eq!(result, Ok(Bencode::String(b"abc".to_vec())));
}

#[test]
fn test_decode_string_length_overflow() {
    let mut decoder = create_decoder(b"9223372036854775808:a");

    let result = decoder.decode();

    assert_eq!(result, Err(DecoderError::IntegerOverflow));
}

#[test]
fn test_decode_string_longer_than_input() {
    let mut decoder = create_decoder(b"9223372036854775807:a");

    let result = decoder.decode();

    assert_eq!(result, Err(DecoderError::EOF));
}

#[test]
fn test_decode_string_colon_counts_as_payload() {
    let mut decoder = create_decoder(b"2:::");

    let result = decoder.decode();

    assert_eq!(result, Ok(Bencode::String(b"::".to_vec())));
    assert_eq!(decoder.remaining(), b"");
}

#[test]
fn test_decode_values_one_behind_the_other() {
    let mut decoder = create_decoder(b"i1e4:spamlei-2e");

    assert_eq!(decoder.decode(), Ok(Bencode::Integer(1)));
    assert_eq!(decoder.remaining(), b"4:spamlei-2e");
    assert_eq!(decoder.decode(), Ok(Bencode::String(b"spam".to_vec())));
    assert_eq!(decoder.decode(), Ok(Bencode::List(vec![])));
    assert_eq!(decoder.decode(), Ok(Bencode::Integer(-2)));
    assert_eq!(decoder.remaining(), b"");
    assert_eq!(decoder.decode(), Err(DecoderError::EOF));
}

#[test]
fn test_decode_nested_lists() {
    let mut decoder = create_decoder(b"lli1eeleli2ei3eee");

    let result = decoder.decode();

    assert_eq!(
        result,
        Ok(Bencode::List(vec![
            Bencode::List(vec![Bencode::Integer(1)]),
            Bencode::List(vec![]),
            Bencode::List(vec![Bencode::Integer(2), Bencode::Integer(3)]),
        ]))
    );
}

#[test]
fn test_decode_list_of_mixed_shapes() {
    let mut decoder = create_decoder(b"li-5e0:d1:ai1eee");

    let result = decoder.decode();

    assert_eq!(
        result,
        Ok(Bencode::List(vec![
            Bencode::Integer(-5),
            Bencode::String(vec![]),
            Bencode::Dictionary(dictionary([("a".to_string(), Bencode::Integer(1))])),
        ]))
    );
}

#[test]
fn test_decode_dictionary_key_is_list() {
    let mut decoder = create_decoder(b"dl1:aei1ee");

    let result = decoder.decode();

    assert_eq!(
        result,
        Err(DecoderError::DictionaryKeyIsNotString(Bencode::List(vec![
            Bencode::String(b"a".to_vec())
        ])))
    );
}

#[test]
fn test_decode_dictionary_key_is_integer() {
    let mut decoder = create_decoder(b"di1ei2ee");

    let result = decoder.decode();

    assert_eq!(
        result,
        Err(DecoderError::DictionaryKeyIsNotString(Bencode::Integer(1)))
    );
}

#[test]
fn test_decode_dictionary_key_is_dictionary() {
    let mut decoder = create_decoder(b"ddei1ee");

    let result = decoder.decode();

    assert_eq!(
        result,
        Err(DecoderError::DictionaryKeyIsNotString(Bencode::Dictionary(
            Dictionary::new()
        )))
    );
}

#[test]
fn test_decode_dictionary_value_missing_behind_only_key() {
    let mut decoder = create_decoder(b"d3:cowe");

    let result = decoder.decode();

    assert_eq!(result, Err(DecoderError::DictionaryValueMissing));
}

#[test]
fn test_decode_dictionary_ends_behind_key() {
    let mut decoder = create_decoder(b"d3:cow");

    let result = decoder.decode();

    assert_eq!(result, Err(DecoderError::EOF));
}

#[test]
fn test_decode_dictionary_value_with_unrecognized_tag() {
    let mut decoder = create_decoder(b"d3:cow!e");

    let result = decoder.decode();

    assert_eq!(result, Err(DecoderError::UnrecognizedTag));
}

#[test]
fn test_decode_dictionary_key_not_utf8() {
    let mut decoder = create_decoder(b"d2:\xff\xfei1ee");

    let result = decoder.decode();

    match result {
        Err(DecoderError::InvalidUtf8(error)) => {
            assert_eq!(error.into_bytes(), b"\xff\xfe".to_vec());
        }
        other => panic!("{:?}", other),
    }
}

#[test]
fn test_decode_dictionary_key_not_utf8_before_missing_value() {
    let mut decoder = create_decoder(b"d1:\x80e");

    let result = decoder.decode();

    assert!(matches!(result, Err(DecoderError::InvalidUtf8(_))));
}

#[test]
fn test_decode_dictionary_key_of_several_bytes_per_character() {
    let mut decoder = create_decoder("d5:\u{e9}t\u{e9}i1ee".as_bytes());

    let result = decoder.decode();

    assert_eq!(
        result,
        Ok(Bencode::Dictionary(dictionary([(
            "\u{e9}t\u{e9}".to_string(),
            Bencode::Integer(1)
        )])))
    );
}

#[test]
fn test_decode_dictionary_keys_out_of_order() {
    let mut decoder = create_decoder(b"d4:spam4:eggs3:cow3:mooe");

    let result = decoder.decode();

    assert_eq!(
        result,
        Ok(Bencode::Dictionary(dictionary([
            ("cow".to_string(), Bencode::String(b"moo".to_vec())),
            ("spam".to_string(), Bencode::String(b"eggs".to_vec())),
        ])))
    );
}

#[test]
fn test_decode_dictionary_last_of_equal_keys_stays() {
    let mut decoder = create_decoder(b"d1:ai1e1:bi2e1:ai3ee");

    let result = decoder.decode();

    assert_eq!(
        result,
        Ok(Bencode::Dictionary(dictionary([
            ("a".to_string(), Bencode::Integer(3)),
            ("b".to_string(), Bencode::Integer(2)),
        ])))
    );
}

#[test]
fn test_decode_nested_dictionary() {
    let mut decoder = create_decoder(b"d1:ad1:bleee");

    let result = decoder.decode();

    assert_eq!(
        result,
        Ok(Bencode::Dictionary(dictionary([(
            "a".to_string(),
            Bencode::Dictionary(dictionary([("b".to_string(), Bencode::List(vec![]))])),
        )])))
    );
}

#[test]
fn test_decoder_error_from_utf8_error() {
    let error = String::from_utf8(vec![0xc0]).unwrap_err();

    let converted = DecoderError::from(error.clone());

    assert_eq!(converted, DecoderError::InvalidUtf8(error));
}

#[test]
fn test_new_decoder_has_read_nothing() {
    let decoder = create_decoder(b"i1e");

    assert_eq!(decoder.remaining(), b"i1e");
}
