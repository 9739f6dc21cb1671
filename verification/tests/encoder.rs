use bencode::bencode::Bencode;
use bencode::encoder::Encoder;

fn create_encoder() -> Encoder {
    Encoder::new(vec![])
}

#[test]
fn test_encode_positive_integer() {
    // Arrange
    let mut encoder = create_encoder();

    // Act
    let result = encoder.encode(&Bencode::Integer(123));

    // Assert
    assert!(result.is_ok());
    assert_eq!(encoder.writer, b"i123e");
}

#[test]
fn test_encode_negative_integer() {
    // Arrange
    let mut encoder = create_encoder();

    // Act
    let result = encoder.encode(&Bencode::Integer(-123));

    // Assert
    assert!(result.is_ok());
    assert_eq!(encoder.writer, b"i-123e");
}

#[test]
fn test_encode_zero() {
    // Arrange
    let mut encoder = create_encoder();

    // Act
    let result = encoder.encode(&Bencode::Integer(0));

    // Assert
    assert!(result.is_ok());
    assert_eq!(encoder.writer, b"i0e");
}

#[test]
fn test_encode_ascii_string() {
    // Arrange
    let mut encoder = create_encoder();

    // Act
    let result = encoder.encode(&Bencode::String(b"spam".to_vec()));

    // Assert
    assert!(result.is_ok());
    assert_eq!(encoder.writer, b"4:spam");
}

#[test]
fn test_encode_raw_byte_string() {
    // Arrange
    let mut encoder = create_encoder();

    // Act
    let result = encoder.encode(&Bencode::String(b"\x00\x01\x02\x03".to_vec()));

    // Assert
    assert!(result.is_ok());
    assert_eq!(encoder.writer, b"4:\x00\x01\x02\x03");
}

#[test]
fn test_encode_empty_string() {
    // Arrange
    let mut encoder = create_encoder();

    // Act
    let result = encoder.encode(&Bencode::String(vec![]));

    // Assert
    assert!(result.is_ok());
    assert_eq!(encoder.writer, b"0:");
}

#[test]
fn test_encode_list() {
    // Arrange
    let mut encoder = create_encoder();

    // Act
    let result = encoder.encode(&Bencode::List(vec![
        Bencode::String(b"spam".to_vec()),
        Bencode::String(b"eggs".to_vec()),
    ]));

    // Assert
    assert!(result.is_ok());
    assert_eq!(encoder.writer, b"l4:spam4:eggse");
}

#[test]
fn test_encode_empty_list() {
    // Arrange
    let mut encoder = create_encoder();

    // Act
    let result = encoder.encode(&Bencode::List(vec![]));

    // Assert
    assert!(result.is_ok());
    assert_eq!(encoder.writer, b"le");
}
fn encoded(value: &Bencode) -> Vec<u8> {
    let mut encoder = create_encoder();
    let result = encoder.encode(value);
    assert!(result.is_ok());
    encoder.writer
}

fn dictionary<const N: usize>(entries: [(&str, Bencode); N]) -> Bencode {
    let mut dictionary = bencode::dictionary::Dictionary::new();
    for (key, value) in entries {
        dictionary.insert(key.to_string(), value);
    }
    Bencode::Dictionary(dictionary)
}

#[test]
fn test_encode_largest_integer() {
    assert_eq!(encoded(&Bencode::Integer(i64::MAX)), b"i9223372036854775807e");
}

#[test]
fn test_encode_least_integer() {
    assert_eq!(encoded(&Bencode::Integer(i64::MIN)), b"i-9223372036854775808e");
}

#[test]
fn test_encode_integers_around_ten() {
    assert_eq!(encoded(&Bencode::Integer(9)), b"i9e");
    assert_eq!(encoded(&Bencode::Integer(10)), b"i10e");
    assert_eq!(encoded(&Bencode::Integer(-10)), b"i-10e");
    assert_eq!(encoded(&Bencode::Integer(-1)), b"i-1e");
    assert_eq!(encoded(&Bencode::Integer(1000)), b"i1000e");
}

#[test]
fn test_encode_string_of_ten_bytes() {
    assert_eq!(
        encoded(&Bencode::String(b"0123456789".to_vec())),
        b"10:0123456789"
    );
}

#[test]
fn test_encode_string_of_digits_and_colons() {
    assert_eq!(encoded(&Bencode::String(b"1:e".to_vec())), b"3:1:e");
}

#[test]
fn test_encode_empty_dictionary() {
    assert_eq!(encoded(&dictionary([])), b"de");
}

#[test]
fn test_encode_dictionary_in_key_order() {
    let value = dictionary([
        ("spam", Bencode::String(b"eggs".to_vec())),
        ("cow", Bencode::String(b"moo".to_vec())),
    ]);

    assert_eq!(encoded(&value), b"d3:cow3:moo4:spam4:eggse");
}

#[test]
fn test_encode_dictionary_shorter_key_first() {
    let value = dictionary([
        ("ab", Bencode::Integer(2)),
        ("b", Bencode::Integer(3)),
        ("a", Bencode::Integer(1)),
        ("", Bencode::Integer(0)),
    ]);

    assert_eq!(encoded(&value), b"d0:i0e1:ai1e2:abi2e1:bi3ee");
}

#[test]
fn test_encode_dictionary_orders_by_bytes() {
    let value = dictionary([
        ("\u{e9}", Bencode::Integer(3)),
        ("z", Bencode::Integer(2)),
        ("Z", Bencode::Integer(1)),
    ]);

    assert_eq!(encoded(&value), b"d1:Zi1e1:zi2e2:\xc3\xa9i3ee");
}

#[test]
fn test_encode_dictionary_with_list() {
    let value = dictionary([(
        "spam",
        Bencode::List(vec![
            Bencode::String(b"a".to_vec()),
            Bencode::String(b"b".to_vec()),
        ]),
    )]);

    assert_eq!(encoded(&value), b"d4:spaml1:a1:bee");
}

#[test]
fn test_encode_nested_lists() {
    let value = Bencode::List(vec![
        Bencode::List(vec![Bencode::Integer(1)]),
        Bencode::List(vec![]),
        dictionary([("k", Bencode::List(vec![Bencode::Integer(-2)]))]),
    ]);

    assert_eq!(encoded(&value), b"lli1eeled1:kli-2eeee");
}

#[test]
fn test_encode_appends_to_what_was_written() {
    let mut encoder = Encoder::new(b"i1e".to_vec());

    let first = encoder.encode(&Bencode::String(b"spam".to_vec()));
    let second = encoder.encode(&Bencode::List(vec![]));

    assert!(first.is_ok());
    assert!(second.is_ok());
    assert_eq!(encoder.writer, b"i1e4:spamle");
}

#[test]
fn test_encode_twice_gives_the_same_bytes() {
    let value = dictionary([
        ("b", Bencode::List(vec![Bencode::Integer(7), Bencode::String(vec![0, 255])])),
        ("a", Bencode::Integer(-7)),
    ]);

    assert_eq!(encoded(&value), encoded(&value));
    assert_eq!(encoded(&value), b"d1:ai-7e1:bli7e2:\x00\xffee");
}
