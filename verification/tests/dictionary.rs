use bencode::bencode::Bencode;
use bencode::dictionary::Dictionary;
use bencode::keys::{compare, Placement};

fn keys(dictionary: &Dictionary) -> Vec<String> {
    (0..dictionary.len())
        .map(|index| dictionary.entry(index).unwrap().0.clone())
        .collect()
}

#[test]
fn test_new_dictionary_is_empty() {
    let dictionary = Dictionary::new();

    assert_eq!(dictionary.len(), 0);
    assert_eq!(dictionary.get("spam"), None);
    assert_eq!(dictionary.entry(0), None);
}

#[test]
fn test_insert_keeps_keys_ascending() {
    let mut dictionary = Dictionary::new();

    assert_eq!(dictionary.insert("spam".to_string(), Bencode::Integer(1)), None);
    assert_eq!(dictionary.insert("cow".to_string(), Bencode::Integer(2)), None);
    assert_eq!(dictionary.insert("eggs".to_string(), Bencode::Integer(3)), None);
    assert_eq!(dictionary.insert("".to_string(), Bencode::Integer(4)), None);
    assert_eq!(dictionary.insert("spa".to_string(), Bencode::Integer(5)), None);

    assert_eq!(dictionary.len(), 5);
    assert_eq!(keys(&dictionary), vec!["", "cow", "eggs", "spa", "spam"]);
    assert_eq!(dictionary.entry(0), Some((&"".to_string(), &Bencode::Integer(4))));
    assert_eq!(dictionary.entry(1), Some((&"cow".to_string(), &Bencode::Integer(2))));
    assert_eq!(dictionary.entry(2), Some((&"eggs".to_string(), &Bencode::Integer(3))));
    assert_eq!(dictionary.entry(3), Some((&"spa".to_string(), &Bencode::Integer(5))));
    assert_eq!(dictionary.entry(4), Some((&"spam".to_string(), &Bencode::Integer(1))));
    assert_eq!(dictionary.entry(5), None);
}

#[test]
fn test_insert_same_key_replaces_value() {
    let mut dictionary = Dictionary::new();
    dictionary.insert("a".to_string(), Bencode::Integer(1));
    dictionary.insert("b".to_string(), Bencode::Integer(2));
    dictionary.insert("c".to_string(), Bencode::Integer(3));

    let previous = dictionary.insert("b".to_string(), Bencode::String(b"new".to_vec()));

    assert_eq!(previous, Some(Bencode::Integer(2)));
    assert_eq!(dictionary.len(), 3);
    assert_eq!(keys(&dictionary), vec!["a", "b", "c"]);
    assert_eq!(dictionary.get("a"), Some(&Bencode::Integer(1)));
    assert_eq!(dictionary.get("b"), Some(&Bencode::String(b"new".to_vec())));
    assert_eq!(dictionary.get("c"), Some(&Bencode::Integer(3)));
}

#[test]
fn test_get_missing_key() {
    let mut dictionary = Dictionary::new();
    dictionary.insert("b".to_string(), Bencode::Integer(2));
    dictionary.insert("d".to_string(), Bencode::Integer(4));

    assert_eq!(dictionary.get("a"), None);
    assert_eq!(dictionary.get("c"), None);
    assert_eq!(dictionary.get("e"), None);
    assert_eq!(dictionary.get("bb"), None);
    assert_eq!(dictionary.get(""), None);
}

#[test]
fn test_insertion_order_does_not_matter() {
    let mut forward = Dictionary::new();
    forward.insert("cow".to_string(), Bencode::Integer(1));
    forward.insert("spam".to_string(), Bencode::Integer(2));
    let mut backward = Dictionary::new();
    backward.insert("spam".to_string(), Bencode::Integer(2));
    backward.insert("cow".to_string(), Bencode::Integer(1));

    assert_eq!(forward, backward);
    assert_eq!(keys(&backward), vec!["cow", "spam"]);
}

#[test]
fn test_dictionaries_with_different_values_differ() {
    let mut first = Dictionary::new();
    first.insert("cow".to_string(), Bencode::Integer(1));
    let mut second = Dictionary::new();
    second.insert("cow".to_string(), Bencode::Integer(2));
    let mut third = Dictionary::new();
    third.insert("cov".to_string(), Bencode::Integer(1));
    let mut fourth = Dictionary::new();
    fourth.insert("cow".to_string(), Bencode::Integer(1));
    fourth.insert("spam".to_string(), Bencode::Integer(1));

    assert_ne!(first, second);
    assert_ne!(first, third);
    assert_ne!(first, fourth);
    assert_ne!(first, Dictionary::new());
    assert!(first == first);
    assert!(!(first == fourth));
}

#[test]
fn test_keys_order_by_bytes_not_by_characters() {
    let mut dictionary = Dictionary::new();
    dictionary.insert("\u{10000}".to_string(), Bencode::Integer(1));
    dictionary.insert("\u{ff5e}".to_string(), Bencode::Integer(2));
    dictionary.insert("~".to_string(), Bencode::Integer(3));

    assert_eq!(keys(&dictionary), vec!["~", "\u{ff5e}", "\u{10000}"]);
}

#[test]
fn test_compare_keys() {
    assert_eq!(compare(b"", b""), Placement::Same);
    assert_eq!(compare(b"", b"a"), Placement::Before);
    assert_eq!(compare(b"a", b""), Placement::After);
    assert_eq!(compare(b"cow", b"spam"), Placement::Before);
    assert_eq!(compare(b"spam", b"cow"), Placement::After);
    assert_eq!(compare(b"spa", b"spam"), Placement::Before);
    assert_eq!(compare(b"spam", b"spa"), Placement::After);
    assert_eq!(compare(b"spam", b"spam"), Placement::Same);
    assert_eq!(compare(b"a\xff", b"b"), Placement::Before);
    assert_eq!(compare(b"\x7f", b"\x80"), Placement::Before);
}

#[test]
fn test_equal_trees() {
    let left = Bencode::List(vec![
        Bencode::String(b"spam".to_vec()),
        Bencode::String(b"eggs".to_vec()),
    ]);
    let right = Bencode::List(vec![
        Bencode::String(b"spam".to_vec()),
        Bencode::String(b"eggs".to_vec()),
    ]);

    assert_eq!(left, right);
    assert!(left == right);
    assert_eq!(Bencode::List(vec![]), Bencode::List(vec![]));
    assert_eq!(Bencode::Integer(-3), Bencode::Integer(-3));
}

#[test]
fn test_unequal_trees() {
    let list = Bencode::List(vec![
        Bencode::String(b"spam".to_vec()),
        Bencode::String(b"eggs".to_vec()),
    ]);
    let swapped = Bencode::List(vec![
        Bencode::String(b"eggs".to_vec()),
        Bencode::String(b"spam".to_vec()),
    ]);
    let shorter = Bencode::List(vec![Bencode::String(b"spam".to_vec())]);

    assert_ne!(list, swapped);
    assert_ne!(list, shorter);
    assert_ne!(shorter, list);
    assert_ne!(Bencode::Integer(0), Bencode::String(vec![]));
    assert_ne!(Bencode::Integer(1), Bencode::Integer(-1));
    assert_ne!(Bencode::String(b"a".to_vec()), Bencode::String(b"b".to_vec()));
    assert_ne!(Bencode::String(b"a".to_vec()), Bencode::String(b"ab".to_vec()));
    assert_ne!(Bencode::List(vec![]), Bencode::Dictionary(Dictionary::new()));
    assert_ne!(Bencode::List(vec![]), Bencode::String(vec![]));
}
