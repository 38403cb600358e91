use torrent_core::decode::{decode_bencoded_value, DecodeResult};
use torrent_core::encode::{encode, encode_into};
use torrent_core::order::{bytes_le_exec, key_order};
use torrent_core::value::{bytes_eq, dict_lookup, find_key, BencodeValue};

fn text(s: &str) -> BencodeValue {
    BencodeValue::ByteString(s.as_bytes().to_vec())
}

fn entry(key: &str, value: BencodeValue) -> (Vec<u8>, BencodeValue) {
    (key.as_bytes().to_vec(), value)
}

#[test]
fn encodes_a_byte_string() {
    assert_eq!(encode(&text("hello")), b"5:hello");
    assert_eq!(encode(&text("")), b"0:");
    assert_eq!(encode(&text("0123456789ab")), b"12:0123456789ab");
    assert_eq!(encode(&BencodeValue::ByteString(vec![0, 255])), [b'2', b':', 0, 255]);
}

#[test]
fn encodes_integers_in_minimal_form() {
    assert_eq!(encode(&BencodeValue::Integer(0)), b"i0e");
    assert_eq!(encode(&BencodeValue::Integer(52)), b"i52e");
    assert_eq!(encode(&BencodeValue::Integer(-42)), b"i-42e");
    assert_eq!(encode(&BencodeValue::Integer(1000)), b"i1000e");
    assert_eq!(encode(&BencodeValue::Integer(i64::MAX)), b"i9223372036854775807e");
    assert_eq!(encode(&BencodeValue::Integer(i64::MIN)), b"i-9223372036854775808e");
}

#[test]
fn encodes_a_list_in_order() {
    let list = BencodeValue::List(vec![text("hello"), BencodeValue::Integer(52)]);
    assert_eq!(encode(&list), b"l5:helloi52ee");
    assert_eq!(encode(&BencodeValue::List(vec![])), b"le");
}

#[test]
fn encodes_a_dictionary_with_ascending_keys() {
    let dict = BencodeValue::Dictionary(vec![
        entry("hello", BencodeValue::Integer(52)),
        entry("foo", text("bar")),
    ]);
    assert_eq!(encode(&dict), b"d3:foo3:bar5:helloi52ee");
    assert_eq!(encode(&BencodeValue::Dictionary(vec![])), b"de");
}

#[test]
fn keys_are_ordered_as_raw_bytes() {
    let dict = BencodeValue::Dictionary(vec![
        (vec![0xff], BencodeValue::Integer(1)),
        (b"ab".to_vec(), BencodeValue::Integer(2)),
        (b"a".to_vec(), BencodeValue::Integer(3)),
        (b"B".to_vec(), BencodeValue::Integer(4)),
        (vec![], BencodeValue::Integer(5)),
    ]);
    let mut expected = b"d0:i5e1:Bi4e1:ai3e2:abi2e1:".to_vec();
    expected.push(0xff);
    expected.extend_from_slice(b"i1ee");
    assert_eq!(encode(&dict), expected);
}

#[test]
fn nested_dictionaries_are_ordered_too() {
    let inner = BencodeValue::Dictionary(vec![
        entry("y", BencodeValue::Integer(1)),
        entry("x", BencodeValue::Integer(2)),
    ]);
    let outer = BencodeValue::Dictionary(vec![
        entry("b", BencodeValue::List(vec![inner])),
        entry("a", text("z")),
    ]);
    assert_eq!(encode(&outer), b"d1:a1:z1:bld1:xi2e1:yi1eeee");
}

#[test]
fn encode_into_appends() {
    let mut out = b"4:spam".to_vec();
    encode_into(&text("egg"), &mut out);
    assert_eq!(out, b"4:spam3:egg");
}

#[test]
fn canonical_bytes_are_encoded_back_unchanged() {
    let inputs: [&[u8]; 7] = [
        b"5:hello",
        b"i-42e",
        b"i0e",
        b"l5:helloi52ee",
        b"d3:foo3:bar5:helloi52ee",
        b"d1:ad1:bl1:cd1:dleeee1:eli1ei2eee",
        b"de",
    ];
    for input in inputs {
        let DecodeResult(value, rest) = decode_bencoded_value(input).unwrap();
        assert!(rest.is_empty());
        assert_eq!(encode(&value), input);
    }
}

#[test]
fn loose_bytes_are_encoded_back_in_canonical_form() {
    let DecodeResult(value, _) = decode_bencoded_value(b"d1:zi007e1:ai-0e1:m03:abce").unwrap();
    assert_eq!(encode(&value), b"d1:ai0e1:m3:abc1:zi7ee");
}

#[test]
fn decoding_an_encoding_gives_the_entries_in_key_order() {
    let dict = BencodeValue::Dictionary(vec![
        entry("b", BencodeValue::Integer(1)),
        entry("a", BencodeValue::List(vec![text("x")])),
    ]);
    let bytes = encode(&dict);
    let DecodeResult(back, rest) = decode_bencoded_value(&bytes).unwrap();
    assert!(rest.is_empty());
    assert_eq!(
        back,
        BencodeValue::Dictionary(vec![
            entry("a", BencodeValue::List(vec![text("x")])),
            entry("b", BencodeValue::Integer(1)),
        ])
    );
    assert_eq!(encode(&back), bytes);
}

#[test]
fn byte_order_is_lexicographic() {
    assert!(bytes_le_exec(b"", b""));
    assert!(bytes_le_exec(b"", b"a"));
    assert!(!bytes_le_exec(b"a", b""));
    assert!(bytes_le_exec(b"a", b"a"));
    assert!(bytes_le_exec(b"a", b"ab"));
    assert!(!bytes_le_exec(b"ab", b"a"));
    assert!(bytes_le_exec(b"ab", b"b"));
    assert!(!bytes_le_exec(b"b", b"ab"));
    assert!(bytes_le_exec(&[0x7f], &[0x80]));
    assert!(!bytes_le_exec(&[0xff], &[0x00, 0x01]));
}

#[test]
fn key_order_is_stable_and_ascending() {
    let entries = vec![
        entry("b", BencodeValue::Integer(0)),
        entry("a", BencodeValue::Integer(1)),
        entry("c", BencodeValue::Integer(2)),
        entry("a", BencodeValue::Integer(3)),
    ];
    assert_eq!(key_order(&entries), vec![1, 3, 0, 2]);
    assert_eq!(key_order(&Vec::new()), Vec::<usize>::new());
}

#[test]
fn keys_are_found_by_their_bytes() {
    let entries = vec![entry("foo", BencodeValue::Integer(1)), entry("bar", text("x"))];
    assert_eq!(find_key(&entries, b"bar"), Some(1));
    assert_eq!(find_key(&entries, b"ba"), None);
    assert_eq!(dict_lookup(&entries, b"foo"), Some(&BencodeValue::Integer(1)));
    assert_eq!(dict_lookup(&entries, b"fooo"), None);
    assert!(bytes_eq(b"abc", b"abc"));
    assert!(!bytes_eq(b"abc", b"abd"));
    assert!(!bytes_eq(b"abc", b"ab"));
}
