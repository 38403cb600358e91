use std::collections::HashMap;
use torrent_core::decode::{decode_bencoded_value, DecodeResult};
use torrent_core::encode::encode;
use torrent_core::value::BencodeValue;

fn to_outside(value: &BencodeValue) -> serde_bencode::value::Value {
    match value {
        BencodeValue::ByteString(b) => serde_bencode::value::Value::Bytes(b.clone()),
        BencodeValue::Integer(n) => serde_bencode::value::Value::Int(*n),
        BencodeValue::List(items) => {
            serde_bencode::value::Value::List(items.iter().map(to_outside).collect())
        }
        BencodeValue::Dictionary(entries) => {
            let mut map = HashMap::new();
            for (k, v) in entries {
                map.insert(k.clone(), to_outside(v));
            }
            serde_bencode::value::Value::Dict(map)
        }
    }
}

fn sample_values() -> Vec<BencodeValue> {
    let s = |t: &str| BencodeValue::ByteString(t.as_bytes().to_vec());
    vec![
        s(""),
        s("hello"),
        BencodeValue::ByteString((0u8..=255).collect()),
        BencodeValue::Integer(0),
        BencodeValue::Integer(-1),
        BencodeValue::Integer(i64::MAX),
        BencodeValue::Integer(i64::MIN),
        BencodeValue::List(vec![]),
        BencodeValue::List(vec![s("a"), BencodeValue::Integer(7), BencodeValue::List(vec![])]),
        BencodeValue::Dictionary(vec![]),
        BencodeValue::Dictionary(vec![
            (b"zz".to_vec(), BencodeValue::Integer(1)),
            (b"a".to_vec(), s("x")),
            (vec![0xff, 0x00], BencodeValue::List(vec![BencodeValue::Integer(-5)])),
            (
                b"m".to_vec(),
                BencodeValue::Dictionary(vec![
                    (b"k2".to_vec(), s("v")),
                    (b"k1".to_vec(), BencodeValue::Integer(3)),
                ]),
            ),
        ]),
    ]
}

#[test]
fn encoder_agrees_with_serde_bencode() {
    for value in sample_values() {
        let expected = serde_bencode::to_bytes(&to_outside(&value)).unwrap();
        assert_eq!(encode(&value), expected);
    }
}

#[test]
fn decoder_agrees_with_serde_bencode() {
    for value in sample_values() {
        let bytes = serde_bencode::to_bytes(&to_outside(&value)).unwrap();
        let DecodeResult(decoded, rest) = decode_bencoded_value(&bytes).unwrap();
        assert!(rest.is_empty());
        let theirs: serde_bencode::value::Value = serde_bencode::from_bytes(&bytes).unwrap();
        assert_eq!(to_outside(&decoded), theirs);
    }
}
