use torrent_core::decimal::{push_decimal, push_signed_decimal, scan_digits};
use torrent_core::decode::{
    decode_dictionary_value, decode_integer_value, decode_list_value, decode_string_value,
    SyntaxError, SyntaxErrorKind,
};
use torrent_core::value::BencodeValue;

fn decimal_of(n: u64) -> Vec<u8> {
    let mut out = Vec::new();
    push_decimal(&mut out, n);
    out
}

fn signed_decimal_of(n: i64) -> Vec<u8> {
    let mut out = Vec::new();
    push_signed_decimal(&mut out, n);
    out
}

#[test]
fn digits_are_scanned_up_to_the_first_other_byte() {
    assert_eq!(scan_digits(b"123:abc", 0), 3);
    assert_eq!(scan_digits(b"123:abc", 2), 3);
    assert_eq!(scan_digits(b"123:abc", 3), 3);
    assert_eq!(scan_digits(b"123", 0), 3);
    assert_eq!(scan_digits(b"123", 3), 3);
    assert_eq!(scan_digits(b"/0:", 0), 0);
    assert_eq!(scan_digits(b"09:/", 0), 2);
    assert_eq!(scan_digits(b"12", 5), 5);
}

#[test]
fn numbers_are_written_without_leading_zeros() {
    assert_eq!(decimal_of(0), b"0");
    assert_eq!(decimal_of(9), b"9");
    assert_eq!(decimal_of(10), b"10");
    assert_eq!(decimal_of(1234567890), b"1234567890");
    assert_eq!(decimal_of(u64::MAX), b"18446744073709551615");
}

#[test]
fn signed_numbers_take_a_single_minus() {
    assert_eq!(signed_decimal_of(0), b"0");
    assert_eq!(signed_decimal_of(-1), b"-1");
    assert_eq!(signed_decimal_of(i64::MAX), b"9223372036854775807");
    assert_eq!(signed_decimal_of(i64::MIN), b"-9223372036854775808");
}

#[test]
fn written_numbers_are_read_back() {
    for n in [0u64, 1, 9, 10, 99, 100, 65535, 1 << 32, u64::MAX - 1, u64::MAX] {
        let digits = decimal_of(n);
        assert_eq!(scan_digits(&digits, 0), digits.len());
        let encoded = [&digits[..], b":"].concat();
        match decode_string_value(&encoded, 0) {
            Err(e) => assert_eq!(
                (e, n > 0),
                (SyntaxError { kind: SyntaxErrorKind::LengthOutOfBounds, offset: 0 }, true)
            ),
            Ok((bytes, end)) => assert_eq!((bytes, end, n), (vec![], 2, 0)),
        }
    }
}

#[test]
fn byte_string_is_decoded_at_a_position() {
    assert_eq!(decode_string_value(b"i1e3:abcX", 3), Ok((b"abc".to_vec(), 8)));
    assert_eq!(
        decode_string_value(b"i1e", 0),
        Err(SyntaxError { kind: SyntaxErrorKind::BadLength, offset: 0 })
    );
    assert_eq!(
        decode_string_value(b"3:ab", 9),
        Err(SyntaxError { kind: SyntaxErrorKind::MissingDelimiter, offset: 9 })
    );
}

#[test]
fn integer_is_decoded_at_a_position() {
    assert_eq!(decode_integer_value(b"3:abci-7e", 5), Ok((-7, 9)));
    assert_eq!(
        decode_integer_value(b"3:abc", 0),
        Err(SyntaxError { kind: SyntaxErrorKind::UnexpectedByte, offset: 0 })
    );
    assert_eq!(
        decode_integer_value(b"i1e", 3),
        Err(SyntaxError { kind: SyntaxErrorKind::UnexpectedEnd, offset: 3 })
    );
}

#[test]
fn list_is_decoded_at_a_position() {
    assert_eq!(
        decode_list_value(b"Xli1ei2ee", 1),
        Ok((vec![BencodeValue::Integer(1), BencodeValue::Integer(2)], 9))
    );
    assert_eq!(
        decode_list_value(b"de", 0),
        Err(SyntaxError { kind: SyntaxErrorKind::UnexpectedByte, offset: 0 })
    );
    assert_eq!(
        decode_list_value(b"le", 2),
        Err(SyntaxError { kind: SyntaxErrorKind::UnexpectedEnd, offset: 2 })
    );
}

#[test]
fn dictionary_is_decoded_at_a_position() {
    assert_eq!(
        decode_dictionary_value(b"i0ed1:k1:ve", 3),
        Ok((vec![(b"k".to_vec(), BencodeValue::ByteString(b"v".to_vec()))], 11))
    );
    assert_eq!(
        decode_dictionary_value(b"le", 0),
        Err(SyntaxError { kind: SyntaxErrorKind::UnexpectedByte, offset: 0 })
    );
    assert_eq!(
        decode_dictionary_value(b"", 0),
        Err(SyntaxError { kind: SyntaxErrorKind::UnexpectedEnd, offset: 0 })
    );
}
