//! Decoding: the grammar of bencode as a function on bytes, and the decoder
//! that computes it with a single cursor.

use crate::ascii::{
    COLON, DICT_START, DIGIT_NINE, DIGIT_ZERO, END, INT_START, LIST_START, MINUS,
};
use crate::decimal::{
    digits_end, digits_to_u64, digits_value, is_digit, lemma_digits_end, scan_digits,
};
use crate::value::{
    dict_insert, dict_view, distinct_keys, find_key, key_index, lemma_dict_insert_distinct,
    lemma_key_index, list_view, BencodeValue, Value,
};
use vstd::prelude::*;
use vstd::slice::*;

verus! {

/// What is wrong with an input that is not bencode.
#[derive(Clone, Copy, Debug, PartialEq, Eq, Structural)]
pub enum SyntaxErrorKind {
    /// The input ends where a value has to begin.
    UnexpectedEnd,
    /// A value begins with a byte that is neither a digit nor `i`, `l` or `d`.
    UnexpectedByte,
    /// The input ends before the `:` of a byte string or the `e` of an integer.
    MissingDelimiter,
    /// The length of a byte string is not a run of digits followed by `:`.
    BadLength,
    /// A byte string is longer than what is left of the input.
    LengthOutOfBounds,
    /// The body of an integer is empty or holds a byte that is no digit.
    InvalidInteger,
    /// An integer does not fit in 64 bits.
    IntegerOverflow,
    /// The input ends inside a list.
    UnterminatedList,
    /// The input ends inside a dictionary.
    UnterminatedDictionary,
    /// A dictionary key is a value of another kind than a byte string.
    NonStringKey,
}

/// A syntax error and the offset in the input at which it was found.
#[derive(Clone, Copy, Debug, PartialEq, Eq, Structural)]
pub struct SyntaxError {
    pub kind: SyntaxErrorKind,
    pub offset: usize,
}

/// The outcome of reading one construct at a position of the input: the value
/// and the position after it, or the kind of error and where it is.
pub enum Parsed<T> {
    /// The construct was read: what it is, and the position of the first byte
    /// after it.
    Done { value: T, end: int },
    /// The input is refused: why, and at which position.
    Failed { kind: SyntaxErrorKind, at: int },
}

/// Reads a byte string at `pos`: digits, `:`, and as many bytes as the digits
/// say.
pub open spec fn parse_string(s: Seq<u8>, pos: int) -> Parsed<Seq<u8>> {
    let colon = digits_end(s, pos);
    if colon >= s.len() || pos < 0 {
        Parsed::Failed { kind: SyntaxErrorKind::MissingDelimiter, at: colon }
    } else if colon == pos || s[colon] != COLON {
        Parsed::Failed { kind: SyntaxErrorKind::BadLength, at: colon }
    } else {
        let len = digits_value(s.subrange(pos, colon));
        if colon + 1 + len > s.len() {
            Parsed::Failed { kind: SyntaxErrorKind::LengthOutOfBounds, at: pos }
        } else {
            Parsed::Done { value: s.subrange(colon + 1, colon + 1 + len), end: colon + 1 + len }
        }
    }
}

/// Reads an integer at `pos`: `i`, an optional `-`, digits, `e`. Leading zeros
/// and a negative zero are read as the number they denote; a `+` is not
/// accepted.
pub open spec fn parse_integer(s: Seq<u8>, pos: int) -> Parsed<int> {
    if pos < 0 || pos >= s.len() {
        Parsed::Failed { kind: SyntaxErrorKind::UnexpectedEnd, at: pos }
    } else if s[pos] != INT_START {
        Parsed::Failed { kind: SyntaxErrorKind::UnexpectedByte, at: pos }
    } else {
        let negative = pos + 1 < s.len() && s[pos + 1] == MINUS;
        let start = if negative {
            pos + 2
        } else {
            pos + 1
        };
        let end = digits_end(s, start);
        if end >= s.len() {
            Parsed::Failed { kind: SyntaxErrorKind::MissingDelimiter, at: end }
        } else if end == start || s[end] != END {
            Parsed::Failed { kind: SyntaxErrorKind::InvalidInteger, at: end }
        } else {
            let magnitude = digits_value(s.subrange(start, end));
            let n = if negative {
                -magnitude
            } else {
                magnitude as int
            };
            if n < i64::MIN || n > i64::MAX {
                Parsed::Failed { kind: SyntaxErrorKind::IntegerOverflow, at: pos }
            } else {
                Parsed::Done { value: n, end: end + 1 }
            }
        }
    }
}

/// Reads one value at `pos`. The first byte decides its kind: a digit begins a
/// byte string, `i` an integer, `l` a list and `d` a dictionary.
pub open spec fn parse_value(s: Seq<u8>, pos: int) -> Parsed<Value>
    decreases s.len() - pos, 1int,
{
    if pos < 0 || pos >= s.len() {
        Parsed::Failed { kind: SyntaxErrorKind::UnexpectedEnd, at: pos }
    } else if is_digit(s[pos]) {
        match parse_string(s, pos) {
            Parsed::Done { value, end } => Parsed::Done { value: Value::Bytes(value), end },
            Parsed::Failed { kind, at } => Parsed::Failed { kind, at },
        }
    } else if s[pos] == INT_START {
        match parse_integer(s, pos) {
            Parsed::Done { value, end } => Parsed::Done { value: Value::Int(value), end },
            Parsed::Failed { kind, at } => Parsed::Failed { kind, at },
        }
    } else if s[pos] == LIST_START {
        match parse_list_value(s, pos) {
            Parsed::Done { value, end } => Parsed::Done { value: Value::List(value), end },
            Parsed::Failed { kind, at } => Parsed::Failed { kind, at },
        }
    } else if s[pos] == DICT_START {
        match parse_dictionary_value(s, pos) {
            Parsed::Done { value, end } => Parsed::Done { value: Value::Dict(value), end },
            Parsed::Failed { kind, at } => Parsed::Failed { kind, at },
        }
    } else {
        Parsed::Failed { kind: SyntaxErrorKind::UnexpectedByte, at: pos }
    }
}

/// Reads a list at `pos`: `l`, values, `e`.
pub open spec fn parse_list_value(s: Seq<u8>, pos: int) -> Parsed<Seq<Value>>
    decreases s.len() - pos, 0int,
{
    if pos < 0 || pos >= s.len() {
        Parsed::Failed { kind: SyntaxErrorKind::UnexpectedEnd, at: pos }
    } else if s[pos] != LIST_START {
        Parsed::Failed { kind: SyntaxErrorKind::UnexpectedByte, at: pos }
    } else {
        parse_list_items(s, pos + 1, Seq::empty())
    }
}

/// Reads the rest of a list from `pos`, after the items `acc`: values up to
/// the closing `e`. A value always ends after its first byte and inside the
/// input (`lemma_parse_value_bounds`), so the branch that refuses another end
/// is never taken; it is there to make the recursion well founded.
pub open spec fn parse_list_items(s: Seq<u8>, pos: int, acc: Seq<Value>) -> Parsed<Seq<Value>>
    decreases s.len() - pos, 2int,
{
    if pos < 0 || pos >= s.len() {
        Parsed::Failed { kind: SyntaxErrorKind::UnterminatedList, at: pos }
    } else if s[pos] == END {
        Parsed::Done { value: acc, end: pos + 1 }
    } else {
        match parse_value(s, pos) {
            Parsed::Failed { kind, at } => Parsed::Failed { kind, at },
            Parsed::Done { value, end } => if end <= pos || end > s.len() {
                Parsed::Failed { kind: SyntaxErrorKind::UnexpectedEnd, at: pos }
            } else {
                parse_list_items(s, end, acc.push(value))
            },
        }
    }
}

/// Reads a dictionary at `pos`: `d`, pairs of a byte string key and a value,
/// `e`. A key that occurs again takes the later value and keeps its place.
pub open spec fn parse_dictionary_value(s: Seq<u8>, pos: int) -> Parsed<Seq<(Seq<u8>, Value)>>
    decreases s.len() - pos, 0int,
{
    if pos < 0 || pos >= s.len() {
        Parsed::Failed { kind: SyntaxErrorKind::UnexpectedEnd, at: pos }
    } else if s[pos] != DICT_START {
        Parsed::Failed { kind: SyntaxErrorKind::UnexpectedByte, at: pos }
    } else {
        parse_dictionary_entries(s, pos + 1, Seq::empty())
    }
}

/// Reads the rest of a dictionary from `pos`, after the entries `acc`: pairs
/// up to the closing `e`. As for lists, the branches that refuse an end outside
/// the input are never taken.
pub open spec fn parse_dictionary_entries(
    s: Seq<u8>,
    pos: int,
    acc: Seq<(Seq<u8>, Value)>,
) -> Parsed<Seq<(Seq<u8>, Value)>>
    decreases s.len() - pos, 2int,
{
    if pos < 0 || pos >= s.len() {
        Parsed::Failed { kind: SyntaxErrorKind::UnterminatedDictionary, at: pos }
    } else if s[pos] == END {
        Parsed::Done { value: acc, end: pos + 1 }
    } else {
        match parse_value(s, pos) {
            Parsed::Failed { kind, at } => Parsed::Failed { kind, at },
            Parsed::Done { value: key, end: after_key } => match key {
                Value::Bytes(k) => if after_key <= pos || after_key > s.len() {
                    Parsed::Failed { kind: SyntaxErrorKind::UnexpectedEnd, at: pos }
                } else {
                    match parse_value(s, after_key) {
                        Parsed::Failed { kind, at } => Parsed::Failed { kind, at },
                        Parsed::Done { value, end } => if end <= after_key || end > s.len() {
                            Parsed::Failed { kind: SyntaxErrorKind::UnexpectedEnd, at: pos }
                        } else {
                            parse_dictionary_entries(s, end, dict_insert(acc, k, value))
                        },
                    }
                },
                _ => Parsed::Failed { kind: SyntaxErrorKind::NonStringKey, at: pos },
            },
        }
    }
}

/// All values of `items` are well formed.
pub open spec fn all_wf(items: Seq<Value>) -> bool {
    forall|i: int| 0 <= i < items.len() ==> (#[trigger] items[i]).wf()
}

/// All values bound in `entries` are well formed.
pub open spec fn all_values_wf(entries: Seq<(Seq<u8>, Value)>) -> bool {
    forall|i: int| 0 <= i < entries.len() ==> (#[trigger] entries[i]).1.wf()
}

/// A byte string that was read ends after `pos` and inside the input.
pub proof fn lemma_parse_string_bounds(s: Seq<u8>, pos: int)
    ensures
        parse_string(s, pos) matches Parsed::Done { value, end } ==> 0 <= pos < end <= s.len(),
{
    if 0 <= pos <= s.len() {
        lemma_digits_end(s, pos);
    }
}

/// An integer that was read ends after `pos` and inside the input, and fits
/// in 64 bits.
pub proof fn lemma_parse_integer_bounds(s: Seq<u8>, pos: int)
    ensures
        parse_integer(s, pos) matches Parsed::Done { value, end } ==> 0 <= pos < end <= s.len()
            && i64::MIN <= value <= i64::MAX,
{
    if 0 <= pos < s.len() {
        let negative = pos + 1 < s.len() && s[pos + 1] == MINUS;
        let start = if negative {
            pos + 2
        } else {
            pos + 1
        };
        lemma_digits_end(s, start);
    }
}

/// A value that was read ends after `pos` and inside the input, and is well
/// formed.
pub proof fn lemma_parse_value_bounds(s: Seq<u8>, pos: int)
    ensures
        parse_value(s, pos) matches Parsed::Done { value, end } ==> 0 <= pos < end <= s.len()
            && value.wf(),
    decreases s.len() - pos, 1int,
{
    if 0 <= pos < s.len() {
        if is_digit(s[pos]) {
            lemma_parse_string_bounds(s, pos);
        } else if s[pos] == INT_START {
            lemma_parse_integer_bounds(s, pos);
        } else if s[pos] == LIST_START {
            lemma_parse_list_items_bounds(s, pos + 1, Seq::empty());
        } else if s[pos] == DICT_START {
            lemma_parse_dictionary_entries_bounds(s, pos + 1, Seq::empty());
        }
    }
}

/// The rest of a list that was read ends after `pos` and inside the input, and
/// its items are well formed if those before it were.
pub proof fn lemma_parse_list_items_bounds(s: Seq<u8>, pos: int, acc: Seq<Value>)
    ensures
        parse_list_items(s, pos, acc) matches Parsed::Done { value, end } ==> 0 <= pos < end
            <= s.len() && (all_wf(acc) ==> all_wf(value)),
    decreases s.len() - pos, 2int,
{
    if 0 <= pos < s.len() && s[pos] != END {
        lemma_parse_value_bounds(s, pos);
        match parse_value(s, pos) {
            Parsed::Done { value, end } => {
                if end > pos {
                    lemma_parse_list_items_bounds(s, end, acc.push(value));
                }
            },
            _ => {},
        }
    }
}

/// The rest of a dictionary that was read ends after `pos` and inside the
/// input; its keys are distinct and its values well formed if those before it
/// were.
pub proof fn lemma_parse_dictionary_entries_bounds(
    s: Seq<u8>,
    pos: int,
    acc: Seq<(Seq<u8>, Value)>,
)
    ensures
        parse_dictionary_entries(s, pos, acc) matches Parsed::Done { value, end } ==> 0 <= pos
            < end <= s.len() && (distinct_keys(acc) && all_values_wf(acc) ==> distinct_keys(
            value,
        ) && all_values_wf(value)),
    decreases s.len() - pos, 2int,
{
    if 0 <= pos < s.len() && s[pos] != END {
        lemma_parse_value_bounds(s, pos);
        match parse_value(s, pos) {
            Parsed::Done { value: Value::Bytes(k), end: after_key } => {
                if after_key > pos {
                    lemma_parse_value_bounds(s, after_key);
                    match parse_value(s, after_key) {
                        Parsed::Done { value, end } => {
                            if end > after_key {
                                let next = dict_insert(acc, k, value);
                                if distinct_keys(acc) && all_values_wf(acc) {
                                    lemma_dict_insert_distinct(acc, k, value);
                                    lemma_key_index(acc, k);
                                    assert forall|i: int| 0 <= i < next.len() implies (
                                    #[trigger] next[i]).1.wf() by {
                                        if i < acc.len() && i != key_index(acc, k) {
                                            assert(next[i] == acc[i]);
                                        }
                                    }
                                }
                                lemma_parse_dictionary_entries_bounds(s, end, next);
                            }
                        },
                        _ => {},
                    }
                }
            },
            _ => {},
        }
    }
}

/// Decodes the byte string that starts at `pos` and returns it with the
/// position after it.
pub fn decode_string_value(encoded_value: &[u8], pos: usize) -> (r: Result<
    (Vec<u8>, usize),
    SyntaxError,
>)
    ensures
        match r {
            Ok((bytes, end)) => parse_string(encoded_value@, pos as int) == (Parsed::Done {
                value: bytes@,
                end: end as int,
            }),
            Err(e) => parse_string(encoded_value@, pos as int) == (Parsed::<Seq<u8>>::Failed {
                kind: e.kind,
                at: e.offset as int,
            }),
        },
{
    let len: usize = encoded_value.len();
    if pos >= len {
        return Err(SyntaxError { kind: SyntaxErrorKind::MissingDelimiter, offset: pos });
    }
    let colon: usize = scan_digits(encoded_value, pos);
    if colon >= len {
        return Err(SyntaxError { kind: SyntaxErrorKind::MissingDelimiter, offset: colon });
    }
    if colon == pos || encoded_value[colon] != COLON {
        return Err(SyntaxError { kind: SyntaxErrorKind::BadLength, offset: colon });
    }
    proof {
        lemma_digits_end(encoded_value@, pos as int);
    }
    let remaining: usize = len - colon - 1;
    match digits_to_u64(encoded_value, pos, colon) {
        None => Err(SyntaxError { kind: SyntaxErrorKind::LengthOutOfBounds, offset: pos }),
        Some(n) => {
            if n > remaining as u64 {
                Err(SyntaxError { kind: SyntaxErrorKind::LengthOutOfBounds, offset: pos })
            } else {
                let start: usize = colon + 1;
                let end: usize = start + n as usize;
                let bytes = slice_to_vec(slice_subrange(encoded_value, start, end));
                Ok((bytes, end))
            }
        },
    }
}

/// Decodes the integer that starts at `pos` and returns it with the position
/// after it.
pub fn decode_integer_value(encoded_value: &[u8], pos: usize) -> (r: Result<
    (i64, usize),
    SyntaxError,
>)
    ensures
        match r {
            Ok((n, end)) => parse_integer(encoded_value@, pos as int) == (Parsed::Done {
                value: n as int,
                end: end as int,
            }),
            Err(e) => parse_integer(encoded_value@, pos as int) == (Parsed::<int>::Failed {
                kind: e.kind,
                at: e.offset as int,
            }),
        },
{
    let len: usize = encoded_value.len();
    if pos >= len {
        return Err(SyntaxError { kind: SyntaxErrorKind::UnexpectedEnd, offset: pos });
    }
    if encoded_value[pos] != INT_START {
        return Err(SyntaxError { kind: SyntaxErrorKind::UnexpectedByte, offset: pos });
    }
    let negative: bool = pos + 1 < len && encoded_value[pos + 1] == MINUS;
    let start: usize = if negative {
        pos + 2
    } else {
        pos + 1
    };
    let end: usize = scan_digits(encoded_value, start);
    if end >= len {
        return Err(SyntaxError { kind: SyntaxErrorKind::MissingDelimiter, offset: end });
    }
    if end == start || encoded_value[end] != END {
        return Err(SyntaxError { kind: SyntaxErrorKind::InvalidInteger, offset: end });
    }
    proof {
        lemma_digits_end(encoded_value@, start as int);
    }
    let overflow = SyntaxError { kind: SyntaxErrorKind::IntegerOverflow, offset: pos };
    match digits_to_u64(encoded_value, start, end) {
        None => Err(overflow),
        Some(magnitude) => {
            if negative {
                if magnitude > 0x8000_0000_0000_0000u64 {
                    Err(overflow)
                } else if magnitude == 0x8000_0000_0000_0000u64 {
                    Ok((i64::MIN, end + 1))
                } else {
                    Ok((-(magnitude as i64), end + 1))
                }
            } else if magnitude > 0x7fff_ffff_ffff_ffffu64 {
                Err(overflow)
            } else {
                Ok((magnitude as i64, end + 1))
            }
        },
    }
}

/// Decodes the list that starts at `pos` and returns its items with the
/// position after its closing `e`.
pub fn decode_list_value(encoded_value: &[u8], pos: usize) -> (r: Result<
    (Vec<BencodeValue>, usize),
    SyntaxError,
>)
    ensures
        match r {
            Ok((items, end)) => parse_list_value(encoded_value@, pos as int) == (Parsed::Done {
                value: list_view(items@),
                end: end as int,
            }),
            Err(e) => parse_list_value(encoded_value@, pos as int) == (Parsed::<
                Seq<Value>,
            >::Failed { kind: e.kind, at: e.offset as int }),
        },
    decreases encoded_value.len() - pos, 0int,
{
    let len: usize = encoded_value.len();
    if pos >= len {
        return Err(SyntaxError { kind: SyntaxErrorKind::UnexpectedEnd, offset: pos });
    }
    if encoded_value[pos] != LIST_START {
        return Err(SyntaxError { kind: SyntaxErrorKind::UnexpectedByte, offset: pos });
    }
    let ghost s = encoded_value@;
    let mut items: Vec<BencodeValue> = Vec::new();
    let mut at: usize = pos + 1;
    assert(list_view(items@) =~= Seq::<Value>::empty());
    loop
        invariant
            s == encoded_value@,
            len == encoded_value.len(),
            pos < at <= len,
            parse_list_value(s, pos as int) == parse_list_items(s, at as int, list_view(items@)),
        decreases len - at,
    {
        if at >= len {
            return Err(SyntaxError { kind: SyntaxErrorKind::UnterminatedList, offset: at });
        }
        if encoded_value[at] == END {
            return Ok((items, at + 1));
        }
        proof {
            lemma_parse_value_bounds(s, at as int);
        }
        match decode_value_at(encoded_value, at) {
            Err(e) => {
                return Err(e);
            },
            Ok((value, next)) => {
                proof {
                    assert(list_view(items@.push(value)) =~= list_view(items@).push(value@));
                }
                items.push(value);
                at = next;
            },
        }
    }
}

/// Decodes the dictionary that starts at `pos` and returns its entries, in the
/// order in which their keys first occur, with the position after its closing
/// `e`.
pub fn decode_dictionary_value(encoded_value: &[u8], pos: usize) -> (r: Result<
    (Vec<(Vec<u8>, BencodeValue)>, usize),
    SyntaxError,
>)
    ensures
        match r {
            Ok((entries, end)) => parse_dictionary_value(encoded_value@, pos as int) == (
            Parsed::Done { value: dict_view(entries@), end: end as int }),
            Err(e) => parse_dictionary_value(encoded_value@, pos as int) == (Parsed::<
                Seq<(Seq<u8>, Value)>,
            >::Failed { kind: e.kind, at: e.offset as int }),
        },
    decreases encoded_value.len() - pos, 0int,
{
    let len: usize = encoded_value.len();
    if pos >= len {
        return Err(SyntaxError { kind: SyntaxErrorKind::UnexpectedEnd, offset: pos });
    }
    if encoded_value[pos] != DICT_START {
        return Err(SyntaxError { kind: SyntaxErrorKind::UnexpectedByte, offset: pos });
    }
    let ghost s = encoded_value@;
    let mut entries: Vec<(Vec<u8>, BencodeValue)> = Vec::new();
    let mut at: usize = pos + 1;
    assert(dict_view(entries@) =~= Seq::<(Seq<u8>, Value)>::empty());
    loop
        invariant
            s == encoded_value@,
            len == encoded_value.len(),
            pos < at <= len,
            parse_dictionary_value(s, pos as int) == parse_dictionary_entries(
                s,
                at as int,
                dict_view(entries@),
            ),
        decreases len - at,
    {
        if at >= len {
            return Err(SyntaxError { kind: SyntaxErrorKind::UnterminatedDictionary, offset: at });
        }
        if encoded_value[at] == END {
            return Ok((entries, at + 1));
        }
        proof {
            lemma_parse_value_bounds(s, at as int);
        }
        let (key, after_key) = match decode_value_at(encoded_value, at) {
            Err(e) => {
                return Err(e);
            },
            Ok((BencodeValue::ByteString(key), after_key)) => (key, after_key),
            Ok(_) => {
                return Err(SyntaxError { kind: SyntaxErrorKind::NonStringKey, offset: at });
            },
        };
        proof {
            lemma_parse_value_bounds(s, after_key as int);
        }
        match decode_value_at(encoded_value, after_key) {
            Err(e) => {
                return Err(e);
            },
            Ok((value, next)) => {
                let ghost before = dict_view(entries@);
                match find_key(&entries, key.as_slice()) {
                    Some(found) => {
                        proof {
                            lemma_key_index(before, key@);
                        }
                        entries.set(found, (key, value));
                        assert(dict_view(entries@) =~= before.update(
                            found as int,
                            (key@, value@),
                        ));
                    },
                    None => {
                        entries.push((key, value));
                        assert(dict_view(entries@) =~= before.push((key@, value@)));
                    },
                }
                at = next;
            },
        }
    }
}

/// Decodes the value that starts at `pos` and returns it with the position
/// after it.
pub fn decode_value_at(encoded_value: &[u8], pos: usize) -> (r: Result<
    (BencodeValue, usize),
    SyntaxError,
>)
    ensures
        match r {
            Ok((value, end)) => parse_value(encoded_value@, pos as int) == (Parsed::Done {
                value: value@,
                end: end as int,
            }) && pos < end <= encoded_value@.len() && value@.wf(),
            Err(e) => parse_value(encoded_value@, pos as int) == (Parsed::<Value>::Failed {
                kind: e.kind,
                at: e.offset as int,
            }),
        },
    decreases encoded_value.len() - pos, 1int,
{
    proof {
        lemma_parse_value_bounds(encoded_value@, pos as int);
    }
    if pos >= encoded_value.len() {
        return Err(SyntaxError { kind: SyntaxErrorKind::UnexpectedEnd, offset: pos });
    }
    let first: u8 = encoded_value[pos];
    if first >= DIGIT_ZERO && first <= DIGIT_NINE {
        match decode_string_value(encoded_value, pos) {
            Ok((bytes, end)) => Ok((BencodeValue::ByteString(bytes), end)),
            Err(e) => Err(e),
        }
    } else if first == INT_START {
        match decode_integer_value(encoded_value, pos) {
            Ok((n, end)) => Ok((BencodeValue::Integer(n), end)),
            Err(e) => Err(e),
        }
    } else if first == LIST_START {
        match decode_list_value(encoded_value, pos) {
            Ok((items, end)) => {
                Ok((BencodeValue::List(items), end))
            },
            Err(e) => Err(e),
        }
    } else if first == DICT_START {
        match decode_dictionary_value(encoded_value, pos) {
            Ok((entries, end)) => {
                Ok((BencodeValue::Dictionary(entries), end))
            },
            Err(e) => Err(e),
        }
    } else {
        Err(SyntaxError { kind: SyntaxErrorKind::UnexpectedByte, offset: pos })
    }
}

/// A decoded value and the bytes of the input that follow it.
#[derive(Debug)]
pub struct DecodeResult<'a>(pub BencodeValue, pub &'a [u8]);

/// Decodes the value at the start of `encoded_value` and returns it with the
/// untouched rest of the input. The decoder goes once over the bytes of the
/// value and recurses once for each level of nesting.
pub fn decode_bencoded_value<'a>(encoded_value: &'a [u8]) -> (r: Result<
    DecodeResult<'a>,
    SyntaxError,
>)
    ensures
        match r {
            Ok(decoded) => parse_value(encoded_value@, 0) == (Parsed::Done {
                value: decoded.0@,
                end: encoded_value@.len() - decoded.1@.len(),
            }) && decoded.1@ == encoded_value@.skip(encoded_value@.len() - decoded.1@.len())
                && decoded.0@.wf(),
            Err(e) => parse_value(encoded_value@, 0) == (Parsed::<Value>::Failed {
                kind: e.kind,
                at: e.offset as int,
            }),
        },
{
    match decode_value_at(encoded_value, 0) {
        Ok((value, end)) => {
            proof {
                lemma_parse_value_bounds(encoded_value@, 0);
            }
            let rest = slice_subrange(encoded_value, end, encoded_value.len());
            Ok(DecodeResult(value, rest))
        },
        Err(e) => Err(e),
    }
}

} // verus!
