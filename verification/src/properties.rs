//! What holds of the codec as a whole: a value is read from its own bytes
//! alone, a truncated value is never read as a value, and decoding undoes
//! encoding.

use crate::ascii::{COLON, DICT_START, END, INT_START, LIST_START, MINUS};
use crate::decimal::{
    digits_end, is_digit, lemma_digits_end, lemma_digits_end_is, lemma_nat_digits, nat_digits,
};
use crate::decode::{
    all_values_wf, all_wf, lemma_parse_dictionary_entries_bounds, lemma_parse_list_items_bounds,
    lemma_parse_value_bounds, parse_dictionary_entries, parse_integer, parse_list_items,
    parse_string, parse_value, Parsed,
};
use crate::encode::{
    canonical, canonical_entries, canonical_items, encoded_entries, encoded_items, encoding, join,
    lemma_join_part, string_encoding,
};
use crate::order::{
    bytes_le, entry_order, keys_of, lemma_sorted_order, lemma_sorted_order_covers,
    lemma_sorted_order_of_ascending, sorted_order,
};
use crate::value::{
    dict_get, dict_insert, distinct_keys, key_index, lemma_key_index, lemma_key_index_is, Value,
};
use vstd::prelude::*;

verus! {

/// The `n` bytes of `s` from `pos` are the `n` bytes of `t` from `q`.
pub open spec fn same_bytes(s: Seq<u8>, pos: int, t: Seq<u8>, q: int, n: int) -> bool {
    &&& 0 <= pos
    &&& 0 <= q
    &&& 0 <= n
    &&& pos + n <= s.len()
    &&& q + n <= t.len()
    &&& forall|i: int| pos <= i < pos + n ==> #[trigger] s[i] == t[i - pos + q]
}

/// A run of digits that ends inside a stretch of bytes ends at the same place
/// wherever the stretch stands.
proof fn lemma_digits_end_local(s: Seq<u8>, pos: int, t: Seq<u8>, q: int, n: int)
    requires
        same_bytes(s, pos, t, q, n),
        digits_end(s, pos) < pos + n,
    ensures
        digits_end(t, q) == q + (digits_end(s, pos) - pos),
    decreases n,
{
    lemma_digits_end(s, pos);
    assert(s[pos] == t[pos - pos + q]);
    if is_digit(s[pos]) {
        lemma_digits_end_local(s, pos + 1, t, q + 1, n - 1);
    }
}

/// A byte string is read from its own bytes alone.
proof fn lemma_parse_string_local(s: Seq<u8>, pos: int, t: Seq<u8>, q: int)
    requires
        parse_string(s, pos) is Done,
        same_bytes(s, pos, t, q, parse_string(s, pos)->end - pos),
    ensures
        parse_string(t, q) == (Parsed::Done {
            value: parse_string(s, pos)->value,
            end: q + (parse_string(s, pos)->end - pos),
        }),
{
    let end = parse_string(s, pos)->end;
    let colon = digits_end(s, pos);
    lemma_digits_end(s, pos);
    lemma_digits_end_local(s, pos, t, q, end - pos);
    let shift = q - pos;
    assert(s[colon] == t[colon - pos + q]);
    assert(s.subrange(pos, colon) =~= t.subrange(q, colon + shift));
    assert(s.subrange(colon + 1, end) =~= t.subrange(colon + 1 + shift, end + shift));
}

/// An integer is read from its own bytes alone.
proof fn lemma_parse_integer_local(s: Seq<u8>, pos: int, t: Seq<u8>, q: int)
    requires
        parse_integer(s, pos) is Done,
        same_bytes(s, pos, t, q, parse_integer(s, pos)->end - pos),
    ensures
        parse_integer(t, q) == (Parsed::Done {
            value: parse_integer(s, pos)->value,
            end: q + (parse_integer(s, pos)->end - pos),
        }),
{
    let end = parse_integer(s, pos)->end;
    let negative = pos + 1 < s.len() && s[pos + 1] == MINUS;
    let start = if negative {
        pos + 2
    } else {
        pos + 1
    };
    let shift = q - pos;
    lemma_digits_end(s, start);
    let stop = digits_end(s, start);
    assert(s[pos] == t[pos - pos + q]);
    assert(s[pos + 1] == t[pos + 1 - pos + q]);
    lemma_digits_end_local(s, start, t, start + shift, end - start);
    assert(s[stop] == t[stop - pos + q]);
    assert(s.subrange(start, stop) =~= t.subrange(start + shift, stop + shift));
}

/// A value is read from its own bytes alone: where the bytes from which a
/// value was read stand in another input, the same value is read there.
pub proof fn lemma_parse_value_local(s: Seq<u8>, pos: int, t: Seq<u8>, q: int)
    requires
        parse_value(s, pos) is Done,
        same_bytes(s, pos, t, q, parse_value(s, pos)->end - pos),
    ensures
        parse_value(t, q) == (Parsed::Done {
            value: parse_value(s, pos)->value,
            end: q + (parse_value(s, pos)->end - pos),
        }),
    decreases s.len() - pos, 1int,
{
    lemma_parse_value_bounds(s, pos);
    assert(s[pos] == t[pos - pos + q]);
    if is_digit(s[pos]) {
        lemma_parse_string_local(s, pos, t, q);
    } else if s[pos] == INT_START {
        lemma_parse_integer_local(s, pos, t, q);
    } else if s[pos] == LIST_START {
        lemma_parse_list_items_bounds(s, pos + 1, Seq::empty());
        lemma_parse_list_items_local(s, pos + 1, Seq::empty(), t, q + 1);
    } else {
        lemma_parse_dictionary_entries_bounds(s, pos + 1, Seq::empty());
        lemma_parse_dictionary_entries_local(s, pos + 1, Seq::empty(), t, q + 1);
    }
}

/// The rest of a list is read from its own bytes alone.
pub proof fn lemma_parse_list_items_local(
    s: Seq<u8>,
    pos: int,
    acc: Seq<Value>,
    t: Seq<u8>,
    q: int,
)
    requires
        parse_list_items(s, pos, acc) is Done,
        same_bytes(s, pos, t, q, parse_list_items(s, pos, acc)->end - pos),
    ensures
        parse_list_items(t, q, acc) == (Parsed::Done {
            value: parse_list_items(s, pos, acc)->value,
            end: q + (parse_list_items(s, pos, acc)->end - pos),
        }),
    decreases s.len() - pos, 2int,
{
    lemma_parse_list_items_bounds(s, pos, acc);
    assert(s[pos] == t[pos - pos + q]);
    if s[pos] != END {
        lemma_parse_value_bounds(s, pos);
        let item = parse_value(s, pos)->value;
        let next = parse_value(s, pos)->end;
        lemma_parse_list_items_bounds(s, next, acc.push(item));
        lemma_parse_value_local(s, pos, t, q);
        lemma_parse_list_items_local(s, next, acc.push(item), t, q + (next - pos));
    }
}

/// The rest of a dictionary is read from its own bytes alone.
pub proof fn lemma_parse_dictionary_entries_local(
    s: Seq<u8>,
    pos: int,
    acc: Seq<(Seq<u8>, Value)>,
    t: Seq<u8>,
    q: int,
)
    requires
        parse_dictionary_entries(s, pos, acc) is Done,
        same_bytes(s, pos, t, q, parse_dictionary_entries(s, pos, acc)->end - pos),
    ensures
        parse_dictionary_entries(t, q, acc) == (Parsed::Done {
            value: parse_dictionary_entries(s, pos, acc)->value,
            end: q + (parse_dictionary_entries(s, pos, acc)->end - pos),
        }),
    decreases s.len() - pos, 2int,
{
    lemma_parse_dictionary_entries_bounds(s, pos, acc);
    assert(s[pos] == t[pos - pos + q]);
    if s[pos] != END {
        lemma_parse_value_bounds(s, pos);
        let key = parse_value(s, pos)->value;
        let after_key = parse_value(s, pos)->end;
        lemma_parse_value_bounds(s, after_key);
        let value = parse_value(s, after_key)->value;
        let next = parse_value(s, after_key)->end;
        let entries = dict_insert(acc, key->Bytes_0, value);
        lemma_parse_dictionary_entries_bounds(s, next, entries);
        lemma_parse_value_local(s, pos, t, q);
        lemma_parse_value_local(s, after_key, t, q + (after_key - pos));
        lemma_parse_dictionary_entries_local(s, next, entries, t, q + (next - pos));
    }
}

/// What follows a value does not change how the value is read.
pub proof fn lemma_decode_ignores_rest(a: Seq<u8>, b: Seq<u8>)
    requires
        parse_value(a, 0) is Done,
    ensures
        parse_value(a + b, 0) == parse_value(a, 0),
{
    lemma_parse_value_bounds(a, 0);
    lemma_parse_value_local(a, 0, a + b, 0);
}

/// A value is read at a position of an input as it is read at the start of
/// the rest of the input from that position.
pub proof fn lemma_decode_at_rest(s: Seq<u8>, n: int)
    requires
        0 <= n <= s.len(),
        parse_value(s.skip(n), 0) is Done,
    ensures
        parse_value(s, n) == (Parsed::Done {
            value: parse_value(s.skip(n), 0)->value,
            end: n + parse_value(s.skip(n), 0)->end,
        }),
{
    lemma_parse_value_bounds(s.skip(n), 0);
    lemma_parse_value_local(s.skip(n), 0, s, n);
}

/// Decoding takes exactly the bytes of one value: where `a` is one whole
/// value, decoding `a` followed by `b` gives that value and leaves `b`.
pub proof fn lemma_decode_sequence(a: Seq<u8>, b: Seq<u8>)
    requires
        parse_value(a, 0) is Done,
        parse_value(a, 0)->end == a.len(),
    ensures
        parse_value(a + b, 0) == parse_value(a, 0),
        (a + b).skip(a.len() as int) == b,
{
    lemma_decode_ignores_rest(a, b);
    assert((a + b).skip(a.len() as int) =~= b);
}

/// An input that was cut off inside its first value is refused.
pub proof fn lemma_truncated_value_is_refused(s: Seq<u8>, k: int)
    requires
        parse_value(s, 0) is Done,
        0 <= k < parse_value(s, 0)->end,
    ensures
        parse_value(s.take(k), 0) is Failed,
{
    lemma_parse_value_bounds(s, 0);
    let cut = s.take(k);
    if parse_value(cut, 0) is Done {
        lemma_parse_value_bounds(cut, 0);
        lemma_parse_value_local(cut, 0, s, 0);
    }
}

/// A stretch inside bytes that stand in an input stands in that input too.
proof fn lemma_same_bytes_part(whole: Seq<u8>, s: Seq<u8>, pos: int, a: int, part: Seq<u8>)
    requires
        same_bytes(whole, 0, s, pos, whole.len() as int),
        0 <= a,
        a + part.len() <= whole.len(),
        whole.subrange(a, a + part.len()) == part,
    ensures
        same_bytes(part, 0, s, pos + a, part.len() as int),
{
    assert forall|i: int| 0 <= i < part.len() implies #[trigger] part[i] == s[i - 0 + (pos + a)] by {
        assert(part[i] == whole.subrange(a, a + part.len())[i]);
        assert(whole[a + i] == s[a + i - 0 + pos]);
    }
}

/// An encoding has at least two bytes and begins with a digit, `i`, `l` or
/// `d`.
pub proof fn lemma_encoding_first(v: Value)
    ensures
        encoding(v).len() >= 2,
        is_digit(encoding(v)[0]) || encoding(v)[0] == INT_START || encoding(v)[0] == LIST_START
            || encoding(v)[0] == DICT_START,
{
    match v {
        Value::Bytes(bytes) => {
            lemma_nat_digits(bytes.len());
            assert(encoding(v)[0] == nat_digits(bytes.len())[0]);
        },
        Value::Int(n) => {},
        Value::List(items) => {},
        Value::Dict(entries) => {},
    }
}

/// The encoding of a byte string is read as that byte string.
proof fn lemma_parse_string_encoding(bytes: Seq<u8>, s: Seq<u8>, pos: int)
    requires
        same_bytes(string_encoding(bytes), 0, s, pos, string_encoding(bytes).len() as int),
    ensures
        is_digit(s[pos]),
        parse_string(s, pos) == (Parsed::Done {
            value: bytes,
            end: pos + string_encoding(bytes).len(),
        }),
{
    let enc = string_encoding(bytes);
    let digits = nat_digits(bytes.len());
    lemma_nat_digits(bytes.len());
    let colon = pos + digits.len();
    assert forall|i: int| pos <= i < colon implies is_digit(#[trigger] s[i]) by {
        assert(enc[i - pos] == s[i - pos - 0 + pos]);
        assert(enc[i - pos] == digits[i - pos]);
    }
    assert(enc[digits.len() as int] == s[digits.len() - 0 + pos]);
    assert(s[colon] == COLON);
    lemma_digits_end_is(s, pos, colon);
    assert(s.subrange(pos, colon) =~= digits) by {
        assert forall|i: int| 0 <= i < digits.len() implies s.subrange(pos, colon)[i]
            == digits[i] by {
            assert(enc[i] == s[i - 0 + pos]);
        }
    }
    assert(s.subrange(colon + 1, colon + 1 + bytes.len()) =~= bytes) by {
        assert forall|i: int| 0 <= i < bytes.len() implies s.subrange(
            colon + 1,
            colon + 1 + bytes.len(),
        )[i] == bytes[i] by {
            assert(enc[digits.len() + 1 + i] == s[digits.len() + 1 + i - 0 + pos]);
        }
    }
}

/// The encoding of an integer that fits in 64 bits is read as that integer.
proof fn lemma_parse_integer_encoding(n: int, s: Seq<u8>, pos: int)
    requires
        i64::MIN <= n <= i64::MAX,
        same_bytes(encoding(Value::Int(n)), 0, s, pos, encoding(Value::Int(n)).len() as int),
    ensures
        s[pos] == INT_START,
        parse_integer(s, pos) == (Parsed::Done {
            value: n,
            end: pos + encoding(Value::Int(n)).len(),
        }),
{
    let enc = encoding(Value::Int(n));
    let magnitude: nat = if n < 0 {
        (-n) as nat
    } else {
        n as nat
    };
    let digits = nat_digits(magnitude);
    lemma_nat_digits(magnitude);
    let start = if n < 0 {
        pos + 2
    } else {
        pos + 1
    };
    let stop = start + digits.len();
    assert(enc[0] == s[0 - 0 + pos]);
    assert(enc[1] == s[1 - 0 + pos]);
    assert(is_digit(digits[0]));
    assert forall|i: int| start <= i < stop implies is_digit(#[trigger] s[i]) by {
        assert(enc[i - pos] == s[i - pos - 0 + pos]);
        assert(enc[i - pos] == digits[i - start]);
    }
    assert(enc[stop - pos] == s[stop - pos - 0 + pos]);
    assert(s[stop] == END);
    lemma_digits_end_is(s, start, stop);
    assert(s.subrange(start, stop) =~= digits) by {
        assert forall|i: int| 0 <= i < digits.len() implies s.subrange(start, stop)[i]
            == digits[i] by {
            assert(enc[start - pos + i] == s[start - pos + i - 0 + pos]);
        }
    }
}

/// Wherever the canonical encoding of a well-formed value stands in an input,
/// the value is read there in its canonical form, and the reading ends where
/// the encoding ends.
pub proof fn lemma_parse_encoding(v: Value, s: Seq<u8>, pos: int)
    requires
        v.wf(),
        same_bytes(encoding(v), 0, s, pos, encoding(v).len() as int),
    ensures
        parse_value(s, pos) == (Parsed::Done { value: canonical(v), end: pos + encoding(v).len() }),
    decreases v, 0int,
{
    let enc = encoding(v);
    lemma_encoding_first(v);
    assert(enc[0] == s[0 - 0 + pos]);
    match v {
        Value::Bytes(bytes) => {
            lemma_parse_string_encoding(bytes, s, pos);
        },
        Value::Int(n) => {
            lemma_parse_integer_encoding(n, s, pos);
        },
        Value::List(items) => {
            let parts = encoded_items(items);
            let body = join(parts) + seq![END];
            assert(enc.subrange(1, 1 + body.len() as int) =~= body);
            lemma_same_bytes_part(enc, s, pos, 1, body);
            assert(parts.take(0) =~= Seq::<Seq<u8>>::empty());
            assert(canonical_items(items).take(0) =~= Seq::<Value>::empty());
            lemma_parse_encoded_items(items, s, pos + 1, 0);
        },
        Value::Dict(entries) => {
            let order = entry_order(entries);
            let parts = encoded_entries(entries, order);
            let body = join(parts) + seq![END];
            assert(enc.subrange(1, 1 + body.len() as int) =~= body);
            lemma_same_bytes_part(enc, s, pos, 1, body);
            assert(parts.take(0) =~= Seq::<Seq<u8>>::empty());
            assert(canonical_entries(entries, order).take(0) =~= Seq::<(Seq<u8>, Value)>::empty());
            lemma_parse_encoded_entries(entries, s, pos + 1, 0);
        },
    }
}

/// The encodings of the items of a list from the `k`-th on, and the closing
/// `e`, are read as the rest of the list.
proof fn lemma_parse_encoded_items(items: Seq<Value>, s: Seq<u8>, start: int, k: int)
    requires
        all_wf(items),
        0 <= k <= items.len(),
        same_bytes(
            join(encoded_items(items)) + seq![END],
            0,
            s,
            start,
            join(encoded_items(items)).len() as int + 1,
        ),
    ensures
        parse_list_items(
            s,
            start + join(encoded_items(items).take(k)).len(),
            canonical_items(items).take(k),
        ) == (Parsed::Done {
            value: canonical_items(items),
            end: start + join(encoded_items(items)).len() + 1,
        }),
    decreases items, items.len() - k,
{
    let parts = encoded_items(items);
    let body = join(parts) + seq![END];
    let at = start + join(parts.take(k)).len();
    let acc = canonical_items(items).take(k);
    if k == items.len() {
        assert(parts.take(k) =~= parts);
        assert(acc =~= canonical_items(items));
        assert(body[join(parts).len() as int] == s[join(parts).len() - 0 + start]);
    } else {
        let part = parts[k];
        assert(part == encoding(items[k]));
        lemma_join_part(parts, k);
        let offset = join(parts.take(k)).len() as int;
        assert(body.subrange(offset, offset + part.len()) =~= join(parts).subrange(
            offset,
            offset + part.len(),
        ));
        lemma_same_bytes_part(body, s, start, offset, part);
        lemma_encoding_first(items[k]);
        assert(part[0] == s[0 - 0 + at]);
        assert(items[k].wf());
        lemma_parse_encoding(items[k], s, at);
        assert(acc.push(canonical(items[k])) =~= canonical_items(items).take(k + 1));
        lemma_parse_encoded_items(items, s, start, k + 1);
    }
}

/// The encoding of a key and of a well-formed value, at the place of an entry
/// of a dictionary, is read as that entry.
proof fn lemma_parse_encoded_entry(
    key: Seq<u8>,
    value: Value,
    s: Seq<u8>,
    at: int,
    acc: Seq<(Seq<u8>, Value)>,
)
    requires
        value.wf(),
        same_bytes(
            string_encoding(key) + encoding(value),
            0,
            s,
            at,
            (string_encoding(key) + encoding(value)).len() as int,
        ),
        at + (string_encoding(key) + encoding(value)).len() < s.len(),
    ensures
        parse_dictionary_entries(s, at, acc) == parse_dictionary_entries(
            s,
            at + (string_encoding(key) + encoding(value)).len(),
            dict_insert(acc, key, canonical(value)),
        ),
    decreases value, 1int,
{
    let key_part = string_encoding(key);
    let value_part = encoding(value);
    let part = key_part + value_part;
    assert(part.subrange(0, 0 + key_part.len() as int) =~= key_part);
    lemma_same_bytes_part(part, s, at, 0, key_part);
    assert(part.subrange(key_part.len() as int, (key_part.len() + value_part.len()) as int)
        =~= value_part);
    lemma_same_bytes_part(part, s, at, key_part.len() as int, value_part);
    lemma_parse_string_encoding(key, s, at);
    lemma_encoding_first(value);
    lemma_parse_encoding(value, s, at + key_part.len());
    assert(parse_value(s, at) == (Parsed::Done {
        value: Value::Bytes(key),
        end: at + key_part.len(),
    }));
}

/// In key order, the key of an entry is not among the keys before it: binding
/// it adds the entry at the end.
proof fn lemma_sorted_key_is_new(entries: Seq<(Seq<u8>, Value)>, k: int)
    requires
        distinct_keys(entries),
        0 <= k < entries.len(),
    ensures
        0 <= entry_order(entries)[k] < entries.len(),
        dict_insert(
            canonical_entries(entries, entry_order(entries)).take(k),
            entries[entry_order(entries)[k]].0,
            canonical(entries[entry_order(entries)[k]].1),
        ) == canonical_entries(entries, entry_order(entries)).take(k + 1),
{
    let order = entry_order(entries);
    lemma_sorted_order(keys_of(entries), entries.len() as int);
    let sorted = canonical_entries(entries, order);
    let acc = sorted.take(k);
    let entry = entries[order[k]];
    assert(0 <= order[k] < entries.len());
    lemma_key_index(acc, entry.0);
    if key_index(acc, entry.0) >= 0 {
        let i = key_index(acc, entry.0);
        assert(0 <= order[i] < entries.len());
        assert(acc[i] == sorted[i]);
        assert(sorted[i].0 == entries[order[i]].0);
        assert(order[i] != order[k]);
        if order[i] < order[k] {
            assert(entries[order[i]].0 != entries[order[k]].0);
        } else {
            assert(entries[order[k]].0 != entries[order[i]].0);
        }
    }
    assert(acc.push((entry.0, canonical(entry.1))) =~= sorted.take(k + 1));
}

/// The encoding of the `k`-th entry in key order stands in the input after
/// the encodings of the entries before it.
proof fn lemma_encoded_entry_stands(
    entries: Seq<(Seq<u8>, Value)>,
    s: Seq<u8>,
    start: int,
    k: int,
)
    requires
        0 <= k < entries.len(),
        same_bytes(
            join(encoded_entries(entries, entry_order(entries))) + seq![END],
            0,
            s,
            start,
            join(encoded_entries(entries, entry_order(entries))).len() as int + 1,
        ),
    ensures
        0 <= entry_order(entries)[k] < entries.len(),
        encoded_entries(entries, entry_order(entries))[k] == string_encoding(
            entries[entry_order(entries)[k]].0,
        ) + encoding(entries[entry_order(entries)[k]].1),
        join(encoded_entries(entries, entry_order(entries)).take(k + 1)).len() == join(
            encoded_entries(entries, entry_order(entries)).take(k),
        ).len() + encoded_entries(entries, entry_order(entries))[k].len(),
        join(encoded_entries(entries, entry_order(entries)).take(k + 1)).len() <= join(
            encoded_entries(entries, entry_order(entries)),
        ).len(),
        same_bytes(
            encoded_entries(entries, entry_order(entries))[k],
            0,
            s,
            start + join(encoded_entries(entries, entry_order(entries)).take(k)).len(),
            encoded_entries(entries, entry_order(entries))[k].len() as int,
        ),
{
    let order = entry_order(entries);
    lemma_sorted_order(keys_of(entries), entries.len() as int);
    assert(0 <= order[k] < entries.len());
    let parts = encoded_entries(entries, order);
    let body = join(parts) + seq![END];
    let part = parts[k];
    lemma_join_part(parts, k);
    let offset = join(parts.take(k)).len() as int;
    assert(body.subrange(offset, offset + part.len()) =~= join(parts).subrange(
        offset,
        offset + part.len(),
    ));
    lemma_same_bytes_part(body, s, start, offset, part);
}

/// The encodings of the entries of a dictionary from the `k`-th on in key
/// order, and the closing `e`, are read as the rest of the dictionary.
proof fn lemma_parse_encoded_entries(
    entries: Seq<(Seq<u8>, Value)>,
    s: Seq<u8>,
    start: int,
    k: int,
)
    requires
        distinct_keys(entries),
        all_values_wf(entries),
        0 <= k <= entries.len(),
        same_bytes(
            join(encoded_entries(entries, entry_order(entries))) + seq![END],
            0,
            s,
            start,
            join(encoded_entries(entries, entry_order(entries))).len() as int + 1,
        ),
    ensures
        parse_dictionary_entries(
            s,
            start + join(encoded_entries(entries, entry_order(entries)).take(k)).len(),
            canonical_entries(entries, entry_order(entries)).take(k),
        ) == (Parsed::Done {
            value: canonical_entries(entries, entry_order(entries)),
            end: start + join(encoded_entries(entries, entry_order(entries))).len() + 1,
        }),
    decreases entries, entries.len() - k,
{
    let order = entry_order(entries);
    let parts = encoded_entries(entries, order);
    let sorted = canonical_entries(entries, order);
    let at = start + join(parts.take(k)).len();
    let acc = sorted.take(k);
    if k == entries.len() {
        let body = join(parts) + seq![END];
        lemma_sorted_order(keys_of(entries), entries.len() as int);
        assert(parts.take(k) =~= parts);
        assert(acc =~= sorted);
        assert(body[join(parts).len() as int] == s[join(parts).len() - 0 + start]);
    } else {
        lemma_encoded_entry_stands(entries, s, start, k);
        lemma_sorted_key_is_new(entries, k);
        let entry = entries[order[k]];
        assert(entry.1.wf());
        lemma_parse_encoded_entry(entry.0, entry.1, s, at, acc);
        lemma_parse_encoded_entries(entries, s, start, k + 1);
    }
}

/// In the canonical form of a dictionary the keys ascend as they stand, so its
/// entries are already in key order.
proof fn lemma_canonical_entries_order(entries: Seq<(Seq<u8>, Value)>)
    ensures
        canonical_entries(entries, entry_order(entries)).len() == entries.len(),
        entry_order(canonical_entries(entries, entry_order(entries))) == Seq::new(
            entries.len(),
            |j: int| j,
        ),
{
    let n = entries.len() as int;
    let order = entry_order(entries);
    lemma_sorted_order(keys_of(entries), n);
    let sorted = canonical_entries(entries, order);
    let keys = keys_of(sorted);
    assert forall|j: int| 0 <= j < n - 1 implies bytes_le(#[trigger] keys[j], keys[j + 1]) by {
        assert(0 <= order[j] < n);
        assert(0 <= order[j + 1] < n);
        assert(bytes_le(keys_of(entries)[order[j]], keys_of(entries)[order[j + 1]]));
    }
    lemma_sorted_order_of_ascending(keys, n);
}

/// A value and its canonical form have the same encoding.
pub proof fn lemma_encoding_of_canonical(v: Value)
    ensures
        encoding(canonical(v)) == encoding(v),
    decreases v,
{
    match v {
        Value::Bytes(_) => {},
        Value::Int(_) => {},
        Value::List(items) => {
            assert forall|i: int| 0 <= i < items.len() implies encoded_items(
                canonical_items(items),
            )[i] == encoded_items(items)[i] by {
                lemma_encoding_of_canonical(items[i]);
            }
            assert(encoded_items(canonical_items(items)) =~= encoded_items(items));
        },
        Value::Dict(entries) => {
            let n = entries.len() as int;
            let order = entry_order(entries);
            lemma_sorted_order(keys_of(entries), n);
            lemma_canonical_entries_order(entries);
            let sorted = canonical_entries(entries, order);
            let same = entry_order(sorted);
            assert forall|j: int| 0 <= j < n implies encoded_entries(sorted, same)[j]
                == encoded_entries(entries, order)[j] by {
                assert(0 <= order[j] < n);
                assert(same[j] == j);
                lemma_encoding_of_canonical(entries[order[j]].1);
            }
            assert(encoded_entries(sorted, same) =~= encoded_entries(entries, order));
        },
    }
}

/// Decoding undoes encoding: the canonical encoding of a well-formed value is
/// read, to its last byte, as the canonical form of the value.
pub proof fn lemma_decode_encoding(v: Value)
    requires
        v.wf(),
    ensures
        parse_value(encoding(v), 0) == (Parsed::Done {
            value: canonical(v),
            end: encoding(v).len() as int,
        }),
{
    lemma_parse_encoding(v, encoding(v), 0);
}

/// Encoding what was decoded from canonical bytes gives the same bytes again:
/// where `x` is the canonical encoding of some well-formed value, `x` is read
/// whole as a value whose encoding is `x`.
pub proof fn lemma_reencoding_is_identity(x: Seq<u8>, v: Value)
    requires
        v.wf(),
        x == encoding(v),
    ensures
        parse_value(x, 0) is Done,
        parse_value(x, 0)->end == x.len(),
        encoding(parse_value(x, 0)->value) == x,
{
    lemma_decode_encoding(v);
    lemma_encoding_of_canonical(v);
}

/// Two well-formed values with the same encoding have the same canonical
/// form: the encoding tells apart all values that differ in more than the
/// order of their dictionaries' entries.
pub proof fn lemma_encoding_is_injective(v: Value, w: Value)
    requires
        v.wf(),
        w.wf(),
        encoding(v) == encoding(w),
    ensures
        canonical(v) == canonical(w),
{
    lemma_decode_encoding(v);
    lemma_decode_encoding(w);
}

/// Every dictionary in the value has its entries in ascending order of their
/// keys.
pub open spec fn is_canonical(v: Value) -> bool
    decreases v,
{
    match v {
        Value::Bytes(_) => true,
        Value::Int(_) => true,
        Value::List(items) => forall|i: int|
            0 <= i < items.len() ==> is_canonical(#[trigger] items[i]),
        Value::Dict(entries) => {
            &&& forall|j: int|
                0 <= j < entries.len() - 1 ==> bytes_le(
                    (#[trigger] entries[j]).0,
                    entries[j + 1].0,
                )
            &&& forall|i: int| 0 <= i < entries.len() ==> is_canonical((#[trigger] entries[i]).1)
        },
    }
}

/// A value whose dictionaries are in key order is its own canonical form.
pub proof fn lemma_canonical_is_fixed(v: Value)
    requires
        is_canonical(v),
    ensures
        canonical(v) == v,
    decreases v,
{
    match v {
        Value::Bytes(_) => {},
        Value::Int(_) => {},
        Value::List(items) => {
            assert forall|i: int| 0 <= i < items.len() implies canonical_items(items)[i]
                == items[i] by {
                lemma_canonical_is_fixed(items[i]);
            }
            assert(canonical_items(items) =~= items);
        },
        Value::Dict(entries) => {
            let n = entries.len() as int;
            let keys = keys_of(entries);
            assert forall|j: int| 0 <= j < n - 1 implies bytes_le(#[trigger] keys[j], keys[j + 1]) by {
                assert(bytes_le(entries[j].0, entries[j + 1].0));
            }
            lemma_sorted_order_of_ascending(keys, n);
            let order = entry_order(entries);
            assert forall|j: int| 0 <= j < n implies canonical_entries(entries, order)[j]
                == entries[j] by {
                assert(order[j] == j);
                lemma_canonical_is_fixed(entries[j].1);
            }
            assert(canonical_entries(entries, order) =~= entries);
        },
    }
}

/// The canonical form of a well-formed value is well formed and has its
/// dictionaries in key order.
pub proof fn lemma_canonical_is_canonical(v: Value)
    requires
        v.wf(),
    ensures
        canonical(v).wf(),
        is_canonical(canonical(v)),
    decreases v,
{
    match v {
        Value::Bytes(_) => {},
        Value::Int(_) => {},
        Value::List(items) => {
            let after = canonical_items(items);
            assert forall|i: int| 0 <= i < after.len() implies (#[trigger] after[i]).wf()
                && is_canonical(after[i]) by {
                assert(items[i].wf());
                lemma_canonical_is_canonical(items[i]);
            }
        },
        Value::Dict(entries) => {
            let n = entries.len() as int;
            let order = entry_order(entries);
            lemma_sorted_order(keys_of(entries), n);
            lemma_canonical_entries_distinct(entries);
            let after = canonical_entries(entries, order);
            assert forall|i: int| 0 <= i < after.len() implies (#[trigger] after[i]).1.wf()
                && is_canonical(after[i].1) by {
                assert(0 <= order[i] < n);
                assert(entries[order[i]].1.wf());
                lemma_canonical_is_canonical(entries[order[i]].1);
            }
            assert forall|j: int| 0 <= j < after.len() - 1 implies bytes_le(
                (#[trigger] after[j]).0,
                after[j + 1].0,
            ) by {
                assert(0 <= order[j] < n);
                assert(0 <= order[j + 1] < n);
                assert(bytes_le(keys_of(entries)[order[j]], keys_of(entries)[order[j + 1]]));
            }
        },
    }
}

/// A well-formed value whose dictionaries are in key order is decoded from its
/// encoding as it is.
pub proof fn lemma_decode_encoding_of_canonical(v: Value)
    requires
        v.wf(),
        is_canonical(v),
    ensures
        parse_value(encoding(v), 0) == (Parsed::Done { value: v, end: encoding(v).len() as int }),
{
    lemma_decode_encoding(v);
    lemma_canonical_is_fixed(v);
}

/// The canonical form of an optional value.
pub open spec fn canonical_option(value: Option<Value>) -> Option<Value> {
    match value {
        Some(v) => Some(canonical(v)),
        None => None,
    }
}

/// The canonical form of a dictionary has distinct keys if the dictionary has.
pub proof fn lemma_canonical_entries_distinct(entries: Seq<(Seq<u8>, Value)>)
    requires
        distinct_keys(entries),
    ensures
        distinct_keys(canonical_entries(entries, entry_order(entries))),
{
    let n = entries.len() as int;
    let order = entry_order(entries);
    lemma_sorted_order(keys_of(entries), n);
    let sorted = canonical_entries(entries, order);
    assert forall|i: int, j: int| 0 <= i < j < sorted.len() implies (#[trigger] sorted[i]).0 != (
    #[trigger] sorted[j]).0 by {
        assert(0 <= order[i] < n);
        assert(0 <= order[j] < n);
        assert(order[i] != order[j]);
        if order[i] < order[j] {
            assert(entries[order[i]].0 != entries[order[j]].0);
        } else {
            assert(entries[order[j]].0 != entries[order[i]].0);
        }
    }
}

/// The canonical form of a dictionary binds the same keys as the dictionary,
/// each to the canonical form of its value.
pub proof fn lemma_canonical_lookup(entries: Seq<(Seq<u8>, Value)>, key: Seq<u8>)
    requires
        distinct_keys(entries),
    ensures
        dict_get(canonical_entries(entries, entry_order(entries)), key) == canonical_option(
            dict_get(entries, key),
        ),
{
    let n = entries.len() as int;
    let order = entry_order(entries);
    lemma_sorted_order(keys_of(entries), n);
    lemma_canonical_entries_distinct(entries);
    let sorted = canonical_entries(entries, order);
    lemma_key_index(entries, key);
    lemma_key_index(sorted, key);
    let at = key_index(entries, key);
    if at >= 0 {
        lemma_sorted_order_covers(keys_of(entries), n, at);
        let j = choose|j: int| 0 <= j < n && #[trigger] sorted_order(keys_of(entries), n)[j] == at;
        assert(order[j] == at);
        assert(sorted[j] == (entries[at].0, canonical(entries[at].1)));
        assert forall|i: int| 0 <= i < j implies (#[trigger] sorted[i]).0 != key by {
            assert(sorted[i].0 != sorted[j].0);
        }
        lemma_key_index_is(sorted, key, j);
    } else {
        if key_index(sorted, key) >= 0 {
            let j = key_index(sorted, key);
            assert(0 <= order[j] < n);
            assert(sorted[j].0 == entries[order[j]].0);
            assert(entries[order[j]].0 != key);
        }
    }
}

} // verus!
