//! Encoding: the canonical bytes of a value, with dictionary keys in ascending
//! byte order, and the encoder that produces them.

use crate::ascii::{COLON, DICT_START, END, INT_START, LIST_START};
use crate::decimal::{int_digits, nat_digits, push_decimal, push_signed_decimal};
use crate::order::{entry_order, key_order, keys_of, lemma_sorted_order, positions, valid_order};
use crate::value::{dict_view, list_view, BencodeValue, Value};
use vstd::prelude::*;

verus! {

/// The parts one after another.
pub open spec fn join(parts: Seq<Seq<u8>>) -> Seq<u8>
    decreases parts.len(),
{
    if parts.len() == 0 {
        Seq::empty()
    } else {
        join(parts.drop_last()) + parts.last()
    }
}

/// The encoding of a byte string: its length in decimal, `:`, its bytes.
pub open spec fn string_encoding(bytes: Seq<u8>) -> Seq<u8> {
    nat_digits(bytes.len()) + seq![COLON] + bytes
}

/// The canonical encoding of a value.
///
/// An integer is `i`, its decimal numeral and `e`. A list is `l`, the
/// encodings of its items in order and `e`. A dictionary is `d`, each key as a
/// byte string followed by the encoding of its value, the keys ascending in
/// byte order whatever the order of the entries, and `e`.
pub open spec fn encoding(v: Value) -> Seq<u8>
    decreases v, 1int,
{
    match v {
        Value::Bytes(bytes) => string_encoding(bytes),
        Value::Int(n) => seq![INT_START] + int_digits(n) + seq![END],
        Value::List(items) => seq![LIST_START] + join(encoded_items(items)) + seq![END],
        Value::Dict(entries) => seq![DICT_START] + join(
            encoded_entries(entries, entry_order(entries)),
        ) + seq![END],
    }
}

/// The encodings of the items, in order.
pub open spec fn encoded_items(items: Seq<Value>) -> Seq<Seq<u8>>
    decreases items, 0int,
{
    Seq::new(
        items.len(),
        |i: int|
            if 0 <= i < items.len() {
                encoding(items[i])
            } else {
                Seq::empty()
            },
    )
}

/// The encodings of the entries, key then value, in the order that `order`
/// gives.
pub open spec fn encoded_entries(entries: Seq<(Seq<u8>, Value)>, order: Seq<int>) -> Seq<Seq<u8>>
    decreases entries, 0int,
{
    Seq::new(
        order.len(),
        |j: int|
            if 0 <= j < order.len() && 0 <= order[j] < entries.len() {
                string_encoding(entries[order[j]].0) + encoding(entries[order[j]].1)
            } else {
                Seq::empty()
            },
    )
}

/// The value with the entries of every dictionary in it arranged by key: the
/// value that the canonical encoding shows.
pub open spec fn canonical(v: Value) -> Value
    decreases v, 1int,
{
    match v {
        Value::Bytes(_) => v,
        Value::Int(_) => v,
        Value::List(items) => Value::List(canonical_items(items)),
        Value::Dict(entries) => Value::Dict(
            canonical_entries(entries, entry_order(entries)),
        ),
    }
}

/// The canonical forms of the items, in order.
pub open spec fn canonical_items(items: Seq<Value>) -> Seq<Value>
    decreases items, 0int,
{
    Seq::new(
        items.len(),
        |i: int|
            if 0 <= i < items.len() {
                canonical(items[i])
            } else {
                Value::Int(0)
            },
    )
}

/// The entries in the order that `order` gives, each value in canonical form.
pub open spec fn canonical_entries(entries: Seq<(Seq<u8>, Value)>, order: Seq<int>) -> Seq<
    (Seq<u8>, Value),
>
    decreases entries, 0int,
{
    Seq::new(
        order.len(),
        |j: int|
            if 0 <= j < order.len() && 0 <= order[j] < entries.len() {
                (entries[order[j]].0, canonical(entries[order[j]].1))
            } else {
                (Seq::empty(), Value::Int(0))
            },
    )
}

/// The first parts joined are the beginning of all parts joined.
pub proof fn lemma_join_prefix(parts: Seq<Seq<u8>>, k: int)
    requires
        0 <= k <= parts.len(),
    ensures
        join(parts.take(k)).len() <= join(parts).len(),
        join(parts).subrange(0, join(parts.take(k)).len() as int) == join(parts.take(k)),
    decreases parts.len() - k,
{
    if k == parts.len() {
        assert(parts.take(k) =~= parts);
        assert(join(parts).subrange(0, join(parts).len() as int) =~= join(parts));
    } else {
        lemma_join_prefix(parts, k + 1);
        lemma_join_take(parts, k);
        assert(join(parts).subrange(0, join(parts.take(k)).len() as int) =~= join(
            parts.take(k),
        ));
    }
}

/// Where a part stands among all parts joined: after the parts before it.
pub proof fn lemma_join_part(parts: Seq<Seq<u8>>, k: int)
    requires
        0 <= k < parts.len(),
    ensures
        join(parts.take(k + 1)).len() == join(parts.take(k)).len() + parts[k].len(),
        join(parts.take(k + 1)).len() <= join(parts).len(),
        join(parts).subrange(
            join(parts.take(k)).len() as int,
            join(parts.take(k + 1)).len() as int,
        ) == parts[k],
{
    lemma_join_take(parts, k);
    lemma_join_prefix(parts, k + 1);
    let upto = join(parts.take(k + 1));
    assert(join(parts).subrange(join(parts.take(k)).len() as int, upto.len() as int)
        =~= upto.subrange(join(parts.take(k)).len() as int, upto.len() as int));
    assert(upto.subrange(join(parts.take(k)).len() as int, upto.len() as int) =~= parts[k]);
}

/// Joining one more part appends it.
pub proof fn lemma_join_take(parts: Seq<Seq<u8>>, n: int)
    requires
        0 <= n < parts.len(),
    ensures
        join(parts.take(n + 1)) == join(parts.take(n)) + parts[n],
{
    assert(parts.take(n + 1).drop_last() =~= parts.take(n));
}

/// Appends `bytes` to `out`.
fn push_bytes(out: &mut Vec<u8>, bytes: &[u8])
    ensures
        final(out)@ == old(out)@ + bytes@,
{
    let mut i: usize = 0;
    while i < bytes.len()
        invariant
            i <= bytes.len(),
            out@ == old(out)@ + bytes@.take(i as int),
        decreases bytes.len() - i,
    {
        out.push(bytes[i]);
        assert(bytes@.take(i + 1) =~= bytes@.take(i as int).push(bytes@[i as int]));
        i = i + 1;
    }
    assert(bytes@.take(bytes.len() as int) =~= bytes@);
}

/// Appends the encoding of a byte string to `out`.
fn push_string(out: &mut Vec<u8>, bytes: &[u8])
    ensures
        final(out)@ == old(out)@ + string_encoding(bytes@),
{
    push_decimal(out, bytes.len() as u64);
    out.push(COLON);
    push_bytes(out, bytes);
    assert(final(out)@ =~= old(out)@ + string_encoding(bytes@));
}

/// Appends the encodings of the items to `out`, in order.
fn encode_items_into(items: &Vec<BencodeValue>, out: &mut Vec<u8>)
    ensures
        final(out)@ == old(out)@ + join(encoded_items(list_view(items@))),
    decreases items, 0int,
{
    let ghost parts = encoded_items(list_view(items@));
    let mut i: usize = 0;
    assert(old(out)@ + join(parts.take(0)) =~= old(out)@);
    while i < items.len()
        invariant
            i <= items.len(),
            parts == encoded_items(list_view(items@)),
            out@ == old(out)@ + join(parts.take(i as int)),
        decreases items.len() - i,
    {
        proof {
            lemma_join_take(parts, i as int);
        }
        encode_into(&items[i], out);
        i = i + 1;
        assert(out@ =~= old(out)@ + join(parts.take(i as int)));
    }
    assert(parts.take(items.len() as int) =~= parts);
}

/// Appends the encodings of the entries to `out`, key then value, the keys
/// ascending.
fn encode_entries_into(entries: &Vec<(Vec<u8>, BencodeValue)>, out: &mut Vec<u8>)
    ensures
        final(out)@ == old(out)@ + join(
            encoded_entries(dict_view(entries@), entry_order(dict_view(entries@))),
        ),
    decreases entries, 0int,
{
    let ghost model = dict_view(entries@);
    let order = key_order(entries);
    let ghost parts = encoded_entries(model, positions(order@));
    proof {
        lemma_sorted_order(keys_of(model), model.len() as int);
    }
    let mut j: usize = 0;
    assert(old(out)@ + join(parts.take(0)) =~= old(out)@);
    while j < order.len()
        invariant
            j <= order.len(),
            order.len() == entries.len(),
            model == dict_view(entries@),
            valid_order(positions(order@), entries.len() as int),
            parts == encoded_entries(model, positions(order@)),
            out@ == old(out)@ + join(parts.take(j as int)),
        decreases order.len() - j,
    {
        proof {
            lemma_join_take(parts, j as int);
            assert(0 <= positions(order@)[j as int] < entries.len());
        }
        let k: usize = order[j];
        push_string(out, entries[k].0.as_slice());
        encode_into(&entries[k].1, out);
        j = j + 1;
        assert(out@ =~= old(out)@ + join(parts.take(j as int)));
    }
    assert(parts.take(order.len() as int) =~= parts);
}

/// Appends the canonical encoding of `value` to `out`.
pub fn encode_into(value: &BencodeValue, out: &mut Vec<u8>)
    ensures
        final(out)@ == old(out)@ + encoding(value@),
    decreases value, 1int,
{
    match value {
        BencodeValue::ByteString(bytes) => {
            push_string(out, bytes.as_slice());
        },
        BencodeValue::Integer(n) => {
            out.push(INT_START);
            push_signed_decimal(out, *n);
            out.push(END);
            assert(final(out)@ =~= old(out)@ + encoding(value@));
        },
        BencodeValue::List(items) => {
            out.push(LIST_START);
            encode_items_into(items, out);
            out.push(END);
            assert(final(out)@ =~= old(out)@ + encoding(value@));
        },
        BencodeValue::Dictionary(entries) => {
            out.push(DICT_START);
            encode_entries_into(entries, out);
            out.push(END);
            assert(final(out)@ =~= old(out)@ + encoding(value@));
        },
    }
}

/// Encodes `value` in canonical form.
pub fn encode(value: &BencodeValue) -> (out: Vec<u8>)
    ensures
        out@ == encoding(value@),
{
    let mut out: Vec<u8> = Vec::new();
    encode_into(value, &mut out);
    assert(out@ =~= encoding(value@));
    out
}

} // verus!
