//! The bencode value: the executable tree and the mathematical tree that it
//! stands for.

use vstd::prelude::*;

verus! {

/// A bencode value as mathematics: the model that every contract of the codec
/// speaks of.
pub enum Value {
    /// A string of raw bytes, not necessarily text.
    Bytes(Seq<u8>),
    /// A whole number.
    Int(int),
    /// Values in order.
    List(Seq<Value>),
    /// Key and value pairs in the order in which they were inserted.
    Dict(Seq<(Seq<u8>, Value)>),
}

/// A bencode value in memory.
#[derive(Debug, PartialEq, Eq)]
pub enum BencodeValue {
    /// A string of raw bytes, not necessarily text.
    ByteString(Vec<u8>),
    /// A signed 64-bit whole number.
    Integer(i64),
    /// Values in order.
    List(Vec<BencodeValue>),
    /// Key and value pairs in insertion order.
    Dictionary(Vec<(Vec<u8>, BencodeValue)>),
}

/// The mathematical value that a value in memory stands for.
pub open spec fn value_of(b: BencodeValue) -> Value
    decreases b, 1int,
{
    match b {
        BencodeValue::ByteString(bytes) => Value::Bytes(bytes@),
        BencodeValue::Integer(n) => Value::Int(n as int),
        BencodeValue::List(items) => Value::List(list_view(items@)),
        BencodeValue::Dictionary(entries) => Value::Dict(dict_view(entries@)),
    }
}

/// The values that a vector of executable values stands for, in order.
pub open spec fn list_view(items: Seq<BencodeValue>) -> Seq<Value>
    decreases items, 0int,
{
    Seq::new(
        items.len(),
        |i: int|
            if 0 <= i < items.len() {
                value_of(items[i])
            } else {
                Value::Int(0)
            },
    )
}

/// The entries that a vector of executable entries stands for, in order.
pub open spec fn dict_view(entries: Seq<(Vec<u8>, BencodeValue)>) -> Seq<(Seq<u8>, Value)>
    decreases entries, 0int,
{
    Seq::new(
        entries.len(),
        |i: int|
            if 0 <= i < entries.len() {
                (entries[i].0@, value_of(entries[i].1))
            } else {
                (Seq::empty(), Value::Int(0))
            },
    )
}

impl View for BencodeValue {
    type V = Value;

    open spec fn view(&self) -> Value {
        value_of(*self)
    }
}

/// The position of the first entry with the given key, or -1 when no entry
/// has it.
pub open spec fn key_index<T>(entries: Seq<(Seq<u8>, T)>, key: Seq<u8>) -> int
    decreases entries.len(),
{
    if entries.len() == 0 {
        -1
    } else {
        let earlier = key_index(entries.drop_last(), key);
        if earlier >= 0 {
            earlier
        } else if entries.last().0 == key {
            entries.len() - 1
        } else {
            -1
        }
    }
}

/// No two entries have the same key.
pub open spec fn distinct_keys<T>(entries: Seq<(Seq<u8>, T)>) -> bool {
    forall|i: int, j: int|
        0 <= i < j < entries.len() ==> (#[trigger] entries[i]).0 != (#[trigger] entries[j]).0
}

/// The entries after `key` has been bound to `value`: an entry that already
/// has the key keeps its place and takes the new value, a new key goes to the
/// end.
pub open spec fn dict_insert<T>(entries: Seq<(Seq<u8>, T)>, key: Seq<u8>, value: T) -> Seq<
    (Seq<u8>, T),
> {
    let at = key_index(entries, key);
    if at >= 0 {
        entries.update(at, (key, value))
    } else {
        entries.push((key, value))
    }
}

/// The value bound to `key`, if any.
pub open spec fn dict_get<T>(entries: Seq<(Seq<u8>, T)>, key: Seq<u8>) -> Option<T> {
    let at = key_index(entries, key);
    if at >= 0 {
        Some(entries[at].1)
    } else {
        None
    }
}

impl Value {
    /// The value can be held in memory and is a proper mapping wherever it is a
    /// dictionary: every integer fits in 64 bits and no dictionary binds a key
    /// twice.
    pub open spec fn wf(self) -> bool
        decreases self,
    {
        match self {
            Value::Bytes(_) => true,
            Value::Int(n) => i64::MIN <= n <= i64::MAX,
            Value::List(items) => forall|i: int|
                0 <= i < items.len() ==> (#[trigger] items[i]).wf(),
            Value::Dict(entries) => distinct_keys(entries) && forall|i: int|
                0 <= i < entries.len() ==> (#[trigger] entries[i]).1.wf(),
        }
    }
}

/// `key_index` finds the first entry with the key, and finds none only when
/// there is none.
pub proof fn lemma_key_index<T>(entries: Seq<(Seq<u8>, T)>, key: Seq<u8>)
    ensures
        -1 <= key_index(entries, key) < entries.len(),
        key_index(entries, key) >= 0 ==> entries[key_index(entries, key)].0 == key,
        forall|i: int|
            0 <= i < entries.len() && (key_index(entries, key) < 0 || i < key_index(entries, key))
                ==> (#[trigger] entries[i]).0 != key,
    decreases entries.len(),
{
    if entries.len() > 0 {
        lemma_key_index(entries.drop_last(), key);
        let r = key_index(entries, key);
        assert forall|i: int| 0 <= i < entries.len() && (r < 0 || i < r) implies (
        #[trigger] entries[i]).0 != key by {
            if i < entries.len() - 1 {
                assert(entries.drop_last()[i] == entries[i]);
            }
        }
    }
}

/// An entry with the key at `at`, and none before it, is what `key_index` finds.
pub proof fn lemma_key_index_is<T>(entries: Seq<(Seq<u8>, T)>, key: Seq<u8>, at: int)
    requires
        0 <= at < entries.len(),
        entries[at].0 == key,
        forall|i: int| 0 <= i < at ==> (#[trigger] entries[i]).0 != key,
    ensures
        key_index(entries, key) == at,
{
    lemma_key_index(entries, key);
}

/// Binding a key keeps the keys distinct.
pub proof fn lemma_dict_insert_distinct<T>(entries: Seq<(Seq<u8>, T)>, key: Seq<u8>, value: T)
    requires
        distinct_keys(entries),
    ensures
        distinct_keys(dict_insert(entries, key, value)),
{
    lemma_key_index(entries, key);
    let after = dict_insert(entries, key, value);
    let at = key_index(entries, key);
    assert forall|i: int, j: int| 0 <= i < j < after.len() implies (#[trigger] after[i]).0 != (
    #[trigger] after[j]).0 by {
        if at >= 0 {
            assert(after[i].0 == entries[i].0);
            assert(after[j].0 == entries[j].0);
        } else {
            if j == entries.len() {
                assert(after[i] == entries[i]);
            } else {
                assert(after[i] == entries[i]);
                assert(after[j] == entries[j]);
            }
        }
    }
}

/// Tells whether two byte strings are equal.
pub fn bytes_eq(a: &[u8], b: &[u8]) -> (r: bool)
    ensures
        r == (a@ == b@),
{
    if a.len() != b.len() {
        return false;
    }
    let mut i: usize = 0;
    while i < a.len()
        invariant
            i <= a.len(),
            a.len() == b.len(),
            forall|k: int| 0 <= k < i ==> a@[k] == b@[k],
        decreases a.len() - i,
    {
        if a[i] != b[i] {
            return false;
        }
        i = i + 1;
    }
    assert(a@ =~= b@);
    true
}

/// Finds the entry that binds `key`.
pub fn find_key(entries: &Vec<(Vec<u8>, BencodeValue)>, key: &[u8]) -> (r: Option<usize>)
    ensures
        match r {
            Some(at) => at < entries.len() && at == key_index(dict_view(entries@), key@),
            None => key_index(dict_view(entries@), key@) == -1,
        },
{
    let ghost model = dict_view(entries@);
    let mut i: usize = 0;
    while i < entries.len()
        invariant
            i <= entries.len(),
            model == dict_view(entries@),
            forall|k: int| 0 <= k < i ==> (#[trigger] model[k]).0 != key@,
        decreases entries.len() - i,
    {
        if bytes_eq(entries[i].0.as_slice(), key) {
            proof {
                assert(model[i as int].0 == key@);
                lemma_key_index_is(model, key@, i as int);
            }
            return Some(i);
        }
        assert(model[i as int].0 != key@);
        i = i + 1;
    }
    proof {
        lemma_key_index(model, key@);
    }
    None
}

/// What an optional reference to a value in memory stands for.
pub open spec fn option_view(value: Option<&BencodeValue>) -> Option<Value> {
    match value {
        Some(v) => Some(v@),
        None => None,
    }
}

/// Looks up the value that `key` is bound to.
pub fn dict_lookup<'a>(entries: &'a Vec<(Vec<u8>, BencodeValue)>, key: &[u8]) -> (r: Option<
    &'a BencodeValue,
>)
    ensures
        option_view(r) == dict_get(dict_view(entries@), key@),
{
    match find_key(entries, key) {
        Some(at) => Some(&entries[at].1),
        None => None,
    }
}

} // verus!
