//! The order of dictionary keys: lexicographic order on byte strings, and the
//! stable arrangement of a dictionary's entries by key.

use crate::value::{dict_view, BencodeValue};
use vstd::prelude::*;

verus! {

/// `a` and `b` agree from `from` to the end of the shorter one and `a` is not
/// the longer one, or `a` has the smaller byte where they first differ.
pub open spec fn bytes_le_from(a: Seq<u8>, b: Seq<u8>, from: int) -> bool
    decreases a.len() - from,
{
    if from >= a.len() {
        true
    } else if from >= b.len() {
        false
    } else if a[from] != b[from] {
        a[from] < b[from]
    } else {
        bytes_le_from(a, b, from + 1)
    }
}

/// `a` comes before `b`, or equals it, in lexicographic byte order.
pub open spec fn bytes_le(a: Seq<u8>, b: Seq<u8>) -> bool {
    bytes_le_from(a, b, 0)
}

/// The keys of the entries, in order.
pub open spec fn keys_of<T>(entries: Seq<(Seq<u8>, T)>) -> Seq<Seq<u8>> {
    Seq::new(entries.len(), |i: int| entries[i].0)
}

/// Where the key goes into `order`, a list of positions in `keys` that is
/// ascending by key: after the last position whose key is not greater.
pub open spec fn insert_position(keys: Seq<Seq<u8>>, order: Seq<int>, key: Seq<u8>) -> int
    decreases order.len(),
{
    if order.len() == 0 {
        0
    } else if bytes_le(keys[order.last()], key) {
        order.len() as int
    } else {
        insert_position(keys, order.drop_last(), key)
    }
}

/// The positions of the first `n` keys, arranged so that the keys ascend.
/// Equal keys keep the order in which they stand in `keys`.
pub open spec fn sorted_order(keys: Seq<Seq<u8>>, n: int) -> Seq<int>
    decreases n,
{
    if n <= 0 {
        Seq::empty()
    } else {
        let before = sorted_order(keys, n - 1);
        before.insert(insert_position(keys, before, keys[n - 1]), n - 1)
    }
}

/// The positions of the entries, arranged so that their keys ascend.
pub open spec fn entry_order<T>(entries: Seq<(Seq<u8>, T)>) -> Seq<int> {
    sorted_order(keys_of(entries), entries.len() as int)
}

/// `order` holds positions of `keys`, at most `n` of them.
pub open spec fn valid_order(order: Seq<int>, n: int) -> bool {
    forall|j: int| 0 <= j < order.len() ==> 0 <= #[trigger] order[j] < n
}

/// Tells whether `a` comes before `b`, or equals it, in lexicographic byte
/// order.
pub fn bytes_le_exec(a: &[u8], b: &[u8]) -> (r: bool)
    ensures
        r == bytes_le(a@, b@),
{
    let mut i: usize = 0;
    loop
        invariant
            i <= a.len(),
            i <= b.len(),
            bytes_le(a@, b@) == bytes_le_from(a@, b@, i as int),
        decreases a.len() - i,
    {
        if i >= a.len() {
            return true;
        }
        if i >= b.len() {
            return false;
        }
        if a[i] != b[i] {
            return a[i] < b[i];
        }
        i = i + 1;
    }
}

/// The positions of an order as mathematical integers.
pub open spec fn positions(order: Seq<usize>) -> Seq<int> {
    Seq::new(order.len(), |j: int| order[j] as int)
}

/// Arranges the positions of the entries so that their keys ascend.
pub fn key_order(entries: &Vec<(Vec<u8>, BencodeValue)>) -> (order: Vec<usize>)
    ensures
        positions(order@) == entry_order(dict_view(entries@)),
{
    let ghost keys = keys_of(dict_view(entries@));
    let mut order: Vec<usize> = Vec::new();
    let mut i: usize = 0;
    assert(positions(order@) =~= sorted_order(keys, 0));
    while i < entries.len()
        invariant
            i <= entries.len(),
            keys == keys_of(dict_view(entries@)),
            positions(order@) == sorted_order(keys, i as int),
        decreases entries.len() - i,
    {
        proof {
            lemma_sorted_order(keys, i as int);
        }
        let ghost before = positions(order@);
        let mut j: usize = order.len();
        assert(before.take(j as int) =~= before);
        while j > 0 && !bytes_le_exec(entries[order[j - 1]].0.as_slice(), entries[i].0.as_slice())
            invariant
                j <= order.len(),
                i < entries.len(),
                order.len() == i,
                before == positions(order@),
                valid_order(before, i as int),
                keys == keys_of(dict_view(entries@)),
                insert_position(keys, before, keys[i as int]) == insert_position(
                    keys,
                    before.take(j as int),
                    keys[i as int],
                ),
            decreases j,
        {
            proof {
                assert(before.take(j as int).drop_last() =~= before.take(j - 1));
                assert(before.take(j as int).last() == order@[j - 1] as int);
                assert(0 <= before[j - 1] < i);
            }
            j = j - 1;
        }
        proof {
            if j > 0 {
                assert(before.take(j as int).last() == order@[j - 1] as int);
                assert(0 <= before[j - 1] < i);
            }
        }
        order.insert(j, i);
        proof {
            assert(positions(order@) =~= before.insert(j as int, i as int));
        }
        i = i + 1;
    }
    order
}

/// Of two byte strings one comes before the other, or they are equal.
pub proof fn lemma_bytes_le_total(a: Seq<u8>, b: Seq<u8>)
    ensures
        bytes_le(a, b) || bytes_le(b, a),
{
    lemma_bytes_le_total_from(a, b, 0);
}

proof fn lemma_bytes_le_total_from(a: Seq<u8>, b: Seq<u8>, from: int)
    requires
        0 <= from,
    ensures
        bytes_le_from(a, b, from) || bytes_le_from(b, a, from),
    decreases a.len() - from,
{
    if from < a.len() && from < b.len() && a[from] == b[from] {
        lemma_bytes_le_total_from(a, b, from + 1);
    }
}

/// The positions of `order` are pairwise different.
pub open spec fn distinct_positions(order: Seq<int>) -> bool {
    forall|i: int, j: int| 0 <= i < j < order.len() ==> #[trigger] order[i] != #[trigger] order[j]
}

/// The keys ascend along `order`.
pub open spec fn ascending(keys: Seq<Seq<u8>>, order: Seq<int>) -> bool {
    forall|j: int|
        0 <= j < order.len() - 1 ==> bytes_le(keys[#[trigger] order[j]], keys[order[j + 1]])
}

/// Where a key goes: after a key that is not greater, and before keys that
/// are all greater.
pub proof fn lemma_insert_position(keys: Seq<Seq<u8>>, order: Seq<int>, key: Seq<u8>)
    ensures
        0 <= insert_position(keys, order, key) <= order.len(),
        insert_position(keys, order, key) > 0 ==> bytes_le(
            keys[order[insert_position(keys, order, key) - 1]],
            key,
        ),
        forall|i: int|
            insert_position(keys, order, key) <= i < order.len() ==> !bytes_le(
                keys[#[trigger] order[i]],
                key,
            ),
    decreases order.len(),
{
    if order.len() > 0 && !bytes_le(keys[order.last()], key) {
        lemma_insert_position(keys, order.drop_last(), key);
        let p = insert_position(keys, order, key);
        assert forall|i: int| p <= i < order.len() implies !bytes_le(
            keys[#[trigger] order[i]],
            key,
        ) by {
            if i < order.len() - 1 {
                assert(order.drop_last()[i] == order[i]);
            }
        }
        if p > 0 {
            assert(order.drop_last()[p - 1] == order[p - 1]);
        }
    }
}

/// The order of `n` keys holds each position below `n` once, and the keys
/// ascend along it.
pub proof fn lemma_sorted_order(keys: Seq<Seq<u8>>, n: int)
    requires
        0 <= n,
    ensures
        sorted_order(keys, n).len() == n,
        valid_order(sorted_order(keys, n), n),
        distinct_positions(sorted_order(keys, n)),
        ascending(keys, sorted_order(keys, n)),
    decreases n,
{
    if n > 0 {
        lemma_sorted_order(keys, n - 1);
        let before = sorted_order(keys, n - 1);
        let key = keys[n - 1];
        let p = insert_position(keys, before, key);
        lemma_insert_position(keys, before, key);
        let after = sorted_order(keys, n);
        assert(after == before.insert(p, n - 1));
        assert(after.len() == n);
        assert forall|j: int| 0 <= j < n implies after[j] == if j < p {
            before[j]
        } else if j == p {
            n - 1
        } else {
            before[j - 1]
        } by {}
        assert forall|j: int| 0 <= j < after.len() implies 0 <= #[trigger] after[j] < n by {
            if j < p {
                assert(0 <= before[j] < n - 1);
            } else if j > p {
                assert(0 <= before[j - 1] < n - 1);
            }
        }
        assert forall|i: int, j: int| 0 <= i < j < after.len() implies #[trigger] after[i]
            != #[trigger] after[j] by {
            let bi = if i < p { i } else { i - 1 };
            let bj = if j < p { j } else { j - 1 };
            if i != p {
                assert(0 <= before[bi] < n - 1);
            }
            if j != p {
                assert(0 <= before[bj] < n - 1);
            }
        }
        assert forall|j: int| 0 <= j < after.len() - 1 implies bytes_le(
            keys[#[trigger] after[j]],
            keys[after[j + 1]],
        ) by {
            if j + 1 < p {
                assert(bytes_le(keys[before[j]], keys[before[j + 1]]));
            } else if j + 1 == p {
            } else if j == p {
                assert(!bytes_le(keys[before[p]], key));
                lemma_bytes_le_total(keys[before[p]], key);
            } else {
                assert(bytes_le(keys[before[j - 1]], keys[before[j - 1 + 1]]));
            }
        }
    }
}

/// Every position below `n` stands somewhere in the order of `n` keys.
pub proof fn lemma_sorted_order_covers(keys: Seq<Seq<u8>>, n: int, i: int)
    requires
        0 <= i < n,
    ensures
        exists|j: int| 0 <= j < n && #[trigger] sorted_order(keys, n)[j] == i,
    decreases n,
{
    lemma_sorted_order(keys, n);
    lemma_sorted_order(keys, n - 1);
    let before = sorted_order(keys, n - 1);
    let p = insert_position(keys, before, keys[n - 1]);
    lemma_insert_position(keys, before, keys[n - 1]);
    let after = sorted_order(keys, n);
    assert(after == before.insert(p, n - 1));
    if i == n - 1 {
        assert(after[p] == i);
    } else {
        lemma_sorted_order_covers(keys, n - 1, i);
        let j = choose|j: int| 0 <= j < n - 1 && #[trigger] sorted_order(keys, n - 1)[j] == i;
        if j < p {
            assert(after[j] == i);
        } else {
            assert(after[j + 1] == before[j]);
            assert(after[j + 1] == i);
        }
    }
}

/// Keys that already ascend keep their order.
pub proof fn lemma_sorted_order_of_ascending(keys: Seq<Seq<u8>>, n: int)
    requires
        0 <= n <= keys.len(),
        forall|j: int| 0 <= j < n - 1 ==> bytes_le(#[trigger] keys[j], keys[j + 1]),
    ensures
        sorted_order(keys, n) == Seq::new(n as nat, |j: int| j),
    decreases n,
{
    if n > 0 {
        lemma_sorted_order_of_ascending(keys, n - 1);
        let before = sorted_order(keys, n - 1);
        if n > 1 {
            assert(before.last() == n - 2);
            assert(bytes_le(keys[n - 2], keys[n - 2 + 1]));
        }
        assert(insert_position(keys, before, keys[n - 1]) == n - 1);
        assert(sorted_order(keys, n) =~= Seq::new(n as nat, |j: int| j));
    } else {
        assert(sorted_order(keys, n) =~= Seq::new(n as nat, |j: int| j));
    }
}

} // verus!
