//! The operations on the entries of a leaf, as mathematical functions, and
//! the laws that relate them.
use vstd::prelude::*;
use crate::btree::codec::zip_entries;
use crate::btree::keys::{has_prefix, lemma_has_prefix_bytes, lemma_lex_irreflexive, lemma_lex_total, lemma_lex_transitive, lex_lt};
use crate::btree::node::NodeModel;

verus! {

/// The first position in `keys` whose key satisfies `p`, or `keys.len()`.
pub open spec fn first_match(keys: Seq<Seq<u8>>, p: spec_fn(Seq<u8>) -> bool) -> nat
    decreases keys.len(),
{
    if keys.len() == 0 {
        0
    } else if p(keys[0]) {
        0
    } else {
        1 + first_match(keys.drop_first(), p)
    }
}

/// Holds of the keys equal to `key`.
pub open spec fn equals(key: Seq<u8>) -> spec_fn(Seq<u8>) -> bool {
    |k: Seq<u8>| k == key
}

/// Holds of the keys that come after `key`.
pub open spec fn comes_after(key: Seq<u8>) -> spec_fn(Seq<u8>) -> bool {
    |k: Seq<u8>| lex_lt(key, k)
}

/// The first position of `key` in `keys`, or `keys.len()` when it is absent.
pub open spec fn key_index(keys: Seq<Seq<u8>>, key: Seq<u8>) -> nat {
    first_match(keys, equals(key))
}

/// The first position whose key comes after `key`, or `keys.len()`.
pub open spec fn insert_index(keys: Seq<Seq<u8>>, key: Seq<u8>) -> nat {
    first_match(keys, comes_after(key))
}

/// A node after putting `value` under `key`: the value of the first equal
/// key is replaced; otherwise the pair goes before the first greater key.
pub open spec fn node_insert(n: NodeModel, key: Seq<u8>, value: Seq<u8>) -> NodeModel {
    let i = key_index(n.keys, key);
    if i < n.keys.len() {
        NodeModel { values: n.values.update(i as int, value), ..n }
    } else {
        let j = insert_index(n.keys, key) as int;
        NodeModel { keys: n.keys.insert(j, key), values: n.values.insert(j, value), ..n }
    }
}

/// The value stored under the first key equal to `key`.
pub open spec fn node_get(n: NodeModel, key: Seq<u8>) -> Option<Seq<u8>> {
    let i = key_index(n.keys, key);
    if i < n.keys.len() {
        Some(n.values[i as int])
    } else {
        None
    }
}

/// A node after removing the first key equal to `key` and its value.
pub open spec fn node_delete(n: NodeModel, key: Seq<u8>) -> NodeModel {
    let i = key_index(n.keys, key);
    if i < n.keys.len() {
        NodeModel { keys: n.keys.remove(i as int), values: n.values.remove(i as int), ..n }
    } else {
        n
    }
}

/// The pairs whose key begins with `prefix`, in order.
pub open spec fn scan_entries(pairs: Seq<(Seq<u8>, Seq<u8>)>, prefix: Seq<u8>) -> Seq<(Seq<u8>, Seq<u8>)>
    decreases pairs.len(),
{
    if pairs.len() == 0 {
        seq![]
    } else {
        let rest = scan_entries(pairs.drop_last(), prefix);
        if has_prefix(pairs.last().0, prefix) {
            rest.push(pairs.last())
        } else {
            rest
        }
    }
}

/// The entries of a node whose key begins with `prefix`, in order.
pub open spec fn node_scan(n: NodeModel, prefix: Seq<u8>) -> Seq<(Seq<u8>, Seq<u8>)> {
    scan_entries(zip_entries(n.keys, n.values), prefix)
}

/// Whether the keys are in strictly increasing order.
pub open spec fn keys_sorted(keys: Seq<Seq<u8>>) -> bool {
    forall|i: int, j: int| 0 <= i < j < keys.len() ==> lex_lt(#[trigger] keys[i], #[trigger] keys[j])
}

/// `first_match` is the first position that satisfies `p`.
pub proof fn lemma_first_match(keys: Seq<Seq<u8>>, p: spec_fn(Seq<u8>) -> bool)
    ensures
        first_match(keys, p) <= keys.len(),
        first_match(keys, p) < keys.len() ==> p(keys[first_match(keys, p) as int]),
        forall|j: int| 0 <= j < first_match(keys, p) ==> !p(#[trigger] keys[j]),
    decreases keys.len(),
{
    if keys.len() > 0 && !p(keys[0]) {
        let rest = keys.drop_first();
        lemma_first_match(rest, p);
        assert forall|j: int| 0 <= j < first_match(keys, p) implies !p(#[trigger] keys[j]) by {
            if j > 0 {
                assert(keys[j] == rest[j - 1]);
            }
        }
    }
}

/// A position before which nothing satisfies `p`, and at which `p` holds
/// (or that is the end), is `first_match`.
pub proof fn lemma_first_match_at(keys: Seq<Seq<u8>>, p: spec_fn(Seq<u8>) -> bool, i: int)
    requires
        0 <= i <= keys.len(),
        forall|j: int| 0 <= j < i ==> !p(#[trigger] keys[j]),
        i < keys.len() ==> p(keys[i]),
    ensures
        first_match(keys, p) == i,
{
    lemma_first_match(keys, p);
    let f = first_match(keys, p) as int;
    if f < i {
        assert(!p(keys[f]));
    }
    if i < f {
        assert(!p(keys[i]));
    }
}

/// After putting `value` under `key`, reading `key` gives `value`, and
/// reading another key gives what it gave before.
pub proof fn lemma_get_after_insert(n: NodeModel, key: Seq<u8>, value: Seq<u8>, other: Seq<u8>)
    requires
        n.keys.len() == n.values.len(),
    ensures
        node_get(node_insert(n, key, value), key) == Some(value),
        other != key ==> node_get(node_insert(n, key, value), other) == node_get(n, other),
{
    let eq_key = equals(key);
    let eq_other = equals(other);
    let after_key = comes_after(key);
    lemma_first_match(n.keys, eq_key);
    lemma_first_match(n.keys, eq_other);
    let i = key_index(n.keys, key) as int;
    let o = key_index(n.keys, other) as int;
    let m = node_insert(n, key, value);
    if i < n.keys.len() {
        assert(m.keys == n.keys);
    } else {
        lemma_first_match(n.keys, after_key);
        let j = insert_index(n.keys, key) as int;
        assert forall|x: int| 0 <= x < j implies !eq_key(#[trigger] m.keys[x]) by {
            assert(m.keys[x] == n.keys[x]);
        }
        assert(m.keys[j] == key);
        lemma_first_match_at(m.keys, eq_key, j);
        if other != key {
            if o < j {
                assert forall|x: int| 0 <= x < o implies !eq_other(#[trigger] m.keys[x]) by {
                    assert(m.keys[x] == n.keys[x]);
                }
                assert(m.keys[o] == n.keys[o]);
                lemma_first_match_at(m.keys, eq_other, o);
            } else {
                assert forall|x: int| 0 <= x < o + 1 implies !eq_other(#[trigger] m.keys[x]) by {
                    if x < j {
                        assert(m.keys[x] == n.keys[x]);
                    } else if x > j {
                        assert(m.keys[x] == n.keys[x - 1]);
                    }
                }
                if o < n.keys.len() {
                    assert(m.keys[o + 1] == n.keys[o]);
                }
                lemma_first_match_at(m.keys, eq_other, o + 1);
                if o < n.keys.len() {
                    assert(m.values[o + 1] == n.values[o]);
                }
            }
        }
    }
}

/// After removing `key` from a node whose keys are distinct, reading `key`
/// gives nothing, and reading another key gives what it gave before.
pub proof fn lemma_get_after_delete(n: NodeModel, key: Seq<u8>, other: Seq<u8>)
    requires
        n.keys.len() == n.values.len(),
        n.keys.no_duplicates(),
    ensures
        node_get(node_delete(n, key), key) == None::<Seq<u8>>,
        other != key ==> node_get(node_delete(n, key), other) == node_get(n, other),
{
    let eq_key = equals(key);
    let eq_other = equals(other);
    lemma_first_match(n.keys, eq_key);
    lemma_first_match(n.keys, eq_other);
    let i = key_index(n.keys, key) as int;
    let o = key_index(n.keys, other) as int;
    let m = node_delete(n, key);
    if i < n.keys.len() {
        assert forall|x: int| 0 <= x < m.keys.len() implies !eq_key(#[trigger] m.keys[x]) by {
            if x < i {
                assert(m.keys[x] == n.keys[x]);
            } else {
                assert(m.keys[x] == n.keys[x + 1]);
            }
        }
        lemma_first_match_at(m.keys, eq_key, m.keys.len() as int);
        if other != key {
            if o < i {
                assert forall|x: int| 0 <= x < o implies !eq_other(#[trigger] m.keys[x]) by {
                    assert(m.keys[x] == n.keys[x]);
                }
                assert(m.keys[o] == n.keys[o]);
                lemma_first_match_at(m.keys, eq_other, o);
            } else {
                assert forall|x: int| 0 <= x < o - 1 implies !eq_other(#[trigger] m.keys[x]) by {
                    if x < i {
                        assert(m.keys[x] == n.keys[x]);
                    } else {
                        assert(m.keys[x] == n.keys[x + 1]);
                    }
                }
                if o < n.keys.len() {
                    assert(m.keys[o - 1] == n.keys[o]);
                    assert(m.values[o - 1] == n.values[o]);
                }
                lemma_first_match_at(m.keys, eq_other, o - 1);
            }
        }
    } else {
        lemma_first_match_at(m.keys, eq_key, i);
    }
}

/// Keys in strictly increasing order are distinct.
pub proof fn lemma_sorted_distinct(keys: Seq<Seq<u8>>)
    requires
        keys_sorted(keys),
    ensures
        keys.no_duplicates(),
{
    assert forall|i: int, j: int| 0 <= i < keys.len() && 0 <= j < keys.len() && i != j implies keys[i] != keys[j] by {
        lemma_lex_irreflexive(keys[i]);
        if i < j {
            assert(lex_lt(keys[i], keys[j]));
        } else {
            assert(lex_lt(keys[j], keys[i]));
        }
    }
}

/// Putting a value under a key keeps the keys in strictly increasing order.
pub proof fn lemma_insert_keeps_sorted(n: NodeModel, key: Seq<u8>, value: Seq<u8>)
    requires
        keys_sorted(n.keys),
    ensures
        keys_sorted(node_insert(n, key, value).keys),
{
    let eq_key = equals(key);
    let after_key = comes_after(key);
    lemma_first_match(n.keys, eq_key);
    lemma_first_match(n.keys, after_key);
    let i = key_index(n.keys, key) as int;
    let j = insert_index(n.keys, key) as int;
    let m = node_insert(n, key, value);
    if i >= n.keys.len() {
        // every key before position j is below `key`; every key from j on is above it
        assert forall|x: int| 0 <= x < j implies lex_lt(#[trigger] n.keys[x], key) by {
            assert(!after_key(n.keys[x]));
            assert(!eq_key(n.keys[x]));
            lemma_lex_total(n.keys[x], key);
        }
        assert forall|x: int| j <= x < n.keys.len() implies lex_lt(key, #[trigger] n.keys[x]) by {
            assert(after_key(n.keys[j]));
            if x > j {
                lemma_lex_transitive(key, n.keys[j], n.keys[x]);
            }
        }
        assert forall|a: int, b: int| 0 <= a < b < m.keys.len() implies lex_lt(#[trigger] m.keys[a], #[trigger] m.keys[b]) by {
            if b < j {
                assert(m.keys[a] == n.keys[a] && m.keys[b] == n.keys[b]);
            } else if b == j {
                assert(m.keys[a] == n.keys[a]);
            } else if a < j {
                assert(m.keys[a] == n.keys[a] && m.keys[b] == n.keys[b - 1]);
                lemma_lex_transitive(n.keys[a], key, n.keys[b - 1]);
            } else if a == j {
                assert(m.keys[b] == n.keys[b - 1]);
            } else {
                assert(m.keys[a] == n.keys[a - 1] && m.keys[b] == n.keys[b - 1]);
            }
        }
    }
}

/// Putting the same value under the same key twice is the same as once.
pub proof fn lemma_insert_idempotent(n: NodeModel, key: Seq<u8>, value: Seq<u8>)
    requires
        n.keys.len() == n.values.len(),
    ensures
        node_insert(node_insert(n, key, value), key, value) == node_insert(n, key, value),
{
    let m = node_insert(n, key, value);
    lemma_get_after_insert(n, key, value, key);
    lemma_first_match(n.keys, equals(key));
    lemma_first_match(n.keys, comes_after(key));
    assert(m.keys.len() == m.values.len());
    let i = key_index(m.keys, key) as int;
    assert(m.values.update(i, value) =~= m.values);
    assert(node_insert(m, key, value) =~= m);
}

/// Removing a key twice is the same as once, when the keys are distinct.
pub proof fn lemma_delete_idempotent(n: NodeModel, key: Seq<u8>)
    requires
        n.keys.len() == n.values.len(),
        n.keys.no_duplicates(),
    ensures
        node_delete(node_delete(n, key), key) == node_delete(n, key),
{
    lemma_get_after_delete(n, key, key);
    lemma_first_match(n.keys, equals(key));
    let m = node_delete(n, key);
    lemma_first_match(m.keys, equals(key));
}

/// Removing a key keeps the keys in strictly increasing order.
pub proof fn lemma_delete_keeps_sorted(n: NodeModel, key: Seq<u8>)
    requires
        keys_sorted(n.keys),
    ensures
        keys_sorted(node_delete(n, key).keys),
{
    lemma_first_match(n.keys, equals(key));
    let i = key_index(n.keys, key) as int;
    let m = node_delete(n, key);
    if i < n.keys.len() {
        assert forall|a: int, b: int| 0 <= a < b < m.keys.len() implies lex_lt(#[trigger] m.keys[a], #[trigger] m.keys[b]) by {
            let a0 = if a < i { a } else { a + 1 };
            let b0 = if b < i { b } else { b + 1 };
            assert(m.keys[a] == n.keys[a0] && m.keys[b] == n.keys[b0]);
        }
    }
}

/// Whether an entry's key begins with `prefix`.
pub open spec fn key_has_prefix(prefix: Seq<u8>) -> spec_fn((Seq<u8>, Seq<u8>)) -> bool {
    |e: (Seq<u8>, Seq<u8>)| has_prefix(e.0, prefix)
}

/// The scan keeps exactly the entries whose key begins with the prefix, in
/// their order.
pub proof fn lemma_scan_is_filter(pairs: Seq<(Seq<u8>, Seq<u8>)>, prefix: Seq<u8>)
    ensures
        scan_entries(pairs, prefix) == pairs.filter(key_has_prefix(prefix)),
    decreases pairs.len(),
{
    reveal(Seq::filter);
    if pairs.len() > 0 {
        lemma_scan_is_filter(pairs.drop_last(), prefix);
    }
}

/// Every entry of the scan has a key with the prefix and is an entry of the
/// pairs; every entry of the pairs whose key has the prefix is in the scan.
pub proof fn lemma_scan_members(pairs: Seq<(Seq<u8>, Seq<u8>)>, prefix: Seq<u8>)
    ensures
        forall|i: int| 0 <= i < pairs.len() && has_prefix(#[trigger] pairs[i].0, prefix) ==> scan_entries(
            pairs,
            prefix,
        ).contains(pairs[i]),
        forall|e: (Seq<u8>, Seq<u8>)| #[trigger] scan_entries(pairs, prefix).contains(e) ==> has_prefix(e.0, prefix)
            && pairs.contains(e),
    decreases pairs.len(),
{
    if pairs.len() > 0 {
        let init = pairs.drop_last();
        let rest = scan_entries(init, prefix);
        let r = scan_entries(pairs, prefix);
        lemma_scan_members(init, prefix);
        assert forall|i: int| 0 <= i < pairs.len() && has_prefix(#[trigger] pairs[i].0, prefix) implies r.contains(pairs[i]) by {
            if i == pairs.len() - 1 {
                assert(r[r.len() - 1] == pairs[i]);
            } else {
                assert(init[i] == pairs[i]);
                assert(rest.contains(init[i]));
                let k = choose|k: int| 0 <= k < rest.len() && rest[k] == init[i];
                assert(r[k] == pairs[i]);
            }
        }
        assert forall|e: (Seq<u8>, Seq<u8>)| #[trigger] r.contains(e) implies has_prefix(e.0, prefix) && pairs.contains(e) by {
            let k = choose|k: int| 0 <= k < r.len() && r[k] == e;
            if k < rest.len() {
                assert(rest[k] == e);
                assert(rest.contains(e));
                let m = choose|m: int| 0 <= m < init.len() && init[m] == e;
                assert(pairs[m] == e);
            } else {
                assert(e == pairs.last());
                assert(pairs[pairs.len() - 1] == e);
            }
        }
    }
}

/// A scan of a node holds each of its entries whose key begins with the
/// prefix, a key equal to the prefix included, and nothing else.
pub proof fn lemma_node_scan(n: NodeModel, prefix: Seq<u8>)
    requires
        n.keys.len() == n.values.len(),
    ensures
        forall|i: int| 0 <= i < n.keys.len() && has_prefix(#[trigger] n.keys[i], prefix) ==> node_scan(
            n,
            prefix,
        ).contains((n.keys[i], n.values[i])),
        forall|i: int| 0 <= i < n.keys.len() && n.keys[i] == prefix ==> node_scan(n, prefix).contains(
            (n.keys[i], n.values[i]),
        ),
        forall|e: (Seq<u8>, Seq<u8>)| #[trigger] node_scan(n, prefix).contains(e) ==> has_prefix(e.0, prefix)
            && exists|i: int| 0 <= i < n.keys.len() && e == (n.keys[i], n.values[i]),
        node_scan(n, prefix) == zip_entries(n.keys, n.values).filter(key_has_prefix(prefix)),
{
    let pairs = zip_entries(n.keys, n.values);
    lemma_scan_members(pairs, prefix);
    lemma_scan_is_filter(pairs, prefix);
    assert forall|i: int| 0 <= i < n.keys.len() && has_prefix(#[trigger] n.keys[i], prefix) implies node_scan(n, prefix).contains(
        (n.keys[i], n.values[i]),
    ) by {
        assert(pairs[i] == (n.keys[i], n.values[i]));
        assert(has_prefix(pairs[i].0, prefix));
    }
    assert forall|i: int| 0 <= i < n.keys.len() && n.keys[i] == prefix implies node_scan(n, prefix).contains(
        (n.keys[i], n.values[i]),
    ) by {
        lemma_has_prefix_bytes(prefix, prefix);
        assert(pairs[i] == (n.keys[i], n.values[i]));
        assert(has_prefix(pairs[i].0, prefix));
    }
    assert forall|e: (Seq<u8>, Seq<u8>)| #[trigger] node_scan(n, prefix).contains(e) implies has_prefix(e.0, prefix)
        && exists|i: int| 0 <= i < n.keys.len() && e == (n.keys[i], n.values[i]) by {
        let m = choose|m: int| 0 <= m < pairs.len() && pairs[m] == e;
        assert(e == (n.keys[m], n.values[m]));
    }
}

/// Whether `i` is the first position of `key` in `keys`.
pub open spec fn first_position(keys: Seq<Seq<u8>>, key: Seq<u8>, i: int) -> bool {
    0 <= i < keys.len() && keys[i] == key && forall|j: int| 0 <= j < i ==> #[trigger] keys[j] != key
}

/// Removing a key takes out the first entry with that key, or changes
/// nothing when there is none; the node's type and children stay.
pub proof fn lemma_delete_shape(n: NodeModel, key: Seq<u8>, i: int)
    ensures
        node_delete(n, key).node_type == n.node_type,
        node_delete(n, key).children == n.children,
        first_position(n.keys, key, i) ==> node_delete(n, key).keys == n.keys.remove(i)
            && node_delete(n, key).values == n.values.remove(i),
        (forall|j: int| 0 <= j < n.keys.len() ==> #[trigger] n.keys[j] != key) ==> node_delete(n, key) == n,
{
    lemma_first_match(n.keys, equals(key));
    if first_position(n.keys, key, i) {
        assert forall|j: int| 0 <= j < i implies !equals(key)(#[trigger] n.keys[j]) by {}
        lemma_first_match_at(n.keys, equals(key), i);
    }
    if forall|j: int| 0 <= j < n.keys.len() ==> #[trigger] n.keys[j] != key {
        assert forall|j: int| 0 <= j < n.keys.len() implies !equals(key)(#[trigger] n.keys[j]) by {}
        lemma_first_match_at(n.keys, equals(key), n.keys.len() as int);
    }
}

/// Reading a key gives the value of its first entry, or nothing when no
/// entry has that key.
pub proof fn lemma_get_shape(n: NodeModel, key: Seq<u8>, i: int)
    ensures
        first_position(n.keys, key, i) ==> node_get(n, key) == Some(n.values[i]),
        (forall|j: int| 0 <= j < n.keys.len() ==> #[trigger] n.keys[j] != key) ==> node_get(n, key) == None::<Seq<u8>>,
{
    if first_position(n.keys, key, i) {
        assert forall|j: int| 0 <= j < i implies !equals(key)(#[trigger] n.keys[j]) by {}
        lemma_first_match_at(n.keys, equals(key), i);
    }
    if forall|j: int| 0 <= j < n.keys.len() ==> #[trigger] n.keys[j] != key {
        assert forall|j: int| 0 <= j < n.keys.len() implies !equals(key)(#[trigger] n.keys[j]) by {}
        lemma_first_match_at(n.keys, equals(key), n.keys.len() as int);
    }
}

/// Putting a value under a key replaces the value of its first entry, or,
/// when no entry has that key, inserts the pair before the first key that
/// comes after it in byte order; the node's type and children stay.
pub proof fn lemma_insert_shape(n: NodeModel, key: Seq<u8>, value: Seq<u8>, i: int, j: int)
    ensures
        node_insert(n, key, value).node_type == n.node_type,
        node_insert(n, key, value).children == n.children,
        first_position(n.keys, key, i) ==> node_insert(n, key, value).keys == n.keys
            && node_insert(n, key, value).values == n.values.update(i, value),
        ((forall|x: int| 0 <= x < n.keys.len() ==> #[trigger] n.keys[x] != key) && 0 <= j <= n.keys.len()
            && (forall|x: int| 0 <= x < j ==> !lex_lt(key, #[trigger] n.keys[x])) && (j < n.keys.len()
            ==> lex_lt(key, n.keys[j]))) ==> node_insert(n, key, value).keys == n.keys.insert(j, key)
            && node_insert(n, key, value).values == n.values.insert(j, value),
{
    if first_position(n.keys, key, i) {
        assert forall|x: int| 0 <= x < i implies !equals(key)(#[trigger] n.keys[x]) by {}
        lemma_first_match_at(n.keys, equals(key), i);
    }
    if forall|x: int| 0 <= x < n.keys.len() ==> #[trigger] n.keys[x] != key {
        assert forall|x: int| 0 <= x < n.keys.len() implies !equals(key)(#[trigger] n.keys[x]) by {}
        lemma_first_match_at(n.keys, equals(key), n.keys.len() as int);
        if 0 <= j <= n.keys.len() && (forall|x: int| 0 <= x < j ==> !lex_lt(key, #[trigger] n.keys[x])) && (j
            < n.keys.len() ==> lex_lt(key, n.keys[j])) {
            assert forall|x: int| 0 <= x < j implies !comes_after(key)(#[trigger] n.keys[x]) by {}
            lemma_first_match_at(n.keys, comes_after(key), j);
        }
    }
}

} // verus!
