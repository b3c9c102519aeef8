//! The byte layout of a node inside a page, as mathematical functions.
//!
//! A page holds, in order: one byte for the node type (0 for a leaf, 1 for an
//! internal node), one byte for the number of keys taken modulo 256, then for
//! each key/value pair the key length as a little-endian `u16`, the key bytes,
//! the value length as a little-endian `u16` and the value bytes. The rest of
//! the page is zero.
use vstd::prelude::*;

verus! {

/// The two little-endian bytes of `n` taken modulo 65536.
pub open spec fn u16_le(n: nat) -> Seq<u8> {
    seq![(n % 256) as u8, ((n / 256) % 256) as u8]
}

/// The little-endian `u16` stored at `off` in `data`.
pub open spec fn read_u16(data: Seq<u8>, off: int) -> nat {
    (data[off] + data[off + 1] * 256) as nat
}

/// The encoding of one key/value pair.
pub open spec fn entry_bytes(key: Seq<u8>, value: Seq<u8>) -> Seq<u8> {
    u16_le(key.len()) + key + u16_le(value.len()) + value
}

/// The encoding of a sequence of key/value pairs, one after the other.
pub open spec fn entries_bytes(pairs: Seq<(Seq<u8>, Seq<u8>)>) -> Seq<u8>
    decreases pairs.len(),
{
    if pairs.len() == 0 {
        seq![]
    } else {
        entry_bytes(pairs[0].0, pairs[0].1) + entries_bytes(pairs.drop_first())
    }
}

/// The pairs formed by keys and values at equal positions, as far as both go.
pub open spec fn zip_entries(keys: Seq<Seq<u8>>, values: Seq<Seq<u8>>) -> Seq<(Seq<u8>, Seq<u8>)> {
    let n = if keys.len() <= values.len() { keys.len() } else { values.len() };
    Seq::new(n, |i: int| (keys[i], values[i]))
}

/// The keys of a sequence of pairs.
pub open spec fn pair_keys(pairs: Seq<(Seq<u8>, Seq<u8>)>) -> Seq<Seq<u8>> {
    pairs.map_values(|p: (Seq<u8>, Seq<u8>)| p.0)
}

/// The values of a sequence of pairs.
pub open spec fn pair_values(pairs: Seq<(Seq<u8>, Seq<u8>)>) -> Seq<Seq<u8>> {
    pairs.map_values(|p: (Seq<u8>, Seq<u8>)| p.1)
}

/// Reads `n` key/value pairs starting at `off`; `None` when one of them runs
/// past the end of `data`.
pub open spec fn parse_entries(data: Seq<u8>, off: int, n: nat) -> Option<
    (Seq<Seq<u8>>, Seq<Seq<u8>>),
>
    decreases n,
{
    if n == 0 {
        Some((seq![], seq![]))
    } else if off + 2 > data.len() {
        None
    } else {
        let key_off = off + 2;
        let key_len = read_u16(data, off);
        if key_off + key_len > data.len() {
            None
        } else {
            let value_len_off = key_off + key_len;
            if value_len_off + 2 > data.len() {
                None
            } else {
                let value_off = value_len_off + 2;
                let value_len = read_u16(data, value_len_off);
                if value_off + value_len > data.len() {
                    None
                } else {
                    match parse_entries(data, value_off + value_len, (n - 1) as nat) {
                        Some((ks, vs)) => Some(
                            (
                                seq![data.subrange(key_off, key_off + key_len)] + ks,
                                seq![data.subrange(value_off, value_off + value_len)] + vs,
                            ),
                        ),
                        None => None,
                    }
                }
            }
        }
    }
}

/// Puts already parsed keys and values in front of the result of a parse.
pub open spec fn prepend_parsed(
    keys: Seq<Seq<u8>>,
    values: Seq<Seq<u8>>,
    rest: Option<(Seq<Seq<u8>>, Seq<Seq<u8>>)>,
) -> Option<(Seq<Seq<u8>>, Seq<Seq<u8>>)> {
    match rest {
        Some((ks, vs)) => Some((keys + ks, values + vs)),
        None => None,
    }
}

/// The encoding distributes over concatenation of pair sequences.
pub proof fn lemma_entries_bytes_concat(a: Seq<(Seq<u8>, Seq<u8>)>, b: Seq<(Seq<u8>, Seq<u8>)>)
    ensures
        entries_bytes(a + b) == entries_bytes(a) + entries_bytes(b),
    decreases a.len(),
{
    if a.len() == 0 {
        assert(a + b =~= b);
        assert(entries_bytes(a) + entries_bytes(b) =~= entries_bytes(b));
    } else {
        assert((a + b).drop_first() =~= a.drop_first() + b);
        lemma_entries_bytes_concat(a.drop_first(), b);
        assert((a + b)[0] == a[0]);
        assert(entries_bytes(a + b) =~= entry_bytes(a[0].0, a[0].1) + (entries_bytes(a.drop_first())
            + entries_bytes(b)));
    }
}

/// Encoding one more pair appends its bytes.
pub proof fn lemma_entries_bytes_push(pairs: Seq<(Seq<u8>, Seq<u8>)>, i: int)
    requires
        0 <= i < pairs.len(),
    ensures
        entries_bytes(pairs.take(i + 1)) == entries_bytes(pairs.take(i)) + entry_bytes(
            pairs[i].0,
            pairs[i].1,
        ),
        entries_bytes(pairs.take(i + 1)).len() <= entries_bytes(pairs).len(),
{
    let one = seq![pairs[i]];
    assert(pairs.take(i + 1) =~= pairs.take(i) + one);
    lemma_entries_bytes_concat(pairs.take(i), one);
    assert(one.drop_first() =~= Seq::<(Seq<u8>, Seq<u8>)>::empty());
    assert(entries_bytes(one.drop_first()) =~= Seq::<u8>::empty());
    assert(entries_bytes(one) =~= entry_bytes(pairs[i].0, pairs[i].1));
    assert(pairs =~= pairs.take(i + 1) + pairs.skip(i + 1));
    lemma_entries_bytes_concat(pairs.take(i + 1), pairs.skip(i + 1));
}

/// A length below 65536 is read back from its two bytes.
pub proof fn lemma_u16_roundtrip(data: Seq<u8>, off: int, n: nat)
    requires
        n < 65536,
        0 <= off,
        off + 2 <= data.len(),
        data.subrange(off, off + 2) == u16_le(n),
    ensures
        read_u16(data, off) == n,
{
    assert(data[off] == data.subrange(off, off + 2)[0]);
    assert(data[off + 1] == data.subrange(off, off + 2)[1]);
}

/// Parsing the encoding of `pairs` gives back their keys and values.
pub proof fn lemma_parse_encoded(data: Seq<u8>, off: int, pairs: Seq<(Seq<u8>, Seq<u8>)>)
    requires
        0 <= off,
        off + entries_bytes(pairs).len() <= data.len(),
        data.subrange(off, off + entries_bytes(pairs).len()) == entries_bytes(pairs),
        forall|i: int| 0 <= i < pairs.len() ==> #[trigger] pairs[i].0.len() < 65536 && pairs[i].1.len() < 65536,
    ensures
        parse_entries(data, off, pairs.len()) == Some((pair_keys(pairs), pair_values(pairs))),
    decreases pairs.len(),
{
    if pairs.len() == 0 {
        assert(pair_keys(pairs) =~= seq![]);
        assert(pair_values(pairs) =~= seq![]);
    } else {
        let k = pairs[0].0;
        let v = pairs[0].1;
        let e = entry_bytes(k, v);
        let rest = entries_bytes(pairs.drop_first());
        let whole = entries_bytes(pairs);
        let kl = k.len() as int;
        let vl = v.len() as int;
        assert(whole == e + rest);
        let sub = data.subrange(off, off + whole.len());
        assert(data.subrange(off, off + 2) =~= sub.subrange(0, 2));
        assert(sub.subrange(0, 2) =~= u16_le(k.len()));
        lemma_u16_roundtrip(data, off, k.len());
        let ko = off + 2;
        assert(data.subrange(ko, ko + kl) =~= sub.subrange(2, 2 + kl));
        assert(sub.subrange(2, 2 + kl) =~= k);
        let vlo = ko + kl;
        assert(data.subrange(vlo, vlo + 2) =~= sub.subrange(2 + kl, 4 + kl));
        assert(sub.subrange(2 + kl, 4 + kl) =~= u16_le(v.len()));
        lemma_u16_roundtrip(data, vlo, v.len());
        let vo = vlo + 2;
        assert(data.subrange(vo, vo + vl) =~= sub.subrange(4 + kl, 4 + kl + vl));
        assert(sub.subrange(4 + kl, 4 + kl + vl) =~= v);
        let next = vo + v.len();
        assert(data.subrange(next, next + rest.len()) =~= sub.subrange(e.len() as int, whole.len() as int));
        assert(sub.subrange(e.len() as int, whole.len() as int) =~= rest);
        assert forall|i: int| 0 <= i < pairs.drop_first().len() implies #[trigger] pairs.drop_first()[i].0.len()
            < 65536 && pairs.drop_first()[i].1.len() < 65536 by {
            assert(pairs.drop_first()[i] == pairs[i + 1]);
        }
        lemma_parse_encoded(data, next, pairs.drop_first());
        assert(pair_keys(pairs) =~= seq![k] + pair_keys(pairs.drop_first()));
        assert(pair_values(pairs) =~= seq![v] + pair_values(pairs.drop_first()));
    }
}

/// Every pair of an encoding no longer than a page has lengths below 65536.
pub proof fn lemma_entry_lengths_bounded(pairs: Seq<(Seq<u8>, Seq<u8>)>, i: int)
    requires
        0 <= i < pairs.len(),
    ensures
        4 + pairs[i].0.len() + pairs[i].1.len() <= entries_bytes(pairs).len(),
{
    lemma_entries_bytes_push(pairs, i);
    assert(pairs.take(i + 1).len() == i + 1);
}

/// A successful parse of `n` pairs yields `n` keys and `n` values, whose
/// encoding fits between `off` and the end of `data`.
pub proof fn lemma_parse_bound(data: Seq<u8>, off: int, n: nat)
    requires
        0 <= off <= data.len(),
        parse_entries(data, off, n) is Some,
    ensures
        ({
            let (ks, vs) = parse_entries(data, off, n)->0;
            &&& ks.len() == n
            &&& vs.len() == n
            &&& off + entries_bytes(zip_entries(ks, vs)).len() <= data.len()
        }),
    decreases n,
{
    let (ks, vs) = parse_entries(data, off, n)->0;
    if n == 0 {
        assert(zip_entries(ks, vs) =~= Seq::<(Seq<u8>, Seq<u8>)>::empty());
    } else {
        let key_off = off + 2;
        let key_len = read_u16(data, off);
        let value_len_off = key_off + key_len;
        let value_off = value_len_off + 2;
        let value_len = read_u16(data, value_len_off);
        let next = value_off + value_len;
        lemma_parse_bound(data, next, (n - 1) as nat);
        let (rk, rv) = parse_entries(data, next, (n - 1) as nat)->0;
        let k = data.subrange(key_off, key_off + key_len);
        let v = data.subrange(value_off, value_off + value_len);
        assert(ks == seq![k] + rk);
        assert(vs == seq![v] + rv);
        let z = zip_entries(ks, vs);
        assert(z.drop_first() =~= zip_entries(rk, rv));
        assert(z[0] == (k, v));
        assert(entries_bytes(z) == entry_bytes(k, v) + entries_bytes(zip_entries(rk, rv)));
        assert(k.len() == key_len);
        assert(v.len() == value_len);
        assert(ks.len() == n);
        assert(vs.len() == n);
        assert(off + entries_bytes(z).len() <= data.len());
    }
}

/// Removing a pair shortens the encoding by that pair's bytes.
pub proof fn lemma_entries_bytes_remove(pairs: Seq<(Seq<u8>, Seq<u8>)>, i: int)
    requires
        0 <= i < pairs.len(),
    ensures
        entries_bytes(pairs.remove(i)).len() + entry_bytes(pairs[i].0, pairs[i].1).len()
            == entries_bytes(pairs).len(),
{
    let one = seq![pairs[i]];
    assert(pairs =~= pairs.take(i) + one + pairs.skip(i + 1));
    assert(pairs.remove(i) =~= pairs.take(i) + pairs.skip(i + 1));
    lemma_entries_bytes_concat(pairs.take(i) + one, pairs.skip(i + 1));
    lemma_entries_bytes_concat(pairs.take(i), one);
    lemma_entries_bytes_concat(pairs.take(i), pairs.skip(i + 1));
    assert(one.drop_first() =~= Seq::<(Seq<u8>, Seq<u8>)>::empty());
    assert(entries_bytes(one.drop_first()) =~= Seq::<u8>::empty());
}

} // verus!
