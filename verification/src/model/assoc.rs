//! Sequences of keyed values with increasing keys, read as finite maps.

use vstd::prelude::*;
use crate::model::keyset::{increasing, lemma_increasing_index, lemma_increasing_unique};

verus! {

/// The keys, in the order of the sequence.
pub open spec fn keys_of<V>(s: Seq<(u128, V)>) -> Seq<u128> {
    Seq::new(s.len(), |i: int| s[i].0)
}

/// Whether a value stands under `key`.
pub open spec fn has_key<V>(s: Seq<(u128, V)>, key: u128) -> bool {
    keys_of(s).contains(key)
}

/// An index at which `key` stands.
pub open spec fn index_of<V>(s: Seq<(u128, V)>, key: u128) -> int {
    choose|i: int| 0 <= i < s.len() && s[i].0 == key
}

/// The value under `key`.
pub open spec fn value_of<V>(s: Seq<(u128, V)>, key: u128) -> V {
    s[index_of(s, key)].1
}

/// Each entry of a sequence with increasing keys is the value of its key.
pub proof fn lemma_value_at<V>(s: Seq<(u128, V)>, i: int)
    requires
        increasing(keys_of(s)),
        0 <= i < s.len(),
    ensures
        has_key(s, s[i].0),
        index_of(s, s[i].0) == i,
        value_of(s, s[i].0) == s[i].1,
{
    let keys = keys_of(s);
    assert(keys[i] == s[i].0);
    let j = index_of(s, s[i].0);
    assert(keys[j] == s[j].0);
    lemma_increasing_index(keys, i, j);
}

/// A key that is present stands at its index.
pub proof fn lemma_has_key<V>(s: Seq<(u128, V)>, key: u128)
    requires
        has_key(s, key),
    ensures
        0 <= index_of(s, key) < s.len(),
        s[index_of(s, key)].0 == key,
{
    let keys = keys_of(s);
    let i = choose|i: int| 0 <= i < keys.len() && keys[i] == key;
    assert(s[i].0 == key);
}

/// Two sequences with increasing keys that hold the same keys, and under
/// each key the same value, are the same sequence.
pub proof fn lemma_assoc_unique<V>(a: Seq<(u128, V)>, b: Seq<(u128, V)>)
    requires
        increasing(keys_of(a)),
        increasing(keys_of(b)),
        forall|k: u128| has_key(a, k) <==> has_key(b, k),
        forall|k: u128| has_key(a, k) ==> value_of(a, k) == value_of(b, k),
    ensures
        a == b,
{
    assert forall|x: u128| keys_of(a).contains(x) <==> keys_of(b).contains(x) by {
        assert(has_key(a, x) <==> has_key(b, x));
    }
    lemma_increasing_unique(keys_of(a), keys_of(b));
    assert(a.len() == keys_of(a).len());
    assert(b.len() == keys_of(b).len());
    assert forall|i: int| 0 <= i < a.len() implies a[i] == b[i] by {
        assert(keys_of(a)[i] == a[i].0);
        assert(keys_of(b)[i] == b[i].0);
        lemma_value_at(a, i);
        lemma_value_at(b, i);
    }
    assert(a =~= b);
}

/// The value under `key`, or `default` where there is none.
pub open spec fn value_or<V>(s: Seq<(u128, V)>, key: u128, default: V) -> V {
    if has_key(s, key) {
        value_of(s, key)
    } else {
        default
    }
}

/// What one more entry adds to the front part of a sequence.
pub proof fn lemma_assoc_take<V>(s: Seq<(u128, V)>, i: int, default: V)
    requires
        increasing(keys_of(s)),
        0 <= i < s.len(),
    ensures
        increasing(keys_of(s.take(i))),
        increasing(keys_of(s.take(i + 1))),
        !has_key(s.take(i), s[i].0),
        forall|k: u128| #[trigger]
            has_key(s.take(i + 1), k) <==> (has_key(s.take(i), k) || k == s[i].0),
        forall|k: u128| #[trigger]
            value_or(s.take(i + 1), k, default) == if k == s[i].0 {
                s[i].1
            } else {
                value_or(s.take(i), k, default)
            },
{
    let t0 = s.take(i);
    let t1 = s.take(i + 1);
    let keys = keys_of(s);
    assert forall|a: int, b: int| 0 <= a < b < t0.len() implies keys_of(t0)[a] < keys_of(t0)[b] by {
        assert(keys[a] < keys[b]);
    }
    assert forall|a: int, b: int| 0 <= a < b < t1.len() implies keys_of(t1)[a] < keys_of(t1)[b] by {
        assert(keys[a] < keys[b]);
    }
    if has_key(t0, s[i].0) {
        lemma_has_key(t0, s[i].0);
        let j = index_of(t0, s[i].0);
        assert(keys[j] < keys[i]);
    }
    assert forall|k: u128| #[trigger]
        has_key(t1, k) <==> (has_key(t0, k) || k == s[i].0) by {
        if has_key(t1, k) {
            lemma_has_key(t1, k);
            let j = index_of(t1, k);
            if j < i {
                assert(keys_of(t0)[j] == k);
            }
        }
        if has_key(t0, k) {
            lemma_has_key(t0, k);
            let j = index_of(t0, k);
            assert(keys_of(t1)[j] == k);
        }
        if k == s[i].0 {
            assert(keys_of(t1)[i] == k);
        }
    }
    assert forall|k: u128| #[trigger]
        value_or(t1, k, default) == if k == s[i].0 {
            s[i].1
        } else {
            value_or(t0, k, default)
        } by {
        if k == s[i].0 {
            lemma_value_at(t1, i);
        } else if has_key(t0, k) {
            lemma_has_key(t0, k);
            let j = index_of(t0, k);
            lemma_value_at(t0, j);
            lemma_value_at(t1, j);
        }
    }
}

/// What a new entry adds to a sequence.
pub proof fn lemma_assoc_insert<V>(s: Seq<(u128, V)>, at: int, key: u128, v: V, default: V)
    requires
        increasing(keys_of(s)),
        0 <= at <= s.len(),
        !has_key(s, key),
        increasing(keys_of(s.insert(at, (key, v)))),
    ensures
        forall|k: u128| #[trigger]
            has_key(s.insert(at, (key, v)), k) <==> (has_key(s, k) || k == key),
        forall|k: u128| #[trigger]
            value_or(s.insert(at, (key, v)), k, default) == if k == key {
                v
            } else {
                value_or(s, k, default)
            },
{
    let t = s.insert(at, (key, v));
    assert forall|k: u128| #[trigger] has_key(t, k) <==> (has_key(s, k) || k == key) by {
        if has_key(t, k) {
            lemma_has_key(t, k);
            let j = index_of(t, k);
            if j < at {
                assert(keys_of(s)[j] == k);
            } else if j > at {
                assert(keys_of(s)[j - 1] == k);
            }
        }
        if has_key(s, k) {
            lemma_has_key(s, k);
            let j = index_of(s, k);
            if j < at {
                assert(keys_of(t)[j] == k);
            } else {
                assert(keys_of(t)[j + 1] == k);
            }
        }
        if k == key {
            assert(keys_of(t)[at] == k);
        }
    }
    assert forall|k: u128| #[trigger]
        value_or(t, k, default) == if k == key {
            v
        } else {
            value_or(s, k, default)
        } by {
        if k == key {
            lemma_value_at(t, at);
        } else if has_key(s, k) {
            lemma_has_key(s, k);
            let j = index_of(s, k);
            lemma_value_at(s, j);
            if j < at {
                lemma_value_at(t, j);
            } else {
                lemma_value_at(t, j + 1);
            }
        }
    }
}

/// What a new value under a present key changes in a sequence.
pub proof fn lemma_assoc_update<V>(s: Seq<(u128, V)>, at: int, v: V, default: V)
    requires
        increasing(keys_of(s)),
        0 <= at < s.len(),
    ensures
        keys_of(s.update(at, (s[at].0, v))) == keys_of(s),
        forall|k: u128| #[trigger]
            value_or(s.update(at, (s[at].0, v)), k, default) == if k == s[at].0 {
                v
            } else {
                value_or(s, k, default)
            },
{
    let t = s.update(at, (s[at].0, v));
    assert(keys_of(t) =~= keys_of(s));
    assert forall|k: u128| #[trigger]
        value_or(t, k, default) == if k == s[at].0 {
            v
        } else {
            value_or(s, k, default)
        } by {
        if k == s[at].0 {
            lemma_value_at(t, at);
        } else if has_key(s, k) {
            lemma_has_key(s, k);
            let j = index_of(s, k);
            lemma_value_at(s, j);
            lemma_value_at(t, j);
        }
    }
}

/// Pairs the keys with the values that stand at the same index.
pub open spec fn zip<V>(keys: Seq<u128>, values: Seq<V>) -> Seq<(u128, V)> {
    Seq::new(keys.len(), |i: int| (keys[i], values[i]))
}

/// The keys of paired keys and values are the keys.
pub proof fn lemma_zip_keys<V>(keys: Seq<u128>, values: Seq<V>)
    ensures
        keys_of(zip(keys, values)) == keys,
        zip(keys, values).len() == keys.len(),
{
    assert(keys_of(zip(keys, values)) =~= keys);
}

} // verus!
