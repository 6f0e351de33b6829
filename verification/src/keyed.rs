//! Association sequences keyed by a `u64` identifier.
//!
//! The graph builder stores its tables as vectors of records, each record
//! carrying its own key. This module gives such sequences a `Map` view and
//! proves how the view evolves under the operations the builder performs:
//! appending a fresh record, overwriting the record that holds a key, and
//! looking a key up.

use vstd::prelude::*;

verus! {

/// A record that carries its own `u64` key.
pub trait Keyed {
    spec fn key(&self) -> u64;
}

/// No two records of the sequence carry the same key.
pub open spec fn keys_unique<T: Keyed>(s: Seq<T>) -> bool {
    forall|i: int, j: int| 0 <= i < j < s.len() ==> s[i].key() != s[j].key()
}

/// The map view of an association sequence: later records win,
/// though under `keys_unique` there is never a conflict.
pub open spec fn key_map<T: Keyed>(s: Seq<T>) -> Map<u64, T>
    decreases s.len(),
{
    if s.len() == 0 {
        Map::empty()
    } else {
        key_map(s.drop_last()).insert(s.last().key(), s.last())
    }
}

/// A key is in the map view exactly when some record carries it.
pub proof fn lemma_key_map_contains<T: Keyed>(s: Seq<T>, k: u64)
    ensures
        key_map(s).contains_key(k) <==> exists|i: int| 0 <= i < s.len() && s[i].key() == k,
    decreases s.len(),
{
    if s.len() > 0 {
        lemma_key_map_contains(s.drop_last(), k);
        if s.last().key() == k {
            assert(s[s.len() - 1].key() == k);
        } else if key_map(s).contains_key(k) {
            let i = choose|i: int| 0 <= i < s.drop_last().len() && s.drop_last()[i].key() == k;
            assert(s[i].key() == k);
        } else if exists|i: int| 0 <= i < s.len() && s[i].key() == k {
            let i = choose|i: int| 0 <= i < s.len() && s[i].key() == k;
            assert(s.drop_last()[i].key() == k);
        }
    }
}

/// Under unique keys, the map view sends each record's key to that record.
pub proof fn lemma_key_map_index<T: Keyed>(s: Seq<T>, i: int)
    requires
        keys_unique(s),
        0 <= i < s.len(),
    ensures
        key_map(s).contains_key(s[i].key()),
        key_map(s)[s[i].key()] == s[i],
    decreases s.len(),
{
    if i < s.len() - 1 {
        assert(keys_unique(s.drop_last()));
        lemma_key_map_index(s.drop_last(), i);
        assert(s.drop_last()[i] == s[i]);
        assert(s[i].key() != s.last().key());
    }
}

/// Appending a record inserts its key into the map view.
pub proof fn lemma_key_map_push<T: Keyed>(s: Seq<T>, x: T)
    ensures
        key_map(s.push(x)) == key_map(s).insert(x.key(), x),
        keys_unique(s) && !key_map(s).contains_key(x.key()) ==> keys_unique(s.push(x)),
{
    assert(s.push(x).drop_last() == s);
    assert(s.push(x).last() == x);
    if keys_unique(s) && !key_map(s).contains_key(x.key()) {
        lemma_key_map_contains(s, x.key());
        assert forall|i: int, j: int| 0 <= i < j < s.push(x).len() implies s.push(x)[i].key()
            != s.push(x)[j].key() by {
            if j < s.len() {
                assert(s[i].key() != s[j].key());
            } else {
                assert(s.push(x)[j] == x);
                assert(s.push(x)[i] == s[i]);
            }
        }
    }
}

/// The position of the first record carrying a key, if any.
pub open spec fn find_key<T: Keyed>(s: Seq<T>, k: u64) -> Option<int>
    decreases s.len(),
{
    if s.len() == 0 {
        None
    } else if s[0].key() == k {
        Some(0int)
    } else {
        match find_key(s.drop_first(), k) {
            Some(i) => Some(i + 1),
            None => None,
        }
    }
}

/// `find_key` returns the first position carrying the key, or `None`
/// exactly when no record carries it.
pub proof fn lemma_find_key<T: Keyed>(s: Seq<T>, k: u64)
    ensures
        match find_key(s, k) {
            Some(i) => 0 <= i < s.len() && s[i].key() == k && forall|j: int|
                0 <= j < i ==> s[j].key() != k,
            None => forall|j: int| 0 <= j < s.len() ==> s[j].key() != k,
        },
    decreases s.len(),
{
    if s.len() > 0 && s[0].key() != k {
        lemma_find_key(s.drop_first(), k);
        match find_key(s.drop_first(), k) {
            Some(i) => {
                assert(s.drop_first()[i] == s[i + 1]);
                assert forall|j: int| 0 <= j < i + 1 implies s[j].key() != k by {
                    if j > 0 {
                        assert(s.drop_first()[j - 1] == s[j]);
                    }
                }
            },
            None => {
                assert forall|j: int| 0 <= j < s.len() implies s[j].key() != k by {
                    if j > 0 {
                        assert(s.drop_first()[j - 1] == s[j]);
                    }
                }
            },
        }
    }
}

/// Under unique keys, `find_key` agrees with the map view.
pub proof fn lemma_find_key_map<T: Keyed>(s: Seq<T>, k: u64)
    requires
        keys_unique(s),
    ensures
        match find_key(s, k) {
            Some(i) => 0 <= i < s.len() && s[i].key() == k && key_map(s).contains_key(k)
                && key_map(s)[k] == s[i],
            None => !key_map(s).contains_key(k),
        },
{
    lemma_find_key(s, k);
    lemma_key_map_contains(s, k);
    match find_key(s, k) {
        Some(i) => {
            lemma_key_map_index(s, i);
        },
        None => {
            if key_map(s).contains_key(k) {
                let i = choose|i: int| 0 <= i < s.len() && s[i].key() == k;
                assert(s[i].key() != k);
            }
        },
    }
}

/// Overwriting the record that holds a key updates the map view in place.
pub proof fn lemma_key_map_update<T: Keyed>(s: Seq<T>, i: int, x: T)
    requires
        keys_unique(s),
        0 <= i < s.len(),
        s[i].key() == x.key(),
    ensures
        key_map(s.update(i, x)) == key_map(s).insert(x.key(), x),
        keys_unique(s.update(i, x)),
    decreases s.len(),
{
    let t = s.update(i, x);
    assert forall|p: int, q: int| 0 <= p < q < t.len() implies t[p].key() != t[q].key() by {
        assert(s[p].key() != s[q].key());
    }
    if i == s.len() - 1 {
        assert(t.drop_last() == s.drop_last());
        assert(t.last() == x);
        assert(key_map(s).insert(x.key(), x) == key_map(s.drop_last()).insert(
            s.last().key(),
            s.last(),
        ).insert(x.key(), x));
        assert(key_map(s.drop_last()).insert(s.last().key(), s.last()).insert(x.key(), x)
            =~= key_map(s.drop_last()).insert(x.key(), x));
    } else {
        assert(keys_unique(s.drop_last()));
        assert(s.drop_last()[i] == s[i]);
        lemma_key_map_update(s.drop_last(), i, x);
        assert(t.drop_last() == s.drop_last().update(i, x));
        assert(t.last() == s.last());
        assert(s.last().key() != x.key());
        assert(key_map(t) == key_map(s.drop_last()).insert(x.key(), x).insert(
            s.last().key(),
            s.last(),
        ));
        assert(key_map(s.drop_last()).insert(x.key(), x).insert(s.last().key(), s.last())
            =~= key_map(s.drop_last()).insert(s.last().key(), s.last()).insert(x.key(), x));
    }
}

} // verus!
