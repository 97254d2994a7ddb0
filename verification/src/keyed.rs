//! Sequences whose items carry keys, read as maps from key to item, and how
//! appending, replacing and removing an item changes that map.
use vstd::prelude::*;

verus! {

broadcast use vstd::seq_lib::group_seq_properties;

/// An item that carries a key.
pub trait Keyed {
    type Key;

    spec fn key(&self) -> Self::Key;
}

/// No two items of `s` share a key.
pub open spec fn keys_distinct<T: Keyed>(s: Seq<T>) -> bool {
    forall|i: int, j: int|
        0 <= i < s.len() && 0 <= j < s.len() && i != j ==> #[trigger] s[i].key() != #[trigger] s[j].key()
}

/// Whether some item of `s` has key `k`.
pub open spec fn has_key<T: Keyed>(s: Seq<T>, k: T::Key) -> bool {
    exists|i: int| 0 <= i < s.len() && #[trigger] s[i].key() == k
}

/// The items of `s` keyed by their keys.
pub open spec fn keyed_map<T: Keyed>(s: Seq<T>) -> Map<T::Key, T> {
    Map::new(
        |k: T::Key| has_key(s, k),
        |k: T::Key| s[choose|i: int| 0 <= i < s.len() && #[trigger] s[i].key() == k],
    )
}

/// With distinct keys, each item is what the map holds for its key.
pub proof fn lemma_keyed_at<T: Keyed>(s: Seq<T>, i: int)
    requires
        keys_distinct(s),
        0 <= i < s.len(),
    ensures
        keyed_map(s).contains_key(s[i].key()),
        keyed_map(s)[s[i].key()] == s[i],
{
    assert(has_key(s, s[i].key()));
    let j = choose|j: int| 0 <= j < s.len() && #[trigger] s[j].key() == s[i].key();
    assert(s[j].key() == s[i].key());
}

/// Appending an item with a new key inserts it into the map.
pub proof fn lemma_keyed_push<T: Keyed>(s: Seq<T>, x: T)
    requires
        keys_distinct(s),
        !has_key(s, x.key()),
    ensures
        keys_distinct(s.push(x)),
        keyed_map(s.push(x)) == keyed_map(s).insert(x.key(), x),
{
    let t = s.push(x);
    assert forall|i: int, j: int| 0 <= i < t.len() && 0 <= j < t.len() && i != j implies #[trigger] t[i].key()
        != #[trigger] t[j].key() by {
        if i == s.len() {
            assert(t[j] == s[j]);
        } else if j == s.len() {
            assert(t[i] == s[i]);
        } else {
            assert(t[i] == s[i] && t[j] == s[j]);
        }
    }
    assert forall|k: T::Key| has_key(t, k) == (has_key(s, k) || k == x.key()) by {
        if has_key(s, k) {
            let i = choose|i: int| 0 <= i < s.len() && #[trigger] s[i].key() == k;
            assert(t[i] == s[i]);
        }
        if k == x.key() {
            assert(t[s.len() as int] == x);
        }
        if has_key(t, k) {
            let i = choose|i: int| 0 <= i < t.len() && #[trigger] t[i].key() == k;
            if i < s.len() {
                assert(t[i] == s[i]);
            }
        }
    }
    assert forall|k: T::Key| #[trigger] keyed_map(t).contains_key(k) implies keyed_map(t)[k] == keyed_map(s).insert(
        x.key(),
        x,
    )[k] by {
        let i = choose|i: int| 0 <= i < t.len() && #[trigger] t[i].key() == k;
        lemma_keyed_at(t, i);
        if i < s.len() {
            assert(t[i] == s[i]);
            lemma_keyed_at(s, i);
        }
    }
    assert(keyed_map(t) =~= keyed_map(s).insert(x.key(), x));
}

/// Replacing an item by one with the same key updates the map there.
pub proof fn lemma_keyed_update<T: Keyed>(s: Seq<T>, i: int, x: T)
    requires
        keys_distinct(s),
        0 <= i < s.len(),
        x.key() == s[i].key(),
    ensures
        keys_distinct(s.update(i, x)),
        keyed_map(s.update(i, x)) == keyed_map(s).insert(x.key(), x),
{
    let t = s.update(i, x);
    assert forall|a: int, b: int| 0 <= a < t.len() && 0 <= b < t.len() && a != b implies #[trigger] t[a].key()
        != #[trigger] t[b].key() by {
        assert(t[a].key() == s[a].key() && t[b].key() == s[b].key());
    }
    assert forall|k: T::Key| has_key(t, k) == has_key(s, k) by {
        if has_key(s, k) {
            let j = choose|j: int| 0 <= j < s.len() && #[trigger] s[j].key() == k;
            assert(t[j].key() == s[j].key());
        }
        if has_key(t, k) {
            let j = choose|j: int| 0 <= j < t.len() && #[trigger] t[j].key() == k;
            assert(t[j].key() == s[j].key());
        }
    }
    lemma_keyed_at(s, i);
    assert forall|k: T::Key| #[trigger] keyed_map(t).contains_key(k) implies keyed_map(t)[k] == keyed_map(s).insert(
        x.key(),
        x,
    )[k] by {
        let j = choose|j: int| 0 <= j < t.len() && #[trigger] t[j].key() == k;
        lemma_keyed_at(t, j);
        if j != i {
            assert(t[j] == s[j]);
            lemma_keyed_at(s, j);
        }
    }
    assert(keyed_map(t) =~= keyed_map(s).insert(x.key(), x));
}

/// Removing an item removes its key from the map.
pub proof fn lemma_keyed_remove<T: Keyed>(s: Seq<T>, i: int)
    requires
        keys_distinct(s),
        0 <= i < s.len(),
    ensures
        keys_distinct(s.remove(i)),
        keyed_map(s.remove(i)) == keyed_map(s).remove(s[i].key()),
{
    let t = s.remove(i);
    let back = |k: int| if k < i { k } else { k + 1 };
    assert forall|k: int| 0 <= k < t.len() implies #[trigger] t[k] == s[back(k)] by {}
    assert forall|a: int, b: int| 0 <= a < t.len() && 0 <= b < t.len() && a != b implies #[trigger] t[a].key()
        != #[trigger] t[b].key() by {
        assert(t[a] == s[back(a)] && t[b] == s[back(b)]);
    }
    assert forall|k: T::Key| has_key(t, k) == (has_key(s, k) && k != s[i].key()) by {
        if has_key(s, k) && k != s[i].key() {
            let j = choose|j: int| 0 <= j < s.len() && #[trigger] s[j].key() == k;
            if j < i {
                assert(t[j] == s[j]);
            } else {
                assert(t[j - 1] == s[j]);
            }
        }
        if has_key(t, k) {
            let j = choose|j: int| 0 <= j < t.len() && #[trigger] t[j].key() == k;
            assert(t[j] == s[back(j)]);
        }
    }
    assert forall|k: T::Key| #[trigger] keyed_map(t).contains_key(k) implies keyed_map(t)[k] == keyed_map(s).remove(
        s[i].key(),
    )[k] by {
        let j = choose|j: int| 0 <= j < t.len() && #[trigger] t[j].key() == k;
        lemma_keyed_at(t, j);
        assert(t[j] == s[back(j)]);
        lemma_keyed_at(s, back(j));
    }
    assert(keyed_map(t) =~= keyed_map(s).remove(s[i].key()));
}

/// With distinct keys, the map has as many entries as the sequence items.
pub proof fn lemma_keyed_len<T: Keyed>(s: Seq<T>)
    requires
        keys_distinct(s),
    ensures
        keyed_map(s).dom().finite(),
        keyed_map(s).len() == s.len(),
{
    let keys = s.map_values(|x: T| x.key());
    assert(keys.no_duplicates()) by {
        assert forall|i: int, j: int| 0 <= i < keys.len() && 0 <= j < keys.len() && i != j implies keys[i]
            != keys[j] by {
            assert(s[i].key() != s[j].key());
        }
    }
    keys.unique_seq_to_set();
    assert forall|k: T::Key| #[trigger] keys.to_set().contains(k) == keyed_map(s).dom().contains(k) by {
        if has_key(s, k) {
            let i = choose|i: int| 0 <= i < s.len() && #[trigger] s[i].key() == k;
            assert(keys[i] == k);
        }
        if keys.contains(k) {
            let i = choose|i: int| 0 <= i < keys.len() && keys[i] == k;
            assert(s[i].key() == k);
        }
    }
    assert(keys.to_set() =~= keyed_map(s).dom());
}

} // verus!
