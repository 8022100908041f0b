//! Small string-keyed tables held as vectors of `(key, value)` pairs with
//! no key twice, viewed as maps.

use vstd::prelude::*;
use vstd::string::StringExecFns;

verus! {

/// No key occurs twice in `s`.
pub open spec fn keys_distinct<V>(s: Seq<(Seq<char>, V)>) -> bool {
    forall|i: int, j: int| 0 <= i < j < s.len() ==> #[trigger] s[i].0 != #[trigger] s[j].0
}

/// `k` is the key of some pair of `s`.
pub open spec fn has_key<V>(s: Seq<(Seq<char>, V)>, k: Seq<char>) -> bool {
    exists|i: int| 0 <= i < s.len() && #[trigger] s[i].0 == k
}

/// The position of key `k` in `s` (meaningful when `has_key(s, k)`).
pub open spec fn key_index<V>(s: Seq<(Seq<char>, V)>, k: Seq<char>) -> int {
    choose|i: int| 0 <= i < s.len() && #[trigger] s[i].0 == k
}

/// The table `s` as a map from keys to values.
pub open spec fn as_map<V>(s: Seq<(Seq<char>, V)>) -> Map<Seq<char>, V> {
    Map::new(|k: Seq<char>| has_key(s, k), |k: Seq<char>| s[key_index(s, k)].1)
}

/// The pair at position `i` is what the map gives for its key.
pub proof fn lemma_as_map_at<V>(s: Seq<(Seq<char>, V)>, i: int)
    requires
        keys_distinct(s),
        0 <= i < s.len(),
    ensures
        key_index(s, s[i].0) == i,
        as_map(s).contains_key(s[i].0),
        as_map(s)[s[i].0] == s[i].1,
{
    assert(has_key(s, s[i].0));
    let j = key_index(s, s[i].0);
    if j < i {
        assert(s[j].0 != s[i].0);
    }
    if i < j {
        assert(s[i].0 != s[j].0);
    }
}

/// Replacing the value at position `i` updates the map at its key.
pub proof fn lemma_as_map_update<V>(s: Seq<(Seq<char>, V)>, i: int, v: V)
    requires
        keys_distinct(s),
        0 <= i < s.len(),
    ensures
        keys_distinct(s.update(i, (s[i].0, v))),
        as_map(s.update(i, (s[i].0, v))) == as_map(s).insert(s[i].0, v),
{
    let t = s.update(i, (s[i].0, v));
    assert(keys_distinct(t)) by {
        assert forall|a: int, b: int| 0 <= a < b < t.len() implies #[trigger] t[a].0
            != #[trigger] t[b].0 by {
            assert(s[a].0 != s[b].0);
        }
    }
    assert forall|k: Seq<char>| has_key(t, k) == has_key(s, k) by {
        if has_key(s, k) {
            let j = key_index(s, k);
            assert(t[j].0 == k);
        }
        if has_key(t, k) {
            let j = key_index(t, k);
            assert(s[j].0 == k);
        }
    }
    assert forall|k: Seq<char>| #[trigger] has_key(t, k) implies as_map(t)[k] == as_map(
        s,
    ).insert(s[i].0, v)[k] by {
        let j = key_index(t, k);
        lemma_as_map_at(t, j);
        lemma_as_map_at(s, j);
    }
    assert(as_map(t) =~= as_map(s).insert(s[i].0, v));
}

/// Appending a pair with a new key inserts it into the map.
pub proof fn lemma_as_map_push<V>(s: Seq<(Seq<char>, V)>, k: Seq<char>, v: V)
    requires
        keys_distinct(s),
        !has_key(s, k),
    ensures
        keys_distinct(s.push((k, v))),
        as_map(s.push((k, v))) == as_map(s).insert(k, v),
{
    let t = s.push((k, v));
    assert(keys_distinct(t)) by {
        assert forall|a: int, b: int| 0 <= a < b < t.len() implies #[trigger] t[a].0
            != #[trigger] t[b].0 by {
            if b == s.len() {
                assert(s[a].0 != k);
            } else {
                assert(s[a].0 != s[b].0);
            }
        }
    }
    assert forall|q: Seq<char>| has_key(t, q) == (has_key(s, q) || q == k) by {
        if has_key(s, q) {
            let j = key_index(s, q);
            assert(t[j].0 == q);
        }
        if q == k {
            assert(t[s.len() as int].0 == k);
        }
        if has_key(t, q) && q != k {
            let j = key_index(t, q);
            assert(s[j].0 == q);
        }
    }
    assert forall|q: Seq<char>| #[trigger] has_key(t, q) implies as_map(t)[q] == as_map(s).insert(
        k,
        v,
    )[q] by {
        let j = key_index(t, q);
        lemma_as_map_at(t, j);
        if j < s.len() {
            lemma_as_map_at(s, j);
        }
    }
    assert(as_map(t) =~= as_map(s).insert(k, v));
}

/// Removing the pair at position `i` removes its key from the map.
pub proof fn lemma_as_map_remove<V>(s: Seq<(Seq<char>, V)>, i: int)
    requires
        keys_distinct(s),
        0 <= i < s.len(),
    ensures
        keys_distinct(s.remove(i)),
        as_map(s.remove(i)) == as_map(s).remove(s[i].0),
{
    let t = s.remove(i);
    assert(keys_distinct(t)) by {
        assert forall|a: int, b: int| 0 <= a < b < t.len() implies #[trigger] t[a].0
            != #[trigger] t[b].0 by {
            let a1 = if a < i {
                a
            } else {
                a + 1
            };
            let b1 = if b < i {
                b
            } else {
                b + 1
            };
            assert(t[a] == s[a1] && t[b] == s[b1]);
            assert(s[a1].0 != s[b1].0);
        }
    }
    assert forall|q: Seq<char>| has_key(t, q) == (has_key(s, q) && q != s[i].0) by {
        if has_key(s, q) && q != s[i].0 {
            let j = key_index(s, q);
            if j < i {
                assert(t[j].0 == q);
            } else {
                assert(t[j - 1].0 == q);
            }
        }
        if has_key(t, q) {
            let j = key_index(t, q);
            let j1 = if j < i {
                j
            } else {
                j + 1
            };
            assert(s[j1].0 == q);
            assert(s[j1].0 != s[i].0);
        }
    }
    assert forall|q: Seq<char>| #[trigger] has_key(t, q) implies as_map(t)[q] == as_map(s).remove(
        s[i].0,
    )[q] by {
        let j = key_index(t, q);
        lemma_as_map_at(t, j);
        let j1 = if j < i {
            j
        } else {
            j + 1
        };
        assert(t[j] == s[j1]);
        lemma_as_map_at(s, j1);
    }
    assert(as_map(t) =~= as_map(s).remove(s[i].0));
}

/// The position of `key` in `table`, if it is there.
pub fn find_key<V>(table: &Vec<(String, V)>, key: &str) -> (r: Option<usize>)
    ensures
        match r {
            Some(i) => i < table.len() && table@[i as int].0@ == key@,
            None => forall|i: int| 0 <= i < table.len() ==> (#[trigger] table@[i]).0@ != key@,
        },
{
    let k = String::from_str(key);
    let mut i: usize = 0;
    while i < table.len()
        invariant
            i <= table.len(),
            k@ == key@,
            forall|j: int| 0 <= j < i ==> (#[trigger] table@[j]).0@ != key@,
        decreases table.len() - i,
    {
        if table[i].0 == k {
            return Some(i);
        }
        i = i + 1;
    }
    None
}

} // verus!
