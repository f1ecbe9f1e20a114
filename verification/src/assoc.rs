//! Entry lists with pairwise distinct keys, and the maps that they stand for.
//!
//! The executable maps of this crate keep their entries in a vector. The
//! functions here give such a list its meaning as a `Map` and say what
//! appending an entry and replacing a value do to it.

use vstd::prelude::*;

verus! {

/// Whether some entry of `s` has key `k`.
pub open spec fn assoc_has<K, V>(s: Seq<(K, V)>, k: K) -> bool {
    exists|i: int| 0 <= i < s.len() && (#[trigger] s[i]).0 == k
}

/// Whether no two entries of `s` share a key.
pub open spec fn assoc_distinct<K, V>(s: Seq<(K, V)>) -> bool {
    forall|i: int, j: int| 0 <= i < j < s.len() ==> (#[trigger] s[i]).0 != (#[trigger] s[j]).0
}

/// The map that an entry list stands for.
pub open spec fn assoc_map<K, V>(s: Seq<(K, V)>) -> Map<K, V> {
    Map::new(
        |k: K| assoc_has(s, k),
        |k: K| s[choose|i: int| 0 <= i < s.len() && (#[trigger] s[i]).0 == k].1,
    )
}

/// Each entry of a list with distinct keys is what the map holds for its key.
pub proof fn lemma_assoc_at<K, V>(s: Seq<(K, V)>, i: int)
    requires
        assoc_distinct(s),
        0 <= i < s.len(),
    ensures
        assoc_map(s).dom().contains(s[i].0),
        assoc_map(s)[s[i].0] == s[i].1,
{
    let k = s[i].0;
    assert(assoc_has(s, k));
    let j = choose|j: int| 0 <= j < s.len() && (#[trigger] s[j]).0 == k;
    assert(j == i);
}

/// Appending an entry with a fresh key inserts it into the map.
pub proof fn lemma_assoc_push<K, V>(s: Seq<(K, V)>, k: K, v: V)
    requires
        assoc_distinct(s),
        !assoc_has(s, k),
    ensures
        assoc_distinct(s.push((k, v))),
        assoc_map(s.push((k, v))) == assoc_map(s).insert(k, v),
{
    let t = s.push((k, v));
    assert forall|i: int, j: int| 0 <= i < j < t.len() implies (#[trigger] t[i]).0 != (#[trigger] t[j]).0 by {
        if j == s.len() {
            assert(t[i] == s[i]);
        } else {
            assert(t[i] == s[i] && t[j] == s[j]);
        }
    }
    assert forall|q: K| assoc_map(t).dom().contains(q) <==> assoc_map(s).insert(k, v).dom().contains(
        q,
    ) by {
        if assoc_has(t, q) {
            let i = choose|i: int| 0 <= i < t.len() && (#[trigger] t[i]).0 == q;
            if i < s.len() {
                assert(s[i].0 == q);
            }
        }
        if assoc_has(s, q) {
            let i = choose|i: int| 0 <= i < s.len() && (#[trigger] s[i]).0 == q;
            assert(t[i].0 == q);
        }
        if q == k {
            assert(t[s.len() as int].0 == q);
        }
    }
    assert forall|q: K| assoc_map(t).dom().contains(q) implies assoc_map(t)[q] == assoc_map(s).insert(
        k,
        v,
    )[q] by {
        let i = choose|i: int| 0 <= i < t.len() && (#[trigger] t[i]).0 == q;
        lemma_assoc_at(t, i);
        if i < s.len() {
            assert(t[i] == s[i]);
            lemma_assoc_at(s, i);
        }
    }
    assert(assoc_map(t) =~= assoc_map(s).insert(k, v));
}

/// Replacing the value of the entry at `i` replaces it in the map.
pub proof fn lemma_assoc_update<K, V>(s: Seq<(K, V)>, i: int, v: V)
    requires
        assoc_distinct(s),
        0 <= i < s.len(),
    ensures
        assoc_distinct(s.update(i, (s[i].0, v))),
        assoc_map(s.update(i, (s[i].0, v))) == assoc_map(s).insert(s[i].0, v),
{
    let k = s[i].0;
    let t = s.update(i, (k, v));
    assert forall|a: int, b: int| 0 <= a < b < t.len() implies (#[trigger] t[a]).0 != (#[trigger] t[b]).0 by {
        assert(t[a].0 == s[a].0 && t[b].0 == s[b].0);
    }
    assert forall|q: K| assoc_map(t).dom().contains(q) <==> assoc_map(s).insert(k, v).dom().contains(
        q,
    ) by {
        if assoc_has(t, q) {
            let j = choose|j: int| 0 <= j < t.len() && (#[trigger] t[j]).0 == q;
            assert(s[j].0 == q);
        }
        if assoc_has(s, q) {
            let j = choose|j: int| 0 <= j < s.len() && (#[trigger] s[j]).0 == q;
            assert(t[j].0 == q);
        }
        if q == k {
            assert(t[i].0 == q);
        }
    }
    assert forall|q: K| assoc_map(t).dom().contains(q) implies assoc_map(t)[q] == assoc_map(s).insert(
        k,
        v,
    )[q] by {
        let j = choose|j: int| 0 <= j < t.len() && (#[trigger] t[j]).0 == q;
        lemma_assoc_at(t, j);
        if j != i {
            assert(t[j] == s[j]);
            lemma_assoc_at(s, j);
        }
    }
    assert(assoc_map(t) =~= assoc_map(s).insert(k, v));
}

/// A list with distinct keys stands for a finite map with one key per entry.
pub proof fn lemma_assoc_len<K, V>(s: Seq<(K, V)>)
    requires
        assoc_distinct(s),
    ensures
        assoc_map(s).dom().finite(),
        assoc_map(s).dom().len() == s.len(),
    decreases s.len(),
{
    if s.len() == 0 {
        assert(assoc_map(s).dom() =~= Set::<K>::empty());
    } else {
        let r = s.drop_last();
        let last = s.last();
        assert forall|i: int, j: int| 0 <= i < j < r.len() implies (#[trigger] r[i]).0 != (#[trigger] r[j]).0 by {
            assert(r[i] == s[i] && r[j] == s[j]);
        }
        lemma_assoc_len(r);
        if assoc_has(r, last.0) {
            let i = choose|i: int| 0 <= i < r.len() && (#[trigger] r[i]).0 == last.0;
            assert(s[i] == r[i]);
            assert(s[s.len() - 1] == last);
        }
        lemma_assoc_push(r, last.0, last.1);
        assert(r.push((last.0, last.1)) == s);
        assert(assoc_map(s).dom() == assoc_map(r).dom().insert(last.0));
    }
}

} // verus!
