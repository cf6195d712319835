//! Tables of entries and the map they denote.
//!
//! Both engines keep their entries in a `Vec` of key/value pairs whose keys are
//! pairwise distinct. This module says which map such a table stands for and
//! how the map changes when one entry is replaced, added or taken out.

use vstd::prelude::*;

use crate::bytes::copy_bytes;

verus! {

/// The key and value bytes of each entry of a table.
pub open spec fn entry_views(v: Seq<(Vec<u8>, Vec<u8>)>) -> Seq<(Seq<u8>, Seq<u8>)> {
    v.map_values(|e: (Vec<u8>, Vec<u8>)| (e.0@, e.1@))
}

/// No key occurs twice.
pub open spec fn unique_keys(s: Seq<(Seq<u8>, Seq<u8>)>) -> bool {
    forall|i: int, j: int| 0 <= i < s.len() && 0 <= j < s.len() && i != j ==> s[i].0 != s[j].0
}

/// `k` is the key of some entry.
pub open spec fn has_key(s: Seq<(Seq<u8>, Seq<u8>)>, k: Seq<u8>) -> bool {
    exists|i: int| 0 <= i < s.len() && s[i].0 == k
}

/// The map from each key of the table to the value stored with it.
pub open spec fn map_of(s: Seq<(Seq<u8>, Seq<u8>)>) -> Map<Seq<u8>, Seq<u8>> {
    Map::new(
        |k: Seq<u8>| has_key(s, k),
        |k: Seq<u8>| s[choose|i: int| 0 <= i < s.len() && s[i].0 == k].1,
    )
}

/// The keys of the table, in table order.
pub open spec fn keys_of(s: Seq<(Seq<u8>, Seq<u8>)>) -> Seq<Seq<u8>> {
    s.map_values(|e: (Seq<u8>, Seq<u8>)| e.0)
}

/// Each entry is found in the map under its key.
pub proof fn lemma_map_of_index(s: Seq<(Seq<u8>, Seq<u8>)>, i: int)
    requires
        unique_keys(s),
        0 <= i < s.len(),
    ensures
        map_of(s).dom().contains(s[i].0),
        map_of(s)[s[i].0] == s[i].1,
{
    assert(has_key(s, s[i].0));
}

/// The empty table denotes the empty map.
pub proof fn lemma_map_of_empty(s: Seq<(Seq<u8>, Seq<u8>)>)
    requires
        s.len() == 0,
    ensures
        map_of(s) == Map::<Seq<u8>, Seq<u8>>::empty(),
{
    assert(map_of(s) =~= Map::<Seq<u8>, Seq<u8>>::empty());
}

/// The map has one key per entry.
pub proof fn lemma_map_of_len(s: Seq<(Seq<u8>, Seq<u8>)>)
    requires
        unique_keys(s),
    ensures
        map_of(s).dom().finite(),
        map_of(s).len() == s.len(),
{
    let ks = keys_of(s);
    assert forall|i: int, j: int| 0 <= i < ks.len() && 0 <= j < ks.len() && i != j implies ks[i]
        != ks[j] by {}
    assert(ks.no_duplicates());
    assert forall|k: Seq<u8>| map_of(s).dom().contains(k) <==> ks.to_set().contains(k) by {
        if map_of(s).dom().contains(k) {
            let i = choose|i: int| 0 <= i < s.len() && s[i].0 == k;
            assert(ks[i] == k);
        }
        if ks.to_set().contains(k) {
            let i = choose|i: int| 0 <= i < ks.len() && ks[i] == k;
            assert(has_key(s, k));
        }
    }
    assert(map_of(s).dom() =~= ks.to_set());
    ks.unique_seq_to_set();
    vstd::seq_lib::seq_to_set_is_finite(ks);
}

/// Putting a new value at the place of an existing key.
pub proof fn lemma_map_of_update(s: Seq<(Seq<u8>, Seq<u8>)>, i: int, v: Seq<u8>)
    requires
        unique_keys(s),
        0 <= i < s.len(),
    ensures
        unique_keys(s.update(i, (s[i].0, v))),
        map_of(s.update(i, (s[i].0, v))) == map_of(s).insert(s[i].0, v),
{
    let t = s.update(i, (s[i].0, v));
    assert(unique_keys(t));
    assert forall|k: Seq<u8>| has_key(t, k) <==> has_key(s, k) by {
        if has_key(t, k) {
            let j = choose|j: int| 0 <= j < t.len() && t[j].0 == k;
            assert(s[j].0 == k);
        }
        if has_key(s, k) {
            let j = choose|j: int| 0 <= j < s.len() && s[j].0 == k;
            assert(t[j].0 == k);
        }
    }
    assert forall|k: Seq<u8>| #[trigger] map_of(t).dom().contains(k) implies map_of(t)[k] == map_of(
        s,
    ).insert(s[i].0, v)[k] by {
        let j = choose|j: int| 0 <= j < t.len() && t[j].0 == k;
        lemma_map_of_index(t, j);
        lemma_map_of_index(s, j);
    }
    assert(map_of(t) =~= map_of(s).insert(s[i].0, v));
}

/// Adding an entry whose key is not in the table yet, at any place.
pub proof fn lemma_map_of_insert(s: Seq<(Seq<u8>, Seq<u8>)>, i: int, k: Seq<u8>, v: Seq<u8>)
    requires
        unique_keys(s),
        0 <= i <= s.len(),
        !has_key(s, k),
    ensures
        unique_keys(s.insert(i, (k, v))),
        map_of(s.insert(i, (k, v))) == map_of(s).insert(k, v),
{
    let t = s.insert(i, (k, v));
    assert forall|a: int, b: int| 0 <= a < t.len() && 0 <= b < t.len() && a != b implies t[a].0
        != t[b].0 by {
        if a != i && b != i {
            let sa = if a < i { a } else { a - 1 };
            let sb = if b < i { b } else { b - 1 };
            assert(t[a] == s[sa]);
            assert(t[b] == s[sb]);
        } else if a == i {
            let sb = if b < i { b } else { b - 1 };
            assert(t[b] == s[sb]);
        } else {
            let sa = if a < i { a } else { a - 1 };
            assert(t[a] == s[sa]);
        }
    }
    assert forall|key: Seq<u8>| has_key(t, key) <==> (has_key(s, key) || key == k) by {
        if has_key(t, key) {
            let j = choose|j: int| 0 <= j < t.len() && t[j].0 == key;
            if j < i {
                assert(s[j].0 == key);
            } else if j > i {
                assert(s[j - 1].0 == key);
            }
        }
        if has_key(s, key) {
            let j = choose|j: int| 0 <= j < s.len() && s[j].0 == key;
            if j < i {
                assert(t[j].0 == key);
            } else {
                assert(t[j + 1].0 == key);
            }
        }
        if key == k {
            assert(t[i].0 == key);
        }
    }
    assert forall|key: Seq<u8>| #[trigger] map_of(t).dom().contains(key) implies map_of(t)[key]
        == map_of(s).insert(k, v)[key] by {
        let j = choose|j: int| 0 <= j < t.len() && t[j].0 == key;
        lemma_map_of_index(t, j);
        if j < i {
            lemma_map_of_index(s, j);
        } else if j > i {
            lemma_map_of_index(s, j - 1);
        }
    }
    assert(map_of(t) =~= map_of(s).insert(k, v));
}

/// Taking the entry at place `i` out of the table.
pub proof fn lemma_map_of_remove(s: Seq<(Seq<u8>, Seq<u8>)>, i: int)
    requires
        unique_keys(s),
        0 <= i < s.len(),
    ensures
        unique_keys(s.remove(i)),
        map_of(s.remove(i)) == map_of(s).remove(s[i].0),
{
    let t = s.remove(i);
    let k = s[i].0;
    assert forall|a: int, b: int| 0 <= a < t.len() && 0 <= b < t.len() && a != b implies t[a].0
        != t[b].0 by {
        let sa = if a < i { a } else { a + 1 };
        let sb = if b < i { b } else { b + 1 };
        assert(t[a] == s[sa]);
        assert(t[b] == s[sb]);
    }
    assert forall|key: Seq<u8>| has_key(t, key) <==> (has_key(s, key) && key != k) by {
        if has_key(t, key) {
            let j = choose|j: int| 0 <= j < t.len() && t[j].0 == key;
            let sj = if j < i { j } else { j + 1 };
            assert(s[sj].0 == key);
        }
        if has_key(s, key) && key != k {
            let j = choose|j: int| 0 <= j < s.len() && s[j].0 == key;
            if j < i {
                assert(t[j].0 == key);
            } else {
                assert(t[j - 1].0 == key);
            }
        }
    }
    assert forall|key: Seq<u8>| #[trigger] map_of(t).dom().contains(key) implies map_of(t)[key]
        == map_of(s).remove(k)[key] by {
        let j = choose|j: int| 0 <= j < t.len() && t[j].0 == key;
        lemma_map_of_index(t, j);
        if j < i {
            lemma_map_of_index(s, j);
        } else {
            lemma_map_of_index(s, j + 1);
        }
    }
    assert(map_of(t) =~= map_of(s).remove(k));
}

/// Moving the last entry into place `i`, then dropping the last place.
pub proof fn lemma_map_of_swap_remove(s: Seq<(Seq<u8>, Seq<u8>)>, i: int)
    requires
        unique_keys(s),
        0 <= i < s.len(),
    ensures
        unique_keys(s.update(i, s.last()).drop_last()),
        map_of(s.update(i, s.last()).drop_last()) == map_of(s).remove(s[i].0),
{
    let last = s.len() - 1;
    if i == last {
        assert(s.update(i, s.last()).drop_last() =~= s.remove(i));
        lemma_map_of_remove(s, i);
    } else {
        let t = s.update(i, s.last()).drop_last();
        let k = s[i].0;
        assert forall|j: int| 0 <= j < t.len() implies #[trigger] t[j] == s[if j == i {
            last
        } else {
            j
        }] by {}
        assert forall|a: int, b: int| 0 <= a < t.len() && 0 <= b < t.len() && a != b implies t[a].0
            != t[b].0 by {
            let sa = if a == i { last } else { a };
            let sb = if b == i { last } else { b };
            assert(t[a] == s[sa]);
            assert(t[b] == s[sb]);
        }
        assert forall|key: Seq<u8>| has_key(t, key) <==> (has_key(s, key) && key != k) by {
            if has_key(t, key) {
                let j = choose|j: int| 0 <= j < t.len() && t[j].0 == key;
                let sj = if j == i { last } else { j };
                assert(t[j] == s[sj]);
            }
            if has_key(s, key) && key != k {
                let j = choose|j: int| 0 <= j < s.len() && s[j].0 == key;
                if j == last {
                    assert(t[i].0 == key);
                } else {
                    assert(t[j].0 == key);
                }
            }
        }
        assert forall|key: Seq<u8>| #[trigger] map_of(t).dom().contains(key) implies map_of(t)[key]
            == map_of(s).remove(k)[key] by {
            let j = choose|j: int| 0 <= j < t.len() && t[j].0 == key;
            lemma_map_of_index(t, j);
            if j == i {
                lemma_map_of_index(s, last);
            } else {
                lemma_map_of_index(s, j);
            }
        }
        assert(map_of(t) =~= map_of(s).remove(k));
    }
}

/// A copy of a table, entry by entry, sharing no buffer with it.
pub fn copy_table(t: &Vec<(Vec<u8>, Vec<u8>)>) -> (r: Vec<(Vec<u8>, Vec<u8>)>)
    ensures
        entry_views(r@) == entry_views(t@),
{
    let mut r: Vec<(Vec<u8>, Vec<u8>)> = Vec::new();
    let mut i: usize = 0;
    while i < t.len()
        invariant
            0 <= i <= t@.len(),
            entry_views(r@) == entry_views(t@).take(i as int),
        decreases t@.len() - i,
    {
        let k = copy_bytes(&t[i].0);
        let v = copy_bytes(&t[i].1);
        let ghost before = r@;
        r.push((k, v));
        proof {
            assert(r@ == before.push((k, v)));
            assert(entry_views(t@).take(i as int).len() == i);
            assert(before.len() == i);
            assert forall|j: int| 0 <= j < i + 1 implies #[trigger] entry_views(r@)[j]
                == entry_views(t@)[j] by {
                if j < i {
                    assert(entry_views(r@)[j] == entry_views(before)[j]);
                }
            }
            assert(entry_views(r@) =~= entry_views(t@).take(i + 1));
        }
        i = i + 1;
    }
    assert(entry_views(t@).take(i as int) =~= entry_views(t@));
    r
}

} // verus!
