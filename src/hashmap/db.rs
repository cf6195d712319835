//! An engine that finds keys through a hash index.
//!
//! Entries sit in a dense `Vec` with pairwise distinct keys, in no particular
//! order. Beside it, an index of buckets lists, for each bucket, the places of
//! the entries whose key hashes to it; the index grows with the table so that
//! buckets stay short. It is the engine for plain caching and lookup, where no
//! sorted access is needed. Nothing is written to disk.

use vstd::prelude::*;

use crate::aymr_db::batch::{apply_ops, Batch, BatchOp};
use crate::aymr_db::error::Error;
use crate::aymr_db::traits::{
    bytes_of, lookup, AymrDatabase, AymrFlush, AymrOpenable, InlineArray,
};
use crate::bytes::{compare_keys, copy_bytes, KeyOrder};
use crate::hashing::{lemma_slot_bound, slot, slot_of};
use crate::table::{
    copy_table, entry_views, has_key, lemma_map_of_empty, lemma_map_of_index, lemma_map_of_insert,
    lemma_map_of_len, lemma_map_of_swap_remove, lemma_map_of_update, map_of, unique_keys,
};

verus! {

/// The number of buckets of a new index.
pub const INITIAL_BUCKETS: usize = 8;

/// Every place listed in bucket `b` holds an entry whose key belongs to `b`.
pub open spec fn index_sound(s: Seq<(Seq<u8>, Seq<u8>)>, ix: Seq<Seq<usize>>) -> bool {
    forall|b: int, p: usize|
        0 <= b < ix.len() && #[trigger] ix[b].contains(p) ==> p < s.len() && slot(
            s[p as int].0,
            ix.len(),
        ) == b
}

/// Every entry is listed in the bucket of its key.
pub open spec fn index_complete(s: Seq<(Seq<u8>, Seq<u8>)>, ix: Seq<Seq<usize>>) -> bool {
    forall|i: int| 0 <= i < s.len() ==> ix[slot(#[trigger] s[i].0, ix.len())].contains(i as usize)
}

/// An index of `s` with at least one bucket.
pub open spec fn index_of(s: Seq<(Seq<u8>, Seq<u8>)>, ix: Seq<Seq<usize>>) -> bool {
    &&& ix.len() > 0
    &&& index_sound(s, ix)
    &&& index_complete(s, ix)
}

/// The places each bucket lists.
pub open spec fn buckets_view(ix: Seq<Vec<usize>>) -> Seq<Seq<usize>> {
    ix.map_values(|b: Vec<usize>| b@)
}

/// An index of `entries` with `n` buckets.
fn build_index(entries: &Vec<(Vec<u8>, Vec<u8>)>, n: usize) -> (r: Vec<Vec<usize>>)
    requires
        n > 0,
    ensures
        r@.len() == n,
        index_of(entry_views(entries@), buckets_view(r@)),
{
    let ghost s = entry_views(entries@);
    let mut ix: Vec<Vec<usize>> = Vec::new();
    let mut b: usize = 0;
    while b < n
        invariant
            0 <= b <= n,
            ix@.len() == b,
            forall|c: int| 0 <= c < b ==> (#[trigger] ix@[c])@ == Seq::<usize>::empty(),
        decreases n - b,
    {
        ix.push(Vec::new());
        b = b + 1;
    }
    let mut i: usize = 0;
    while i < entries.len()
        invariant
            n > 0,
            s == entry_views(entries@),
            s.len() == entries@.len(),
            0 <= i <= s.len(),
            ix@.len() == n,
            forall|c: int, p: usize|
                0 <= c < n && #[trigger] buckets_view(ix@)[c].contains(p) ==> p < i && slot(
                    s[p as int].0,
                    n as nat,
                ) == c,
            forall|j: int|
                0 <= j < i ==> buckets_view(ix@)[slot(#[trigger] s[j].0, n as nat)].contains(
                    j as usize,
                ),
        decreases s.len() - i,
    {
        assert(s[i as int].0 == entries@[i as int].0@);
        let h = slot_of(entries[i].0.as_slice(), n);
        let ghost before = buckets_view(ix@);
        let mut bucket: Vec<usize> = Vec::new();
        ix.set_and_swap(h, &mut bucket);
        bucket.push(i);
        ix.set_and_swap(h, &mut bucket);
        proof {
            let after = buckets_view(ix@);
            assert(after[h as int] == before[h as int].push(i));
            assert forall|c: int| 0 <= c < n && c != h implies after[c] == before[c] by {}
            assert(after[h as int][before[h as int].len() as int] == i);
            assert forall|c: int, p: usize| 0 <= c < n && #[trigger] after[c].contains(p) implies p
                < i + 1 && slot(s[p as int].0, n as nat) == c by {
                if c == h as int {
                    if p != i {
                        let q = choose|q: int| 0 <= q < after[c].len() && after[c][q] == p;
                        assert(q < before[c].len());
                        assert(before[c][q] == p);
                        assert(before[c].contains(p));
                    }
                } else {
                    assert(before[c].contains(p));
                }
            }
            assert forall|j: int| 0 <= j < i + 1 implies after[slot(
                #[trigger] s[j].0,
                n as nat,
            )].contains(j as usize) by {
                let c = slot(s[j].0, n as nat);
                if j < i {
                    assert(before[c].contains(j as usize));
                    let q = choose|q: int| 0 <= q < before[c].len() && before[c][q] == j as usize;
                    assert(after[c][q] == j as usize);
                }
            }
        }
        i = i + 1;
    }
    ix
}

/// The places of `v` other than `x`.
fn without(v: &Vec<usize>, x: usize) -> (r: Vec<usize>)
    ensures
        forall|p: usize| r@.contains(p) <==> (v@.contains(p) && p != x),
{
    let mut r: Vec<usize> = Vec::new();
    let mut q: usize = 0;
    while q < v.len()
        invariant
            0 <= q <= v@.len(),
            forall|p: usize| r@.contains(p) <==> (v@.take(q as int).contains(p) && p != x),
        decreases v@.len() - q,
    {
        let ghost before = r@;
        let y = v[q];
        if y != x {
            r.push(y);
        }
        proof {
            assert(v@.take(q + 1) =~= v@.take(q as int).push(y));
            assert forall|p: usize| r@.contains(p) <==> (v@.take(q + 1).contains(p) && p != x) by {
                if r@.contains(p) && !before.contains(p) {
                    let t = choose|t: int| 0 <= t < r@.len() && r@[t] == p;
                    assert(t == before.len());
                    assert(v@.take(q + 1)[q as int] == y);
                }
                if before.contains(p) {
                    let t = choose|t: int| 0 <= t < before.len() && before[t] == p;
                    assert(r@[t] == p);
                }
                if v@.take(q + 1).contains(p) && p != x {
                    let t = choose|t: int| 0 <= t < q + 1 && #[trigger] v@.take(q + 1)[t] == p;
                    if t < q {
                        assert(v@.take(q as int)[t] == p);
                    } else {
                        assert(r@[r@.len() - 1] == p);
                    }
                }
                if v@.take(q as int).contains(p) {
                    let t = choose|t: int| 0 <= t < q && #[trigger] v@.take(q as int)[t] == p;
                    assert(v@.take(q + 1)[t] == p);
                }
            }
        }
        q = q + 1;
    }
    assert(v@.take(q as int) =~= v@);
    r
}

/// The places of `v`, with `from` written as `to`.
fn renamed(v: &Vec<usize>, from: usize, to: usize) -> (r: Vec<usize>)
    ensures
        forall|p: usize|
            r@.contains(p) <==> ((v@.contains(p) && p != from) || (p == to && v@.contains(from))),
{
    let mut r: Vec<usize> = Vec::new();
    let mut q: usize = 0;
    while q < v.len()
        invariant
            0 <= q <= v@.len(),
            forall|p: usize|
                r@.contains(p) <==> ((v@.take(q as int).contains(p) && p != from) || (p == to
                    && v@.take(q as int).contains(from))),
        decreases v@.len() - q,
    {
        let ghost before = r@;
        let y = v[q];
        let z = if y == from {
            to
        } else {
            y
        };
        r.push(z);
        proof {
            let tk = v@.take(q + 1);
            assert(tk =~= v@.take(q as int).push(y));
            assert forall|p: usize|
                r@.contains(p) <==> ((tk.contains(p) && p != from) || (p == to && tk.contains(
                    from,
                ))) by {
                if r@.contains(p) && !before.contains(p) {
                    let t = choose|t: int| 0 <= t < r@.len() && r@[t] == p;
                    assert(t == before.len());
                    assert(tk[q as int] == y);
                    if y == from {
                        assert(tk.contains(from));
                    } else {
                        assert(tk.contains(y));
                    }
                }
                if before.contains(p) {
                    let t = choose|t: int| 0 <= t < before.len() && before[t] == p;
                    assert(r@[t] == p);
                }
                if tk.contains(p) && p != from {
                    let t = choose|t: int| 0 <= t < q + 1 && #[trigger] tk[t] == p;
                    if t < q {
                        assert(v@.take(q as int)[t] == p);
                    } else {
                        assert(r@[r@.len() - 1] == p);
                    }
                }
                if p == to && tk.contains(from) {
                    let t = choose|t: int| 0 <= t < q + 1 && #[trigger] tk[t] == from;
                    if t < q {
                        assert(v@.take(q as int)[t] == from);
                    } else {
                        assert(r@[r@.len() - 1] == p);
                    }
                }
                if v@.take(q as int).contains(p) {
                    let t = choose|t: int| 0 <= t < q && #[trigger] v@.take(q as int)[t] == p;
                    assert(tk[t] == p);
                }
                if v@.take(q as int).contains(from) {
                    let t = choose|t: int| 0 <= t < q && #[trigger] v@.take(q as int)[t] == from;
                    assert(tk[t] == from);
                }
            }
        }
        q = q + 1;
    }
    assert(v@.take(q as int) =~= v@);
    r
}

/// An index stays an index when entries keep their keys.
proof fn lemma_index_same_keys(
    s: Seq<(Seq<u8>, Seq<u8>)>,
    t: Seq<(Seq<u8>, Seq<u8>)>,
    ix: Seq<Seq<usize>>,
)
    requires
        index_of(s, ix),
        s.len() == t.len(),
        forall|p: int| 0 <= p < s.len() ==> #[trigger] t[p].0 == s[p].0,
    ensures
        index_of(t, ix),
{
    assert forall|i: int| 0 <= i < t.len() implies ix[slot(
        #[trigger] t[i].0,
        ix.len(),
    )].contains(i as usize) by {
        assert(t[i].0 == s[i].0);
        assert(ix[slot(s[i].0, ix.len())].contains(i as usize));
    }
}

/// Adding an entry at the end and listing its place in the bucket of its key.
proof fn lemma_index_push(
    s: Seq<(Seq<u8>, Seq<u8>)>,
    ix: Seq<Seq<usize>>,
    e: (Seq<u8>, Seq<u8>),
    b: int,
)
    requires
        index_of(s, ix),
        b == slot(e.0, ix.len()),
        s.len() < usize::MAX,
    ensures
        index_of(s.push(e), ix.update(b, ix[b].push(s.len() as usize))),
{
    let t = s.push(e);
    let jx = ix.update(b, ix[b].push(s.len() as usize));
    let pos = s.len() as usize;
    lemma_slot_bound(e.0, ix.len());
    assert forall|c: int, p: usize| 0 <= c < jx.len() && #[trigger] jx[c].contains(p) implies p
        < t.len() && slot(t[p as int].0, jx.len()) == c by {
        if c == b && p == pos {
        } else {
            let q = choose|q: int| 0 <= q < jx[c].len() && jx[c][q] == p;
            if c == b {
                assert(q < ix[b].len());
                assert(ix[b][q] == p);
            }
            assert(ix[c].contains(p));
        }
    }
    assert forall|i: int| 0 <= i < t.len() implies jx[slot(
        #[trigger] t[i].0,
        jx.len(),
    )].contains(i as usize) by {
        let c = slot(t[i].0, jx.len());
        if i < s.len() {
            assert(t[i] == s[i]);
            assert(ix[c].contains(i as usize));
            let q = choose|q: int| 0 <= q < ix[c].len() && ix[c][q] == i as usize;
            assert(jx[c][q] == i as usize);
        } else {
            assert(jx[b][ix[b].len() as int] == pos);
        }
    }
}

/// Moving the last entry into place `i` and dropping the last place, with
/// every bucket forgetting `i` and listing `i` where it listed the last place.
proof fn lemma_index_swap_remove(
    s: Seq<(Seq<u8>, Seq<u8>)>,
    ix: Seq<Seq<usize>>,
    i: int,
    jx: Seq<Seq<usize>>,
)
    requires
        index_of(s, ix),
        0 <= i < s.len(),
        s.len() <= usize::MAX,
        jx.len() == ix.len(),
        forall|c: int, p: usize|
            0 <= c < ix.len() ==> (#[trigger] jx[c].contains(p) <==> ((ix[c].contains(p) && p != i
                && p != s.len() - 1) || (p == i && i != s.len() - 1 && ix[c].contains(
                (s.len() - 1) as usize,
            )))),
    ensures
        index_of(s.update(i, s.last()).drop_last(), jx),
{
    let t = s.update(i, s.last()).drop_last();
    let last = s.len() - 1;
    assert forall|k: Seq<u8>| 0 <= #[trigger] slot(k, ix.len()) < ix.len() by {
        lemma_slot_bound(k, ix.len());
    }
    assert forall|c: int, p: usize| 0 <= c < jx.len() && #[trigger] jx[c].contains(p) implies p
        < t.len() && slot(t[p as int].0, jx.len()) == c by {
        if p == i && i != last && ix[c].contains(last as usize) {
            assert(t[p as int] == s[last]);
        } else {
            assert(ix[c].contains(p));
            assert(t[p as int] == s[p as int]);
        }
    }
    assert forall|j: int| 0 <= j < t.len() implies jx[slot(
        #[trigger] t[j].0,
        jx.len(),
    )].contains(j as usize) by {
        if j == i {
            assert(t[j] == s[last]);
            assert(ix[slot(s[last].0, ix.len())].contains(last as usize));
            assert(jx[slot(s[last].0, ix.len())].contains(j as usize));
        } else {
            assert(t[j] == s[j]);
            let c = slot(s[j].0, ix.len());
            assert(ix[c].contains(j as usize));
            assert(jx[c].contains(j as usize));
        }
    }
}

/// An unordered in-memory store with a hash index.
#[derive(Debug)]
pub struct AymrHashMap {
    entries: Vec<(Vec<u8>, Vec<u8>)>,
    index: Vec<Vec<usize>>,
}

impl View for AymrHashMap {
    type V = Map<Seq<u8>, Seq<u8>>;

    closed spec fn view(&self) -> Map<Seq<u8>, Seq<u8>> {
        map_of(entry_views(self.entries@))
    }
}

impl AymrHashMap {
    /// The entries as byte strings, in storage order.
    pub closed spec fn table(&self) -> Seq<(Seq<u8>, Seq<u8>)> {
        entry_views(self.entries@)
    }

    /// The invariant: no key is stored twice, and the index lists every entry
    /// in the bucket of its key and nothing else.
    pub closed spec fn is_indexed(&self) -> bool {
        &&& unique_keys(self.table())
        &&& index_of(self.table(), buckets_view(self.index@))
    }

    proof fn lemma_wf(&self)
        requires
            self.is_indexed(),
        ensures
            unique_keys(self.table()),
            self@.dom().finite(),
            self@.len() == self.table().len(),
            self.table().len() == self.entries@.len(),
    {
        lemma_map_of_len(self.table());
    }

    /// The place of the entry holding `key`, if any.
    fn find(&self, key: &[u8]) -> (r: Option<usize>)
        requires
            self.is_indexed(),
        ensures
            r matches Some(i) ==> i < self.table().len() && self.table()[i as int].0 == key@,
            r is None ==> !has_key(self.table(), key@),
    {
        let ghost s = self.table();
        let ghost ix = buckets_view(self.index@);
        let b = slot_of(key, self.index.len());
        let bucket = &self.index[b];
        assert(bucket@ == ix[b as int]);
        let mut q: usize = 0;
        while q < bucket.len()
            invariant
                s == self.table(),
                ix == buckets_view(self.index@),
                index_of(s, ix),
                s.len() == self.entries@.len(),
                b as int == slot(key@, ix.len()),
                bucket@ == ix[b as int],
                0 <= b < ix.len(),
                0 <= q <= bucket@.len(),
                forall|r: int| 0 <= r < q ==> s[(#[trigger] bucket@[r]) as int].0 != key@,
            decreases bucket@.len() - q,
        {
            let p = bucket[q];
            assert(ix[b as int].contains(p));
            assert(s[p as int].0 == self.entries@[p as int].0@);
            if compare_keys(self.entries[p].0.as_slice(), key) == KeyOrder::Equal {
                return Some(p);
            }
            q = q + 1;
        }
        proof {
            if has_key(s, key@) {
                let i = choose|i: int| 0 <= i < s.len() && s[i].0 == key@;
                assert(ix[slot(s[i].0, ix.len())].contains(i as usize));
                assert(bucket@.contains(i as usize));
                let r = choose|r: int| 0 <= r < bucket@.len() && bucket@[r] == i as usize;
                assert(self.entries.len() == self.entries@.len());
                assert(bucket@[r] as int == i);
                assert(s[(bucket@[r]) as int].0 != key@);
            }
        }
        None
    }

    /// Lists place `pos` in bucket `b`.
    fn list_place(&mut self, b: usize, pos: usize)
        requires
            b < old(self).index@.len(),
        ensures
            final(self).entries == old(self).entries,
            final(self).index@.len() == old(self).index@.len(),
            buckets_view(final(self).index@) == buckets_view(old(self).index@).update(
                b as int,
                buckets_view(old(self).index@)[b as int].push(pos),
            ),
    {
        let ghost before = buckets_view(self.index@);
        let mut bucket: Vec<usize> = Vec::new();
        self.index.set_and_swap(b, &mut bucket);
        bucket.push(pos);
        self.index.set_and_swap(b, &mut bucket);
        assert(buckets_view(self.index@) =~= before.update(b as int, before[b as int].push(pos)));
    }

    /// Replaces bucket `b` by `bucket`.
    fn set_bucket(&mut self, b: usize, bucket: Vec<usize>)
        requires
            b < old(self).index@.len(),
        ensures
            final(self).entries == old(self).entries,
            final(self).index@.len() == old(self).index@.len(),
            buckets_view(final(self).index@) == buckets_view(old(self).index@).update(
                b as int,
                bucket@,
            ),
    {
        let ghost before = buckets_view(self.index@);
        let ghost nb = bucket@;
        let mut bucket = bucket;
        self.index.set_and_swap(b, &mut bucket);
        assert(buckets_view(self.index@) =~= before.update(b as int, nb));
    }

    /// Doubles the buckets once there are more than two entries per bucket.
    fn grow(&mut self)
        requires
            old(self).is_indexed(),
        ensures
            final(self).is_indexed(),
            final(self).entries == old(self).entries,
    {
        if self.entries.len() / 2 > self.index.len() {
            let n = self.index.len() * 2;
            self.index = build_index(&self.entries, n);
        }
    }

    /// Removes every entry.
    fn wipe(&mut self)
        ensures
            final(self).is_indexed(),
            final(self)@ == Map::<Seq<u8>, Seq<u8>>::empty(),
    {
        self.entries.clear();
        self.index = build_index(&self.entries, INITIAL_BUCKETS);
        proof {
            lemma_map_of_empty(self.table());
        }
    }

    /// Stores `value` under `key`, handing back the value it replaces.
    fn put(&mut self, key: InlineArray, value: InlineArray) -> (r: Option<InlineArray>)
        requires
            old(self).is_indexed(),
        ensures
            final(self).is_indexed(),
            bytes_of(r) == lookup(old(self)@, key@),
            final(self)@ == old(self)@.insert(key@, value@),
    {
        let ghost s = self.table();
        let ghost ix = buckets_view(self.index@);
        match self.find(key.as_slice()) {
            Some(i) => {
                proof {
                    lemma_map_of_index(s, i as int);
                    lemma_map_of_update(s, i as int, value@);
                }
                let mut entry = (key, value);
                self.entries.set_and_swap(i, &mut entry);
                proof {
                    let t = s.update(i as int, (s[i as int].0, value@));
                    assert(self.table() =~= t);
                    lemma_index_same_keys(s, t, ix);
                }
                Some(entry.1)
            },
            None => {
                let ghost k = key@;
                let ghost v = value@;
                let pos = self.entries.len();
                let b = slot_of(key.as_slice(), self.index.len());
                proof {
                    lemma_map_of_insert(s, s.len() as int, k, v);
                }
                self.entries.push((key, value));
                proof {
                    assert(self.entries@.len() == s.len() + 1);
                    assert(self.entries.len() <= usize::MAX);
                    assert(self.table() =~= s.push((k, v)));
                    assert(s.push((k, v)) =~= s.insert(s.len() as int, (k, v)));
                    lemma_index_push(s, ix, (k, v), b as int);
                }
                self.list_place(b, pos);
                self.grow();
                None
            },
        }
    }

    /// Takes the entry under `key` out, handing back its value.
    fn take(&mut self, key: &[u8]) -> (r: Option<InlineArray>)
        requires
            old(self).is_indexed(),
        ensures
            final(self).is_indexed(),
            bytes_of(r) == lookup(old(self)@, key@),
            final(self)@ == old(self)@.remove(key@),
    {
        let ghost s = self.table();
        let ghost ix = buckets_view(self.index@);
        match self.find(key) {
            Some(i) => {
                proof {
                    lemma_map_of_index(s, i as int);
                    lemma_map_of_swap_remove(s, i as int);
                }
                let last = self.entries.len() - 1;
                let b = slot_of(key, self.index.len());
                proof {
                    assert(self.entries.len() == self.entries@.len());
                }
                let (_, v) = self.entries.swap_remove(i);
                assert(self.index@[b as int]@ == ix[b as int]);
                let nb = without(&self.index[b], i);
                let ghost nbv = nb@;
                self.set_bucket(b, nb);
                let ghost ix1 = buckets_view(self.index@);
                assert(ix1 == ix.update(b as int, nbv));
                if i != last {
                    assert(s[last as int].0 == self.entries@[i as int].0@);
                    let b2 = slot_of(self.entries[i].0.as_slice(), self.index.len());
                    assert(self.index@[b2 as int]@ == ix1[b2 as int]);
                    let nb2 = renamed(&self.index[b2], last, i);
                    let ghost nb2v = nb2@;
                    self.set_bucket(b2, nb2);
                    proof {
                        let jx = buckets_view(self.index@);
                        assert(jx == ix1.update(b2 as int, nb2v));
                        assert forall|c: int, p: usize| 0 <= c < ix.len() implies (
                        #[trigger] jx[c].contains(p) <==> ((ix[c].contains(p) && p != i && p
                            != last) || (p == i && ix[c].contains(last)))) by {
                            if ix[c].contains(i) {
                                assert(c == b);
                            }
                            if ix[c].contains(last) {
                                assert(c == b2);
                            }
                            if c == b2 && b2 == b {
                                assert(jx[c] == nb2v);
                                assert(ix1[c] == nbv);
                            } else if c == b2 {
                                assert(jx[c] == nb2v);
                                assert(ix1[c] == ix[c]);
                            } else if c == b {
                                assert(jx[c] == nbv);
                            } else {
                                assert(jx[c] == ix[c]);
                            }
                        }
                    }
                } else {
                    proof {
                        let jx = buckets_view(self.index@);
                        assert forall|c: int, p: usize| 0 <= c < ix.len() implies (
                        #[trigger] jx[c].contains(p) <==> (ix[c].contains(p) && p != i && p
                            != last)) by {
                            if ix[c].contains(i) {
                                assert(c == b);
                            }
                            if c == b {
                                assert(jx[c] == nbv);
                            } else {
                                assert(jx[c] == ix[c]);
                            }
                        }
                    }
                }
                proof {
                    assert(self.table() =~= s.update(i as int, s.last()).drop_last());
                    lemma_index_swap_remove(s, ix, i as int, buckets_view(self.index@));
                }
                Some(v)
            },
            None => {
                proof {
                    assert(self@.remove(key@) =~= self@);
                }
                None
            },
        }
    }

    /// Replays `ops` in staging order.
    fn replay(&mut self, ops: &Vec<BatchOp>)
        requires
            old(self).is_indexed(),
        ensures
            final(self).is_indexed(),
            final(self)@ == apply_ops(old(self)@, ops@),
    {
        let ghost start = self@;
        let mut i: usize = 0;
        while i < ops.len()
            invariant
                self.is_indexed(),
                0 <= i <= ops@.len(),
                self@ == apply_ops(start, ops@.take(i as int)),
            decreases ops@.len() - i,
        {
            match &ops[i] {
                BatchOp::Clear => self.wipe(),
                BatchOp::Insert(k, v) => {
                    self.put(copy_bytes(k), copy_bytes(v));
                },
                BatchOp::Remove(k) => {
                    self.take(k.as_slice());
                },
            }
            assert(ops@.take(i + 1).drop_last() =~= ops@.take(i as int));
            i = i + 1;
        }
        assert(ops@.take(i as int) =~= ops@);
    }
}

impl AymrDatabase for AymrHashMap {
    closed spec fn wf(&self) -> bool {
        self.is_indexed()
    }

    open spec fn infallible() -> bool {
        true
    }

    fn clear(&mut self) -> (r: Result<(), Error>) {
        self.wipe();
        Ok(())
    }

    fn len(&self) -> (r: usize) {
        proof {
            self.lemma_wf();
        }
        self.entries.len()
    }

    fn is_empty(&self) -> (r: Result<bool, Error>) {
        proof {
            self.lemma_wf();
        }
        Ok(self.entries.len() == 0)
    }

    fn get(&self, key: &InlineArray) -> (r: Result<Option<InlineArray>, Error>) {
        match self.find(key.as_slice()) {
            Some(i) => {
                proof {
                    lemma_map_of_index(self.table(), i as int);
                }
                Ok(Some(copy_bytes(&self.entries[i].1)))
            },
            None => Ok(None),
        }
    }

    fn insert(&mut self, key: InlineArray, value: InlineArray) -> (r: Result<
        Option<InlineArray>,
        Error,
    >) {
        Ok(self.put(key, value))
    }

    fn remove(&mut self, key: InlineArray) -> (r: Result<Option<InlineArray>, Error>) {
        Ok(self.take(key.as_slice()))
    }

    /// Replays the batch on a copy of the store and puts the copy in place
    /// only once every operation has been applied.
    fn apply_batch<B: Batch>(&mut self, batch: B) -> (r: Result<(), Error>) {
        let entries = copy_table(&self.entries);
        let index = build_index(&entries, self.index.len());
        let mut staged = AymrHashMap { entries, index };
        proof {
            assert(staged.table() == self.table());
        }
        staged.replay(batch.ops());
        *self = staged;
        Ok(())
    }

    fn contains_key(&self, key: &InlineArray) -> (r: Result<bool, Error>) {
        match self.find(key.as_slice()) {
            Some(i) => {
                proof {
                    lemma_map_of_index(self.table(), i as int);
                }
                Ok(true)
            },
            None => Ok(false),
        }
    }
}

impl AymrOpenable for AymrHashMap {
    fn open() -> (r: AymrHashMap) {
        let entries: Vec<(Vec<u8>, Vec<u8>)> = Vec::new();
        let index = build_index(&entries, INITIAL_BUCKETS);
        let r = AymrHashMap { entries, index };
        proof {
            lemma_map_of_empty(r.table());
        }
        r
    }
}

impl AymrFlush for AymrHashMap {
    /// Nothing is buffered: there is nothing to write out.
    fn flush(&self) -> (r: Result<(), Error>) {
        Ok(())
    }
}

} // verus!
