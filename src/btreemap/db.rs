//! An engine that keeps its entries sorted by key.
//!
//! Entries sit in a `Vec` in strictly increasing byte-wise lexicographic order
//! of their keys, so lookups are binary searches. It is the engine to pick when
//! reads dominate and sorted access matters. Nothing is written to disk.

use vstd::prelude::*;

use crate::aymr_db::batch::{apply_ops, Batch, BatchOp};
use crate::aymr_db::error::Error;
use crate::aymr_db::traits::{
    bytes_of, lookup, AymrDatabase, AymrFlush, AymrOpenable, InlineArray,
};
use crate::bytes::{
    compare_keys, copy_bytes, lemma_lex_irreflexive, lemma_lex_transitive, lex_lt, KeyOrder,
};
use crate::table::{
    copy_table, entry_views, has_key, lemma_map_of_empty, lemma_map_of_index, lemma_map_of_insert,
    lemma_map_of_len, lemma_map_of_remove, lemma_map_of_update, map_of, unique_keys,
};

verus! {

/// Keys in strictly increasing order.
pub open spec fn sorted_keys(s: Seq<(Seq<u8>, Seq<u8>)>) -> bool {
    forall|i: int, j: int| 0 <= i < j < s.len() ==> lex_lt(#[trigger] s[i].0, #[trigger] s[j].0)
}

/// Sorted keys are distinct.
proof fn lemma_sorted_unique(s: Seq<(Seq<u8>, Seq<u8>)>)
    requires
        sorted_keys(s),
    ensures
        unique_keys(s),
{
    assert forall|i: int, j: int| 0 <= i < s.len() && 0 <= j < s.len() && i != j implies s[i].0
        != s[j].0 by {
        if s[i].0 == s[j].0 {
            lemma_lex_irreflexive(s[i].0);
        }
    }
}

/// An ordered in-memory store.
#[derive(Debug)]
pub struct AymrBtreeMap {
    entries: Vec<(Vec<u8>, Vec<u8>)>,
}

impl View for AymrBtreeMap {
    type V = Map<Seq<u8>, Seq<u8>>;

    closed spec fn view(&self) -> Map<Seq<u8>, Seq<u8>> {
        map_of(entry_views(self.entries@))
    }
}

impl AymrBtreeMap {
    /// The entries as byte strings, in key order.
    pub closed spec fn table(&self) -> Seq<(Seq<u8>, Seq<u8>)> {
        entry_views(self.entries@)
    }

    /// Locates `key`: `Ok(i)` when entry `i` holds it, else `Err(i)` with `i`
    /// the place where it would be inserted to keep the order.
    fn find(&self, key: &[u8]) -> (r: Result<usize, usize>)
        requires
            sorted_keys(self.table()),
        ensures
            r matches Ok(i) ==> i < self.table().len() && self.table()[i as int].0 == key@,
            r matches Err(i) ==> i <= self.table().len() && !has_key(self.table(), key@) && (
            forall|j: int| 0 <= j < i ==> lex_lt(#[trigger] self.table()[j].0, key@)) && (
            forall|j: int| i <= j < self.table().len() ==> lex_lt(key@, #[trigger] self.table()[j].0)),
    {
        let ghost s = self.table();
        let mut lo: usize = 0;
        let mut hi: usize = self.entries.len();
        while lo < hi
            invariant
                s == self.table(),
                sorted_keys(s),
                0 <= lo <= hi <= s.len(),
                s.len() == self.entries@.len(),
                forall|j: int| 0 <= j < lo ==> lex_lt(#[trigger] s[j].0, key@),
                forall|j: int| hi <= j < s.len() ==> lex_lt(key@, #[trigger] s[j].0),
            decreases hi - lo,
        {
            let mid = lo + (hi - lo) / 2;
            assert(s[mid as int].0 == self.entries@[mid as int].0@);
            match compare_keys(self.entries[mid].0.as_slice(), key) {
                KeyOrder::Equal => {
                    return Ok(mid);
                },
                KeyOrder::Less => {
                    assert forall|j: int| 0 <= j < mid + 1 implies lex_lt(#[trigger] s[j].0, key@) by {
                        if j < mid {
                            lemma_lex_transitive(s[j].0, s[mid as int].0, key@);
                        }
                    }
                    lo = mid + 1;
                },
                KeyOrder::Greater => {
                    assert forall|j: int| mid <= j < s.len() implies lex_lt(key@, #[trigger] s[j].0) by {
                        if j > mid {
                            lemma_lex_transitive(key@, s[mid as int].0, s[j].0);
                        }
                    }
                    hi = mid;
                },
            }
        }
        assert(!has_key(s, key@)) by {
            if has_key(s, key@) {
                let j = choose|j: int| 0 <= j < s.len() && s[j].0 == key@;
                lemma_lex_irreflexive(key@);
                if j < lo {
                } else {
                }
            }
        }
        Err(lo)
    }

    /// The invariant: keys strictly increasing.
    pub closed spec fn is_sorted(&self) -> bool {
        sorted_keys(self.table())
    }

    proof fn lemma_wf(&self)
        requires
            self.is_sorted(),
        ensures
            unique_keys(self.table()),
            self@.dom().finite(),
            self@.len() == self.table().len(),
            self.table().len() == self.entries@.len(),
    {
        lemma_sorted_unique(self.table());
        lemma_map_of_len(self.table());
    }

    /// Removes every entry.
    fn wipe(&mut self)
        ensures
            final(self).is_sorted(),
            final(self)@ == Map::<Seq<u8>, Seq<u8>>::empty(),
    {
        self.entries.clear();
        proof {
            lemma_map_of_empty(self.table());
        }
    }

    /// Stores `value` under `key`, handing back the value it replaces.
    fn put(&mut self, key: InlineArray, value: InlineArray) -> (r: Option<InlineArray>)
        requires
            old(self).is_sorted(),
        ensures
            final(self).is_sorted(),
            bytes_of(r) == lookup(old(self)@, key@),
            final(self)@ == old(self)@.insert(key@, value@),
    {
        proof {
            self.lemma_wf();
        }
        match self.find(key.as_slice()) {
            Ok(i) => {
                let ghost s = self.table();
                proof {
                    lemma_map_of_index(s, i as int);
                    lemma_map_of_update(s, i as int, value@);
                }
                let mut entry = (key, value);
                self.entries.set_and_swap(i, &mut entry);
                proof {
                    assert(self.table() =~= s.update(i as int, (s[i as int].0, value@)));
                }
                Some(entry.1)
            },
            Err(i) => {
                let ghost s = self.table();
                let ghost k = key@;
                let ghost v = value@;
                proof {
                    lemma_map_of_insert(s, i as int, k, v);
                }
                self.entries.insert(i, (key, value));
                proof {
                    let t = self.table();
                    assert(t =~= s.insert(i as int, (k, v)));
                    assert forall|a: int, b: int| 0 <= a < b < t.len() implies lex_lt(
                        #[trigger] t[a].0,
                        #[trigger] t[b].0,
                    ) by {
                        if b < i {
                        } else if a > i {
                            assert(t[a] == s[a - 1]);
                            assert(t[b] == s[b - 1]);
                        } else if a == i {
                            assert(t[b] == s[b - 1]);
                        } else if b == i {
                        } else {
                            assert(t[b] == s[b - 1]);
                            lemma_lex_transitive(t[a].0, k, t[b].0);
                        }
                    }
                }
                None
            },
        }
    }

    /// Takes the entry under `key` out, handing back its value.
    fn take(&mut self, key: &[u8]) -> (r: Option<InlineArray>)
        requires
            old(self).is_sorted(),
        ensures
            final(self).is_sorted(),
            bytes_of(r) == lookup(old(self)@, key@),
            final(self)@ == old(self)@.remove(key@),
    {
        proof {
            self.lemma_wf();
        }
        match self.find(key) {
            Ok(i) => {
                let ghost s = self.table();
                proof {
                    lemma_map_of_index(s, i as int);
                    lemma_map_of_remove(s, i as int);
                }
                let (_, v) = self.entries.remove(i);
                proof {
                    let t = self.table();
                    assert(t =~= s.remove(i as int));
                    assert forall|a: int, b: int| 0 <= a < b < t.len() implies lex_lt(
                        #[trigger] t[a].0,
                        #[trigger] t[b].0,
                    ) by {
                        let sa = if a < i { a } else { a + 1 };
                        let sb = if b < i { b } else { b + 1 };
                        assert(t[a] == s[sa]);
                        assert(t[b] == s[sb]);
                    }
                }
                Some(v)
            },
            Err(_) => {
                proof {
                    assert(self@.remove(key@) =~= self@);
                }
                None
            },
        }
    }

    /// Replays `ops` in staging order.
    fn replay(&mut self, ops: &Vec<BatchOp>)
        requires
            old(self).is_sorted(),
        ensures
            final(self).is_sorted(),
            final(self)@ == apply_ops(old(self)@, ops@),
    {
        let ghost start = self@;
        let mut i: usize = 0;
        while i < ops.len()
            invariant
                self.is_sorted(),
                0 <= i <= ops@.len(),
                self@ == apply_ops(start, ops@.take(i as int)),
            decreases ops@.len() - i,
        {
            match &ops[i] {
                BatchOp::Clear => self.wipe(),
                BatchOp::Insert(k, v) => {
                    self.put(copy_bytes(k), copy_bytes(v));
                },
                BatchOp::Remove(k) => {
                    self.take(k.as_slice());
                },
            }
            assert(ops@.take(i + 1).drop_last() =~= ops@.take(i as int));
            i = i + 1;
        }
        assert(ops@.take(i as int) =~= ops@);
    }
}

impl AymrDatabase for AymrBtreeMap {
    closed spec fn wf(&self) -> bool {
        self.is_sorted()
    }

    open spec fn infallible() -> bool {
        true
    }

    fn clear(&mut self) -> (r: Result<(), Error>) {
        self.wipe();
        Ok(())
    }

    fn len(&self) -> (r: usize) {
        proof {
            self.lemma_wf();
        }
        self.entries.len()
    }

    fn is_empty(&self) -> (r: Result<bool, Error>) {
        proof {
            self.lemma_wf();
        }
        Ok(self.entries.len() == 0)
    }

    fn get(&self, key: &InlineArray) -> (r: Result<Option<InlineArray>, Error>) {
        proof {
            self.lemma_wf();
        }
        match self.find(key.as_slice()) {
            Ok(i) => {
                proof {
                    lemma_map_of_index(self.table(), i as int);
                }
                Ok(Some(copy_bytes(&self.entries[i].1)))
            },
            Err(_) => Ok(None),
        }
    }

    fn insert(&mut self, key: InlineArray, value: InlineArray) -> (r: Result<
        Option<InlineArray>,
        Error,
    >) {
        Ok(self.put(key, value))
    }

    fn remove(&mut self, key: InlineArray) -> (r: Result<Option<InlineArray>, Error>) {
        Ok(self.take(key.as_slice()))
    }

    /// Replays the batch on a copy of the entries and puts the copy in place
    /// only once every operation has been applied.
    fn apply_batch<B: Batch>(&mut self, batch: B) -> (r: Result<(), Error>) {
        let mut staged = AymrBtreeMap { entries: copy_table(&self.entries) };
        proof {
            assert(staged.table() == self.table());
        }
        staged.replay(batch.ops());
        *self = staged;
        Ok(())
    }

    fn contains_key(&self, key: &InlineArray) -> (r: Result<bool, Error>) {
        proof {
            self.lemma_wf();
        }
        match self.find(key.as_slice()) {
            Ok(i) => {
                proof {
                    lemma_map_of_index(self.table(), i as int);
                }
                Ok(true)
            },
            Err(_) => Ok(false),
        }
    }
}

impl AymrOpenable for AymrBtreeMap {
    fn open() -> (r: AymrBtreeMap) {
        let r = AymrBtreeMap { entries: Vec::new() };
        proof {
            lemma_map_of_empty(r.table());
        }
        r
    }
}

impl AymrFlush for AymrBtreeMap {
    /// Nothing is buffered: there is nothing to write out.
    fn flush(&self) -> (r: Result<(), Error>) {
        Ok(())
    }
}

} // verus!
