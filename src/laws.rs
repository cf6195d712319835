//! Laws of the store contract.
//!
//! Every engine's contract describes its operations over one model: a finite
//! map from key bytes to value bytes, read through `lookup` and changed by
//! `insert`, `remove`, emptying, and `apply_ops` for batches. The laws below
//! are stated over that model, so they hold of every engine and of the facade.

use vstd::prelude::*;

use crate::aymr_db::batch::{apply_ops, BatchOp};
use crate::aymr_db::traits::lookup;

verus! {

/// Inserting `v` under `k` and then reading `k` gives `v` back.
pub proof fn law_insert_then_get(m: Map<Seq<u8>, Seq<u8>>, k: Seq<u8>, v: Seq<u8>)
    ensures
        lookup(m.insert(k, v), k) == Some(v),
{
}

/// A second insert under the same key hands back the first value, and a read
/// afterwards gives the second.
pub proof fn law_overwrite(m: Map<Seq<u8>, Seq<u8>>, k: Seq<u8>, v1: Seq<u8>, v2: Seq<u8>)
    ensures
        lookup(m.insert(k, v1), k) == Some(v1),
        lookup(m.insert(k, v1).insert(k, v2), k) == Some(v2),
{
}

/// Removing a key that is absent hands back nothing and keeps the count.
pub proof fn law_remove_absent(m: Map<Seq<u8>, Seq<u8>>, k: Seq<u8>)
    requires
        m.dom().finite(),
        !m.dom().contains(k),
    ensures
        lookup(m, k) == None::<Seq<u8>>,
        m.remove(k).len() == m.len(),
{
    assert(m.remove(k) =~= m);
}

/// Removing a key that is present hands back its value, leaves nothing under
/// it, and lowers the count by exactly one.
pub proof fn law_remove_present(m: Map<Seq<u8>, Seq<u8>>, k: Seq<u8>)
    requires
        m.dom().finite(),
        m.dom().contains(k),
    ensures
        lookup(m, k) == Some(m[k]),
        lookup(m.remove(k), k) == None::<Seq<u8>>,
        m.remove(k).len() == m.len() - 1,
{
}

/// Whatever the store held, after clearing it counts no entry and is empty.
pub proof fn law_clear_empties(m: Map<Seq<u8>, Seq<u8>>)
    ensures
        apply_ops(m, seq![BatchOp::Clear]).dom().finite(),
        apply_ops(m, seq![BatchOp::Clear]).len() == 0,
        apply_ops(m, seq![BatchOp::Clear]) == Map::<Seq<u8>, Seq<u8>>::empty(),
{
    assert(seq![BatchOp::Clear].drop_last() =~= Seq::<BatchOp>::empty());
}

/// A key is contained exactly when a read of it finds a value.
pub proof fn law_contains_iff_get(m: Map<Seq<u8>, Seq<u8>>, k: Seq<u8>)
    ensures
        m.dom().contains(k) == (lookup(m, k) is Some),
{
}

/// Staged operations apply in order, the last one on a key winning: a batch
/// that inserts `k1`, removes `k1`, then inserts `k2`, applied to an empty
/// store, leaves exactly `k2` with its value.
pub proof fn law_batch_in_staged_order(
    ops: Seq<BatchOp>,
    k1: Seq<u8>,
    v1: Seq<u8>,
    k2: Seq<u8>,
    v2: Seq<u8>,
)
    requires
        ops.len() == 3,
        ops[0] matches BatchOp::Insert(k, v) && k@ == k1 && v@ == v1,
        ops[1] matches BatchOp::Remove(k) && k@ == k1,
        ops[2] matches BatchOp::Insert(k, v) && k@ == k2 && v@ == v2,
    ensures
        apply_ops(Map::empty(), ops) == Map::<Seq<u8>, Seq<u8>>::empty().insert(k2, v2),
        apply_ops(Map::empty(), ops).len() == 1,
{
    let e = Map::<Seq<u8>, Seq<u8>>::empty();
    let s1 = ops.take(1);
    let s2 = ops.take(2);
    assert(s1.drop_last() =~= Seq::<BatchOp>::empty());
    assert(s2.drop_last() =~= s1);
    assert(ops.drop_last() =~= s2);
    assert(apply_ops(e, s1.drop_last()) == e);
    assert(apply_ops(e, s1) == e.insert(k1, v1));
    assert(apply_ops(e, s2) == e.insert(k1, v1).remove(k1));
    assert(e.insert(k1, v1).remove(k1) =~= e);
    assert(e.insert(k2, v2).dom() =~= set![k2]);
}

} // verus!
