//! Batches: ordered logs of staged mutations.

use vstd::prelude::*;

use crate::aymr_db::traits::InlineArray;

verus! {

/// One staged mutation.
#[derive(Debug)]
pub enum BatchOp {
    /// Remove every entry.
    Clear,
    /// Insert or overwrite one entry.
    Insert(InlineArray, InlineArray),
    /// Remove one entry, if present.
    Remove(InlineArray),
}

/// The map after one staged mutation.
pub open spec fn apply_op(m: Map<Seq<u8>, Seq<u8>>, op: BatchOp) -> Map<Seq<u8>, Seq<u8>> {
    match op {
        BatchOp::Clear => Map::empty(),
        BatchOp::Insert(k, v) => m.insert(k@, v@),
        BatchOp::Remove(k) => m.remove(k@),
    }
}

/// The map after a log of staged mutations, replayed in order.
pub open spec fn apply_ops(m: Map<Seq<u8>, Seq<u8>>, ops: Seq<BatchOp>) -> Map<Seq<u8>, Seq<u8>>
    decreases ops.len(),
{
    if ops.len() == 0 {
        m
    } else {
        apply_op(apply_ops(m, ops.drop_last()), ops.last())
    }
}

/// A buildable sequence of staged mutations; its view is the log in staging order.
pub trait Batch: View<V = Seq<BatchOp>> + Sized {
    /// Adds a clear operation to the batch.
    fn clear(&mut self)
        ensures
            final(self)@ == old(self)@.push(BatchOp::Clear),
    ;

    /// Adds an insert operation to the batch.
    fn insert(&mut self, key: InlineArray, value: InlineArray)
        ensures
            final(self)@ == old(self)@.push(BatchOp::Insert(key, value)),
    ;

    /// Adds a remove operation to the batch.
    fn remove(&mut self, key: InlineArray)
        ensures
            final(self)@ == old(self)@.push(BatchOp::Remove(key)),
    ;

    /// The staged operations, in staging order.
    fn ops(&self) -> (r: &Vec<BatchOp>)
        ensures
            r@ == self@,
    ;
}

/// A batch that owns its staged data until it is applied.
#[derive(Debug)]
pub struct WriteBatch {
    ops: Vec<BatchOp>,
}

impl View for WriteBatch {
    type V = Seq<BatchOp>;

    closed spec fn view(&self) -> Seq<BatchOp> {
        self.ops@
    }
}

impl WriteBatch {
    /// An empty batch.
    pub fn new() -> (r: WriteBatch)
        ensures
            r@ == Seq::<BatchOp>::empty(),
    {
        WriteBatch { ops: Vec::new() }
    }

    /// The number of staged operations.
    pub fn len(&self) -> (r: usize)
        ensures
            r == self@.len(),
    {
        self.ops.len()
    }
}

impl Batch for WriteBatch {
    fn clear(&mut self) {
        self.ops.push(BatchOp::Clear);
    }

    fn insert(&mut self, key: InlineArray, value: InlineArray) {
        self.ops.push(BatchOp::Insert(key, value));
    }

    fn remove(&mut self, key: InlineArray) {
        self.ops.push(BatchOp::Remove(key));
    }

    fn ops(&self) -> &Vec<BatchOp> {
        &self.ops
    }
}

} // verus!
