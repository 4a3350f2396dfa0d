//! A batch of writes to the durable store, committed by the caller in one
//! atomic step.

use vstd::prelude::*;

verus! {

/// One staged write.
#[derive(Clone, Debug, PartialEq, Eq)]
pub enum DBOp {
    Insert { key: Vec<u8>, value: Vec<u8> },
    Delete { key: Vec<u8> },
}

/// What a staged write does, over plain byte sequences.
pub ghost enum StoreOp {
    Put(Seq<u8>, Seq<u8>),
    Del(Seq<u8>),
}

impl DBOp {
    pub open spec fn view(&self) -> StoreOp {
        match self {
            DBOp::Insert { key, value } => StoreOp::Put(key@, value@),
            DBOp::Delete { key } => StoreOp::Del(key@),
        }
    }
}

/// Writes staged in order; a later write to a key wins over an earlier one.
#[derive(Clone, Debug, PartialEq, Eq)]
pub struct DBTransaction {
    pub ops: Vec<DBOp>,
}

impl DBTransaction {
    pub open spec fn view(&self) -> Seq<StoreOp> {
        self.ops@.map_values(|o: DBOp| o@)
    }

    pub fn new() -> (r: DBTransaction)
        ensures
            r@ == Seq::<StoreOp>::empty(),
    {
        DBTransaction { ops: Vec::new() }
    }

    /// Stages a write of `value` under `key`.
    pub fn put(&mut self, key: Vec<u8>, value: Vec<u8>)
        ensures
            final(self)@ == old(self)@.push(StoreOp::Put(key@, value@)),
    {
        self.ops.push(DBOp::Insert { key, value });
        assert(self@ =~= old(self)@.push(StoreOp::Put(key@, value@)));
    }

    /// Stages the deletion of `key`.
    pub fn delete(&mut self, key: Vec<u8>)
        ensures
            final(self)@ == old(self)@.push(StoreOp::Del(key@)),
    {
        self.ops.push(DBOp::Delete { key });
        assert(self@ =~= old(self)@.push(StoreOp::Del(key@)));
    }
}

} // verus!
