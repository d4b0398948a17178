//! The unindexed baseline store.

use vstd::prelude::*;

verus! {

use crate::util::in_range;
use crate::{matched_payloads, pos_bounded, InsertError, SpatialPartitioner, RADIUS_LIMIT};

/// Unindexed linear store of all entries: every query scans everything. It is
/// the correctness oracle the indexed structures are measured against.
pub struct List<Data: Copy> {
    data: Vec<((i64, i64), Data)>,
}

impl<Data: Copy> List<Data> {
    /// An empty list. A list has no domain: every position is accepted.
    pub fn new() -> (result: List<Data>)
        ensures
            result.inv(),
            result.indexed(),
            result.entries() == Seq::<((i64, i64), Data)>::empty(),
    {
        List { data: Vec::new() }
    }
}

impl<Data: Copy> Default for List<Data> {
    fn default() -> (result: Self)
        ensures
            result.inv(),
            result.indexed(),
            result.entries() == Seq::<((i64, i64), Data)>::empty(),
    {
        Self::new()
    }
}

impl<Data: Copy> SpatialPartitioner<Data> for List<Data> {
    // a list is built with no parameters at all
    type Params = ();

    open spec fn params(&self) -> () {
        ()
    }

    closed spec fn entries(&self) -> Seq<((i64, i64), Data)> {
        self.data@
    }

    closed spec fn inv(&self) -> bool {
        forall|i: int|
            0 <= i < self.data@.len() ==> pos_bounded(#[trigger] self.data@[i].0)
    }

    open spec fn indexed(&self) -> bool {
        true
    }

    open spec fn in_domain(&self, position: (i64, i64)) -> bool {
        true
    }

    fn insert(&mut self, position: (i64, i64), data: Data) -> (result: Result<(), InsertError>) {
        self.insert_unchecked(position, data);
        Ok(())
    }

    fn insert_unchecked(&mut self, position: (i64, i64), data: Data) {
        proof {
            self.data@.to_multiset_ensures();
        }
        self.data.push((position, data));
    }

    fn count(&self) -> (result: usize) {
        self.data.len()
    }

    fn clear(&mut self) {
        self.data = Vec::new();
    }

    fn in_circle(&self, position: (i64, i64), radius: i64) -> (result: Vec<Data>) {
        let mut found: Vec<Data> = Vec::new();
        let mut i: usize = 0;
        while i < self.data.len()
            invariant
                self.inv(),
                pos_bounded(position),
                0 <= radius <= RADIUS_LIMIT,
                i <= self.data.len(),
                found@ == matched_payloads(self.data@.take(i as int), position, radius),
            decreases self.data.len() - i,
        {
            let e = self.data[i];
            if in_range(e.0, position, radius) {
                found.push(e.1);
            }
            proof {
                assert(self.data@.take(i + 1).drop_last() =~= self.data@.take(i as int));
                assert(self.data@.take(i + 1).last() == self.data@[i as int]);
            }
            i = i + 1;
        }
        proof {
            assert(self.data@.take(self.data@.len() as int) =~= self.data@);
        }
        found
    }
}

} // verus!
