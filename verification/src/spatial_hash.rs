//! The count-driven bucket-hash variant of the uniform grid.

use vstd::prelude::*;

verus! {

use crate::grid::Grid;
use crate::{InsertError, SpatialPartitioner, AXIS_CELL_LIMIT, COORD_LIMIT};

/// Bucket index over a half-open rectangular domain, constructed from per-axis
/// cell counts given as `u32`. It buckets entries exactly as [`Grid`] does and
/// shares its verified implementation; only the constructor differs.
pub struct SpatialHash<Data: Copy> {
    grid: Grid<Data>,
}

impl<Data: Copy> SpatialHash<Data> {
    /// A bucket index over `[x.0, x.1) x [y.0, y.1)` with
    /// `x_count x y_count` cells, empty.
    pub fn new(x: (i64, i64), y: (i64, i64), x_count: u32, y_count: u32) -> (result: SpatialHash<
        Data,
    >)
        requires
            -COORD_LIMIT <= x.0 < x.1 <= COORD_LIMIT,
            -COORD_LIMIT <= y.0 < y.1 <= COORD_LIMIT,
            1 <= x_count <= AXIS_CELL_LIMIT as u32,
            1 <= y_count <= AXIS_CELL_LIMIT as u32,
        ensures
            result.inv(),
            result.indexed(),
            result.entries() == Seq::<((i64, i64), Data)>::empty(),
            result.params() == (x, y, (x_count as usize, y_count as usize)),
            forall|p: (i64, i64)| #[trigger]
                result.in_domain(p) <==> (x.0 <= p.0 < x.1 && y.0 <= p.1 < y.1),
    {
        SpatialHash { grid: Grid::new(x, y, (x_count as usize, y_count as usize)) }
    }
}

impl<Data: Copy> SpatialPartitioner<Data> for SpatialHash<Data> {
    // the domain ranges and the per-axis cell counts, as the inner grid holds them
    type Params = ((i64, i64), (i64, i64), (usize, usize));

    closed spec fn params(&self) -> ((i64, i64), (i64, i64), (usize, usize)) {
        self.grid.params()
    }

    closed spec fn entries(&self) -> Seq<((i64, i64), Data)> {
        self.grid.entries()
    }

    closed spec fn inv(&self) -> bool {
        self.grid.inv()
    }

    closed spec fn indexed(&self) -> bool {
        self.grid.indexed()
    }

    closed spec fn in_domain(&self, position: (i64, i64)) -> bool {
        self.grid.in_domain(position)
    }

    fn insert(&mut self, position: (i64, i64), data: Data) -> (result: Result<(), InsertError>) {
        self.grid.insert(position, data)
    }

    fn insert_unchecked(&mut self, position: (i64, i64), data: Data) {
        self.grid.insert_unchecked(position, data)
    }

    fn count(&self) -> (result: usize) {
        self.grid.count()
    }

    fn clear(&mut self) {
        self.grid.clear()
    }

    fn in_circle(&self, position: (i64, i64), radius: i64) -> (result: Vec<Data>) {
        self.grid.in_circle(position, radius)
    }
}

} // verus!
