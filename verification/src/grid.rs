//! The uniform bucket grid.

use vstd::prelude::*;

verus! {

use vstd::multiset::Multiset;

use crate::laws::{
    lemma_matched_all, lemma_matched_concat_all, lemma_matched_none, lemma_to_multiset_concat,
    sum_matched,
};
use crate::util::{
    in_range, lemma_abs_mul_bound, lemma_dist_component_bound, lemma_div_diff_bound,
    lemma_floor_bounds, lemma_floor_neg, lemma_interval_square_max, lemma_mul_pos_le,
    lemma_row_major_unique,
};
use crate::{
    concat_seqs, in_radius, matched_payloads, payloads_of, pos_bounded, InsertError,
    SpatialPartitioner, AXIS_CELL_LIMIT, COORD_LIMIT, RADIUS_LIMIT,
};

broadcast use vstd::multiset::group_multiset_axioms;

/// A grid cell's index kept within one axis: clamped to `[0, n)`.
pub open spec fn clamped_cell(v: int, n: int) -> int {
    if v < 0 {
        0
    } else if v > n - 1 {
        n - 1
    } else {
        v
    }
}

/// Uniform bucket grid over a half-open rectangular domain
/// `[x.0, x.1) x [y.0, y.1)`, partitioned into `cell_count.0 x cell_count.1`
/// equal cells. Entries are bucketed by the cell containing their position.
pub struct Grid<Data: Copy> {
    cells: Vec<Vec<((i64, i64), Data)>>,
    cell_count: (usize, usize),
    x: (i64, i64),
    y: (i64, i64),
    count: usize,
}

impl<Data: Copy> Grid<Data> {
    /// The domain's half-open x-range.
    pub open spec fn domain_x(&self) -> (i64, i64) {
        self.params().0
    }

    /// The domain's half-open y-range.
    pub open spec fn domain_y(&self) -> (i64, i64) {
        self.params().1
    }

    /// Number of cell columns.
    pub open spec fn nx(&self) -> int {
        (self.params().2).0 as int
    }

    /// Number of cell rows.
    pub open spec fn ny(&self) -> int {
        (self.params().2).1 as int
    }

    /// Domain width.
    pub open spec fn width(&self) -> int {
        self.domain_x().1 - self.domain_x().0
    }

    /// Domain height.
    pub open spec fn height(&self) -> int {
        self.domain_y().1 - self.domain_y().0
    }

    /// The entries bucketed in cell `(cx, cy)`.
    pub closed spec fn cell_entries(&self, cx: int, cy: int) -> Seq<((i64, i64), Data)> {
        self.cells@[cx + cy * self.nx()]@
    }

    /// The cell column containing an x-coordinate: `floor((px - x.0) * nx / width)`,
    /// the exact-rational form of `floor((px - x.0) / cell_size_x)`.
    pub open spec fn cell_x_of(&self, px: int) -> int {
        (px - self.domain_x().0) * self.nx() / self.width()
    }

    /// The cell row containing a y-coordinate.
    pub open spec fn cell_y_of(&self, py: int) -> int {
        (py - self.domain_y().0) * self.ny() / self.height()
    }

    /// Where an entry at `p` belongs: linear cell index `cx + cy * nx`.
    pub open spec fn cell_index_of(&self, p: (i64, i64)) -> int {
        self.cell_x_of(p.0 as int) + self.cell_y_of(p.1 as int) * self.nx()
    }

    /// The sequence of cell contents, linear (row-major) order.
    pub closed spec fn cell_views(&self) -> Seq<Seq<((i64, i64), Data)>> {
        self.cells@.map_values(|cell: Vec<((i64, i64), Data)>| cell@)
    }
}

impl<Data: Copy> SpatialPartitioner<Data> for Grid<Data> {
    // the domain ranges and the per-axis cell counts
    type Params = ((i64, i64), (i64, i64), (usize, usize));

    closed spec fn params(&self) -> ((i64, i64), (i64, i64), (usize, usize)) {
        (self.x, self.y, self.cell_count)
    }

    closed spec fn entries(&self) -> Seq<((i64, i64), Data)> {
        concat_seqs(self.cell_views())
    }

    closed spec fn inv(&self) -> bool {
        &&& 1 <= self.cell_count.0 <= AXIS_CELL_LIMIT
        &&& 1 <= self.cell_count.1 <= AXIS_CELL_LIMIT
        &&& self.cells@.len() == self.nx() * self.ny()
        &&& -COORD_LIMIT <= self.x.0 < self.x.1 <= COORD_LIMIT
        &&& -COORD_LIMIT <= self.y.0 < self.y.1 <= COORD_LIMIT
        &&& self.count == self.entries().len()
        &&& forall|ci: int, k: int|
            0 <= ci < self.cells@.len() && 0 <= k < self.cells@[ci]@.len() ==> pos_bounded(
                (#[trigger] self.cells@[ci]@[k]).0,
            )
    }

    closed spec fn indexed(&self) -> bool {
        forall|ci: int, k: int|
            0 <= ci < self.cells@.len() && 0 <= k < self.cells@[ci]@.len() ==> {
                let p = (#[trigger] self.cells@[ci]@[k]).0;
                self.in_domain(p) && self.cell_index_of(p) == ci
            }
    }

    closed spec fn in_domain(&self, position: (i64, i64)) -> bool {
        self.x.0 <= position.0 < self.x.1 && self.y.0 <= position.1 < self.y.1
    }

    fn insert(&mut self, position: (i64, i64), data: Data) -> (result: Result<(), InsertError>) {
        if position.0 < self.x.0 || position.0 >= self.x.1 || position.1 < self.y.0
            || position.1 >= self.y.1 {
            Err(InsertError::OutOfBounds)
        } else {
            self.insert_unchecked(position, data);
            Ok(())
        }
    }

    fn insert_unchecked(&mut self, position: (i64, i64), data: Data)
        ensures
            // the entry is appended to the cell owning the position (clamped
            // into the grid for an out-of-domain position); no other cell and
            // no geometry parameter changes
            ({
                let cx = clamped_cell(old(self).cell_x_of(position.0 as int), old(self).nx());
                let cy = clamped_cell(old(self).cell_y_of(position.1 as int), old(self).ny());
                forall|ax: int, ay: int|
                    0 <= ax < old(self).nx() && 0 <= ay < old(self).ny()
                        ==> #[trigger] final(self).cell_entries(ax, ay) == (if ax == cx && ay
                        == cy {
                        old(self).cell_entries(ax, ay).push((position, data))
                    } else {
                        old(self).cell_entries(ax, ay)
                    })
            }),
    {
        let ix = axis_cell(position.0, self.x.0, self.x.1, self.cell_count.0);
        let iy = axis_cell(position.1, self.y.0, self.y.1, self.cell_count.1);
        proof {
            lemma_linear_index_in_range(
                ix as int,
                iy as int,
                self.cell_count.0 as int,
                self.cell_count.1 as int,
            );
            assert(self.nx() * self.ny() <= AXIS_CELL_LIMIT * AXIS_CELL_LIMIT)
                by (nonlinear_arith)
                requires
                    1 <= self.nx() <= AXIS_CELL_LIMIT,
                    1 <= self.ny() <= AXIS_CELL_LIMIT,
            ;
        }
        let li = ix + iy * self.cell_count.0;
        let ghost before = *self;
        self.cells[li].push((position, data));
        self.count = self.count + 1;
        proof {
            assert(self.cell_views() =~= before.cell_views().update(
                li as int,
                before.cells@[li as int]@.push((position, data)),
            ));
            lemma_concat_update_push(before.cell_views(), li as int, (position, data));
            assert(self.entries().to_multiset() == before.entries().to_multiset().insert(
                (position, data),
            ));
            before.entries().to_multiset_ensures();
            self.entries().to_multiset_ensures();
            // the new length follows from the multiset lengths
            assert(self.entries().len() == before.entries().len() + 1);
            if before.indexed() && before.in_domain(position) {
                lemma_cell_of_in_domain(&before, position);
                assert forall|ci: int, k: int|
                    0 <= ci < self.cells@.len() && 0 <= k < self.cells@[ci]@.len() implies {
                    let p = (#[trigger] self.cells@[ci]@[k]).0;
                    self.in_domain(p) && self.cell_index_of(p) == ci
                } by {
                    if ci == li as int && k == self.cells@[ci]@.len() - 1 {
                        assert(self.cells@[ci]@[k] == (position, data));
                    } else {
                        assert(self.cells@[ci]@[k] == before.cells@[ci]@[k]);
                    }
                }
            }
            let cx = clamped_cell(before.cell_x_of(position.0 as int), before.nx());
            let cy = clamped_cell(before.cell_y_of(position.1 as int), before.ny());
            assert forall|ax: int, ay: int|
                0 <= ax < before.nx() && 0 <= ay < before.ny() implies #[trigger] self.cell_entries(
                ax,
                ay,
            ) == (if ax == cx && ay == cy {
                before.cell_entries(ax, ay).push((position, data))
            } else {
                before.cell_entries(ax, ay)
            }) by {
                lemma_linear_index_in_range(ax, ay, before.nx(), before.ny());
                if ax + ay * before.nx() == li as int {
                    lemma_row_major_unique(ax, ay, ix as int, iy as int, before.nx());
                } else {
                    if ax == ix as int && ay == iy as int {
                        assert(ax + ay * before.nx() == li as int);
                    }
                }
            }
        }
    }

    fn count(&self) -> (result: usize) {
        self.count
    }

    fn clear(&mut self)
        ensures
            // every cell is emptied; the cell layout itself persists
            forall|cx: int, cy: int|
                0 <= cx < final(self).nx() && 0 <= cy < final(self).ny()
                    ==> #[trigger] final(self).cell_entries(cx, cy) == Seq::<
                    ((i64, i64), Data),
                >::empty(),
    {
        let cells = empty_cells::<Data>(self.cell_count.0, self.cell_count.1);
        self.cells = cells;
        self.count = 0;
        proof {
            lemma_concat_all_empty(self.cell_views());
            assert forall|cx: int, cy: int|
                0 <= cx < self.nx() && 0 <= cy < self.ny() implies #[trigger] self.cell_entries(
                cx,
                cy,
            ) == Seq::<((i64, i64), Data)>::empty() by {
                lemma_linear_index_in_range(cx, cy, self.nx(), self.ny());
                assert(self.cell_entries(cx, cy) =~= Seq::<((i64, i64), Data)>::empty());
            }
        }
    }

    fn in_circle(&self, position: (i64, i64), radius: i64) -> (result: Vec<Data>) {
        let rx = cell_radius(radius, self.x.0, self.x.1, self.cell_count.0);
        let ry = cell_radius(radius, self.y.0, self.y.1, self.cell_count.1);
        let ccx = axis_cell(position.0, self.x.0, self.x.1, self.cell_count.0) as i64;
        let ccy = axis_cell(position.1, self.y.0, self.y.1, self.cell_count.1) as i64;
        let bx_lo = if ccx - rx > 0 { ccx - rx } else { 0 };
        let by_lo = if ccy - ry > 0 { ccy - ry } else { 0 };
        let bx_hi = if ccx + rx + 1 < self.cell_count.0 as i64 {
            ccx + rx + 1
        } else {
            self.cell_count.0 as i64
        };
        let by_hi = if ccy + ry + 1 < self.cell_count.1 as i64 {
            ccy + ry + 1
        } else {
            self.cell_count.1 as i64
        };
        proof {
            assert(bx_lo == self.block_x_lo(position, radius));
            assert(bx_hi == self.block_x_hi(position, radius));
            assert(by_lo == self.block_y_lo(position, radius));
            assert(by_hi == self.block_y_hi(position, radius));
        }
        let mut found: Vec<Data> = Vec::new();
        proof {
            found@.to_multiset_ensures();
            assert(found@.to_multiset() =~= Multiset::<Data>::empty());
        }
        let mut ax: i64 = bx_lo;
        while ax < bx_hi
            invariant
                self.inv(),
                pos_bounded(position),
                0 <= radius <= RADIUS_LIMIT,
                bx_lo == self.block_x_lo(position, radius),
                bx_hi == self.block_x_hi(position, radius),
                by_lo == self.block_y_lo(position, radius),
                by_hi == self.block_y_hi(position, radius),
                0 <= bx_lo <= ax <= bx_hi <= self.nx(),
                0 <= by_lo <= by_hi <= self.ny(),
                self.indexed() ==> found@.to_multiset() == self.cols_ms(
                    bx_lo as int,
                    ax as int,
                    by_lo as int,
                    by_hi as int,
                    position,
                    radius,
                ),
            decreases bx_hi - ax,
        {
            let ghost col_start = found@;
            proof {
                assert(self.col_ms(ax as int, by_lo as int, by_lo as int, position, radius)
                    =~= Multiset::<Data>::empty());
            }
            let mut ay: i64 = by_lo;
            while ay < by_hi
                invariant
                    self.inv(),
                    pos_bounded(position),
                    0 <= radius <= RADIUS_LIMIT,
                    bx_lo == self.block_x_lo(position, radius),
                    bx_hi == self.block_x_hi(position, radius),
                    by_lo == self.block_y_lo(position, radius),
                    by_hi == self.block_y_hi(position, radius),
                    0 <= bx_lo <= ax < bx_hi <= self.nx(),
                    0 <= by_lo <= ay <= by_hi <= self.ny(),
                    self.indexed() ==> found@.to_multiset() == self.cols_ms(
                        bx_lo as int,
                        ax as int,
                        by_lo as int,
                        by_hi as int,
                        position,
                        radius,
                    ).add(self.col_ms(ax as int, by_lo as int, ay as int, position, radius)),
                decreases by_hi - ay,
            {
                self.scan_cell(ax as usize, ay as usize, position, radius, &mut found);
                proof {
                    if self.indexed() {
                        let base = self.cols_ms(
                            bx_lo as int,
                            ax as int,
                            by_lo as int,
                            by_hi as int,
                            position,
                            radius,
                        );
                        let cm = matched_payloads(
                            self.cell_entries(ax as int, ay as int),
                            position,
                            radius,
                        ).to_multiset();
                        assert(self.col_ms(ax as int, by_lo as int, ay + 1, position, radius)
                            == self.col_ms(ax as int, by_lo as int, ay as int, position, radius).add(
                            cm,
                        ));
                        assert(base.add(
                            self.col_ms(ax as int, by_lo as int, ay as int, position, radius),
                        ).add(cm) =~= base.add(
                            self.col_ms(ax as int, by_lo as int, ay + 1, position, radius),
                        ));
                    }
                }
                ay = ay + 1;
            }
            proof {
                if self.indexed() {
                    assert(self.cols_ms(
                        bx_lo as int,
                        ax + 1,
                        by_lo as int,
                        by_hi as int,
                        position,
                        radius,
                    ) == self.cols_ms(
                        bx_lo as int,
                        ax as int,
                        by_lo as int,
                        by_hi as int,
                        position,
                        radius,
                    ).add(self.col_ms(ax as int, by_lo as int, by_hi as int, position, radius)));
                }
            }
            ax = ax + 1;
        }
        proof {
            if self.indexed() {
                self.lemma_block_collects_all(position, radius);
            }
        }
        found
    }
}

impl<Data: Copy> Grid<Data> {
    /// The scan radius in cells along x: `ceil(radius / cell_size_x)` in exact
    /// rational form, clamped to the cell count.
    spec fn cell_radius_x(&self, radius: i64) -> int {
        let raw = (radius * self.nx() + self.width() - 1) / self.width();
        if raw > self.nx() {
            self.nx()
        } else {
            raw
        }
    }

    /// The scan radius in cells along y.
    spec fn cell_radius_y(&self, radius: i64) -> int {
        let raw = (radius * self.ny() + self.height() - 1) / self.height();
        if raw > self.ny() {
            self.ny()
        } else {
            raw
        }
    }

    /// The scanned block of cells around the query center, clipped to the grid:
    /// columns `[block_x_lo, block_x_hi)`, rows `[block_y_lo, block_y_hi)`.
    spec fn block_x_lo(&self, q: (i64, i64), radius: i64) -> int {
        let v = clamped_cell(self.cell_x_of(q.0 as int), self.nx()) - self.cell_radius_x(radius);
        if v < 0 {
            0
        } else {
            v
        }
    }

    spec fn block_x_hi(&self, q: (i64, i64), radius: i64) -> int {
        let v = clamped_cell(self.cell_x_of(q.0 as int), self.nx()) + self.cell_radius_x(radius)
            + 1;
        if v > self.nx() {
            self.nx()
        } else {
            v
        }
    }

    spec fn block_y_lo(&self, q: (i64, i64), radius: i64) -> int {
        let v = clamped_cell(self.cell_y_of(q.1 as int), self.ny()) - self.cell_radius_y(radius);
        if v < 0 {
            0
        } else {
            v
        }
    }

    spec fn block_y_hi(&self, q: (i64, i64), radius: i64) -> int {
        let v = clamped_cell(self.cell_y_of(q.1 as int), self.ny()) + self.cell_radius_y(radius)
            + 1;
        if v > self.ny() {
            self.ny()
        } else {
            v
        }
    }

    /// Whether the cell corner at lattice point `(a, b)` (cell boundaries, so
    /// `a` ranges over `0..=nx`) lies within `radius` of `q`. Corner
    /// coordinates are the rationals `x.0 + a * width / nx`; the comparison is
    /// the distance condition cleared of both denominators.
    spec fn corner_within(&self, a: int, b: int, q: (i64, i64), radius: i64) -> bool {
        let dx = (q.0 - self.x.0) * self.nx() - a * self.width();
        let dy = (q.1 - self.y.0) * self.ny() - b * self.height();
        dx * dx * (self.ny() * self.ny()) + dy * dy * (self.nx() * self.nx()) <= ((radius
            * radius) * (self.nx() * self.nx())) * (self.ny() * self.ny())
    }

    /// Matches gathered from rows `[y_lo, y_hi)` of column `cx`.
    spec fn col_ms(&self, cx: int, y_lo: int, y_hi: int, q: (i64, i64), radius: i64) -> Multiset<
        Data,
    >
        decreases y_hi - y_lo,
    {
        if y_hi <= y_lo {
            Multiset::empty()
        } else {
            self.col_ms(cx, y_lo, y_hi - 1, q, radius).add(
                matched_payloads(self.cell_entries(cx, y_hi - 1), q, radius).to_multiset(),
            )
        }
    }

    /// Matches gathered from columns `[x_lo, x_hi)`, rows `[y_lo, y_hi)`,
    /// column by column.
    spec fn cols_ms(
        &self,
        x_lo: int,
        x_hi: int,
        y_lo: int,
        y_hi: int,
        q: (i64, i64),
        radius: i64,
    ) -> Multiset<Data>
        decreases x_hi - x_lo,
    {
        if x_hi <= x_lo {
            Multiset::empty()
        } else {
            self.cols_ms(x_lo, x_hi - 1, y_lo, y_hi, q, radius).add(
                self.col_ms(x_hi - 1, y_lo, y_hi, q, radius),
            )
        }
    }

    /// Matches gathered from columns `[x_lo, x_hi)` of row `cy`.
    spec fn row_ms(&self, cy: int, x_lo: int, x_hi: int, q: (i64, i64), radius: i64) -> Multiset<
        Data,
    >
        decreases x_hi - x_lo,
    {
        if x_hi <= x_lo {
            Multiset::empty()
        } else {
            self.row_ms(cy, x_lo, x_hi - 1, q, radius).add(
                matched_payloads(self.cell_entries(x_hi - 1, cy), q, radius).to_multiset(),
            )
        }
    }

    /// Matches gathered from rows `[y_lo, y_hi)`, columns `[x_lo, x_hi)`,
    /// row by row.
    spec fn rows_ms(
        &self,
        y_lo: int,
        y_hi: int,
        x_lo: int,
        x_hi: int,
        q: (i64, i64),
        radius: i64,
    ) -> Multiset<Data>
        decreases y_hi - y_lo,
    {
        if y_hi <= y_lo {
            Multiset::empty()
        } else {
            self.rows_ms(y_lo, y_hi - 1, x_lo, x_hi, q, radius).add(
                self.row_ms(y_hi - 1, x_lo, x_hi, q, radius),
            )
        }
    }

    /// Exact corner test, by scaled integer arithmetic.
    fn corner_test(&self, a: i64, b: i64, position: (i64, i64), radius: i64) -> (res: bool)
        requires
            self.inv(),
            pos_bounded(position),
            0 <= radius <= RADIUS_LIMIT,
            0 <= a <= self.nx(),
            0 <= b <= self.ny(),
        ensures
            res == self.corner_within(a as int, b as int, position, radius),
    {
        let nxl = self.cell_count.0 as i128;
        let nyl = self.cell_count.1 as i128;
        let w = (self.x.1 - self.x.0) as i128;
        let h = (self.y.1 - self.y.0) as i128;
        proof {
            lemma_abs_mul_bound((position.0 - self.x.0) as int, nxl as int, 33554432, 4096);
            lemma_abs_mul_bound(a as int, w as int, 4096, 33554432);
            lemma_abs_mul_bound((position.1 - self.y.0) as int, nyl as int, 33554432, 4096);
            lemma_abs_mul_bound(b as int, h as int, 4096, 33554432);
        }
        let dx = (position.0 - self.x.0) as i128 * nxl - a as i128 * w;
        let dy = (position.1 - self.y.0) as i128 * nyl - b as i128 * h;
        proof {
            assert(-274877906944 <= dx as int <= 274877906944);
            assert(-274877906944 <= dy as int <= 274877906944);
            lemma_abs_mul_bound(dx as int, dx as int, 274877906944, 274877906944);
            lemma_abs_mul_bound(dy as int, dy as int, 274877906944, 274877906944);
            lemma_abs_mul_bound(nxl as int, nxl as int, 4096, 4096);
            lemma_abs_mul_bound(nyl as int, nyl as int, 4096, 4096);
            lemma_abs_mul_bound(
                dx as int * dx as int,
                nyl as int * nyl as int,
                75557863725914323419136,
                16777216,
            );
            lemma_abs_mul_bound(
                dy as int * dy as int,
                nxl as int * nxl as int,
                75557863725914323419136,
                16777216,
            );
            lemma_abs_mul_bound(radius as int, radius as int, 67108864, 67108864);
            lemma_abs_mul_bound(
                radius as int * radius as int,
                nxl as int * nxl as int,
                4503599627370496,
                16777216,
            );
            lemma_abs_mul_bound(
                (radius as int * radius as int) * (nxl as int * nxl as int),
                nyl as int * nyl as int,
                75557863725914323419136,
                16777216,
            );
        }
        dx * dx * (nyl * nyl) + dy * dy * (nxl * nxl) <= ((radius as i128 * radius as i128) * (nxl
            * nxl)) * (nyl * nyl)
    }

    /// Gathers one cell's matches into `found`: every entry when the cell is
    /// dense and all four of its corners lie within the radius, else each
    /// entry that passes its own distance test.
    fn scan_cell(
        &self,
        cx: usize,
        cy: usize,
        position: (i64, i64),
        radius: i64,
        found: &mut Vec<Data>,
    )
        requires
            self.inv(),
            pos_bounded(position),
            0 <= radius <= RADIUS_LIMIT,
            cx < self.nx(),
            cy < self.ny(),
        ensures
            self.indexed() ==> final(found)@.to_multiset() == old(found)@.to_multiset().add(
                matched_payloads(
                    self.cell_entries(cx as int, cy as int),
                    position,
                    radius,
                ).to_multiset(),
            ),
    {
        proof {
            lemma_linear_index_in_range(cx as int, cy as int, self.nx(), self.ny());
            assert(self.nx() * self.ny() <= AXIS_CELL_LIMIT * AXIS_CELL_LIMIT)
                by (nonlinear_arith)
                requires
                    1 <= self.nx() <= AXIS_CELL_LIMIT,
                    1 <= self.ny() <= AXIS_CELL_LIMIT,
            ;
        }
        let li = cx + cy * self.cell_count.0;
        let elements = &self.cells[li];
        let ghost cell = self.cell_entries(cx as int, cy as int);
        if elements.len() > 4 {
            let c00 = self.corner_test(cx as i64, cy as i64, position, radius);
            let c10 = self.corner_test(cx as i64 + 1, cy as i64, position, radius);
            let c01 = self.corner_test(cx as i64, cy as i64 + 1, position, radius);
            let c11 = self.corner_test(cx as i64 + 1, cy as i64 + 1, position, radius);
            if c00 && c10 && c01 && c11 {
                proof {
                    if self.indexed() {
                        assert forall|k: int| 0 <= k < cell.len() implies in_radius(
                            cell[k].0,
                            position,
                            radius,
                        ) by {
                            let p = cell[k].0;
                            assert(self.cells@[li as int]@[k] == cell[k]);
                            lemma_cell_of_in_domain(self, p);
                            lemma_row_major_unique(
                                self.cell_x_of(p.0 as int),
                                self.cell_y_of(p.1 as int),
                                cx as int,
                                cy as int,
                                self.nx(),
                            );
                            lemma_cell_enclosed(self, cx as int, cy as int, position, radius, p);
                        }
                        lemma_matched_all(cell, position, radius);
                    }
                }
                let mut k: usize = 0;
                while k < elements.len()
                    invariant
                        self.inv(),
                        elements@ == cell,
                        k <= cell.len(),
                        found@ == old(found)@ + payloads_of(cell.take(k as int)),
                    decreases elements@.len() - k,
                {
                    proof {
                        assert(cell.take(k + 1).drop_last() =~= cell.take(k as int));
                        assert(cell.take(k + 1).last() == cell[k as int]);
                        assert(old(found)@ + payloads_of(cell.take(k + 1)) =~= (old(found)@
                            + payloads_of(cell.take(k as int))).push(cell[k as int].1));
                    }
                    let e = elements[k];
                    found.push(e.1);
                    k = k + 1;
                }
                proof {
                    assert(cell.take(cell.len() as int) =~= cell);
                    lemma_to_multiset_concat(old(found)@, payloads_of(cell));
                }
                return ;
            }
        }
        let mut k: usize = 0;
        while k < elements.len()
            invariant
                self.inv(),
                pos_bounded(position),
                0 <= radius <= RADIUS_LIMIT,
                0 <= li < self.cells@.len(),
                elements@ == cell,
                cell == self.cells@[li as int]@,
                k <= cell.len(),
                found@ == old(found)@ + matched_payloads(cell.take(k as int), position, radius),
            decreases elements@.len() - k,
        {
            proof {
                assert(cell.take(k + 1).drop_last() =~= cell.take(k as int));
                assert(cell.take(k + 1).last() == cell[k as int]);
                assert(pos_bounded(self.cells@[li as int]@[k as int].0));
                if in_radius(cell[k as int].0, position, radius) {
                    assert(old(found)@ + matched_payloads(cell.take(k + 1), position, radius)
                        =~= (old(found)@ + matched_payloads(cell.take(k as int), position, radius)).push(
                        cell[k as int].1,
                    ));
                } else {
                    assert(old(found)@ + matched_payloads(cell.take(k + 1), position, radius)
                        =~= old(found)@ + matched_payloads(cell.take(k as int), position, radius));
                }
            }
            let e = elements[k];
            if in_range(e.0, position, radius) {
                found.push(e.1);
            }
            k = k + 1;
        }
        proof {
            assert(cell.take(cell.len() as int) =~= cell);
            lemma_to_multiset_concat(old(found)@, matched_payloads(cell, position, radius));
        }
    }
}

/// The scan radius in cells along one axis, clamped to the cell count.
fn cell_radius(radius: i64, lo: i64, hi: i64, n: usize) -> (result: i64)
    requires
        -COORD_LIMIT <= lo < hi <= COORD_LIMIT,
        0 <= radius <= RADIUS_LIMIT,
        1 <= n <= AXIS_CELL_LIMIT,
    ensures
        result == {
            let raw = (radius * (n as int) + (hi - lo) - 1) / (hi - lo);
            if raw > n as int {
                n as int
            } else {
                raw
            }
        },
        0 <= result <= n,
{
    let d = (hi - lo) as u64;
    proof {
        lemma_abs_mul_bound(radius as int, n as int, RADIUS_LIMIT as int, AXIS_CELL_LIMIT as int);
        lemma_floor_bounds(radius * (n as int) + (hi - lo) - 1, (hi - lo) as int);
    }
    let raw = ((radius as u64) * (n as u64) + d - 1) / d;
    proof {
        let ghost ri = (radius * (n as int) + (hi - lo) - 1) / (hi - lo);
        assert(raw == ri);
        if ri < 0 {
            lemma_floor_neg(radius * (n as int) + (hi - lo) - 1, (hi - lo) as int);
        }
    }
    if raw > n as u64 {
        n as i64
    } else {
        raw as i64
    }
}

/// Four in-radius corners enclose the whole cell: any in-domain position
/// bucketed in the cell lies within the radius.
proof fn lemma_cell_enclosed<Data: Copy>(
    g: &Grid<Data>,
    cx: int,
    cy: int,
    q: (i64, i64),
    radius: i64,
    p: (i64, i64),
)
    requires
        g.inv(),
        pos_bounded(q),
        pos_bounded(p),
        0 <= radius <= RADIUS_LIMIT,
        0 <= cx < g.nx(),
        0 <= cy < g.ny(),
        g.corner_within(cx, cy, q, radius),
        g.corner_within(cx + 1, cy, q, radius),
        g.corner_within(cx, cy + 1, q, radius),
        g.corner_within(cx + 1, cy + 1, q, radius),
        g.in_domain(p),
        g.cell_x_of(p.0 as int) == cx,
        g.cell_y_of(p.1 as int) == cy,
    ensures
        in_radius(p, q, radius),
{
    let n1 = g.nx();
    let n2 = g.ny();
    let w = g.width();
    let h = g.height();
    let u = (p.0 - g.domain_x().0) * n1;
    let v = (p.1 - g.domain_y().0) * n2;
    let qx = (q.0 - g.domain_x().0) * n1;
    let qy = (q.1 - g.domain_y().0) * n2;
    lemma_floor_bounds(u, w);
    lemma_floor_bounds(v, h);
    assert(w * cx <= u <= w * cx + w);
    assert(h * cy <= v <= h * cy + h);
    lemma_interval_square_max(qx, w * cx, w * cx + w, u);
    lemma_interval_square_max(qy, h * cy, h * cy + h, v);
    // align the corner numerators with the interval endpoints
    assert(cx * w == w * cx && (cx + 1) * w == w * cx + w) by (nonlinear_arith);
    assert(cy * h == h * cy && (cy + 1) * h == h * cy + h) by (nonlinear_arith);
    let sx = (qx - u) * (qx - u);
    let sy = (qy - v) * (qy - v);
    let cxa = (qx - cx * w) * (qx - cx * w);
    let cxb = (qx - (cx + 1) * w) * (qx - (cx + 1) * w);
    let cya = (qy - cy * h) * (qy - cy * h);
    let cyb = (qy - (cy + 1) * h) * (qy - (cy + 1) * h);
    let bound = ((radius * radius) * (n1 * n1)) * (n2 * n2);
    assert(sx <= cxa || sx <= cxb);
    assert(sy <= cya || sy <= cyb);
    // whichever endpoint pair dominates is one of the four tested corners
    assert(sx * (n2 * n2) + sy * (n1 * n1) <= bound) by {
        let mx = if sx <= cxa { cxa } else { cxb };
        let my = if sy <= cya { cya } else { cyb };
        assert(sx * (n2 * n2) <= mx * (n2 * n2)) by (nonlinear_arith)
            requires
                sx <= mx,
                n2 * n2 >= 0,
        ;
        assert(sy * (n1 * n1) <= my * (n1 * n1)) by (nonlinear_arith)
            requires
                sy <= my,
                n1 * n1 >= 0,
        ;
        assert(mx * (n2 * n2) + my * (n1 * n1) <= bound);
    }
    // rewrite the scaled differences as scaled coordinate differences
    let dx = p.0 - q.0;
    let dy = p.1 - q.1;
    assert(qx - u == (q.0 - p.0) * n1) by (nonlinear_arith)
        requires
            u == (p.0 - g.domain_x().0) * n1,
            qx == (q.0 - g.domain_x().0) * n1,
    ;
    assert(qy - v == (q.1 - p.1) * n2) by (nonlinear_arith)
        requires
            v == (p.1 - g.domain_y().0) * n2,
            qy == (q.1 - g.domain_y().0) * n2,
    ;
    assert(sx == (dx * dx) * (n1 * n1)) by (nonlinear_arith)
        requires
            qx - u == (q.0 - p.0) * n1,
            sx == (qx - u) * (qx - u),
            dx == p.0 - q.0,
    ;
    assert(sy == (dy * dy) * (n2 * n2)) by (nonlinear_arith)
        requires
            qy - v == (q.1 - p.1) * n2,
            sy == (qy - v) * (qy - v),
            dy == p.1 - q.1,
    ;
    let kk = (n1 * n1) * (n2 * n2);
    assert(sx * (n2 * n2) + sy * (n1 * n1) == (dx * dx + dy * dy) * kk) by (nonlinear_arith)
        requires
            sx == (dx * dx) * (n1 * n1),
            sy == (dy * dy) * (n2 * n2),
            kk == (n1 * n1) * (n2 * n2),
    ;
    assert(bound == (radius * radius) * kk) by (nonlinear_arith)
        requires
            kk == (n1 * n1) * (n2 * n2),
            bound == ((radius * radius) * (n1 * n1)) * (n2 * n2),
    ;
    assert(kk > 0) by (nonlinear_arith)
        requires
            n1 >= 1,
            n2 >= 1,
            kk == (n1 * n1) * (n2 * n2),
    ;
    lemma_mul_pos_le(dx * dx + dy * dy, radius * radius, kk);
}

impl<Data: Copy> Grid<Data> {
    /// The scanned block is a valid, non-empty sub-rectangle of the grid.
    proof fn lemma_block_bounds(&self, q: (i64, i64), radius: i64)
        requires
            self.inv(),
            pos_bounded(q),
            0 <= radius <= RADIUS_LIMIT,
        ensures
            0 <= self.block_x_lo(q, radius) <= self.block_x_hi(q, radius) <= self.nx(),
            0 <= self.block_y_lo(q, radius) <= self.block_y_hi(q, radius) <= self.ny(),
            0 <= self.cell_radius_x(radius) <= self.nx(),
            0 <= self.cell_radius_y(radius) <= self.ny(),
    {
        assert(radius * self.nx() >= 0) by (nonlinear_arith)
            requires
                radius >= 0,
                self.nx() >= 1,
        ;
        assert(radius * self.ny() >= 0) by (nonlinear_arith)
            requires
                radius >= 0,
                self.ny() >= 1,
        ;
        crate::util::lemma_floor_nonneg(radius * self.nx() + self.width() - 1, self.width());
        crate::util::lemma_floor_nonneg(radius * self.ny() + self.height() - 1, self.height());
    }

    /// Rows of an empty column range collect nothing.
    proof fn lemma_rows_zero_width(
        &self,
        y_lo: int,
        y_hi: int,
        x_lo: int,
        x_hi: int,
        q: (i64, i64),
        radius: i64,
    )
        requires
            x_hi <= x_lo,
        ensures
            self.rows_ms(y_lo, y_hi, x_lo, x_hi, q, radius) == Multiset::<Data>::empty(),
        decreases y_hi - y_lo,
    {
        if y_hi > y_lo {
            self.lemma_rows_zero_width(y_lo, y_hi - 1, x_lo, x_hi, q, radius);
            assert(self.rows_ms(y_lo, y_hi, x_lo, x_hi, q, radius) =~= Multiset::<Data>::empty());
        }
    }

    /// Peeling the last column out of a stack of rows.
    proof fn lemma_rows_peel_col(
        &self,
        y_lo: int,
        y_hi: int,
        x_lo: int,
        x_hi: int,
        q: (i64, i64),
        radius: i64,
    )
        requires
            x_lo < x_hi,
        ensures
            self.rows_ms(y_lo, y_hi, x_lo, x_hi, q, radius) == self.rows_ms(
                y_lo,
                y_hi,
                x_lo,
                x_hi - 1,
                q,
                radius,
            ).add(self.col_ms(x_hi - 1, y_lo, y_hi, q, radius)),
        decreases y_hi - y_lo,
    {
        if y_hi <= y_lo {
            assert(self.rows_ms(y_lo, y_hi, x_lo, x_hi - 1, q, radius).add(
                self.col_ms(x_hi - 1, y_lo, y_hi, q, radius),
            ) =~= Multiset::<Data>::empty());
        } else {
            self.lemma_rows_peel_col(y_lo, y_hi - 1, x_lo, x_hi, q, radius);
            let cell = matched_payloads(
                self.cell_entries(x_hi - 1, y_hi - 1),
                q,
                radius,
            ).to_multiset();
            assert(self.row_ms(y_hi - 1, x_lo, x_hi, q, radius) == self.row_ms(
                y_hi - 1,
                x_lo,
                x_hi - 1,
                q,
                radius,
            ).add(cell));
            assert(self.col_ms(x_hi - 1, y_lo, y_hi, q, radius) == self.col_ms(
                x_hi - 1,
                y_lo,
                y_hi - 1,
                q,
                radius,
            ).add(cell));
            assert(self.rows_ms(y_lo, y_hi, x_lo, x_hi, q, radius) =~= self.rows_ms(
                y_lo,
                y_hi,
                x_lo,
                x_hi - 1,
                q,
                radius,
            ).add(self.col_ms(x_hi - 1, y_lo, y_hi, q, radius)));
        }
    }

    /// Gathering by columns equals gathering by rows.
    proof fn lemma_cols_rows_swap(
        &self,
        x_lo: int,
        x_hi: int,
        y_lo: int,
        y_hi: int,
        q: (i64, i64),
        radius: i64,
    )
        ensures
            self.cols_ms(x_lo, x_hi, y_lo, y_hi, q, radius) == self.rows_ms(
                y_lo,
                y_hi,
                x_lo,
                x_hi,
                q,
                radius,
            ),
        decreases x_hi - x_lo,
    {
        if x_hi <= x_lo {
            self.lemma_rows_zero_width(y_lo, y_hi, x_lo, x_hi, q, radius);
        } else {
            self.lemma_cols_rows_swap(x_lo, x_hi - 1, y_lo, y_hi, q, radius);
            self.lemma_rows_peel_col(y_lo, y_hi, x_lo, x_hi, q, radius);
        }
    }

    /// A linear prefix of the cell array gathers whole rows plus part of the
    /// next row.
    #[verifier::rlimit(60)]
    proof fn lemma_linear_prefix_rows(&self, m: int, j: int, q: (i64, i64), radius: i64)
        requires
            self.inv(),
            0 <= m <= self.ny(),
            0 <= j <= self.nx(),
            m == self.ny() ==> j == 0,
        ensures
            sum_matched(self.cell_views().take(m * self.nx() + j), q, radius) == self.rows_ms(
                0,
                m,
                0,
                self.nx(),
                q,
                radius,
            ).add(self.row_ms(m, 0, j, q, radius)),
        decreases m, j,
    {
        let nx = self.nx();
        let ny = self.ny();
        assert(0 <= m * nx <= (ny - (if j > 0 { 1int } else { 0int })) * nx) by (nonlinear_arith)
            requires
                0 <= m,
                nx >= 1,
                m <= ny - (if j > 0 { 1int } else { 0int }),
        ;
        assert(m * nx + j <= nx * ny) by (nonlinear_arith)
            requires
                nx >= 1,
                0 <= j <= nx,
                0 <= m,
                j > 0 ==> m <= ny - 1,
                j == 0 ==> m <= ny,
        ;
        if j == 0 {
            if m == 0 {
                assert(m * nx == 0) by (nonlinear_arith)
                    requires
                        m == 0,
                ;
                assert(m * nx + j == 0);
                assert(self.cell_views().take(0) =~= Seq::<Seq<((i64, i64), Data)>>::empty());
                assert(sum_matched(self.cell_views().take(0), q, radius) =~= Multiset::<
                    Data,
                >::empty());
                assert(self.rows_ms(0, 0, 0, nx, q, radius).add(self.row_ms(0, 0, 0, q, radius))
                    =~= Multiset::<Data>::empty());
            } else {
                self.lemma_linear_prefix_rows(m - 1, nx, q, radius);
                assert((m - 1) * nx + nx == m * nx) by (nonlinear_arith);
                let whole = sum_matched(self.cell_views().take(m * nx), q, radius);
                assert(whole == self.rows_ms(0, m - 1, 0, nx, q, radius).add(
                    self.row_ms(m - 1, 0, nx, q, radius),
                ));
                assert(self.rows_ms(0, m, 0, nx, q, radius) == self.rows_ms(
                    0,
                    m - 1,
                    0,
                    nx,
                    q,
                    radius,
                ).add(self.row_ms(m - 1, 0, nx, q, radius)));
                assert(self.row_ms(m, 0, 0, q, radius) == Multiset::<Data>::empty());
                assert(whole =~= self.rows_ms(0, m, 0, nx, q, radius).add(
                    self.row_ms(m, 0, 0, q, radius),
                ));
                assert(m * nx + j == m * nx);
            }
        } else {
            self.lemma_linear_prefix_rows(m, j - 1, q, radius);
            let t = m * nx + j;
            assert(self.cell_views().take(t).drop_last() =~= self.cell_views().take(t - 1));
            assert(self.cell_views().take(t).drop_last() == self.cell_views().take(t - 1));
            assert((j - 1) + m * nx == t - 1);
            assert(0 <= t - 1 < self.cell_views().len());
            assert(self.cell_views().take(t).len() == t);
            assert(self.cell_views().take(t).last() == self.cell_views()[t - 1]);
            assert(self.cell_views()[t - 1] == self.cell_entries(j - 1, m));
            let cm = matched_payloads(self.cell_entries(j - 1, m), q, radius).to_multiset();
            let whole = sum_matched(self.cell_views().take(t), q, radius);
            assert(whole == sum_matched(self.cell_views().take(t - 1), q, radius).add(cm));
            assert(sum_matched(self.cell_views().take(t - 1), q, radius) == self.rows_ms(
                0,
                m,
                0,
                nx,
                q,
                radius,
            ).add(self.row_ms(m, 0, j - 1, q, radius)));
            assert(self.row_ms(m, 0, j, q, radius) == self.row_ms(m, 0, j - 1, q, radius).add(cm));
            assert(whole =~= self.rows_ms(0, m, 0, nx, q, radius).add(
                self.row_ms(m, 0, j, q, radius),
            ));
        }
    }

    /// A cell outside the scanned block catches nothing.
    proof fn lemma_cell_outside_empty(&self, cx: int, cy: int, q: (i64, i64), radius: i64)
        requires
            self.inv(),
            self.indexed(),
            pos_bounded(q),
            0 <= radius <= RADIUS_LIMIT,
            0 <= cx < self.nx(),
            0 <= cy < self.ny(),
            !(self.block_x_lo(q, radius) <= cx < self.block_x_hi(q, radius) && self.block_y_lo(
                q,
                radius,
            ) <= cy < self.block_y_hi(q, radius)),
        ensures
            matched_payloads(self.cell_entries(cx, cy), q, radius) == Seq::<Data>::empty(),
    {
        let cell = self.cell_entries(cx, cy);
        let li = cx + cy * self.nx();
        lemma_linear_index_in_range(cx, cy, self.nx(), self.ny());
        assert forall|k: int| 0 <= k < cell.len() implies !in_radius(cell[k].0, q, radius) by {
            let p = cell[k].0;
            assert(self.cells@[li]@[k] == cell[k]);
            lemma_cell_of_in_domain(self, p);
            lemma_row_major_unique(
                self.cell_x_of(p.0 as int),
                self.cell_y_of(p.1 as int),
                cx,
                cy,
                self.nx(),
            );
            if in_radius(p, q, radius) {
                lemma_match_in_block(self, q, radius, p);
            }
        }
        lemma_matched_none(cell, q, radius);
    }

    /// A row segment of cells outside the block catches nothing.
    proof fn lemma_row_outside_empty(
        &self,
        cy: int,
        x_lo: int,
        x_hi: int,
        q: (i64, i64),
        radius: i64,
    )
        requires
            self.inv(),
            self.indexed(),
            pos_bounded(q),
            0 <= radius <= RADIUS_LIMIT,
            0 <= x_lo,
            x_hi <= self.nx(),
            0 <= cy < self.ny(),
            cy < self.block_y_lo(q, radius) || cy >= self.block_y_hi(q, radius) || x_hi
                <= self.block_x_lo(q, radius) || x_lo >= self.block_x_hi(q, radius),
        ensures
            self.row_ms(cy, x_lo, x_hi, q, radius) == Multiset::<Data>::empty(),
        decreases x_hi - x_lo,
    {
        if x_hi > x_lo {
            self.lemma_row_outside_empty(cy, x_lo, x_hi - 1, q, radius);
            self.lemma_cell_outside_empty(x_hi - 1, cy, q, radius);
            let cell = matched_payloads(self.cell_entries(x_hi - 1, cy), q, radius);
            cell.to_multiset_ensures();
            assert(cell.to_multiset() =~= Multiset::<Data>::empty());
            assert(self.row_ms(cy, x_lo, x_hi, q, radius) =~= Multiset::<Data>::empty());
        }
    }

    /// A stack of rows of cells outside the block catches nothing.
    proof fn lemma_rows_outside_empty(
        &self,
        y_lo: int,
        y_hi: int,
        x_lo: int,
        x_hi: int,
        q: (i64, i64),
        radius: i64,
    )
        requires
            self.inv(),
            self.indexed(),
            pos_bounded(q),
            0 <= radius <= RADIUS_LIMIT,
            0 <= x_lo,
            x_hi <= self.nx(),
            0 <= y_lo,
            y_hi <= self.ny(),
            y_hi <= self.block_y_lo(q, radius) || y_lo >= self.block_y_hi(q, radius) || x_hi
                <= self.block_x_lo(q, radius) || x_lo >= self.block_x_hi(q, radius),
        ensures
            self.rows_ms(y_lo, y_hi, x_lo, x_hi, q, radius) == Multiset::<Data>::empty(),
        decreases y_hi - y_lo,
    {
        if y_hi > y_lo {
            self.lemma_rows_outside_empty(y_lo, y_hi - 1, x_lo, x_hi, q, radius);
            self.lemma_row_outside_empty(y_hi - 1, x_lo, x_hi, q, radius);
            assert(self.rows_ms(y_lo, y_hi, x_lo, x_hi, q, radius) =~= Multiset::<Data>::empty());
        }
    }

    /// A row gathers over `[a, c)` what it gathers over `[a, b)` and `[b, c)`.
    proof fn lemma_row_split(&self, cy: int, a: int, b: int, c: int, q: (i64, i64), radius: i64)
        requires
            a <= b <= c,
        ensures
            self.row_ms(cy, a, c, q, radius) == self.row_ms(cy, a, b, q, radius).add(
                self.row_ms(cy, b, c, q, radius),
            ),
        decreases c - b,
    {
        if c <= b {
            assert(self.row_ms(cy, a, b, q, radius).add(self.row_ms(cy, b, c, q, radius))
                =~= self.row_ms(cy, a, c, q, radius));
        } else {
            self.lemma_row_split(cy, a, b, c - 1, q, radius);
            assert(self.row_ms(cy, a, c, q, radius) =~= self.row_ms(cy, a, b, q, radius).add(
                self.row_ms(cy, b, c, q, radius),
            ));
        }
    }

    /// Rows gather over `[a, c)` what they gather over `[a, b)` and `[b, c)`.
    proof fn lemma_rows_split(
        &self,
        a: int,
        b: int,
        c: int,
        x_lo: int,
        x_hi: int,
        q: (i64, i64),
        radius: i64,
    )
        requires
            a <= b <= c,
        ensures
            self.rows_ms(a, c, x_lo, x_hi, q, radius) == self.rows_ms(a, b, x_lo, x_hi, q, radius).add(
                self.rows_ms(b, c, x_lo, x_hi, q, radius),
            ),
        decreases c - b,
    {
        if c <= b {
            assert(self.rows_ms(a, b, x_lo, x_hi, q, radius).add(
                self.rows_ms(b, c, x_lo, x_hi, q, radius),
            ) =~= self.rows_ms(a, c, x_lo, x_hi, q, radius));
        } else {
            self.lemma_rows_split(a, b, c - 1, x_lo, x_hi, q, radius);
            assert(self.rows_ms(a, c, x_lo, x_hi, q, radius) =~= self.rows_ms(
                a,
                b,
                x_lo,
                x_hi,
                q,
                radius,
            ).add(self.rows_ms(b, c, x_lo, x_hi, q, radius)));
        }
    }

    /// Inside the block's rows, scanning the block's columns misses nothing.
    proof fn lemma_rows_reduce(&self, y_lo: int, y_hi: int, q: (i64, i64), radius: i64)
        requires
            self.inv(),
            self.indexed(),
            pos_bounded(q),
            0 <= radius <= RADIUS_LIMIT,
            0 <= y_lo,
            y_hi <= self.ny(),
        ensures
            self.rows_ms(y_lo, y_hi, 0, self.nx(), q, radius) == self.rows_ms(
                y_lo,
                y_hi,
                self.block_x_lo(q, radius),
                self.block_x_hi(q, radius),
                q,
                radius,
            ),
        decreases y_hi - y_lo,
    {
        let bxl = self.block_x_lo(q, radius);
        let bxh = self.block_x_hi(q, radius);
        self.lemma_block_bounds(q, radius);
        if y_hi > y_lo {
            self.lemma_rows_reduce(y_lo, y_hi - 1, q, radius);
            let cy = y_hi - 1;
            self.lemma_row_split(cy, 0, bxl, self.nx(), q, radius);
            self.lemma_row_split(cy, bxl, bxh, self.nx(), q, radius);
            self.lemma_row_outside_empty(cy, 0, bxl, q, radius);
            self.lemma_row_outside_empty(cy, bxh, self.nx(), q, radius);
            assert(self.row_ms(cy, 0, self.nx(), q, radius) =~= self.row_ms(
                cy,
                bxl,
                bxh,
                q,
                radius,
            ));
            assert(self.rows_ms(y_lo, y_hi, 0, self.nx(), q, radius) =~= self.rows_ms(
                y_lo,
                y_hi,
                bxl,
                bxh,
                q,
                radius,
            ));
        }
    }

    /// Scanning the clipped block gathers exactly the matches of the whole grid.
    proof fn lemma_block_collects_all(&self, q: (i64, i64), radius: i64)
        requires
            self.inv(),
            self.indexed(),
            pos_bounded(q),
            0 <= radius <= RADIUS_LIMIT,
        ensures
            self.cols_ms(
                self.block_x_lo(q, radius),
                self.block_x_hi(q, radius),
                self.block_y_lo(q, radius),
                self.block_y_hi(q, radius),
                q,
                radius,
            ) == matched_payloads(self.entries(), q, radius).to_multiset(),
    {
        let bxl = self.block_x_lo(q, radius);
        let bxh = self.block_x_hi(q, radius);
        let byl = self.block_y_lo(q, radius);
        let byh = self.block_y_hi(q, radius);
        let nx = self.nx();
        let ny = self.ny();
        self.lemma_block_bounds(q, radius);
        self.lemma_cols_rows_swap(bxl, bxh, byl, byh, q, radius);
        self.lemma_linear_prefix_rows(ny, 0, q, radius);
        assert(ny * nx == nx * ny) by (nonlinear_arith);
        assert(self.cell_views().take(ny * nx + 0) =~= self.cell_views());
        lemma_matched_concat_all(self.cell_views(), q, radius);
        assert(matched_payloads(self.entries(), q, radius).to_multiset() == self.rows_ms(
            0,
            ny,
            0,
            nx,
            q,
            radius,
        ).add(self.row_ms(ny, 0, 0, q, radius)));
        assert(self.rows_ms(0, ny, 0, nx, q, radius).add(self.row_ms(ny, 0, 0, q, radius))
            =~= self.rows_ms(0, ny, 0, nx, q, radius));
        self.lemma_rows_split(0, byl, ny, 0, nx, q, radius);
        self.lemma_rows_split(byl, byh, ny, 0, nx, q, radius);
        self.lemma_rows_outside_empty(0, byl, 0, nx, q, radius);
        self.lemma_rows_outside_empty(byh, ny, 0, nx, q, radius);
        self.lemma_rows_reduce(byl, byh, q, radius);
        assert(self.rows_ms(0, ny, 0, nx, q, radius) =~= self.rows_ms(byl, byh, bxl, bxh, q, radius));
    }
}

/// A matching in-domain position is bucketed inside the scanned block.
proof fn lemma_match_in_block<Data: Copy>(g: &Grid<Data>, q: (i64, i64), radius: i64, p: (i64, i64))
    requires
        g.inv(),
        pos_bounded(q),
        0 <= radius <= RADIUS_LIMIT,
        g.in_domain(p),
        pos_bounded(p),
        in_radius(p, q, radius),
    ensures
        g.block_x_lo(q, radius) <= g.cell_x_of(p.0 as int) < g.block_x_hi(q, radius),
        g.block_y_lo(q, radius) <= g.cell_y_of(p.1 as int) < g.block_y_hi(q, radius),
{
    lemma_dist_component_bound((p.0 - q.0) as int, (p.1 - q.1) as int, radius as int);
    lemma_cell_of_in_domain(g, p);
    lemma_axis_block(
        p.0 as int,
        q.0 as int,
        g.domain_x().0 as int,
        g.width(),
        g.nx(),
        radius as int,
    );
    lemma_axis_block(
        p.1 as int,
        q.1 as int,
        g.domain_y().0 as int,
        g.height(),
        g.ny(),
        radius as int,
    );
}

/// One-axis completeness: if `|e - qc| <= radius` and `e` is in the domain,
/// the cell of `e` lies within the clamped scan radius of the clamped center
/// cell.
proof fn lemma_axis_block(e: int, qc: int, lo: int, d: int, n: int, radius: int)
    requires
        d >= 1,
        n >= 1,
        radius >= 0,
        lo <= e < lo + d,
        -radius <= e - qc <= radius,
    ensures
        ({
            let ce = (e - lo) * n / d;
            let cq = clamped_cell((qc - lo) * n / d, n);
            let raw = (radius * n + d - 1) / d;
            let rr = if raw > n {
                n
            } else {
                raw
            };
            let b_lo = if cq - rr < 0 {
                0
            } else {
                cq - rr
            };
            let b_hi = if cq + rr + 1 > n {
                n
            } else {
                cq + rr + 1
            };
            b_lo <= ce < b_hi
        }),
{
    let u = (e - lo) * n;
    let v = (qc - lo) * n;
    let ce = u / d;
    let cqraw = v / d;
    let raw = (radius * n + d - 1) / d;
    lemma_axis_cell_in_range(e - lo, d, n);
    assert(-(radius * n) <= u - v <= radius * n) by (nonlinear_arith)
        requires
            u == (e - lo) * n,
            v == (qc - lo) * n,
            n >= 1,
            -radius <= e - qc <= radius,
    ;
    assert(radius * n >= 0) by (nonlinear_arith)
        requires
            radius >= 0,
            n >= 1,
    ;
    lemma_div_diff_bound(u, v, d, radius * n);
    // raw == ceil(radius*n / d) bound used by the difference lemma
    assert(cqraw - raw <= ce <= cqraw + raw);
    let cq = clamped_cell(cqraw, n);
    let rr = if raw > n {
        n
    } else {
        raw
    };
    if raw > n {
        // the scan covers the whole axis
        assert(0 <= ce < n);
        assert(0 <= cq <= n - 1);
    } else {
        // the clamp moves the center cell toward `ce`, never away past it
        assert(cq - rr <= ce <= cq + rr);
    }
}

impl<Data: Copy> Grid<Data> {
    /// A grid over the half-open domain `[x.0, x.1) x [y.0, y.1)` with
    /// `cell_count.0 x cell_count.1` cells, empty.
    pub fn new(x: (i64, i64), y: (i64, i64), cell_count: (usize, usize)) -> (result: Grid<Data>)
        requires
            -COORD_LIMIT <= x.0 < x.1 <= COORD_LIMIT,
            -COORD_LIMIT <= y.0 < y.1 <= COORD_LIMIT,
            1 <= cell_count.0 <= AXIS_CELL_LIMIT,
            1 <= cell_count.1 <= AXIS_CELL_LIMIT,
        ensures
            result.inv(),
            result.indexed(),
            result.entries() == Seq::<((i64, i64), Data)>::empty(),
            result.params() == (x, y, cell_count),
            forall|cx: int, cy: int|
                0 <= cx < result.nx() && 0 <= cy < result.ny()
                    ==> #[trigger] result.cell_entries(cx, cy) == Seq::<
                    ((i64, i64), Data),
                >::empty(),
            forall|p: (i64, i64)| #[trigger]
                result.in_domain(p) <==> (x.0 <= p.0 < x.1 && y.0 <= p.1 < y.1),
    {
        let cells = empty_cells::<Data>(cell_count.0, cell_count.1);
        let result = Grid { cells, cell_count, x, y, count: 0 };
        proof {
            lemma_concat_all_empty(result.cell_views());
            assert forall|cx: int, cy: int|
                0 <= cx < result.nx() && 0 <= cy < result.ny() implies #[trigger] result.cell_entries(
                cx,
                cy,
            ) == Seq::<((i64, i64), Data)>::empty() by {
                lemma_linear_index_in_range(cx, cy, result.nx(), result.ny());
                assert(result.cell_entries(cx, cy) =~= Seq::<((i64, i64), Data)>::empty());
            }
        }
        result
    }

    /// The entries bucketed in the cell with the given `(column, row)` index.
    pub fn cell(&self, indexes: (usize, usize)) -> (result: &Vec<((i64, i64), Data)>)
        requires
            self.inv(),
            indexes.0 < self.nx(),
            indexes.1 < self.ny(),
        ensures
            result@ == self.cell_entries(indexes.0 as int, indexes.1 as int),
    {
        proof {
            lemma_linear_index_in_range(
                indexes.0 as int,
                indexes.1 as int,
                self.nx(),
                self.ny(),
            );
            assert(self.nx() * self.ny() <= AXIS_CELL_LIMIT * AXIS_CELL_LIMIT)
                by (nonlinear_arith)
                requires
                    1 <= self.nx() <= AXIS_CELL_LIMIT,
                    1 <= self.ny() <= AXIS_CELL_LIMIT,
            ;
        }
        let li = indexes.0 + indexes.1 * self.cell_count.0;
        &self.cells[li]
    }

    /// The configured cell counts per axis.
    pub fn cell_count(&self) -> (result: (usize, usize))
        requires
            self.inv(),
        ensures
            result.0 as int == self.nx(),
            result.1 as int == self.ny(),
    {
        self.cell_count
    }

    /// The exact size of each cell, per axis, as a fraction: numerator the
    /// domain extent, denominator the cell count, so `(width, nx)` and
    /// `(height, ny)`.
    pub fn cell_size(&self) -> (result: ((i64, i64), (i64, i64)))
        requires
            self.inv(),
        ensures
            result.0 == (self.width() as i64, self.nx() as i64),
            result.1 == (self.height() as i64, self.ny() as i64),
    {
        (
            (self.x.1 - self.x.0, self.cell_count.0 as i64),
            (self.y.1 - self.y.0, self.cell_count.1 as i64),
        )
    }
}

/// `nx * ny` fresh empty cell buckets.
fn empty_cells<Data: Copy>(nx: usize, ny: usize) -> (result: Vec<Vec<((i64, i64), Data)>>)
    requires
        1 <= nx <= AXIS_CELL_LIMIT,
        1 <= ny <= AXIS_CELL_LIMIT,
    ensures
        result@.len() == nx * ny,
        forall|ci: int| 0 <= ci < result@.len() ==> (#[trigger] result@[ci])@.len() == 0,
{
    proof {
        assert(nx * ny <= AXIS_CELL_LIMIT * AXIS_CELL_LIMIT) by (nonlinear_arith)
            requires
                1 <= nx <= AXIS_CELL_LIMIT,
                1 <= ny <= AXIS_CELL_LIMIT,
        ;
    }
    let total = nx * ny;
    let mut cells: Vec<Vec<((i64, i64), Data)>> = Vec::new();
    let mut i: usize = 0;
    while i < total
        invariant
            i <= total,
            cells@.len() == i,
            forall|ci: int| 0 <= ci < cells@.len() ==> (#[trigger] cells@[ci])@.len() == 0,
        decreases total - i,
    {
        cells.push(Vec::new());
        i = i + 1;
    }
    cells
}

/// The cell that a coordinate selects along one axis, clamped into the grid:
/// `clamped_cell((p - lo) * n / (hi - lo), n)`.
fn axis_cell(p: i64, lo: i64, hi: i64, n: usize) -> (result: usize)
    requires
        -COORD_LIMIT <= lo < hi <= COORD_LIMIT,
        -COORD_LIMIT <= p <= COORD_LIMIT,
        1 <= n <= AXIS_CELL_LIMIT,
    ensures
        result < n,
        result as int == clamped_cell((p - lo) * (n as int) / (hi - lo), n as int),
        lo <= p < hi ==> result as int == (p - lo) * (n as int) / (hi - lo),
    no_unwind
{
    let d = hi - lo;
    if p < lo {
        proof {
            assert((p - lo) * (n as int) <= -1 * (n as int)) by (nonlinear_arith)
                requires
                    p - lo <= -1,
                    n >= 1,
            ;
            lemma_floor_neg((p - lo) * (n as int), d as int);
        }
        0
    } else {
        proof {
            lemma_abs_mul_bound(
                (p - lo) as int,
                n as int,
                2 * COORD_LIMIT as int,
                AXIS_CELL_LIMIT as int,
            );
        }
        let scaled = (p - lo) as u64 * (n as u64);
        let q = scaled / (d as u64);
        proof {
            assert(scaled == (p - lo) * (n as int));
            assert(q == (p - lo) * (n as int) / (d as int));
            assert(q >= 0);
            if lo <= p && p < hi {
                lemma_axis_cell_in_range((p - lo) as int, d as int, n as int);
            }
        }
        if q >= n as u64 {
            n - 1
        } else {
            q as usize
        }
    }
}

/// For an in-domain offset `0 <= v < d`, the scaled cell `v * n / d` lies in `[0, n)`.
proof fn lemma_axis_cell_in_range(v: int, d: int, n: int)
    requires
        0 <= v < d,
        d >= 1,
        n >= 1,
    ensures
        0 <= v * n / d < n,
{
    assert(0 <= v * n) by (nonlinear_arith)
        requires
            v >= 0,
            n >= 1,
    ;
    assert(v * n <= (d - 1) * n) by (nonlinear_arith)
        requires
            v <= d - 1,
            n >= 1,
    ;
    lemma_floor_bounds(v * n, d);
    let q = v * n / d;
    if q < 0 {
        assert(d * q <= -d) by (nonlinear_arith)
            requires
                d >= 1,
                q <= -1,
        ;
    }
    if q >= n {
        assert(d * q >= d * n) by (nonlinear_arith)
            requires
                d >= 1,
                q >= n,
        ;
        assert(d * n > (d - 1) * n) by (nonlinear_arith)
            requires
                n >= 1,
        ;
    }
}

/// A valid `(cx, cy)` pair gives a linear index below `nx * ny`.
proof fn lemma_linear_index_in_range(cx: int, cy: int, nx: int, ny: int)
    by (nonlinear_arith)
    requires
        0 <= cx < nx,
        0 <= cy < ny,
    ensures
        0 <= cx + cy * nx < nx * ny,
{
}

/// An in-domain position selects a cell inside the grid, and clamping is the
/// identity on it.
pub proof fn lemma_cell_of_in_domain<Data: Copy>(grid: &Grid<Data>, p: (i64, i64))
    requires
        grid.inv(),
        grid.in_domain(p),
    ensures
        0 <= grid.cell_x_of(p.0 as int) < grid.nx(),
        0 <= grid.cell_y_of(p.1 as int) < grid.ny(),
        0 <= grid.cell_index_of(p) < grid.nx() * grid.ny(),
        clamped_cell(grid.cell_x_of(p.0 as int), grid.nx()) == grid.cell_x_of(p.0 as int),
        clamped_cell(grid.cell_y_of(p.1 as int), grid.ny()) == grid.cell_y_of(p.1 as int),
{
    lemma_axis_cell_in_range((p.0 - grid.domain_x().0) as int, grid.width(), grid.nx());
    lemma_axis_cell_in_range((p.1 - grid.domain_y().0) as int, grid.height(), grid.ny());
    lemma_linear_index_in_range(
        grid.cell_x_of(p.0 as int),
        grid.cell_y_of(p.1 as int),
        grid.nx(),
        grid.ny(),
    );
}

/// How the grid partitions its entries among its cells: `entries()` is the
/// row-major concatenation of the cell contents, each `(cx, cy)` pair
/// addresses the cell at linear index `cx + cy * nx`, and in an indexed grid
/// every entry of a cell is an in-domain entry whose position selects exactly
/// that cell.
pub proof fn lemma_cells_partition<Data: Copy>(grid: &Grid<Data>)
    requires
        grid.inv(),
    ensures
        grid.entries() == concat_seqs(grid.cell_views()),
        grid.cell_views().len() == grid.nx() * grid.ny(),
        forall|cx: int, cy: int|
            0 <= cx < grid.nx() && 0 <= cy < grid.ny() ==> #[trigger] grid.cell_entries(cx, cy)
                == grid.cell_views()[cx + cy * grid.nx()],
        grid.indexed() ==> forall|cx: int, cy: int, k: int|
            0 <= cx < grid.nx() && 0 <= cy < grid.ny() && 0 <= k < grid.cell_entries(
                cx,
                cy,
            ).len() ==> {
                let p = (#[trigger] grid.cell_entries(cx, cy)[k]).0;
                grid.in_domain(p) && grid.cell_x_of(p.0 as int) == cx && grid.cell_y_of(
                    p.1 as int,
                ) == cy
            },
{
    assert forall|cx: int, cy: int|
        0 <= cx < grid.nx() && 0 <= cy < grid.ny() implies #[trigger] grid.cell_entries(cx, cy)
        == grid.cell_views()[cx + cy * grid.nx()] by {
        lemma_linear_index_in_range(cx, cy, grid.nx(), grid.ny());
    }
    if grid.indexed() {
        assert forall|cx: int, cy: int, k: int|
            0 <= cx < grid.nx() && 0 <= cy < grid.ny() && 0 <= k < grid.cell_entries(
                cx,
                cy,
            ).len() implies {
            let p = (#[trigger] grid.cell_entries(cx, cy)[k]).0;
            grid.in_domain(p) && grid.cell_x_of(p.0 as int) == cx && grid.cell_y_of(p.1 as int)
                == cy
        } by {
            lemma_linear_index_in_range(cx, cy, grid.nx(), grid.ny());
            let li = cx + cy * grid.nx();
            assert(grid.cells@[li]@[k] == grid.cell_entries(cx, cy)[k]);
            let p = grid.cell_entries(cx, cy)[k].0;
            lemma_cell_of_in_domain(grid, p);
            lemma_row_major_unique(
                grid.cell_x_of(p.0 as int),
                grid.cell_y_of(p.1 as int),
                cx,
                cy,
                grid.nx(),
            );
        }
    }
}

/// A grid holding no entries has every cell empty: what `clear` leaves behind
/// and what `Grid::new` starts from.
pub proof fn lemma_empty_grid_cells<Data: Copy>(grid: &Grid<Data>)
    requires
        grid.inv(),
        grid.entries().len() == 0,
    ensures
        forall|cx: int, cy: int|
            0 <= cx < grid.nx() && 0 <= cy < grid.ny() ==> #[trigger] grid.cell_entries(cx, cy)
                == Seq::<((i64, i64), Data)>::empty(),
{
    lemma_concat_parts_empty(grid.cell_views());
    assert forall|cx: int, cy: int|
        0 <= cx < grid.nx() && 0 <= cy < grid.ny() implies #[trigger] grid.cell_entries(cx, cy)
        == Seq::<((i64, i64), Data)>::empty() by {
        lemma_linear_index_in_range(cx, cy, grid.nx(), grid.ny());
        let li = cx + cy * grid.nx();
        assert(grid.cell_views()[li].len() == 0);
        assert(grid.cell_entries(cx, cy) == grid.cell_views()[li]);
        assert(grid.cell_entries(cx, cy) =~= Seq::<((i64, i64), Data)>::empty());
    }
}

/// An empty concatenation has only empty parts.
proof fn lemma_concat_parts_empty<T>(parts: Seq<Seq<T>>)
    requires
        concat_seqs(parts).len() == 0,
    ensures
        forall|i: int| 0 <= i < parts.len() ==> (#[trigger] parts[i]).len() == 0,
    decreases parts.len(),
{
    if parts.len() > 0 {
        lemma_concat_parts_empty(parts.drop_last());
        assert forall|i: int| 0 <= i < parts.len() implies (#[trigger] parts[i]).len() == 0 by {
            if i < parts.len() - 1 {
                assert(parts.drop_last()[i] == parts[i]);
            } else {
                assert(parts[i] == parts.last());
            }
        }
    }
}

/// Pushing one entry onto one part adds exactly that entry to the concatenation.
proof fn lemma_concat_update_push<T>(parts: Seq<Seq<T>>, i: int, e: T)
    requires
        0 <= i < parts.len(),
    ensures
        concat_seqs(parts.update(i, parts[i].push(e))).to_multiset() == concat_seqs(
            parts,
        ).to_multiset().insert(e),
    decreases parts.len(),
{
    let updated = parts.update(i, parts[i].push(e));
    if i == parts.len() - 1 {
        assert(updated.drop_last() =~= parts.drop_last());
        assert(updated.last() == parts.last().push(e));
        lemma_to_multiset_concat(concat_seqs(parts.drop_last()), parts.last().push(e));
        lemma_to_multiset_concat(concat_seqs(parts.drop_last()), parts.last());
        parts.last().to_multiset_ensures();
        assert(concat_seqs(updated).to_multiset() =~= concat_seqs(parts).to_multiset().insert(e));
    } else {
        assert(updated.drop_last() =~= parts.drop_last().update(i, parts.drop_last()[i].push(e)));
        assert(updated.last() == parts.last());
        lemma_concat_update_push(parts.drop_last(), i, e);
        lemma_to_multiset_concat(
            concat_seqs(parts.drop_last().update(i, parts.drop_last()[i].push(e))),
            parts.last(),
        );
        lemma_to_multiset_concat(concat_seqs(parts.drop_last()), parts.last());
        assert(concat_seqs(updated).to_multiset() =~= concat_seqs(parts).to_multiset().insert(e));
    }
}

/// Concatenating all-empty parts gives the empty sequence.
proof fn lemma_concat_all_empty<T>(parts: Seq<Seq<T>>)
    requires
        forall|i: int| 0 <= i < parts.len() ==> (#[trigger] parts[i]).len() == 0,
    ensures
        concat_seqs(parts) == Seq::<T>::empty(),
    decreases parts.len(),
{
    if parts.len() > 0 {
        lemma_concat_all_empty(parts.drop_last());
        assert(concat_seqs(parts) =~= Seq::<T>::empty());
    }
}

} // verus!
