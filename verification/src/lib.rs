//! Spatial partitioning structures over a bounded planar region.
//!
//! Three index structures answer circular range queries ("every payload within
//! `radius` of a center") over points inserted one at a time:
//!
//! - [`list::List`]: an unindexed store that scans every entry; the correctness
//!   oracle the other two are measured against.
//! - [`grid::Grid`]: a uniform bucket grid over a rectangular domain.
//! - [`quad_tree::QuadTree`]: an adaptive quadtree with capacity-triggered
//!   subdivision.
//!
//! Positions are integer coordinate pairs. Cell and node geometry is kept as
//! exact rationals (integer numerators over integer denominators), so every
//! containment and distance comparison the structures make is exact.

use vstd::prelude::*;

pub mod grid;
pub mod laws;
pub mod list;
pub mod quad_tree;
pub mod spatial_hash;
mod util;

verus! {

/// Positions and domain bounds are kept within this magnitude so that every
/// squared-distance and scaled-cell comparison fits the machine integers used.
pub const COORD_LIMIT: i64 = 16_777_216;

/// Query radii are kept within this magnitude for the same reason.
pub const RADIUS_LIMIT: i64 = 67_108_864;

/// Upper bound on the number of grid cells along one axis.
pub const AXIS_CELL_LIMIT: usize = 4096;

/// Whether a position is within the coordinate magnitude the structures accept.
pub open spec fn pos_bounded(p: (i64, i64)) -> bool {
    -COORD_LIMIT <= p.0 <= COORD_LIMIT && -COORD_LIMIT <= p.1 <= COORD_LIMIT
}

/// Squared Euclidean distance between two positions.
pub open spec fn dist_sq(a: (i64, i64), b: (i64, i64)) -> int {
    (a.0 - b.0) * (a.0 - b.0) + (a.1 - b.1) * (a.1 - b.1)
}

/// Whether `p` lies within `radius` of `center`. The comparison is non-strict,
/// so a point at exactly the radius is included.
pub open spec fn in_radius(p: (i64, i64), center: (i64, i64), radius: i64) -> bool {
    dist_sq(p, center) <= (radius as int) * (radius as int)
}

/// The payloads of the entries lying within `radius` of `center`, in entry order.
pub open spec fn matched_payloads<Data>(
    entries: Seq<((i64, i64), Data)>,
    center: (i64, i64),
    radius: i64,
) -> Seq<Data>
    decreases entries.len(),
{
    if entries.len() == 0 {
        Seq::empty()
    } else if in_radius(entries.last().0, center, radius) {
        matched_payloads(entries.drop_last(), center, radius).push(entries.last().1)
    } else {
        matched_payloads(entries.drop_last(), center, radius)
    }
}

/// The payloads of all entries, in entry order.
pub open spec fn payloads_of<Data>(entries: Seq<((i64, i64), Data)>) -> Seq<Data>
    decreases entries.len(),
{
    if entries.len() == 0 {
        Seq::empty()
    } else {
        payloads_of(entries.drop_last()).push(entries.last().1)
    }
}

/// The concatenation of a sequence of sequences, in order.
pub open spec fn concat_seqs<T>(seqs: Seq<Seq<T>>) -> Seq<T>
    decreases seqs.len(),
{
    if seqs.len() == 0 {
        Seq::empty()
    } else {
        concat_seqs(seqs.drop_last()) + seqs.last()
    }
}

/// The one failure a checked insert can report: the position lies outside the
/// structure's half-open domain.
#[derive(Clone, Copy, Debug, PartialEq, Eq, Structural)]
pub enum InsertError {
    OutOfBounds,
}

/// The contract shared by every index structure in this crate.
///
/// An implementation stores entries (a position with a payload), counts them,
/// empties itself while keeping its geometry, and answers circular range
/// queries. `entries()` is the structure's abstract content, `inv()` its
/// well-formedness, `in_domain()` its half-open domain, and `indexed()` says
/// that every stored entry sits in the cell or node its position selects --
/// true after any run of checked inserts, possibly false once an unchecked
/// insert has violated the domain.
pub trait SpatialPartitioner<Data: Copy> {
    /// The configuration a structure of this implementation is built with:
    /// its domain and its resolution or capacity parameters.
    type Params;

    /// The structure's configuration. Fixed at construction and, as every
    /// mutating method ensures, unchanged for the structure's lifetime:
    /// geometry persists across inserts and across `clear`.
    spec fn params(&self) -> Self::Params;

    /// The stored entries, in the structure's own storage order.
    spec fn entries(&self) -> Seq<((i64, i64), Data)>;

    /// Structural well-formedness: established by constructors, preserved by
    /// every method.
    spec fn inv(&self) -> bool;

    /// Every stored entry lies where its position points. Queries are exact
    /// only on structures with this property; a domain-violating unchecked
    /// insert may break it.
    spec fn indexed(&self) -> bool;

    /// Whether a position lies inside the structure's half-open domain.
    spec fn in_domain(&self, position: (i64, i64)) -> bool;

    /// Checked insert: stores the entry, or fails with
    /// [`InsertError::OutOfBounds`] exactly when the position is outside the
    /// domain, leaving the structure unchanged.
    fn insert(&mut self, position: (i64, i64), data: Data) -> (result: Result<(), InsertError>)
        requires
            old(self).inv(),
            pos_bounded(position),
            old(self).entries().len() < usize::MAX,
        ensures
            final(self).inv(),
            result is Ok <==> old(self).in_domain(position),
            result is Ok ==> final(self).entries().to_multiset()
                == old(self).entries().to_multiset().insert((position, data)),
            result is Ok ==> final(self).entries().len() == old(self).entries().len() + 1,
            result is Ok && old(self).indexed() ==> final(self).indexed(),
            result is Err ==> final(self).entries() == old(self).entries()
                && (final(self).indexed() <==> old(self).indexed()),
            final(self).params() == old(self).params(),
            forall|p: (i64, i64)| #[trigger] final(self).in_domain(p) <==> old(self).in_domain(p),
    ;

    /// Unchecked insert: always stores the entry. A position outside the
    /// domain is accepted, but may leave the structure no longer `indexed()`.
    fn insert_unchecked(&mut self, position: (i64, i64), data: Data)
        requires
            old(self).inv(),
            pos_bounded(position),
            old(self).entries().len() < usize::MAX,
        ensures
            final(self).inv(),
            final(self).entries().to_multiset() == old(self).entries().to_multiset().insert(
                (position, data),
            ),
            final(self).entries().len() == old(self).entries().len() + 1,
            old(self).indexed() && old(self).in_domain(position) ==> final(self).indexed(),
            final(self).params() == old(self).params(),
            forall|p: (i64, i64)| #[trigger] final(self).in_domain(p) <==> old(self).in_domain(p),
    ;

    /// The number of entries stored since construction or the last `clear`.
    fn count(&self) -> (result: usize)
        requires
            self.inv(),
        ensures
            result == self.entries().len(),
    ;

    /// Empties the structure; the domain and every geometry parameter persist.
    fn clear(&mut self)
        requires
            old(self).inv(),
        ensures
            final(self).inv(),
            final(self).indexed(),
            final(self).entries() == Seq::<((i64, i64), Data)>::empty(),
            final(self).params() == old(self).params(),
            forall|p: (i64, i64)| #[trigger] final(self).in_domain(p) <==> old(self).in_domain(p),
    ;

    /// Every payload whose stored position lies within `radius` of `position`
    /// (non-strict), as a multiset: order is unspecified, duplicates appear as
    /// often as matching entries were inserted.
    fn in_circle(&self, position: (i64, i64), radius: i64) -> (result: Vec<Data>)
        requires
            self.inv(),
            pos_bounded(position),
            0 <= radius <= RADIUS_LIMIT,
        ensures
            self.indexed() ==> result@.to_multiset() == matched_payloads(
                self.entries(),
                position,
                radius,
            ).to_multiset(),
    ;
}

} // verus!
