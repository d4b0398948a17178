//! The adaptive quadtree.

use vstd::prelude::*;

verus! {

use vstd::multiset::Multiset;

use crate::laws::{
    lemma_matched_all, lemma_matched_concat, lemma_matched_none, lemma_multiset_insert_members,
    lemma_payloads_concat, lemma_to_multiset_concat,
};
use crate::util::{
    in_range, lemma_abs_mul_bound, lemma_dist_component_bound, lemma_interval_square_max,
    lemma_mul_le, lemma_mul_pos_le, lemma_mul_two,
};
use crate::{
    in_radius, matched_payloads, payloads_of, pos_bounded, InsertError, SpatialPartitioner,
    COORD_LIMIT, RADIUS_LIMIT,
};

broadcast use vstd::multiset::group_multiset_axioms;

/// Node geometry denominators are capped here: a node whose denominator can no
/// longer double never subdivides, so every scaled comparison stays within the
/// machine integers used.
const SCALE_LIMIT: i64 = 8_589_934_592;

/// Adaptive hierarchical index over a half-open rectangular domain
/// `[x.0, x.1) x [y.0, y.1)`: dense regions subdivide into four quadrants once
/// a node has accumulated `capacity` entries. A node that has split keeps the
/// entries it held at split time; only later inserts are routed to children.
pub struct QuadTree<Data: Copy> {
    node: QuadTreeNode<Data>,
    min_size: Option<i64>,
    capacity: u16,
    x: (i64, i64),
    y: (i64, i64),
    count: usize,
}

/// The four quadrants of a split node, in quadrant order SW, NW, SE, NE.
struct QuadTreeChildren<Data: Copy> {
    sw: QuadTreeNode<Data>,
    nw: QuadTreeNode<Data>,
    se: QuadTreeNode<Data>,
    ne: QuadTreeNode<Data>,
}

/// One node: retained entries plus geometry. The node covers the closed
/// rectangle with center `(cx, cy) / scale` and half-extent
/// `(sx, sy) / scale`; keeping the denominator explicit makes every halving
/// exact.
struct QuadTreeNode<Data: Copy> {
    data: Vec<((i64, i64), Data)>,
    capacity: u16,
    is_min_size: bool,
    nodes: Option<Box<QuadTreeChildren<Data>>>,
    cx: i64,
    cy: i64,
    sx: i64,
    sy: i64,
    scale: i64,
}

impl<Data: Copy> QuadTreeNode<Data> {
    /// All entries of this subtree: the node's own retained entries first,
    /// then each quadrant's, in quadrant order.
    spec fn subtree_entries(&self) -> Seq<((i64, i64), Data)>
        decreases *self,
    {
        match self.nodes {
            None => self.data@,
            Some(ch) => self.data@ + ch.sw.subtree_entries() + ch.nw.subtree_entries()
                + ch.se.subtree_entries() + ch.ne.subtree_entries(),
        }
    }

    /// The geometry a quadrant child must have: double denominator, same
    /// half-extent numerators, center shifted by one half-extent in the
    /// quadrant's direction (`dx`, `dy` in `{-1, 1}`).
    spec fn child_geometry(&self, child: QuadTreeNode<Data>, dx: int, dy: int) -> bool {
        &&& child.scale == 2 * self.scale
        &&& child.sx == self.sx
        &&& child.sy == self.sy
        &&& child.cx == 2 * self.cx + dx * self.sx
        &&& child.cy == 2 * self.cy + dy * self.sy
    }

    /// Structural well-formedness: geometry within bounds, every quadrant a
    /// quarter of its parent, and a node that can no longer halve exactly
    /// marked as at minimum size. The literal `16_777_216` is `COORD_LIMIT`,
    /// written out so that its products with `scale` stay linear for the
    /// solver.
    spec fn wf(&self) -> bool
        decreases *self,
    {
        &&& 1 <= self.scale <= SCALE_LIMIT
        &&& 1 <= self.sx
        &&& 1 <= self.sy
        &&& -16_777_216 * self.scale <= self.cx - self.sx
        &&& self.cx + self.sx <= 16_777_216 * self.scale
        &&& -16_777_216 * self.scale <= self.cy - self.sy
        &&& self.cy + self.sy <= 16_777_216 * self.scale
        &&& (!self.is_min_size ==> 2 * self.scale <= SCALE_LIMIT)
        &&& (forall|k: int| 0 <= k < self.data@.len() ==> pos_bounded((#[trigger] self.data@[k]).0))
        &&& match self.nodes {
            None => true,
            Some(ch) => {
                &&& self.child_geometry(ch.sw, -1, -1)
                &&& self.child_geometry(ch.nw, -1, 1)
                &&& self.child_geometry(ch.se, 1, -1)
                &&& self.child_geometry(ch.ne, 1, 1)
                &&& ch.sw.wf()
                &&& ch.nw.wf()
                &&& ch.se.wf()
                &&& ch.ne.wf()
            },
        }
    }

    /// The quadrant a position classifies to, relative to this node's center.
    /// A coordinate equal to the center routes to the greater-or-equal side.
    spec fn quadrant_of(&self, p: (i64, i64)) -> int {
        if self.cx > p.0 * self.scale {
            if self.cy > p.1 * self.scale {
                0
            } else {
                1
            }
        } else {
            if self.cy > p.1 * self.scale {
                2
            } else {
                3
            }
        }
    }

    /// Whether a position lies in this node's closed rectangle.
    spec fn in_rect(&self, p: (i64, i64)) -> bool {
        &&& self.cx - self.sx <= p.0 * self.scale <= self.cx + self.sx
        &&& self.cy - self.sy <= p.1 * self.scale <= self.cy + self.sy
    }

    /// Every entry lies in the rectangle of the node holding it, and in the
    /// quadrant of the child subtree holding it. Checked inserts keep this;
    /// an unchecked insert outside the domain may break it.
    spec fn placed(&self) -> bool
        decreases *self,
    {
        &&& (forall|k: int| 0 <= k < self.data@.len() ==> self.in_rect((#[trigger] self.data@[k]).0))
        &&& match self.nodes {
            None => true,
            Some(ch) => {
                &&& ch.sw.placed()
                &&& ch.nw.placed()
                &&& ch.se.placed()
                &&& ch.ne.placed()
                &&& (forall|k: int|
                    0 <= k < ch.sw.subtree_entries().len() ==> self.quadrant_of(
                        (#[trigger] ch.sw.subtree_entries()[k]).0,
                    ) == 0)
                &&& (forall|k: int|
                    0 <= k < ch.nw.subtree_entries().len() ==> self.quadrant_of(
                        (#[trigger] ch.nw.subtree_entries()[k]).0,
                    ) == 1)
                &&& (forall|k: int|
                    0 <= k < ch.se.subtree_entries().len() ==> self.quadrant_of(
                        (#[trigger] ch.se.subtree_entries()[k]).0,
                    ) == 2)
                &&& (forall|k: int|
                    0 <= k < ch.ne.subtree_entries().len() ==> self.quadrant_of(
                        (#[trigger] ch.ne.subtree_entries()[k]).0,
                    ) == 3)
            },
        }
    }

    /// Whether the corner with scaled coordinates `(ax, ay)` (numerators over
    /// this node's denominator) lies within `radius` of `q`: the distance
    /// condition cleared of the denominator.
    spec fn corner_within(&self, ax: int, ay: int, q: (i64, i64), radius: i64) -> bool {
        let dx = q.0 * self.scale - ax;
        let dy = q.1 * self.scale - ay;
        dx * dx + dy * dy <= ((radius * radius) * self.scale) * self.scale
    }

    /// Whether all four corners of this node's rectangle lie within `radius`
    /// of `q` -- then the whole rectangle does.
    spec fn box_enclosed(&self, q: (i64, i64), radius: i64) -> bool {
        &&& self.corner_within(self.cx - self.sx, self.cy + self.sy, q, radius)
        &&& self.corner_within(self.cx + self.sx, self.cy + self.sy, q, radius)
        &&& self.corner_within(self.cx - self.sx, self.cy - self.sy, q, radius)
        &&& self.corner_within(self.cx + self.sx, self.cy - self.sy, q, radius)
    }

    /// A fresh childless node with the given geometry. It is marked at
    /// minimum size when a configured floor stops subdivision here, or when
    /// the denominator can no longer double.
    fn new_node(
        cx: i64,
        cy: i64,
        sx: i64,
        sy: i64,
        scale: i64,
        capacity: u16,
        min_size: Option<i64>,
    ) -> (result: QuadTreeNode<Data>)
        requires
            1 <= scale <= SCALE_LIMIT,
            1 <= sx,
            1 <= sy,
            -16_777_216 * scale <= cx - sx,
            cx + sx <= 16_777_216 * scale,
            -16_777_216 * scale <= cy - sy,
            cy + sy <= 16_777_216 * scale,
        ensures
            result.wf(),
            result.placed(),
            result.subtree_entries() == Seq::<((i64, i64), Data)>::empty(),
            result.cx == cx,
            result.cy == cy,
            result.sx == sx,
            result.sy == sy,
            result.scale == scale,
            result.capacity == capacity,
            result.nodes is None,
    {
        let mut is_min = false;
        match min_size {
            None => {},
            Some(m) => {
                proof {
                    lemma_abs_mul_bound(
                        m as int,
                        scale as int,
                        0x8000_0000_0000_0000,
                        8_589_934_592,
                    );
                }
                // half-extent <= floor, per axis: sx / scale <= m, exactly
                if (sx as i128) <= (m as i128) * (scale as i128) || (sy as i128) <= (m as i128)
                    * (scale as i128) {
                    is_min = true;
                }
            },
        }
        if scale > SCALE_LIMIT / 2 {
            is_min = true;
        }
        QuadTreeNode {
            data: Vec::new(),
            capacity,
            is_min_size: is_min,
            nodes: None,
            cx,
            cy,
            sx,
            sy,
            scale,
        }
    }

    /// The quadrant a position routes to.
    fn get_index(&self, location: (i64, i64)) -> (result: usize)
        requires
            self.wf(),
            // wide enough for the corners of a query's bounding square
            -83_886_080 <= location.0 <= 83_886_080,
            -83_886_080 <= location.1 <= 83_886_080,
        ensures
            result == self.quadrant_of(location),
            result < 4,
    {
        proof {
            lemma_abs_mul_bound(
                location.0 as int,
                self.scale as int,
                83_886_080,
                8_589_934_592,
            );
            lemma_abs_mul_bound(
                location.1 as int,
                self.scale as int,
                83_886_080,
                8_589_934_592,
            );
        }
        let px = location.0 as i128 * self.scale as i128;
        let py = location.1 as i128 * self.scale as i128;
        if (self.cx as i128) > px {
            if (self.cy as i128) > py {
                0
            } else {
                1
            }
        } else {
            if (self.cy as i128) > py {
                2
            } else {
                3
            }
        }
    }

    /// Exact test of one rectangle corner against the query circle.
    fn corner_test(&self, ax: i64, ay: i64, location: (i64, i64), radius: i64) -> (res: bool)
        requires
            self.wf(),
            pos_bounded(location),
            0 <= radius <= RADIUS_LIMIT,
            -16_777_216 * self.scale <= ax <= 16_777_216 * self.scale,
            -16_777_216 * self.scale <= ay <= 16_777_216 * self.scale,
        ensures
            res == self.corner_within(ax as int, ay as int, location, radius),
    {
        proof {
            lemma_abs_mul_bound(
                location.0 as int,
                self.scale as int,
                16_777_216,
                8_589_934_592,
            );
            lemma_abs_mul_bound(
                location.1 as int,
                self.scale as int,
                16_777_216,
                8_589_934_592,
            );
        }
        let dx = location.0 as i128 * self.scale as i128 - ax as i128;
        let dy = location.1 as i128 * self.scale as i128 - ay as i128;
        proof {
            // |dx|, |dy| <= 2 * COORD_LIMIT * SCALE_LIMIT
            lemma_abs_mul_bound(dx as int, dx as int, 0x8_0000_0000_0000_00, 0x8_0000_0000_0000_00);
            lemma_abs_mul_bound(dy as int, dy as int, 0x8_0000_0000_0000_00, 0x8_0000_0000_0000_00);
            lemma_abs_mul_bound(radius as int, radius as int, 67_108_864, 67_108_864);
            lemma_abs_mul_bound(
                radius as int * radius as int,
                self.scale as int,
                4_503_599_627_370_496,
                8_589_934_592,
            );
            lemma_abs_mul_bound(
                (radius as int * radius as int) * self.scale as int,
                self.scale as int,
                0x8_0000_0000_0000_0000_0000_00,
                8_589_934_592,
            );
        }
        dx * dx + dy * dy <= ((radius as i128 * radius as i128) * self.scale as i128)
            * self.scale as i128
    }

    /// Whether this node's whole rectangle lies within the query circle.
    fn in_box(&self, location: (i64, i64), radius: i64) -> (res: bool)
        requires
            self.wf(),
            pos_bounded(location),
            0 <= radius <= RADIUS_LIMIT,
        ensures
            res == self.box_enclosed(location, radius),
    {
        if self.corner_test(self.cx - self.sx, self.cy + self.sy, location, radius)
            && self.corner_test(self.cx + self.sx, self.cy + self.sy, location, radius)
            && self.corner_test(self.cx - self.sx, self.cy - self.sy, location, radius)
            && self.corner_test(self.cx + self.sx, self.cy - self.sy, location, radius) {
            return true;
        }
        false
    }

    /// Appends the entry: to the retained list while the node is a leaf --
    /// splitting into four empty quadrants once the list reaches capacity on
    /// a node that may still subdivide -- and to the routed quadrant once the
    /// node has split.
    fn insert(&mut self, location: (i64, i64), data: Data, min_size: Option<i64>)
        requires
            old(self).wf(),
            pos_bounded(location),
        ensures
            final(self).wf(),
            final(self).subtree_entries().to_multiset() == old(
                self,
            ).subtree_entries().to_multiset().insert((location, data)),
            final(self).cx == old(self).cx,
            final(self).cy == old(self).cy,
            final(self).sx == old(self).sx,
            final(self).sy == old(self).sy,
            final(self).scale == old(self).scale,
            old(self).placed() && old(self).in_rect(location) ==> final(self).placed(),
        decreases *old(self),
    {
        proof {
            self.subtree_entries().to_multiset_ensures();
        }
        if self.nodes.is_none() {
            let ghost before = *self;
            self.data.push((location, data));
            proof {
                assert(self.subtree_entries() =~= before.subtree_entries().push(
                    (location, data),
                ));
            }
            if !self.is_min_size && self.data.len() >= self.capacity as usize {
                let children = QuadTreeChildren {
                    sw: QuadTreeNode::new_node(
                        2 * self.cx - self.sx,
                        2 * self.cy - self.sy,
                        self.sx,
                        self.sy,
                        2 * self.scale,
                        self.capacity,
                        min_size,
                    ),
                    nw: QuadTreeNode::new_node(
                        2 * self.cx - self.sx,
                        2 * self.cy + self.sy,
                        self.sx,
                        self.sy,
                        2 * self.scale,
                        self.capacity,
                        min_size,
                    ),
                    se: QuadTreeNode::new_node(
                        2 * self.cx + self.sx,
                        2 * self.cy - self.sy,
                        self.sx,
                        self.sy,
                        2 * self.scale,
                        self.capacity,
                        min_size,
                    ),
                    ne: QuadTreeNode::new_node(
                        2 * self.cx + self.sx,
                        2 * self.cy + self.sy,
                        self.sx,
                        self.sy,
                        2 * self.scale,
                        self.capacity,
                        min_size,
                    ),
                };
                let ghost split_from = *self;
                self.nodes = Some(Box::new(children));
                proof {
                    assert(self.subtree_entries() =~= split_from.subtree_entries());
                }
            }
        } else {
            let i = self.get_index(location);
            let ghost before = *self;
            let mut taken = self.nodes.take().unwrap();
            let ghost old_child = if i == 0 {
                taken.sw
            } else if i == 1 {
                taken.nw
            } else if i == 2 {
                taken.se
            } else {
                taken.ne
            };
            if i == 0 {
                taken.sw.insert(location, data, min_size);
            } else if i == 1 {
                taken.nw.insert(location, data, min_size);
            } else if i == 2 {
                taken.se.insert(location, data, min_size);
            } else {
                taken.ne.insert(location, data, min_size);
            }
            self.nodes = Some(taken);
            proof {
                let och = before.nodes->Some_0;
                let nch = self.nodes->Some_0;
                lemma_concat5_tm(
                    before.data@,
                    och.sw.subtree_entries(),
                    och.nw.subtree_entries(),
                    och.se.subtree_entries(),
                    och.ne.subtree_entries(),
                );
                lemma_concat5_tm(
                    self.data@,
                    nch.sw.subtree_entries(),
                    nch.nw.subtree_entries(),
                    nch.se.subtree_entries(),
                    nch.ne.subtree_entries(),
                );
                assert(self.subtree_entries().to_multiset() =~= before.subtree_entries().to_multiset().insert(
                    (location, data),
                ));
                if before.placed() && before.in_rect(location) {
                    lemma_routed_in_child_rect(&before, location, i as int);
                    let changed = if i == 0 {
                        nch.sw
                    } else if i == 1 {
                        nch.nw
                    } else if i == 2 {
                        nch.se
                    } else {
                        nch.ne
                    };
                    lemma_multiset_insert_members(
                        old_child.subtree_entries(),
                        changed.subtree_entries(),
                        (location, data),
                    );
                    assert forall|k: int|
                        0 <= k < changed.subtree_entries().len() implies self.quadrant_of(
                        (#[trigger] changed.subtree_entries()[k]).0,
                    ) == i as int by {
                        let e = changed.subtree_entries()[k];
                        if e != (location, data) {
                            assert(old_child.subtree_entries().contains(e));
                            let k0 = choose|k0: int|
                                0 <= k0 < old_child.subtree_entries().len()
                                    && old_child.subtree_entries()[k0] == e;
                            assert(before.quadrant_of(old_child.subtree_entries()[k0].0)
                                == i as int);
                        }
                    }
                    assert(self.placed());
                }
            }
        }
    }
}

impl<Data: Copy> QuadTreeNode<Data> {
    /// Gathers this subtree's matches into `data_vec`. In enclosed mode the
    /// whole subtree is known to lie within the circle and every payload is
    /// appended without further tests. In boundary mode retained entries are
    /// tested one by one -- though a dense node whose whole rectangle lies
    /// within the circle switches to enclosed mode -- and recursion visits
    /// only the quadrants that the corners of the query's bounding square
    /// classify to.
    #[verifier::rlimit(80)]
    fn in_circle(
        &self,
        position: (i64, i64),
        radius: i64,
        data_vec: &mut Vec<Data>,
        enclosed: bool,
    )
        requires
            self.wf(),
            pos_bounded(position),
            0 <= radius <= RADIUS_LIMIT,
        ensures
            final(data_vec)@.len() >= old(data_vec)@.len(),
            final(data_vec)@.subrange(0, old(data_vec)@.len() as int) == old(data_vec)@,
            enclosed ==> final(data_vec)@ == old(data_vec)@ + payloads_of(self.subtree_entries()),
            !enclosed && self.placed() ==> final(data_vec)@.skip(
                old(data_vec)@.len() as int,
            ).to_multiset() == matched_payloads(
                self.subtree_entries(),
                position,
                radius,
            ).to_multiset(),
        decreases *self,
    {
        let ghost v0 = data_vec@;
        if enclosed || (self.data.len() > 4 && self.in_box(position, radius)) {
            push_all(&self.data, data_vec);
            match &self.nodes {
                None => {
                    proof {
                        assert(data_vec@.subrange(0, v0.len() as int) =~= v0);
                        assert(data_vec@.skip(v0.len() as int) =~= payloads_of(
                            self.subtree_entries(),
                        ));
                    }
                },
                Some(ch) => {
                    let ghost v1 = data_vec@;
                    ch.sw.in_circle(position, radius, data_vec, true);
                    ch.nw.in_circle(position, radius, data_vec, true);
                    ch.se.in_circle(position, radius, data_vec, true);
                    ch.ne.in_circle(position, radius, data_vec, true);
                    proof {
                        lemma_payloads_concat5(
                            self.data@,
                            ch.sw.subtree_entries(),
                            ch.nw.subtree_entries(),
                            ch.se.subtree_entries(),
                            ch.ne.subtree_entries(),
                        );
                        assert(data_vec@ =~= v0 + payloads_of(self.subtree_entries()));
                        assert(data_vec@.subrange(0, v0.len() as int) =~= v0);
                        assert(data_vec@.skip(v0.len() as int) =~= payloads_of(
                            self.subtree_entries(),
                        ));
                    }
                },
            }
            proof {
                if !enclosed && self.placed() {
                    lemma_subtree_in_rect(self);
                    assert forall|k: int|
                        0 <= k < self.subtree_entries().len() implies in_radius(
                        (#[trigger] self.subtree_entries()[k]).0,
                        position,
                        radius,
                    ) by {
                        lemma_node_enclosed(self, position, radius, self.subtree_entries()[k].0);
                    }
                    lemma_matched_all(self.subtree_entries(), position, radius);
                }
            }
        } else {
            push_matched(&self.data, position, radius, data_vec);
            let ghost v1 = data_vec@;
            proof {
                assert(v1 =~= v0 + matched_payloads(self.data@, position, radius));
            }
            match &self.nodes {
                None => {
                    proof {
                        assert(data_vec@.subrange(0, v0.len() as int) =~= v0);
                        assert(data_vec@.skip(v0.len() as int) =~= matched_payloads(
                            self.subtree_entries(),
                            position,
                            radius,
                        ));
                    }
                },
                Some(ch) => {
                    let lx = position.0 - radius;
                    let hx = position.0 + radius;
                    let ly = position.1 - radius;
                    let hy = position.1 + radius;
                    let i1 = self.get_index((lx, ly));
                    let i2 = self.get_index((lx, hy));
                    let i3 = self.get_index((hx, ly));
                    let i4 = self.get_index((hx, hy));
                    let b0 = i1 == 0 || i2 == 0 || i3 == 0 || i4 == 0;
                    let b1 = i1 == 1 || i2 == 1 || i3 == 1 || i4 == 1;
                    let b2 = i1 == 2 || i2 == 2 || i3 == 2 || i4 == 2;
                    let b3 = i1 == 3 || i2 == 3 || i3 == 3 || i4 == 3;
                    if b0 {
                        ch.sw.in_circle(position, radius, data_vec, false);
                    }
                    let ghost v2 = data_vec@;
                    if b1 {
                        ch.nw.in_circle(position, radius, data_vec, false);
                    }
                    let ghost v3 = data_vec@;
                    if b2 {
                        ch.se.in_circle(position, radius, data_vec, false);
                    }
                    let ghost v4 = data_vec@;
                    if b3 {
                        ch.ne.in_circle(position, radius, data_vec, false);
                    }
                    let ghost v5 = data_vec@;
                    proof {
                        let s0 = v2.skip(v1.len() as int);
                        let s1 = v3.skip(v2.len() as int);
                        let s2 = v4.skip(v3.len() as int);
                        let s3 = v5.skip(v4.len() as int);
                        assert(v2 =~= v1 + s0);
                        assert(v3 =~= v2 + s1);
                        assert(v4 =~= v3 + s2);
                        assert(v5 =~= v4 + s3);
                        assert(data_vec@.subrange(0, v0.len() as int) =~= v0);
                        if self.placed() {
                            let m = matched_payloads(self.data@, position, radius);
                            let m0 = matched_payloads(ch.sw.subtree_entries(), position, radius);
                            let m1 = matched_payloads(ch.nw.subtree_entries(), position, radius);
                            let m2 = matched_payloads(ch.se.subtree_entries(), position, radius);
                            let m3 = matched_payloads(ch.ne.subtree_entries(), position, radius);
                            assert(ch.sw.placed() && ch.nw.placed() && ch.se.placed()
                                && ch.ne.placed());
                            assert(lx == (position.0 - radius) as i64);
                            assert(hx == (position.0 + radius) as i64);
                            assert(ly == (position.1 - radius) as i64);
                            assert(hy == (position.1 + radius) as i64);
                            if !b0 {
                                lemma_quadrant_unmatched(self, &ch.sw, 0, position, radius);
                                assert(s0 =~= m0);
                            }
                            if !b1 {
                                lemma_quadrant_unmatched(self, &ch.nw, 1, position, radius);
                                assert(s1 =~= m1);
                            }
                            if !b2 {
                                lemma_quadrant_unmatched(self, &ch.se, 2, position, radius);
                                assert(s2 =~= m2);
                            }
                            if !b3 {
                                lemma_quadrant_unmatched(self, &ch.ne, 3, position, radius);
                                assert(s3 =~= m3);
                            }
                            assert(s0.to_multiset() == m0.to_multiset());
                            assert(s1.to_multiset() == m1.to_multiset());
                            assert(s2.to_multiset() == m2.to_multiset());
                            assert(s3.to_multiset() == m3.to_multiset());
                            lemma_matched_concat5(
                                self.data@,
                                ch.sw.subtree_entries(),
                                ch.nw.subtree_entries(),
                                ch.se.subtree_entries(),
                                ch.ne.subtree_entries(),
                                position,
                                radius,
                            );
                            lemma_concat5_tm(m, m0, m1, m2, m3);
                            let suffix = v5.skip(v0.len() as int);
                            assert(suffix =~= m + s0 + s1 + s2 + s3);
                            lemma_concat5_tm(m, s0, s1, s2, s3);
                            assert(suffix.to_multiset() == matched_payloads(
                                self.subtree_entries(),
                                position,
                                radius,
                            ).to_multiset());
                        }
                    }
                },
            }
        }
    }
}

impl<Data: Copy> QuadTree<Data> {
    /// A quadtree over the half-open domain `[x.0, x.1) x [y.0, y.1)` whose
    /// nodes split once they retain `capacity` entries.
    pub fn new(x: (i64, i64), y: (i64, i64), capacity: u16) -> (result: QuadTree<Data>)
        requires
            -COORD_LIMIT <= x.0 < x.1 <= COORD_LIMIT,
            -COORD_LIMIT <= y.0 < y.1 <= COORD_LIMIT,
        ensures
            result.inv(),
            result.indexed(),
            result.entries() == Seq::<((i64, i64), Data)>::empty(),
            result.params() == (x, y, capacity, None::<i64>),
            forall|p: (i64, i64)| #[trigger]
                result.in_domain(p) <==> (x.0 <= p.0 < x.1 && y.0 <= p.1 < y.1),
    {
        let node = QuadTreeNode::new_node(
            x.0 + x.1,
            y.0 + y.1,
            x.1 - x.0,
            y.1 - y.0,
            2,
            capacity,
            None,
        );
        QuadTree { node, min_size: None, capacity, x, y, count: 0 }
    }

    /// Like [`QuadTree::new`], with a floor on node half-extents: a node at or
    /// below `min_size` stops subdividing and retains entries beyond capacity.
    pub fn new_min_size(x: (i64, i64), y: (i64, i64), capacity: u16, min_size: i64) -> (result:
        QuadTree<Data>)
        requires
            -COORD_LIMIT <= x.0 < x.1 <= COORD_LIMIT,
            -COORD_LIMIT <= y.0 < y.1 <= COORD_LIMIT,
        ensures
            result.inv(),
            result.indexed(),
            result.entries() == Seq::<((i64, i64), Data)>::empty(),
            result.params() == (x, y, capacity, Some(min_size)),
            forall|p: (i64, i64)| #[trigger]
                result.in_domain(p) <==> (x.0 <= p.0 < x.1 && y.0 <= p.1 < y.1),
    {
        let mut tree = Self::new(x, y, capacity);
        let ghost opened = tree;
        tree.min_size = Some(min_size);
        proof {
            assert forall|p: (i64, i64)| #[trigger]
                tree.in_domain(p) <==> (x.0 <= p.0 < x.1 && y.0 <= p.1 < y.1) by {
                assert(opened.in_domain(p) <==> (x.0 <= p.0 < x.1 && y.0 <= p.1 < y.1));
                assert(tree.x == opened.x && tree.y == opened.y);
            }
        }
        tree
    }
}

impl<Data: Copy> SpatialPartitioner<Data> for QuadTree<Data> {
    // the domain ranges, the node capacity, and the optional half-extent floor
    type Params = ((i64, i64), (i64, i64), u16, Option<i64>);

    closed spec fn params(&self) -> ((i64, i64), (i64, i64), u16, Option<i64>) {
        (self.x, self.y, self.capacity, self.min_size)
    }

    closed spec fn entries(&self) -> Seq<((i64, i64), Data)> {
        self.node.subtree_entries()
    }

    closed spec fn inv(&self) -> bool {
        &&& -COORD_LIMIT <= self.x.0 < self.x.1 <= COORD_LIMIT
        &&& -COORD_LIMIT <= self.y.0 < self.y.1 <= COORD_LIMIT
        &&& self.count == self.node.subtree_entries().len()
        &&& self.node.wf()
        &&& self.node.scale == 2
        &&& self.node.cx == self.x.0 + self.x.1
        &&& self.node.cy == self.y.0 + self.y.1
        &&& self.node.sx == self.x.1 - self.x.0
        &&& self.node.sy == self.y.1 - self.y.0
    }

    closed spec fn indexed(&self) -> bool {
        self.node.placed()
    }

    closed spec fn in_domain(&self, position: (i64, i64)) -> bool {
        self.x.0 <= position.0 < self.x.1 && self.y.0 <= position.1 < self.y.1
    }

    fn insert(&mut self, position: (i64, i64), data: Data) -> (result: Result<(), InsertError>) {
        if position.0 < self.x.0 || position.0 >= self.x.1 || position.1 < self.y.0
            || position.1 >= self.y.1 {
            Err(InsertError::OutOfBounds)
        } else {
            self.insert_unchecked(position, data);
            Ok(())
        }
    }

    fn insert_unchecked(&mut self, position: (i64, i64), data: Data) {
        let ghost before = *self;
        self.count = self.count + 1;
        self.node.insert(position, data, self.min_size);
        proof {
            before.node.subtree_entries().to_multiset_ensures();
            self.node.subtree_entries().to_multiset_ensures();
            assert(self.node.subtree_entries().len() == before.node.subtree_entries().len() + 1);
            if before.indexed() && before.in_domain(position) {
                assert(position.0 as int * before.node.scale == 2 * position.0) by (nonlinear_arith)
                    requires
                        before.node.scale == 2,
                ;
                assert(position.1 as int * before.node.scale == 2 * position.1) by (nonlinear_arith)
                    requires
                        before.node.scale == 2,
                ;
                assert(before.node.in_rect(position));
            }
        }
    }

    fn count(&self) -> (result: usize) {
        self.count
    }

    fn clear(&mut self) {
        let node = QuadTreeNode::new_node(
            self.x.0 + self.x.1,
            self.y.0 + self.y.1,
            self.x.1 - self.x.0,
            self.y.1 - self.y.0,
            2,
            self.capacity,
            self.min_size,
        );
        self.node = node;
        self.count = 0;
    }

    fn in_circle(&self, position: (i64, i64), radius: i64) -> (result: Vec<Data>) {
        let mut found: Vec<Data> = Vec::new();
        self.node.in_circle(position, radius, &mut found, false);
        proof {
            if self.indexed() {
                assert(found@.skip(0) =~= found@);
            }
        }
        found
    }
}

/// Appends every payload, in entry order.
fn push_all<Data: Copy>(entries: &Vec<((i64, i64), Data)>, out: &mut Vec<Data>)
    ensures
        final(out)@ == old(out)@ + payloads_of(entries@),
{
    proof {
        assert(old(out)@ + payloads_of(entries@.take(0)) =~= old(out)@);
    }
    let mut k: usize = 0;
    while k < entries.len()
        invariant
            k <= entries@.len(),
            out@ == old(out)@ + payloads_of(entries@.take(k as int)),
        decreases entries@.len() - k,
    {
        proof {
            assert(entries@.take(k + 1).drop_last() =~= entries@.take(k as int));
            assert(entries@.take(k + 1).last() == entries@[k as int]);
            assert(old(out)@ + payloads_of(entries@.take(k + 1)) =~= (old(out)@ + payloads_of(
                entries@.take(k as int),
            )).push(entries@[k as int].1));
        }
        let e = entries[k];
        out.push(e.1);
        k = k + 1;
    }
    proof {
        assert(entries@.take(entries@.len() as int) =~= entries@);
    }
}

/// Appends each payload whose entry passes the distance test, in entry order.
fn push_matched<Data: Copy>(
    entries: &Vec<((i64, i64), Data)>,
    position: (i64, i64),
    radius: i64,
    out: &mut Vec<Data>,
)
    requires
        pos_bounded(position),
        0 <= radius <= RADIUS_LIMIT,
        forall|k: int| 0 <= k < entries@.len() ==> pos_bounded((#[trigger] entries@[k]).0),
    ensures
        final(out)@ == old(out)@ + matched_payloads(entries@, position, radius),
{
    proof {
        assert(old(out)@ + matched_payloads(entries@.take(0), position, radius) =~= old(out)@);
    }
    let mut k: usize = 0;
    while k < entries.len()
        invariant
            pos_bounded(position),
            0 <= radius <= RADIUS_LIMIT,
            forall|i: int| 0 <= i < entries@.len() ==> pos_bounded((#[trigger] entries@[i]).0),
            k <= entries@.len(),
            out@ == old(out)@ + matched_payloads(entries@.take(k as int), position, radius),
        decreases entries@.len() - k,
    {
        proof {
            assert(entries@.take(k + 1).drop_last() =~= entries@.take(k as int));
            assert(entries@.take(k + 1).last() == entries@[k as int]);
            if in_radius(entries@[k as int].0, position, radius) {
                assert(old(out)@ + matched_payloads(entries@.take(k + 1), position, radius)
                    =~= (old(out)@ + matched_payloads(entries@.take(k as int), position, radius)).push(
                    entries@[k as int].1,
                ));
            } else {
                assert(old(out)@ + matched_payloads(entries@.take(k + 1), position, radius)
                    =~= old(out)@ + matched_payloads(entries@.take(k as int), position, radius));
            }
        }
        let e = entries[k];
        if in_range(e.0, position, radius) {
            out.push(e.1);
        }
        k = k + 1;
    }
    proof {
        assert(entries@.take(entries@.len() as int) =~= entries@);
    }
}

/// `payloads_of` over a five-part concatenation.
proof fn lemma_payloads_concat5<Data>(
    a: Seq<((i64, i64), Data)>,
    b: Seq<((i64, i64), Data)>,
    c: Seq<((i64, i64), Data)>,
    d: Seq<((i64, i64), Data)>,
    e: Seq<((i64, i64), Data)>,
)
    ensures
        payloads_of(a + b + c + d + e) == payloads_of(a) + payloads_of(b) + payloads_of(c)
            + payloads_of(d) + payloads_of(e),
{
    lemma_payloads_concat(a, b);
    lemma_payloads_concat(a + b, c);
    lemma_payloads_concat(a + b + c, d);
    lemma_payloads_concat(a + b + c + d, e);
}

/// `matched_payloads` over a five-part concatenation.
proof fn lemma_matched_concat5<Data>(
    a: Seq<((i64, i64), Data)>,
    b: Seq<((i64, i64), Data)>,
    c: Seq<((i64, i64), Data)>,
    d: Seq<((i64, i64), Data)>,
    e: Seq<((i64, i64), Data)>,
    position: (i64, i64),
    radius: i64,
)
    ensures
        matched_payloads(a + b + c + d + e, position, radius) == matched_payloads(
            a,
            position,
            radius,
        ) + matched_payloads(b, position, radius) + matched_payloads(c, position, radius)
            + matched_payloads(d, position, radius) + matched_payloads(e, position, radius),
{
    lemma_matched_concat(a, b, position, radius);
    lemma_matched_concat(a + b, c, position, radius);
    lemma_matched_concat(a + b + c, d, position, radius);
    lemma_matched_concat(a + b + c + d, e, position, radius);
}

/// Under `wf` and `placed`, every entry of a subtree lies in the subtree
/// root's closed rectangle.
proof fn lemma_subtree_in_rect<Data: Copy>(n: &QuadTreeNode<Data>)
    requires
        n.wf(),
        n.placed(),
    ensures
        forall|k: int|
            0 <= k < n.subtree_entries().len() ==> n.in_rect(
                (#[trigger] n.subtree_entries()[k]).0,
            ),
    decreases *n,
{
    match n.nodes {
        None => {},
        Some(ch) => {
            lemma_subtree_in_rect(&ch.sw);
            lemma_subtree_in_rect(&ch.nw);
            lemma_subtree_in_rect(&ch.se);
            lemma_subtree_in_rect(&ch.ne);
            assert forall|k: int|
                0 <= k < n.subtree_entries().len() implies n.in_rect(
                (#[trigger] n.subtree_entries()[k]).0,
            ) by {
                let a = n.data@;
                let s0 = ch.sw.subtree_entries();
                let s1 = ch.nw.subtree_entries();
                let s2 = ch.se.subtree_entries();
                let s3 = ch.ne.subtree_entries();
                let p = n.subtree_entries()[k].0;
                if k < a.len() {
                } else if k < a.len() + s0.len() {
                    assert(ch.sw.in_rect(p));
                    lemma_child_rect_within(n, &ch.sw, p);
                } else if k < a.len() + s0.len() + s1.len() {
                    assert(ch.nw.in_rect(p));
                    lemma_child_rect_within(n, &ch.nw, p);
                } else if k < a.len() + s0.len() + s1.len() + s2.len() {
                    assert(ch.se.in_rect(p));
                    lemma_child_rect_within(n, &ch.se, p);
                } else {
                    assert(ch.ne.in_rect(p));
                    lemma_child_rect_within(n, &ch.ne, p);
                }
            }
        },
    }
}

/// A quadrant child's rectangle lies within its parent's.
proof fn lemma_child_rect_within<Data: Copy>(
    parent: &QuadTreeNode<Data>,
    child: &QuadTreeNode<Data>,
    p: (i64, i64),
)
    requires
        child.scale == 2 * parent.scale,
        child.sx == parent.sx,
        child.sy == parent.sy,
        child.cx == 2 * parent.cx - parent.sx || child.cx == 2 * parent.cx + parent.sx,
        child.cy == 2 * parent.cy - parent.sy || child.cy == 2 * parent.cy + parent.sy,
        child.in_rect(p),
    ensures
        parent.in_rect(p),
{
    lemma_mul_two(p.0 as int, parent.scale as int);
    lemma_mul_two(p.1 as int, parent.scale as int);
}

/// Four in-radius corners enclose the node: any position in its rectangle
/// lies within the radius.
proof fn lemma_node_enclosed<Data: Copy>(
    n: &QuadTreeNode<Data>,
    q: (i64, i64),
    radius: i64,
    p: (i64, i64),
)
    requires
        n.wf(),
        0 <= radius <= RADIUS_LIMIT,
        n.box_enclosed(q, radius),
        n.in_rect(p),
    ensures
        in_radius(p, q, radius),
{
    let s = n.scale as int;
    let u = p.0 * s;
    let v = p.1 * s;
    let qx = q.0 * s;
    let qy = q.1 * s;
    lemma_interval_square_max(qx, n.cx - n.sx, n.cx + n.sx, u);
    lemma_interval_square_max(qy, n.cy - n.sy, n.cy + n.sy, v);
    let sx2 = (qx - u) * (qx - u);
    let sy2 = (qy - v) * (qy - v);
    let bound = ((radius * radius) * s) * s;
    assert(sx2 + sy2 <= bound) by {
        let mx = if sx2 <= (qx - (n.cx - n.sx)) * (qx - (n.cx - n.sx)) {
            (qx - (n.cx - n.sx)) * (qx - (n.cx - n.sx))
        } else {
            (qx - (n.cx + n.sx)) * (qx - (n.cx + n.sx))
        };
        let my = if sy2 <= (qy - (n.cy - n.sy)) * (qy - (n.cy - n.sy)) {
            (qy - (n.cy - n.sy)) * (qy - (n.cy - n.sy))
        } else {
            (qy - (n.cy + n.sy)) * (qy - (n.cy + n.sy))
        };
        assert(mx + my <= bound);
    }
    let dx = p.0 - q.0;
    let dy = p.1 - q.1;
    assert(qx - u == (q.0 - p.0) * s) by (nonlinear_arith)
        requires
            u == p.0 * s,
            qx == q.0 * s,
    ;
    assert(qy - v == (q.1 - p.1) * s) by (nonlinear_arith)
        requires
            v == p.1 * s,
            qy == q.1 * s,
    ;
    assert(sx2 == (dx * dx) * (s * s)) by (nonlinear_arith)
        requires
            qx - u == (q.0 - p.0) * s,
            sx2 == (qx - u) * (qx - u),
            dx == p.0 - q.0,
    ;
    assert(sy2 == (dy * dy) * (s * s)) by (nonlinear_arith)
        requires
            qy - v == (q.1 - p.1) * s,
            sy2 == (qy - v) * (qy - v),
            dy == p.1 - q.1,
    ;
    assert(sx2 + sy2 == (dx * dx + dy * dy) * (s * s)) by (nonlinear_arith)
        requires
            sx2 == (dx * dx) * (s * s),
            sy2 == (dy * dy) * (s * s),
    ;
    assert(bound == (radius * radius) * (s * s)) by (nonlinear_arith)
        requires
            bound == ((radius * radius) * s) * s,
    ;
    assert(s * s > 0) by (nonlinear_arith)
        requires
            s >= 1,
    ;
    lemma_mul_pos_le(dx * dx + dy * dy, radius * radius, s * s);
}

/// A matching position classifying to quadrant `j` puts one of the corners of
/// the query's bounding square into quadrant `j` as well.
proof fn lemma_corner_selects<Data: Copy>(
    n: &QuadTreeNode<Data>,
    q: (i64, i64),
    radius: i64,
    p: (i64, i64),
    j: int,
)
    requires
        n.wf(),
        pos_bounded(q),
        0 <= radius <= RADIUS_LIMIT,
        n.quadrant_of(p) == j,
        in_radius(p, q, radius),
    ensures
        n.quadrant_of(((q.0 - radius) as i64, (q.1 - radius) as i64)) == j || n.quadrant_of(
            ((q.0 - radius) as i64, (q.1 + radius) as i64),
        ) == j || n.quadrant_of(((q.0 + radius) as i64, (q.1 - radius) as i64)) == j
            || n.quadrant_of(((q.0 + radius) as i64, (q.1 + radius) as i64)) == j,
{
    lemma_dist_component_bound((p.0 - q.0) as int, (p.1 - q.1) as int, radius as int);
    let s = n.scale as int;
    let lx = (q.0 - radius) as i64;
    let hx = (q.0 + radius) as i64;
    let ly = (q.1 - radius) as i64;
    let hy = (q.1 + radius) as i64;
    lemma_mul_le(lx as int, p.0 as int, s);
    lemma_mul_le(p.0 as int, hx as int, s);
    lemma_mul_le(ly as int, p.1 as int, s);
    lemma_mul_le(p.1 as int, hy as int, s);
    let cornx = if n.cx > p.0 * s {
        lx
    } else {
        hx
    };
    let corny = if n.cy > p.1 * s {
        ly
    } else {
        hy
    };
    assert(n.quadrant_of((cornx, corny)) == j);
}

/// An unselected quadrant of a placed node holds no matching entries.
proof fn lemma_quadrant_unmatched<Data: Copy>(
    n: &QuadTreeNode<Data>,
    child: &QuadTreeNode<Data>,
    j: int,
    position: (i64, i64),
    radius: i64,
)
    requires
        n.wf(),
        n.placed(),
        pos_bounded(position),
        0 <= radius <= RADIUS_LIMIT,
        n.nodes is Some,
        (j == 0 && *child == n.nodes->Some_0.sw) || (j == 1 && *child == n.nodes->Some_0.nw) || (j
            == 2 && *child == n.nodes->Some_0.se) || (j == 3 && *child == n.nodes->Some_0.ne),
        n.quadrant_of(((position.0 - radius) as i64, (position.1 - radius) as i64)) != j,
        n.quadrant_of(((position.0 - radius) as i64, (position.1 + radius) as i64)) != j,
        n.quadrant_of(((position.0 + radius) as i64, (position.1 - radius) as i64)) != j,
        n.quadrant_of(((position.0 + radius) as i64, (position.1 + radius) as i64)) != j,
    ensures
        matched_payloads(child.subtree_entries(), position, radius) == Seq::<Data>::empty(),
{
    assert forall|k: int|
        0 <= k < child.subtree_entries().len() implies !in_radius(
        (#[trigger] child.subtree_entries()[k]).0,
        position,
        radius,
    ) by {
        let p = child.subtree_entries()[k].0;
        assert(n.quadrant_of(p) == j);
        if in_radius(p, position, radius) {
            lemma_corner_selects(n, position, radius, p, j);
        }
    }
    lemma_matched_none(child.subtree_entries(), position, radius);
}

/// The multiset of a five-part concatenation is the sum of the parts'.
proof fn lemma_concat5_tm<T>(a: Seq<T>, b: Seq<T>, c: Seq<T>, d: Seq<T>, e: Seq<T>)
    ensures
        (a + b + c + d + e).to_multiset() == a.to_multiset().add(b.to_multiset()).add(
            c.to_multiset(),
        ).add(d.to_multiset()).add(e.to_multiset()),
{
    lemma_to_multiset_concat(a, b);
    lemma_to_multiset_concat(a + b, c);
    lemma_to_multiset_concat(a + b + c, d);
    lemma_to_multiset_concat(a + b + c + d, e);
}

/// A position inside a node's rectangle that classifies to quadrant `i` lies
/// inside that quadrant child's rectangle.
proof fn lemma_routed_in_child_rect<Data: Copy>(node: &QuadTreeNode<Data>, p: (i64, i64), i: int)
    requires
        node.wf(),
        node.nodes is Some,
        node.in_rect(p),
        node.quadrant_of(p) == i,
    ensures
        i == 0 ==> node.nodes->Some_0.sw.in_rect(p),
        i == 1 ==> node.nodes->Some_0.nw.in_rect(p),
        i == 2 ==> node.nodes->Some_0.se.in_rect(p),
        i == 3 ==> node.nodes->Some_0.ne.in_rect(p),
{
    lemma_mul_two(p.0 as int, node.scale as int);
    lemma_mul_two(p.1 as int, node.scale as int);
}

} // verus!
