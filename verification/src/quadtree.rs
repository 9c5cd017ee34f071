//! The region quadtree: a recursive spatial container that stores point
//! records, splits overflowing leaves into four quadrants, and answers
//! rectangle range queries with subtree pruning.

use vstd::prelude::*;
use vstd::multiset::Multiset;

use crate::geometry::COORD_LIMIT;
use crate::geometry::Point;
use crate::geometry::Rect;
use crate::geometry::lemma_mid_in_rect;
use crate::geometry::lemma_quadrants_shrink;
use crate::geometry::lemma_quadrants_wf;
use crate::geometry::lemma_quadrant_within;
use crate::geometry::lemma_quadrants_partition;
use crate::geometry::lemma_prune_safe;
use crate::geometry::quad_ne;
use crate::geometry::quad_nw;
use crate::geometry::quad_se;
use crate::geometry::quad_sw;
use crate::geometry::rect_atomic;
use crate::geometry::rect_covers;
use crate::geometry::rect_extent;
use crate::geometry::rect_from_center_size;
use crate::geometry::rect_meets;
use crate::geometry::rect_owns;
use crate::geometry::rect_region;
use crate::geometry::rect_splittable;
use crate::geometry::rect_wf;

verus! {

broadcast use vstd::seq_lib::group_to_multiset_ensures;

/// A stored point record: a grid coordinate plus the caller's opaque
/// payload handle. Identity is carried by the handle; coordinates may
/// repeat.
#[derive(Clone, Copy, PartialEq, Eq, Debug)]
pub struct TreeNode {
    pub position: Point,
    pub entity: Option<u64>,
}

impl TreeNode {
    /// Build a record from a payload handle and a coordinate pair.
    pub fn new(entity: Option<u64>, x: i64, y: i64) -> (node: TreeNode)
        ensures
            node.entity == entity,
            node.position == (Point { x, y }),
    {
        TreeNode { entity, position: Point { x, y } }
    }
}

/// The test a range query applies to a stored record: its coordinate is
/// covered (closed containment) by the query rectangle.
pub open spec fn covered_by(range: Rect) -> spec_fn(TreeNode) -> bool {
    |node: TreeNode| rect_covers(range, node.position)
}

/// A query's examined-record counter saturates at the largest `u64` rather
/// than overflowing.
pub open spec fn count_saturated(n: int) -> int {
    if n > u64::MAX {
        u64::MAX as int
    } else {
        n
    }
}

/// One node of the quadtree, owning a rectangular region. A leaf holds up
/// to `capacity` records in `children`; a subdivided node holds none
/// directly and owns four quadrant subtrees.
pub struct QuadTree {
    /// The records held directly by this node.
    pub children: Vec<TreeNode>,
    /// True once this node has split into four quadrants.
    pub subdivided: bool,
    /// The region this node owns (half-open on both axes).
    pub rect: Rect,
    /// The per-node record limit, identical across the whole tree.
    pub capacity: usize,
    pub north_east: Option<Box<QuadTree>>,
    pub north_west: Option<Box<QuadTree>>,
    pub south_east: Option<Box<QuadTree>>,
    pub south_west: Option<Box<QuadTree>>,
}

impl QuadTree {
    /// Every record stored anywhere in this subtree, depth first: this
    /// node's own records, then the north-east, north-west, south-east and
    /// south-west subtrees.
    pub open spec fn points_seq(self) -> Seq<TreeNode>
        decreases self, 1int,
    {
        self.children@ + self.kids_points_seq()
    }

    /// The records stored in the four quadrant subtrees, if they exist.
    pub open spec fn kids_points_seq(self) -> Seq<TreeNode>
        decreases self, 0int,
    {
        match (self.north_east, self.north_west, self.south_east, self.south_west) {
            (Some(ne), Some(nw), Some(se), Some(sw)) => ne.points_seq() + nw.points_seq()
                + se.points_seq() + sw.points_seq(),
            _ => Seq::empty(),
        }
    }

    /// What a range query returns: nothing when the query cannot cover any
    /// point of this node's region; otherwise the covered records held
    /// directly here, followed by the four quadrants' answers.
    pub open spec fn query_seq(self, range: Rect) -> Seq<TreeNode>
        decreases self, 1int,
    {
        if !rect_meets(self.rect, range) {
            Seq::empty()
        } else {
            self.children@.filter(covered_by(range)) + self.kids_query_seq(range)
        }
    }

    /// The concatenated answers of the four quadrant subtrees, if they
    /// exist.
    pub open spec fn kids_query_seq(self, range: Rect) -> Seq<TreeNode>
        decreases self, 0int,
    {
        match (self.north_east, self.north_west, self.south_east, self.south_west) {
            (Some(ne), Some(nw), Some(se), Some(sw)) => ne.query_seq(range) + nw.query_seq(range)
                + se.query_seq(range) + sw.query_seq(range),
            _ => Seq::empty(),
        }
    }

    /// How many records a query examines: one comparison for every record
    /// held by a node whose region the query meets.
    pub open spec fn examined(self, range: Rect) -> nat
        decreases self, 1int,
    {
        if !rect_meets(self.rect, range) {
            0
        } else {
            self.children@.len() + self.kids_examined(range)
        }
    }

    /// The comparisons made inside the four quadrant subtrees, if they
    /// exist.
    pub open spec fn kids_examined(self, range: Rect) -> nat
        decreases self, 0int,
    {
        match (self.north_east, self.north_west, self.south_east, self.south_west) {
            (Some(ne), Some(nw), Some(se), Some(sw)) => ne.examined(range) + nw.examined(range)
                + se.examined(range) + sw.examined(range),
            _ => 0,
        }
    }

    /// The region rectangle of every node in this subtree, depth first:
    /// this node's own, then the four quadrants'.
    pub open spec fn rects_seq(self) -> Seq<Rect>
        decreases self, 1int,
    {
        seq![self.rect] + self.kids_rects_seq()
    }

    /// The region rectangles of the four quadrant subtrees, if they exist.
    pub open spec fn kids_rects_seq(self) -> Seq<Rect>
        decreases self, 0int,
    {
        match (self.north_east, self.north_west, self.south_east, self.south_west) {
            (Some(ne), Some(nw), Some(se), Some(sw)) => ne.rects_seq() + nw.rects_seq()
                + se.rects_seq() + sw.rects_seq(),
            _ => Seq::empty(),
        }
    }

    /// Well-formedness of the whole subtree: bounds are sound, records lie
    /// in the region that holds them, a subdivided node keeps no records of
    /// its own and its children quarter its region exactly, and a leaf that
    /// could still split respects the capacity.
    pub open spec fn wf(self) -> bool
        decreases self, 1int,
    {
        &&& rect_wf(self.rect)
        &&& self.capacity >= 1
        &&& (forall|i: int|
            0 <= i < self.children@.len() ==> rect_owns(
                self.rect,
                #[trigger] self.children@[i].position,
            ))
        &&& self.kids_wf()
        &&& (self.subdivided ==> self.children@.len() == 0)
        &&& (!self.subdivided ==> self.children@.len() <= self.capacity || rect_atomic(self.rect))
    }

    /// The child-structure part of well-formedness: the four quadrant
    /// subtrees exist exactly when `subdivided` is set, cover the four
    /// quadrants of this node's region, inherit its capacity, and are
    /// themselves well-formed.
    pub open spec fn kids_wf(self) -> bool
        decreases self, 0int,
    {
        if self.subdivided {
            match (self.north_east, self.north_west, self.south_east, self.south_west) {
                (Some(ne), Some(nw), Some(se), Some(sw)) => {
                    &&& rect_splittable(self.rect)
                    &&& ne.rect == quad_ne(self.rect)
                    &&& nw.rect == quad_nw(self.rect)
                    &&& se.rect == quad_se(self.rect)
                    &&& sw.rect == quad_sw(self.rect)
                    &&& ne.capacity == self.capacity
                    &&& nw.capacity == self.capacity
                    &&& se.capacity == self.capacity
                    &&& sw.capacity == self.capacity
                    &&& ne.wf()
                    &&& nw.wf()
                    &&& se.wf()
                    &&& sw.wf()
                },
                _ => false,
            }
        } else {
            &&& self.north_east is None
            &&& self.north_west is None
            &&& self.south_east is None
            &&& self.south_west is None
        }
    }

    /// Build a tree bound to the world rectangle centred at `origin` with
    /// side lengths `size`, holding at most `capacity` records per node.
    pub fn new(origin: Point, size: Point, capacity: usize) -> (tree: QuadTree)
        requires
            capacity >= 1,
            -COORD_LIMIT / 2 <= origin.x <= COORD_LIMIT / 2,
            -COORD_LIMIT / 2 <= origin.y <= COORD_LIMIT / 2,
            0 <= size.x <= COORD_LIMIT / 2,
            0 <= size.y <= COORD_LIMIT / 2,
        ensures
            tree.wf(),
            tree.rect == rect_from_center_size(origin, size),
            tree.capacity == capacity,
            !tree.subdivided,
            tree.points_seq() == Seq::<TreeNode>::empty(),
    {
        let rect = Rect::from_center_size(origin, size);
        Self::new_segment(rect, capacity)
    }

    /// Build one empty leaf node over `rect`.
    fn new_segment(rect: Rect, capacity: usize) -> (segment: QuadTree)
        requires
            rect_wf(rect),
            capacity >= 1,
        ensures
            segment.wf(),
            segment.rect == rect,
            segment.capacity == capacity,
            !segment.subdivided,
            segment.children@ == Seq::<TreeNode>::empty(),
            segment.points_seq() == Seq::<TreeNode>::empty(),
    {
        let segment = QuadTree {
            children: Vec::new(),
            subdivided: false,
            rect,
            capacity,
            north_east: None,
            north_west: None,
            south_east: None,
            south_west: None,
        };
        proof {
            assert(segment.points_seq() =~= Seq::<TreeNode>::empty());
        }
        segment
    }

    /// Does this node's region own the coordinate?
    fn child_intersects(&self, point: &Point) -> (owned: bool)
        ensures
            owned == rect_owns(self.rect, *point),
    {
        self.rect.contains(point)
    }

    /// Concatenating four record sequences joins their multisets.
    proof fn lemma_concat4_multiset(a: Seq<TreeNode>, b: Seq<TreeNode>, c: Seq<TreeNode>, d: Seq<TreeNode>)
        ensures
            (a + b + c + d).to_multiset() == a.to_multiset().add(b.to_multiset()).add(
                c.to_multiset(),
            ).add(d.to_multiset()),
    {
        vstd::seq_lib::lemma_multiset_commutative(a, b);
        vstd::seq_lib::lemma_multiset_commutative(a + b, c);
        vstd::seq_lib::lemma_multiset_commutative(a + b + c, d);
    }

    /// Box up one new empty child segment that inherits this node's
    /// capacity.
    fn new_tree_segment(&self, rect: Rect) -> (segment: Option<Box<QuadTree>>)
        requires
            rect_wf(rect),
            self.capacity >= 1,
        ensures
            segment matches Some(seg) && seg.wf() && seg.rect == rect && seg.capacity
                == self.capacity && !seg.subdivided && seg.children@.len() == 0
                && seg.points_seq() == Seq::<TreeNode>::empty(),
    {
        Some(Box::new(Self::new_segment(rect, self.capacity)))
    }

    /// Split this leaf into four quadrant children and migrate every record
    /// it holds down into them. Atomic from the caller's point of view:
    /// afterwards the node is subdivided, holds no record directly, and the
    /// subtree stores exactly the records it stored before.
    fn subdivide_tree(&mut self)
        requires
            old(self).wf(),
            !old(self).subdivided,
            rect_splittable(old(self).rect),
        ensures
            final(self).wf(),
            final(self).subdivided,
            final(self).rect == old(self).rect,
            final(self).capacity == old(self).capacity,
            final(self).points_seq().to_multiset() == old(self).points_seq().to_multiset(),
        decreases rect_extent(old(self).rect), 3int,
    {
        let quads = self.rect.quadrants();
        proof {
            lemma_quadrants_wf(self.rect);
        }
        self.north_east = self.new_tree_segment(quads.0);
        self.north_west = self.new_tree_segment(quads.1);
        self.south_east = self.new_tree_segment(quads.2);
        self.south_west = self.new_tree_segment(quads.3);
        self.subdivided = true;
        proof {
            assert(self.kids_points_seq() =~= Seq::<TreeNode>::empty());
            assert(self.kids_points_seq().to_multiset() =~= Multiset::<TreeNode>::empty());
            assert(old(self).kids_points_seq() =~= Seq::<TreeNode>::empty());
            assert(old(self).points_seq() =~= old(self).children@);
        }
        self.reparent_children();
        proof {
            assert(self.points_seq() =~= self.kids_points_seq());
            assert(self.points_seq().to_multiset() =~= old(self).points_seq().to_multiset());
        }
    }

    /// Re-insert every record this node holds directly into its freshly
    /// created children, then clear the node's own list.
    fn reparent_children(&mut self)
        requires
            rect_wf(old(self).rect),
            old(self).capacity >= 1,
            old(self).subdivided,
            old(self).kids_wf(),
            forall|i: int|
                0 <= i < old(self).children@.len() ==> rect_owns(
                    old(self).rect,
                    #[trigger] old(self).children@[i].position,
                ),
        ensures
            final(self).kids_wf(),
            final(self).rect == old(self).rect,
            final(self).capacity == old(self).capacity,
            final(self).subdivided == old(self).subdivided,
            final(self).children@.len() == 0,
            final(self).kids_points_seq().to_multiset() == old(self).kids_points_seq().to_multiset().add(
                old(self).children@.to_multiset(),
            ),
        decreases rect_extent(old(self).rect), 2int,
    {
        let ghost orig = *self;
        let count: usize = self.children.len();
        let mut i: usize = 0;
        while i < count
            invariant
                orig == *old(self),
                i <= count,
                count == orig.children@.len(),
                orig.capacity >= 1,
                orig.subdivided,
                rect_wf(orig.rect),
                forall|j: int|
                    0 <= j < orig.children@.len() ==> rect_owns(
                        orig.rect,
                        #[trigger] orig.children@[j].position,
                    ),
                self.rect == orig.rect,
                self.capacity == orig.capacity,
                self.subdivided == orig.subdivided,
                self.children@ == orig.children@,
                self.kids_wf(),
                self.kids_points_seq().to_multiset() == orig.kids_points_seq().to_multiset().add(
                    orig.children@.subrange(0, i as int).to_multiset(),
                ),
            decreases count - i,
        {
            let node = self.children[i];
            self.insert_into_subdivision(&node);
            proof {
                assert(orig.children@.subrange(0, i + 1 as int) =~= orig.children@.subrange(
                    0,
                    i as int,
                ).push(node));
                assert(self.kids_points_seq().to_multiset() =~= orig.kids_points_seq().to_multiset().add(
                    orig.children@.subrange(0, i + 1 as int).to_multiset(),
                ));
            }
            i += 1;
        }
        proof {
            assert(orig.children@.subrange(0, count as int) =~= orig.children@);
        }
        self.children.clear();
    }

    /// Insert a record beneath a node that has already subdivided, by
    /// delegating to the single quadrant child that owns its coordinate.
    /// Never fails: the quadrants partition the node's region, so exactly
    /// one child claims the record.
    fn insert_into_subdivision(&mut self, child: &TreeNode) -> (inserted: bool)
        requires
            rect_wf(old(self).rect),
            old(self).capacity >= 1,
            old(self).subdivided,
            old(self).kids_wf(),
            rect_owns(old(self).rect, child.position),
        ensures
            inserted,
            final(self).kids_wf(),
            final(self).rect == old(self).rect,
            final(self).capacity == old(self).capacity,
            final(self).subdivided == old(self).subdivided,
            final(self).children@ == old(self).children@,
            final(self).kids_points_seq().to_multiset() == old(self).kids_points_seq().to_multiset().insert(
                *child,
            ),
        decreases rect_extent(old(self).rect), 1int,
    {
        let m = self.rect.midpoint();
        proof {
            lemma_mid_in_rect(self.rect);
            lemma_quadrants_shrink(self.rect);
        }
        let inserted: bool;
        if child.position.x >= m.x {
            if child.position.y >= m.y {
                let mut seg = self.north_east.take().unwrap();
                inserted = (&mut *seg).insert(child);
                self.north_east = Some(seg);
            } else {
                let mut seg = self.south_east.take().unwrap();
                inserted = (&mut *seg).insert(child);
                self.south_east = Some(seg);
            }
        } else {
            if child.position.y >= m.y {
                let mut seg = self.north_west.take().unwrap();
                inserted = (&mut *seg).insert(child);
                self.north_west = Some(seg);
            } else {
                let mut seg = self.south_west.take().unwrap();
                inserted = (&mut *seg).insert(child);
                self.south_west = Some(seg);
            }
        }
        proof {
            let old_ne = old(self).north_east.unwrap().points_seq();
            let old_nw = old(self).north_west.unwrap().points_seq();
            let old_se = old(self).south_east.unwrap().points_seq();
            let old_sw = old(self).south_west.unwrap().points_seq();
            let new_ne = self.north_east.unwrap().points_seq();
            let new_nw = self.north_west.unwrap().points_seq();
            let new_se = self.south_east.unwrap().points_seq();
            let new_sw = self.south_west.unwrap().points_seq();
            Self::lemma_concat4_multiset(old_ne, old_nw, old_se, old_sw);
            Self::lemma_concat4_multiset(new_ne, new_nw, new_se, new_sw);
            assert(self.kids_points_seq().to_multiset() =~= old(self).kids_points_seq().to_multiset().insert(
                *child,
            ));
        }
        inserted
    }

    /// Insert one record into the subtree. Returns `false` exactly when the
    /// record's coordinate lies outside this node's region, in which case
    /// the tree is unchanged; on success the stored records grow by exactly
    /// this record.
    pub fn insert(&mut self, child: &TreeNode) -> (inserted: bool)
        requires
            old(self).wf(),
        ensures
            final(self).wf(),
            final(self).rect == old(self).rect,
            final(self).capacity == old(self).capacity,
            inserted == rect_owns(old(self).rect, child.position),
            inserted ==> final(self).points_seq().to_multiset() == old(self).points_seq().to_multiset().insert(
                *child,
            ),
            inserted ==> final(self).points_seq().len() == old(self).points_seq().len() + 1,
            !inserted ==> *final(self) == *old(self),
            old(self).subdivided ==> final(self).subdivided,
            (inserted && !old(self).subdivided && (old(self).children@.len()
                < old(self).capacity || rect_atomic(old(self).rect))) ==> (!final(self).subdivided
                && final(self).children@ == old(self).children@.push(*child)),
            (inserted && !old(self).subdivided && old(self).children@.len()
                >= old(self).capacity && rect_splittable(old(self).rect))
                ==> (final(self).subdivided && final(self).children@.len() == 0),
        decreases rect_extent(old(self).rect), 4int,
    {
        if !self.child_intersects(&child.position) {
            return false;
        }
        if self.subdivided {
            let inserted = self.insert_into_subdivision(child);
            proof {
                assert(old(self).points_seq() =~= old(self).kids_points_seq());
                assert(self.points_seq() =~= self.kids_points_seq());
                assert(self.points_seq().to_multiset() =~= old(self).points_seq().to_multiset().insert(
                    *child,
                ));
                vstd::multiset::lemma_insert_len(old(self).points_seq().to_multiset(), *child);
                assert(self.points_seq().to_multiset().len() == self.points_seq().len());
                assert(old(self).points_seq().to_multiset().len() == old(self).points_seq().len());
            }
            return inserted;
        }
        if self.children.len() < self.capacity {
            self.children.push(*child);
            proof {
                assert(self.points_seq() =~= old(self).points_seq().push(*child));
            }
            return true;
        }
        if !self.rect.can_split() {
            // An atomic cell covers a single grid coordinate, so splitting
            // could never separate its records; it absorbs the overflow
            // beyond the nominal capacity instead of recursing forever.
            self.children.push(*child);
            proof {
                assert(self.points_seq() =~= old(self).points_seq().push(*child));
            }
            return true;
        }
        self.subdivide_tree();
        let ghost mid_state = *self;
        let inserted = self.insert_into_subdivision(child);
        proof {
            assert(mid_state.points_seq() =~= mid_state.kids_points_seq());
            assert(self.points_seq() =~= self.kids_points_seq());
            assert(self.points_seq().to_multiset() =~= old(self).points_seq().to_multiset().insert(
                *child,
            ));
            vstd::multiset::lemma_insert_len(old(self).points_seq().to_multiset(), *child);
            assert(self.points_seq().to_multiset().len() == self.points_seq().len());
            assert(old(self).points_seq().to_multiset().len() == old(self).points_seq().len());
        }
        inserted
    }

    /// Saturating counts compose: capping an already capped sum again
    /// gives the cap of the whole sum.
    proof fn lemma_count_saturated_chain(a: int, b: int)
        requires
            0 <= a,
            0 <= b,
        ensures
            count_saturated(count_saturated(a) + b) == count_saturated(a + b),
    {
    }

    /// Collect every record whose coordinate the query rectangle covers
    /// (closed containment), pruning subtrees whose region the query cannot
    /// reach. `count` grows by one per record examined, saturating instead
    /// of overflowing.
    pub fn query(&self, range: &Rect, count: &mut u64) -> (found: Vec<TreeNode>)
        ensures
            found@ == self.query_seq(*range),
            *final(count) == count_saturated(*old(count) + self.examined(*range)),
        decreases self,
    {
        let mut found: Vec<TreeNode> = Vec::new();
        if !self.rect.meets(range) {
            proof {
                assert(self.query_seq(*range) =~= Seq::<TreeNode>::empty());
            }
            return found;
        }
        let total: usize = self.children.len();
        let mut i: usize = 0;
        let ghost start: u64 = *count;
        proof {
            assert(self.children@.subrange(0, 0).filter(covered_by(*range))
                =~= Seq::<TreeNode>::empty()) by {
                reveal(Seq::filter);
            }
        }
        while i < total
            invariant
                i <= total,
                total == self.children@.len(),
                found@ == self.children@.subrange(0, i as int).filter(covered_by(*range)),
                *count == count_saturated(start + i),
            decreases total - i,
        {
            if *count < u64::MAX {
                *count = *count + 1;
            }
            let node = self.children[i];
            if range.contains_closed(&node.position) {
                found.push(node);
            }
            proof {
                reveal(Seq::filter);
                let pred = covered_by(*range);
                let longer = self.children@.subrange(0, i + 1 as int);
                assert(longer.drop_last() =~= self.children@.subrange(0, i as int));
                assert(longer.last() == self.children@[i as int]);
                assert(found@ =~= longer.filter(pred));
            }
            i += 1;
        }
        proof {
            assert(self.children@.subrange(0, total as int) =~= self.children@);
        }
        let kids = (&self.north_east, &self.north_west, &self.south_east, &self.south_west);
        if let (Some(ne), Some(nw), Some(se), Some(sw)) = kids {
            let mut part = ne.query(range, count);
            found.append(&mut part);
            let mut part = nw.query(range, count);
            found.append(&mut part);
            let mut part = se.query(range, count);
            found.append(&mut part);
            let mut part = sw.query(range, count);
            found.append(&mut part);
            proof {
                let r = *range;
                let base: int = start + total;
                Self::lemma_count_saturated_chain(base, ne.examined(r) as int);
                Self::lemma_count_saturated_chain(base + ne.examined(r), nw.examined(r) as int);
                Self::lemma_count_saturated_chain(
                    base + ne.examined(r) + nw.examined(r),
                    se.examined(r) as int,
                );
                Self::lemma_count_saturated_chain(
                    base + ne.examined(r) + nw.examined(r) + se.examined(r),
                    sw.examined(r) as int,
                );
                assert(found@ =~= self.query_seq(r));
            }
        } else {
            proof {
                assert(self.kids_query_seq(*range) =~= Seq::<TreeNode>::empty());
                assert(found@ =~= self.query_seq(*range));
                assert(self.kids_examined(*range) == 0);
            }
        }
        found
    }

    /// Every record stored anywhere in the subtree, in the fixed traversal
    /// order: this node's own records, then the north-east, north-west,
    /// south-east and south-west subtrees.
    pub fn get_childen(&self) -> (all: Vec<TreeNode>)
        ensures
            all@ == self.points_seq(),
        decreases self,
    {
        let mut all: Vec<TreeNode> = Vec::new();
        let total: usize = self.children.len();
        let mut i: usize = 0;
        while i < total
            invariant
                i <= total,
                total == self.children@.len(),
                all@ == self.children@.subrange(0, i as int),
            decreases total - i,
        {
            all.push(self.children[i]);
            proof {
                assert(all@ =~= self.children@.subrange(0, i + 1 as int));
            }
            i += 1;
        }
        proof {
            assert(self.children@.subrange(0, total as int) =~= self.children@);
        }
        let kids = (&self.north_east, &self.north_west, &self.south_east, &self.south_west);
        if let (Some(ne), Some(nw), Some(se), Some(sw)) = kids {
            let mut part = ne.get_childen();
            all.append(&mut part);
            let mut part = nw.get_childen();
            all.append(&mut part);
            let mut part = se.get_childen();
            all.append(&mut part);
            let mut part = sw.get_childen();
            all.append(&mut part);
            proof {
                assert(all@ =~= self.points_seq());
            }
        } else {
            proof {
                assert(self.kids_points_seq() =~= Seq::<TreeNode>::empty());
                assert(all@ =~= self.points_seq());
            }
        }
        all
    }

    /// The region rectangle of every node in the subtree, one per node, in
    /// the fixed traversal order; drawing them shows the subdivision grid.
    pub fn get_tree_rects(&self) -> (rects: Vec<Rect>)
        ensures
            rects@ == self.rects_seq(),
        decreases self,
    {
        let mut rects: Vec<Rect> = Vec::new();
        rects.push(self.rect);
        let kids = (&self.north_east, &self.north_west, &self.south_east, &self.south_west);
        if let (Some(ne), Some(nw), Some(se), Some(sw)) = kids {
            let mut part = ne.get_tree_rects();
            rects.append(&mut part);
            let mut part = nw.get_tree_rects();
            rects.append(&mut part);
            let mut part = se.get_tree_rects();
            rects.append(&mut part);
            let mut part = sw.get_tree_rects();
            rects.append(&mut part);
            proof {
                assert(rects@ =~= self.rects_seq());
            }
        } else {
            proof {
                assert(self.kids_rects_seq() =~= Seq::<Rect>::empty());
                assert(rects@ =~= self.rects_seq());
            }
        }
        rects
    }

    /// Every record stored anywhere in a well-formed subtree lies within
    /// the region of the node that roots the subtree.
    pub proof fn lemma_points_within_bounds(self)
        requires
            self.wf(),
        ensures
            forall|i: int|
                0 <= i < self.points_seq().len() ==> rect_owns(
                    self.rect,
                    #[trigger] self.points_seq()[i].position,
                ),
        decreases self,
    {
        match (self.north_east, self.north_west, self.south_east, self.south_west) {
            (Some(ne), Some(nw), Some(se), Some(sw)) => {
                assert(self.subdivided);
                ne.lemma_points_within_bounds();
                nw.lemma_points_within_bounds();
                se.lemma_points_within_bounds();
                sw.lemma_points_within_bounds();
                let pts = self.points_seq();
                let held = self.children@.len() as int;
                let a = ne.points_seq();
                let b = nw.points_seq();
                let c = se.points_seq();
                let d = sw.points_seq();
                assert forall|i: int| 0 <= i < pts.len() implies rect_owns(
                    self.rect,
                    #[trigger] pts[i].position,
                ) by {
                    if i >= held {
                        let j = i - held;
                        let kid = self.kids_points_seq();
                        assert(pts[i] == kid[j]);
                        if j < a.len() {
                            assert(kid[j] == a[j]);
                        } else if j < a.len() + b.len() {
                            assert(kid[j] == b[j - a.len()]);
                        } else if j < a.len() + b.len() + c.len() {
                            assert(kid[j] == c[j - a.len() - b.len()]);
                        } else {
                            assert(kid[j] == d[j - a.len() - b.len() - c.len()]);
                        }
                        lemma_quadrant_within(self.rect, pts[i].position);
                    }
                }
            },
            _ => {
                assert(self.points_seq() =~= self.children@);
            },
        }
    }

    /// The range query law: what a query returns is exactly the covered
    /// subsequence of everything stored, in traversal order. A record is
    /// reported if and only if it is stored and its coordinate is covered
    /// by the range.
    pub proof fn lemma_query_exact(self, range: Rect)
        requires
            self.wf(),
        ensures
            self.query_seq(range) == self.points_seq().filter(covered_by(range)),
        decreases self,
    {
        let pred = covered_by(range);
        let pts = self.points_seq();
        if !rect_meets(self.rect, range) {
            self.lemma_points_within_bounds();
            assert forall|i: int| 0 <= i < pts.len() implies !pred(#[trigger] pts[i]) by {
                lemma_prune_safe(self.rect, range, pts[i].position);
            }
            assert(pts.all(|record: TreeNode| !pred(record)));
            pts.lemma_all_neg_filter_empty(pred);
            assert(self.query_seq(range) =~= pts.filter(pred));
        } else {
            match (self.north_east, self.north_west, self.south_east, self.south_west) {
                (Some(ne), Some(nw), Some(se), Some(sw)) => {
                    ne.lemma_query_exact(range);
                    nw.lemma_query_exact(range);
                    se.lemma_query_exact(range);
                    sw.lemma_query_exact(range);
                    let a = ne.points_seq();
                    let b = nw.points_seq();
                    let c = se.points_seq();
                    let d = sw.points_seq();
                    Seq::filter_distributes_over_add(self.children@, self.kids_points_seq(), pred);
                    Seq::filter_distributes_over_add(a, b, pred);
                    Seq::filter_distributes_over_add(a + b, c, pred);
                    Seq::filter_distributes_over_add(a + b + c, d, pred);
                    assert(self.query_seq(range) =~= pts.filter(pred));
                },
                _ => {
                    assert(pts =~= self.children@);
                    assert(self.kids_query_seq(range) =~= Seq::<TreeNode>::empty());
                    assert(self.query_seq(range) =~= pts.filter(pred));
                },
            }
        }
    }

    /// Containment, record by record: a query with range `range` reports
    /// `record` exactly when the tree stores it and the range covers its
    /// coordinate; it omits every record a disjoint range cannot cover.
    pub proof fn lemma_query_contains(self, range: Rect, record: TreeNode)
        requires
            self.wf(),
        ensures
            self.query_seq(range).contains(record) <==> (self.points_seq().contains(record)
                && rect_covers(range, record.position)),
    {
        self.lemma_query_exact(range);
        let pred = covered_by(range);
        let pts = self.points_seq();
        if pts.filter(pred).contains(record) {
            pts.lemma_filter_contains_rev(pred, record);
            let i = choose|i: int|
                0 <= i < pts.filter(pred).len() && pts.filter(pred)[i] == record;
            pts.lemma_filter_pred(pred, i);
        }
        if pts.contains(record) && rect_covers(range, record.position) {
            let i = choose|i: int| 0 <= i < pts.len() && pts[i] == record;
            pts.lemma_filter_contains(pred, i);
        }
    }

    /// Querying is read-only, so two queries with the same range and no
    /// intervening insertion return the same sequence of records.
    pub proof fn lemma_query_repeatable(
        self,
        range: Rect,
        first: Seq<TreeNode>,
        second: Seq<TreeNode>,
    )
        requires
            first == self.query_seq(range),
            second == self.query_seq(range),
        ensures
            first == second,
    {
    }

    /// The four children of a subdivided node own pairwise disjoint
    /// regions (they can share only boundary lines, which the half-open
    /// ownership rule assigns to one side), and together they own exactly
    /// the parent's region.
    pub proof fn lemma_subdivision_partitions(self)
        requires
            self.wf(),
            self.subdivided,
        ensures
            rect_region(self.north_east.unwrap().rect) + rect_region(
                self.north_west.unwrap().rect,
            ) + rect_region(self.south_east.unwrap().rect) + rect_region(
                self.south_west.unwrap().rect,
            ) == rect_region(self.rect),
            rect_region(self.north_east.unwrap().rect).disjoint(
                rect_region(self.north_west.unwrap().rect),
            ),
            rect_region(self.north_east.unwrap().rect).disjoint(
                rect_region(self.south_east.unwrap().rect),
            ),
            rect_region(self.north_east.unwrap().rect).disjoint(
                rect_region(self.south_west.unwrap().rect),
            ),
            rect_region(self.north_west.unwrap().rect).disjoint(
                rect_region(self.south_east.unwrap().rect),
            ),
            rect_region(self.north_west.unwrap().rect).disjoint(
                rect_region(self.south_west.unwrap().rect),
            ),
            rect_region(self.south_east.unwrap().rect).disjoint(
                rect_region(self.south_west.unwrap().rect),
            ),
    {
        lemma_quadrants_partition(self.rect);
    }

    /// Does every node of the subtree that still holds records directly
    /// respect the capacity bound? An atomic cell (a single grid
    /// coordinate) is the one exception: it absorbs duplicates beyond the
    /// capacity because no subdivision could ever separate them.
    pub open spec fn leaves_respect_capacity(self) -> bool
        decreases self, 1int,
    {
        &&& ((!self.subdivided && !rect_atomic(self.rect)) ==> self.children@.len()
            <= self.capacity)
        &&& self.kids_respect_capacity()
    }

    /// The capacity bound, recursively over the four quadrant subtrees.
    pub open spec fn kids_respect_capacity(self) -> bool
        decreases self, 0int,
    {
        match (self.north_east, self.north_west, self.south_east, self.south_west) {
            (Some(ne), Some(nw), Some(se), Some(sw)) => ne.leaves_respect_capacity()
                && nw.leaves_respect_capacity() && se.leaves_respect_capacity()
                && sw.leaves_respect_capacity(),
            _ => true,
        }
    }

    /// The capacity law: in a well-formed tree, no divisible leaf ever
    /// holds more than `capacity` records.
    pub proof fn lemma_capacity_respected(self)
        requires
            self.wf(),
        ensures
            self.leaves_respect_capacity(),
        decreases self,
    {
        match (self.north_east, self.north_west, self.south_east, self.south_west) {
            (Some(ne), Some(nw), Some(se), Some(sw)) => {
                ne.lemma_capacity_respected();
                nw.lemma_capacity_respected();
                se.lemma_capacity_respected();
                sw.lemma_capacity_respected();
            },
            _ => {
            },
        }
    }
}

} // verus!
