//! A quadtree over points of the fixed-point plane.

pub mod laws;
pub mod model;

use crate::error::ConfigError;
use crate::quadtree::laws::{
    lemma_insert_entries, lemma_insert_wf, lemma_place_entries, lemma_place_formed,
    lemma_place_wf, lemma_query_exact,
};
use crate::quadtree::model::{select, Children, Node};
use vstd::prelude::*;

verus! {

/// Most entries that a node holds before it splits.
pub const QT_NODE_CAPACITY: usize = 6;

/// Depth from which a node no longer splits.
pub const QT_MAX_DEPTH: u16 = 6;

/// A point or a vector of the plane, in raw fixed-point steps.
#[derive(Clone, Copy, Debug, PartialEq, Eq, Structural)]
pub struct XY {
    pub x: i32,
    pub y: i32,
}

/// An axis-aligned square, given by its centre and half its side.
///
/// The square is open: a point on an edge is not inside. [`AABB::new`] makes no square
/// with a `half_dimension` of zero or less; one written down with such a half side holds
/// no point, and no tree or world is made from it.
#[derive(Clone, Copy, Debug, PartialEq, Eq, Structural)]
pub struct AABB {
    pub center: XY,
    pub half_dimension: i32,
}

impl AABB {
    /// Whether `point` lies strictly inside the square.
    pub open spec fn contains(self, point: XY) -> bool {
        &&& self.center.x - self.half_dimension < point.x < self.center.x + self.half_dimension
        &&& self.center.y - self.half_dimension < point.y < self.center.y + self.half_dimension
    }

    /// Whether the two squares overlap or touch: on both axes the centres are no further
    /// apart than the two half sides together.
    pub open spec fn intersects(self, other: AABB) -> bool {
        &&& vstd::math::abs(self.center.x - other.center.x) <= self.half_dimension
            + other.half_dimension
        &&& vstd::math::abs(self.center.y - other.center.y) <= self.half_dimension
            + other.half_dimension
    }

    /// Whether the half side is not negative and all four corners are points of the plane,
    /// that is, have coordinates an `i32` can hold.
    pub open spec fn fits(self) -> bool {
        &&& 0 <= self.half_dimension
        &&& i32::MIN <= self.center.x - self.half_dimension
        &&& self.center.x + self.half_dimension <= i32::MAX
        &&& i32::MIN <= self.center.y - self.half_dimension
        &&& self.center.y + self.half_dimension <= i32::MAX
    }

    /// One of the four squares of half the side that tile this one: the western or eastern,
    /// northern or southern. West is toward smaller `x`, north toward smaller `y`.
    pub open spec fn quarter(self, west: bool, north: bool) -> AABB {
        let h = self.half_dimension / 2;
        AABB {
            center: XY {
                x: (if west { self.center.x - h } else { self.center.x + h }) as i32,
                y: (if north { self.center.y - h } else { self.center.y + h }) as i32,
            },
            half_dimension: h as i32,
        }
    }

    /// The square with the given centre and half side. A half side of zero or less is
    /// refused: such a square would hold no point.
    pub fn new(x: i32, y: i32, half_dimension: i32) -> (made: Result<AABB, ConfigError>)
        ensures
            half_dimension <= 0 ==> made == Err::<AABB, ConfigError>(
                ConfigError::NonPositiveHalfExtent,
            ),
            half_dimension > 0 ==> made == Ok::<AABB, ConfigError>(
                AABB { center: XY { x, y }, half_dimension },
            ),
    {
        if half_dimension <= 0 {
            Err(ConfigError::NonPositiveHalfExtent)
        } else {
            Ok(AABB { center: XY { x, y }, half_dimension })
        }
    }

    pub fn contains_point(&self, point: &XY) -> (inside: bool)
        ensures
            inside == self.contains(*point),
    {
        let cx: i64 = self.center.x as i64;
        let cy: i64 = self.center.y as i64;
        let h: i64 = self.half_dimension as i64;
        let px: i64 = point.x as i64;
        let py: i64 = point.y as i64;
        px > cx - h && px < cx + h && py > cy - h && py < cy + h
    }

    pub fn intersects_aabb(&self, other: &AABB) -> (overlap: bool)
        ensures
            overlap == self.intersects(*other),
    {
        let reach: i64 = self.half_dimension as i64 + other.half_dimension as i64;
        let dx: i64 = self.center.x as i64 - other.center.x as i64;
        let dy: i64 = self.center.y as i64 - other.center.y as i64;
        let x_overlap = (if dx < 0 { -dx } else { dx }) <= reach;
        let y_overlap = (if dy < 0 { -dy } else { dy }) <= reach;
        x_overlap && y_overlap
    }

    /// Whether the square can bound a tree: see [`AABB::fits`].
    pub fn fits_plane(&self) -> (ok: bool)
        ensures
            ok == self.fits(),
    {
        let cx: i64 = self.center.x as i64;
        let cy: i64 = self.center.y as i64;
        let h: i64 = self.half_dimension as i64;
        h >= 0 && cx - h >= i32::MIN as i64 && cx + h <= i32::MAX as i64 && cy - h >= i32::MIN as i64
            && cy + h <= i32::MAX as i64
    }

    /// Computes [`AABB::quarter`].
    pub(crate) fn quadrant(&self, west: bool, north: bool) -> (q: AABB)
        requires
            self.fits(),
        ensures
            q == self.quarter(west, north),
            q.fits(),
    {
        let h: i32 = self.half_dimension / 2;
        AABB {
            center: XY {
                x: if west { self.center.x - h } else { self.center.x + h },
                y: if north { self.center.y - h } else { self.center.y + h },
            },
            half_dimension: h,
        }
    }
}

/// A square overlaps itself, unless its half side is negative.
pub proof fn lemma_intersects_reflexive(a: AABB)
    requires
        a.half_dimension >= 0,
    ensures
        a.intersects(a),
{
}

/// Overlap does not depend on the order of the two squares.
pub proof fn lemma_intersects_symmetric(a: AABB, b: AABB)
    ensures
        a.intersects(b) == b.intersects(a),
{
}

/// Two squares that hold a common point overlap: a query that prunes by overlap loses no
/// point.
pub proof fn lemma_common_point_intersects(a: AABB, b: AABB, p: XY)
    requires
        a.contains(p),
        b.contains(p),
    ensures
        a.intersects(b),
{
}

/// The quarters of a square that fits the plane fit it too, and hold only points of the
/// square itself.
pub proof fn lemma_quarter_inside(a: AABB, west: bool, north: bool)
    requires
        a.fits(),
    ensures
        a.quarter(west, north).fits(),
        forall|p: XY| #[trigger] a.quarter(west, north).contains(p) ==> a.contains(p),
{
}

/// No point lies in two quarters of one square.
pub proof fn lemma_quarters_disjoint(a: AABB, w1: bool, n1: bool, w2: bool, n2: bool, p: XY)
    requires
        a.fits(),
        a.quarter(w1, n1).contains(p),
        a.quarter(w2, n2).contains(p),
    ensures
        w1 == w2,
        n1 == n2,
{
}

/// The quarters of a square of even half side leave out only its two centre lines: a
/// point of the square that lies on neither is in the quarter on its side of both.
pub proof fn lemma_quarters_cover(a: AABB, p: XY)
    requires
        a.fits(),
        a.half_dimension % 2 == 0,
        a.contains(p),
        p.x != a.center.x,
        p.y != a.center.y,
    ensures
        a.quarter(p.x < a.center.x, p.y < a.center.y).contains(p),
{
}

/// A quadtree of points, each stored with an opaque id.
///
/// A node keeps up to `QT_NODE_CAPACITY` entries. The next point splits it into four
/// quarters and goes to the one that holds it; the entries already there stay. A node at
/// depth `QT_MAX_DEPTH` or deeper never splits and keeps every point it is given.
pub struct QuadTree {
    boundary: AABB,
    entries: Vec<(XY, usize)>,
    depth: u16,
    north_west: Option<Box<QuadTree>>,
    north_east: Option<Box<QuadTree>>,
    south_west: Option<Box<QuadTree>>,
    south_east: Option<Box<QuadTree>>,
}

impl View for QuadTree {
    type V = Node;

    closed spec fn view(&self) -> Node {
        self.model()
    }
}

impl QuadTree {
    /// The mathematical tree that this one stands for.
    pub closed spec fn model(&self) -> Node
        decreases self,
    {
        Node {
            boundary: self.boundary,
            depth: self.depth,
            entries: self.entries@,
            children: match (self.north_west, self.north_east, self.south_west, self.south_east) {
                (Some(nw), Some(ne), Some(sw), Some(se)) => Some(
                    Children {
                        north_west: Box::new(nw.model()),
                        north_east: Box::new(ne.model()),
                        south_west: Box::new(sw.model()),
                        south_east: Box::new(se.model()),
                    },
                ),
                _ => None,
            },
        }
    }

    /// Whether every node has all four children or none.
    pub closed spec fn shaped(&self) -> bool
        decreases self,
    {
        match (self.north_west, self.north_east, self.south_west, self.south_east) {
            (Some(nw), Some(ne), Some(sw), Some(se)) => nw.shaped() && ne.shaped() && sw.shaped()
                && se.shaped(),
            (None, None, None, None) => true,
            _ => false,
        }
    }

    /// What every tree is that [`QuadTree::new`] made, whatever it was given since: see
    /// [`Node::formed`].
    pub open spec fn formed(&self) -> bool {
        &&& self.shaped()
        &&& self@.formed()
    }

    /// What a tree is that was only ever given points inside the boundary of the node
    /// they were handed to, as [`QuadTree::insert`] sees to: see [`Node::wf`].
    pub open spec fn wf(&self) -> bool {
        &&& self.formed()
        &&& self@.inside()
    }

    /// The square that the tree covers.
    pub fn boundary(&self) -> (b: AABB)
        ensures
            b == self@.boundary,
    {
        self.boundary
    }

    /// An empty leaf.
    fn leaf(boundary: AABB, depth: u16) -> (tree: QuadTree)
        requires
            boundary.fits(),
        ensures
            tree.wf(),
            tree@ == Node::leaf(boundary, depth),
    {
        QuadTree {
            boundary,
            entries: Vec::with_capacity(QT_NODE_CAPACITY),
            depth,
            north_west: None,
            north_east: None,
            south_west: None,
            south_east: None,
        }
    }

    /// An empty tree over `boundary`, whose root counts as lying at `depth`.
    ///
    /// A boundary with a half side of zero or less is refused, and so is one that does
    /// not fit the plane.
    pub fn new(boundary: AABB, depth: u16) -> (made: Result<QuadTree, ConfigError>)
        ensures
            boundary.half_dimension <= 0 ==> made == Err::<QuadTree, ConfigError>(
                ConfigError::NonPositiveHalfExtent,
            ),
            boundary.half_dimension > 0 && !boundary.fits() ==> made == Err::<
                QuadTree,
                ConfigError,
            >(ConfigError::OutsidePlane),
            boundary.half_dimension > 0 && boundary.fits() ==> made is Ok && made->Ok_0.wf()
                && made->Ok_0@ == Node::leaf(boundary, depth),
    {
        if boundary.half_dimension <= 0 {
            Err(ConfigError::NonPositiveHalfExtent)
        } else if !boundary.fits_plane() {
            Err(ConfigError::OutsidePlane)
        } else {
            Ok(QuadTree::leaf(boundary, depth))
        }
    }

    /// Stores `data` at `p` if `p` lies strictly inside the boundary, and says whether it
    /// did. A point outside is refused and leaves the tree as it was. A point inside is
    /// refused too where it falls on a line between the quarters it would have to go to.
    pub fn insert(&mut self, p: XY, data: usize) -> (stored: bool)
        requires
            old(self).formed(),
        ensures
            final(self).formed(),
            old(self).wf() ==> final(self).wf(),
            final(self)@ == old(self)@.insert(p, data),
            final(self)@.boundary == old(self)@.boundary,
            stored == old(self)@.accepts(p),
            stored ==> final(self)@.all_entries() == old(self)@.all_entries().insert(
                old(self)@.spot(p),
                (p, data),
            ),
            !stored ==> final(self)@.all_entries() == old(self)@.all_entries(),
    {
        proof {
            lemma_insert_entries(self@, p, data);
            lemma_insert_wf(self@, p, data);
        }
        if self.boundary.contains_point(&p) {
            self.insert_internal(p, data)
        } else {
            false
        }
    }

    /// The ids of the entries whose point lies strictly inside `range`: the node's own
    /// first, then those of the north-west, north-east, south-west and south-east
    /// subtrees. Subtrees whose boundary does not overlap `range` are passed over, which
    /// in a well-formed tree loses nothing.
    pub fn query_range(&self, range: &AABB) -> (found: Vec<usize>)
        ensures
            found@ == self@.query(*range),
            self.wf() ==> found@ == select(self@.all_entries(), *range),
        decreases self,
    {
        let mut results: Vec<usize> = Vec::new();
        proof {
            if self.wf() {
                lemma_query_exact(self@, *range);
            }
        }
        if !self.boundary.intersects_aabb(range) {
            return results;
        }
        let n: usize = self.entries.len();
        let mut i: usize = 0;
        while i < n
            invariant
                i <= n,
                n == self.entries.len(),
                results@ == select(self.entries@.take(i as int), *range),
            decreases n - i,
        {
            let e = self.entries[i];
            proof {
                let next = self.entries@.take(i + 1);
                assert(next.drop_last() =~= self.entries@.take(i as int));
                assert(next.last() == e);
            }
            if range.contains_point(&e.0) {
                results.push(e.1);
            }
            i = i + 1;
        }
        assert(self.entries@.take(n as int) =~= self.entries@);
        match (&self.north_west, &self.north_east, &self.south_west, &self.south_east) {
            (Some(nw), Some(ne), Some(sw), Some(se)) => {
                let mut part: Vec<usize> = nw.query_range(range);
                results.append(&mut part);
                let mut part: Vec<usize> = ne.query_range(range);
                results.append(&mut part);
                let mut part: Vec<usize> = sw.query_range(range);
                results.append(&mut part);
                let mut part: Vec<usize> = se.query_range(range);
                results.append(&mut part);
                assert(results@ =~= select(self.entries@, *range) + (nw@.query(*range)
                    + ne@.query(*range) + sw@.query(*range) + se@.query(*range)));
            },
            _ => {},
        }
        results
    }

    /// The boundaries of all nodes: a node's own first, then those of its north-west,
    /// north-east, south-west and south-east subtrees.
    pub fn boundaries(&self) -> (all: Vec<AABB>)
        ensures
            all@ == self@.boundaries(),
        decreases self,
    {
        let mut all: Vec<AABB> = Vec::new();
        all.push(self.boundary);
        match (&self.north_west, &self.north_east, &self.south_west, &self.south_east) {
            (Some(nw), Some(ne), Some(sw), Some(se)) => {
                let mut part: Vec<AABB> = nw.boundaries();
                all.append(&mut part);
                let mut part: Vec<AABB> = ne.boundaries();
                all.append(&mut part);
                let mut part: Vec<AABB> = sw.boundaries();
                all.append(&mut part);
                let mut part: Vec<AABB> = se.boundaries();
                all.append(&mut part);
                assert(all@ =~= seq![self.boundary] + (nw@.boundaries() + ne@.boundaries()
                    + sw@.boundaries() + se@.boundaries()));
            },
            _ => {
                assert(all@ =~= seq![self.boundary]);
            },
        }
        all
    }

    /// Stores `data` at `p` without asking whether `p` lies inside the boundary. A tree
    /// that is given a point outside is no longer well formed: a later query may pass
    /// the point over.
    pub fn insert_internal(&mut self, p: XY, data: usize) -> (stored: bool)
        requires
            old(self).formed(),
        ensures
            final(self).formed(),
            old(self).wf() && old(self)@.boundary.contains(p) ==> final(self).wf(),
            final(self)@ == old(self)@.place(p, data),
            final(self)@.boundary == old(self)@.boundary,
            stored == old(self)@.admits(p),
            stored ==> final(self)@.all_entries() == old(self)@.all_entries().insert(
                old(self)@.spot(p),
                (p, data),
            ),
            !stored ==> final(self)@.all_entries() == old(self)@.all_entries(),
        decreases old(self)@.rank(), 2nat,
    {
        proof {
            lemma_place_formed(self@, p, data);
            lemma_place_entries(self@, p, data);
            if self.wf() && self@.boundary.contains(p) {
                lemma_place_wf(self@, p, data);
            }
        }
        if (self.entries.len() < QT_NODE_CAPACITY || self.depth >= QT_MAX_DEPTH)
            && self.north_west.is_none() {
            self.entries.push((p, data));
            return true;
        }
        if self.north_west.is_none() {
            self.subdivide();
        }
        self.route(p, data)
    }

    /// Hands the point on to the first of the four children whose boundary holds it. A
    /// point that lies in none of them is dropped.
    fn route(&mut self, p: XY, data: usize) -> (stored: bool)
        requires
            old(self).shaped(),
            old(self)@.children is Some,
            old(self)@.children->Some_0.north_west.formed(),
            old(self)@.children->Some_0.north_east.formed(),
            old(self)@.children->Some_0.south_west.formed(),
            old(self)@.children->Some_0.south_east.formed(),
        ensures
            final(self).shaped(),
            final(self)@ == old(self)@.place(p, data),
            stored == old(self)@.admits(p),
        decreases old(self)@.rank(), 1nat,
    {
        if let Some(stored) = QuadTree::descend(&mut self.north_west, p, data) {
            return stored;
        }
        if let Some(stored) = QuadTree::descend(&mut self.north_east, p, data) {
            return stored;
        }
        if let Some(stored) = QuadTree::descend(&mut self.south_west, p, data) {
            return stored;
        }
        if let Some(stored) = QuadTree::descend(&mut self.south_east, p, data) {
            return stored;
        }
        false
    }

    /// Hands the point on to a child whose boundary holds it, and says whether the child
    /// stored it. A child whose boundary does not hold the point is left alone, and
    /// nothing is said.
    fn descend(child: &mut Option<Box<QuadTree>>, p: XY, data: usize) -> (stored: Option<bool>)
        requires
            old(child).is_some(),
            old(child).unwrap().formed(),
        ensures
            final(child).is_some(),
            final(child).unwrap().shaped(),
            old(child).unwrap()@.boundary.contains(p) ==> stored == Some(
                old(child).unwrap()@.admits(p),
            ) && final(child).unwrap()@ == old(child).unwrap()@.place(p, data),
            !old(child).unwrap()@.boundary.contains(p) ==> stored == None::<bool>
                && final(child).unwrap()@ == old(child).unwrap()@,
        decreases old(child).unwrap()@.rank(), 3nat,
    {
        match child {
            Some(qt) => {
                if qt.boundary.contains_point(&p) {
                    Some(qt.insert_internal(p, data))
                } else {
                    None
                }
            },
            None => None,
        }
    }

    /// Splits a leaf into its four quarters, which start empty one level below it.
    fn subdivide(&mut self)
        requires
            old(self).formed(),
            old(self)@.children is None,
            old(self)@.depth < QT_MAX_DEPTH,
        ensures
            final(self).shaped(),
            final(self)@ == (Node { children: Some(old(self)@.quarters()), ..old(self)@ }),
    {
        let d: u16 = self.depth + 1;
        self.north_west = Some(Box::new(QuadTree::leaf(self.boundary.quadrant(true, true), d)));
        self.north_east = Some(Box::new(QuadTree::leaf(self.boundary.quadrant(false, true), d)));
        self.south_west = Some(Box::new(QuadTree::leaf(self.boundary.quadrant(true, false), d)));
        self.south_east = Some(Box::new(QuadTree::leaf(self.boundary.quadrant(false, false), d)));
    }
}

} // verus!
