//! The mathematical tree that a [`QuadTree`](crate::quadtree::QuadTree) stands for.
//!
//! Contracts of the executable tree speak of this model: what an insertion makes of a
//! tree, which points it takes, and what a range query returns.

use crate::quadtree::{AABB, QT_MAX_DEPTH, QT_NODE_CAPACITY, XY};
use vstd::prelude::*;

verus! {

/// A stored point with the id that came with it.
pub type Entry = (XY, usize);

/// A node of the tree: a leaf while `children` is `None`.
///
/// The entries that a leaf held when it split stay with it; only later points go to
/// its children.
pub struct Node {
    pub boundary: AABB,
    pub depth: u16,
    pub entries: Seq<Entry>,
    pub children: Option<Children>,
}

/// The four subtrees of a node that has split.
pub struct Children {
    pub north_west: Box<Node>,
    pub north_east: Box<Node>,
    pub south_west: Box<Node>,
    pub south_east: Box<Node>,
}

/// The ids of the entries whose point lies strictly inside `range`, in their order.
pub open spec fn select(entries: Seq<Entry>, range: AABB) -> Seq<usize>
    decreases entries.len(),
{
    if entries.len() == 0 {
        Seq::empty()
    } else {
        let rest = select(entries.drop_last(), range);
        if range.contains(entries.last().0) {
            rest.push(entries.last().1)
        } else {
            rest
        }
    }
}

/// The ids of all entries, in their order.
pub open spec fn ids(entries: Seq<Entry>) -> Seq<usize> {
    Seq::new(entries.len(), |i: int| entries[i].1)
}

/// Whether a square of half side `h` can be quartered `levels` times over without a gap,
/// the centres of all but the last quarters lying a multiple of `step` from its own.
pub open spec fn splits_evenly(h: int, step: int, levels: nat) -> bool
    decreases levels,
{
    if levels == 0 {
        true
    } else {
        &&& h % 2 == 0
        &&& levels > 1 ==> (h / 2) % step == 0
        &&& splits_evenly(h / 2, step, (levels - 1) as nat)
    }
}

/// Whether a point lies off the lines that run through `center` and every `step` from it.
pub open spec fn off_lines(center: XY, p: XY, step: int) -> bool {
    (p.x - center.x) % step != 0 && (p.y - center.y) % step != 0
}

/// The greater of two numbers.
pub open spec fn max2(a: nat, b: nat) -> nat {
    if a >= b {
        a
    } else {
        b
    }
}

impl Children {
    /// Height of the tallest of the four subtrees.
    pub open spec fn height(self) -> nat
        decreases self,
    {
        max2(
            max2(self.north_west.height(), self.north_east.height()),
            max2(self.south_west.height(), self.south_east.height()),
        )
    }

    /// All entries of the four subtrees, north-west first and south-east last.
    pub open spec fn all_entries(self) -> Seq<Entry>
        decreases self,
    {
        self.north_west.all_entries() + self.north_east.all_entries()
            + self.south_west.all_entries() + self.south_east.all_entries()
    }

    /// What a range query finds in the four subtrees.
    pub open spec fn query(self, range: AABB) -> Seq<usize>
        decreases self,
    {
        self.north_west.query(range) + self.north_east.query(range) + self.south_west.query(
            range,
        ) + self.south_east.query(range)
    }

    /// The boundaries of all nodes of the four subtrees.
    pub open spec fn boundaries(self) -> Seq<AABB>
        decreases self,
    {
        self.north_west.boundaries() + self.north_east.boundaries()
            + self.south_west.boundaries() + self.south_east.boundaries()
    }

    /// The greatest depth of any node of the four subtrees.
    pub open spec fn deepest(self) -> nat
        decreases self,
    {
        max2(
            max2(self.north_west.deepest(), self.north_east.deepest()),
            max2(self.south_west.deepest(), self.south_east.deepest()),
        )
    }

    /// Whether the four subtrees are formed and quarter `parent` one level below it.
    pub open spec fn formed_under(self, parent: AABB, depth: u16) -> bool
        decreases self,
    {
        &&& self.north_west.formed()
        &&& self.north_east.formed()
        &&& self.south_west.formed()
        &&& self.south_east.formed()
        &&& self.north_west.boundary == parent.quarter(true, true)
        &&& self.north_east.boundary == parent.quarter(false, true)
        &&& self.south_west.boundary == parent.quarter(true, false)
        &&& self.south_east.boundary == parent.quarter(false, false)
        &&& self.north_west.depth == depth + 1
        &&& self.north_east.depth == depth + 1
        &&& self.south_west.depth == depth + 1
        &&& self.south_east.depth == depth + 1
    }

    /// Whether every entry of the four subtrees lies inside the boundary of its node.
    pub open spec fn inside(self) -> bool
        decreases self,
    {
        &&& self.north_west.inside()
        &&& self.north_east.inside()
        &&& self.south_west.inside()
        &&& self.south_east.inside()
    }
}

impl Node {
    /// An empty leaf.
    pub open spec fn leaf(boundary: AABB, depth: u16) -> Node {
        Node { boundary, depth, entries: Seq::empty(), children: None }
    }

    /// Number of levels below this node.
    pub open spec fn height(self) -> nat
        decreases self,
    {
        match self.children {
            None => 0,
            Some(c) => 1 + c.height(),
        }
    }

    /// Whether the node keeps the next point itself: it is a leaf, and has room or lies too
    /// deep to split.
    pub open spec fn takes(self) -> bool {
        self.children is None && (self.entries.len() < QT_NODE_CAPACITY || self.depth
            >= QT_MAX_DEPTH)
    }

    /// The four empty leaves that a split of this node creates.
    pub open spec fn quarters(self) -> Children {
        let d = (self.depth + 1) as u16;
        Children {
            north_west: Box::new(Node::leaf(self.boundary.quarter(true, true), d)),
            north_east: Box::new(Node::leaf(self.boundary.quarter(false, true), d)),
            south_west: Box::new(Node::leaf(self.boundary.quarter(true, false), d)),
            south_east: Box::new(Node::leaf(self.boundary.quarter(false, false), d)),
        }
    }

    /// The subtrees that a point is routed to: the node's own, or those of its split.
    pub open spec fn routes(self) -> Children {
        match self.children {
            Some(c) => c,
            None => self.quarters(),
        }
    }

    /// How many levels an insertion may have to go down from this node: none where the
    /// node takes the point itself.
    pub open spec fn rank(self) -> nat
        decreases self.height(), (if self.takes() { 0nat } else { 1nat }),
    {
        if self.takes() {
            0
        } else {
            let c = self.routes();
            1 + max2(
                max2(c.north_west.rank(), c.north_east.rank()),
                max2(c.south_west.rank(), c.south_east.rank()),
            )
        }
    }

    /// Whether a point, taken to be inside the boundary, finds a place in the tree. It
    /// does not where it lies in none of the open quarters it would have to go to.
    pub open spec fn admits(self, p: XY) -> bool
        decreases self.height(), (if self.takes() { 0nat } else { 1nat }),
    {
        if self.takes() {
            true
        } else {
            let c = self.routes();
            if c.north_west.boundary.contains(p) {
                c.north_west.admits(p)
            } else if c.north_east.boundary.contains(p) {
                c.north_east.admits(p)
            } else if c.south_west.boundary.contains(p) {
                c.south_west.admits(p)
            } else if c.south_east.boundary.contains(p) {
                c.south_east.admits(p)
            } else {
                false
            }
        }
    }

    /// The tree after an attempt to place `p`, taken to be inside the boundary. A full leaf
    /// that can split does so even where the point then finds no place.
    pub open spec fn place(self, p: XY, id: usize) -> Node
        decreases self.height(), (if self.takes() { 0nat } else { 1nat }),
    {
        if self.takes() {
            Node { entries: self.entries.push((p, id)), ..self }
        } else {
            let c = self.routes();
            let routed = if c.north_west.boundary.contains(p) {
                Children { north_west: Box::new(c.north_west.place(p, id)), ..c }
            } else if c.north_east.boundary.contains(p) {
                Children { north_east: Box::new(c.north_east.place(p, id)), ..c }
            } else if c.south_west.boundary.contains(p) {
                Children { south_west: Box::new(c.south_west.place(p, id)), ..c }
            } else if c.south_east.boundary.contains(p) {
                Children { south_east: Box::new(c.south_east.place(p, id)), ..c }
            } else {
                c
            };
            Node { children: Some(routed), ..self }
        }
    }

    /// Whether an insertion of `p` succeeds.
    pub open spec fn accepts(self, p: XY) -> bool {
        self.boundary.contains(p) && self.admits(p)
    }

    /// The tree after an insertion of `p`: unchanged where `p` is not inside the boundary.
    pub open spec fn insert(self, p: XY, id: usize) -> Node {
        if self.boundary.contains(p) {
            self.place(p, id)
        } else {
            self
        }
    }

    /// All entries of the tree: a node's own before those of its subtrees.
    pub open spec fn all_entries(self) -> Seq<Entry>
        decreases self,
    {
        match self.children {
            None => self.entries,
            Some(c) => self.entries + c.all_entries(),
        }
    }

    /// What a range query walks through: nothing below a node whose boundary does not
    /// overlap `range`.
    pub open spec fn query(self, range: AABB) -> Seq<usize>
        decreases self,
    {
        if !self.boundary.intersects(range) {
            Seq::empty()
        } else {
            match self.children {
                None => select(self.entries, range),
                Some(c) => select(self.entries, range) + c.query(range),
            }
        }
    }

    /// The boundaries of all nodes: a node's own before those of its subtrees.
    pub open spec fn boundaries(self) -> Seq<AABB>
        decreases self,
    {
        match self.children {
            None => seq![self.boundary],
            Some(c) => seq![self.boundary] + c.boundaries(),
        }
    }

    /// The shape that every insertion keeps, whatever point it is given: the boundary fits
    /// the plane, a node that can still split holds no more than `QT_NODE_CAPACITY`
    /// entries, and one that has split lies above `QT_MAX_DEPTH`, holds exactly that
    /// many, and has its four quarters one level below it.
    pub open spec fn formed(self) -> bool
        decreases self,
    {
        &&& self.boundary.fits()
        &&& self.depth < QT_MAX_DEPTH ==> self.entries.len() <= QT_NODE_CAPACITY
        &&& match self.children {
            None => true,
            Some(c) => {
                &&& self.depth < QT_MAX_DEPTH
                &&& self.entries.len() == QT_NODE_CAPACITY
                &&& c.formed_under(self.boundary, self.depth)
            },
        }
    }

    /// Whether every entry lies strictly inside the boundary of the node that holds it.
    pub open spec fn inside(self) -> bool
        decreases self,
    {
        &&& forall|i: int|
            0 <= i < self.entries.len() ==> self.boundary.contains(#[trigger] self.entries[i].0)
        &&& match self.children {
            None => true,
            Some(c) => c.inside(),
        }
    }

    /// The invariant of a tree that was only ever given points inside the boundary of
    /// the node they were handed to: on it a range query finds all there is to find.
    pub open spec fn wf(self) -> bool {
        self.formed() && self.inside()
    }

    /// Where among all entries a point that finds a place comes to stand.
    pub open spec fn spot(self, p: XY) -> int
        decreases self.height(), (if self.takes() { 0nat } else { 1nat }),
    {
        if self.takes() {
            self.entries.len() as int
        } else {
            let c = self.routes();
            let nw = c.north_west.all_entries().len();
            let ne = c.north_east.all_entries().len();
            let sw = c.south_west.all_entries().len();
            if c.north_west.boundary.contains(p) {
                self.entries.len() + c.north_west.spot(p)
            } else if c.north_east.boundary.contains(p) {
                self.entries.len() + nw + c.north_east.spot(p)
            } else if c.south_west.boundary.contains(p) {
                self.entries.len() + nw + ne + c.south_west.spot(p)
            } else {
                self.entries.len() + nw + ne + sw + c.south_east.spot(p)
            }
        }
    }

    /// The greatest depth of any node of the tree.
    pub open spec fn deepest(self) -> nat
        decreases self,
    {
        match self.children {
            None => self.depth as nat,
            Some(c) => c.deepest(),
        }
    }

    /// The tree after the first `n` of the pairs were inserted, in their order.
    pub open spec fn filled(self, pairs: Seq<Entry>, n: nat) -> Node
        decreases n,
    {
        if n == 0 {
            self
        } else {
            let k = (n - 1) as nat;
            self.filled(pairs, k).insert(pairs[k as int].0, pairs[k as int].1)
        }
    }

    /// Whether pair `k` was accepted when its turn came.
    pub open spec fn kept(self, pairs: Seq<Entry>, k: int) -> bool {
        self.filled(pairs, k as nat).accepts(pairs[k].0)
    }
}

} // verus!
