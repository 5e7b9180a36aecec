//! What holds of every well-formed tree.

use crate::quadtree::model::{ids, off_lines, select, splits_evenly, Entry, Node};
use crate::quadtree::{
    lemma_common_point_intersects, lemma_quarter_inside, lemma_quarters_cover, AABB,
    QT_MAX_DEPTH, XY,
};
use vstd::arithmetic::div_mod::{lemma_fundamental_div_mod, lemma_mod_multiples_vanish};
use vstd::prelude::*;

verus! {

/// Selecting from two sequences laid end to end selects from each.
pub proof fn lemma_select_add(a: Seq<Entry>, b: Seq<Entry>, range: AABB)
    ensures
        select(a + b, range) == select(a, range) + select(b, range),
    decreases b.len(),
{
    if b.len() == 0 {
        assert(a + b =~= a);
        assert(select(a, range) + select(b, range) =~= select(a, range));
    } else {
        assert((a + b).drop_last() =~= a + b.drop_last());
        assert((a + b).last() == b.last());
        lemma_select_add(a, b.drop_last(), range);
        let rest = select(a, range) + select(b.drop_last(), range);
        if range.contains(b.last().0) {
            assert(rest.push(b.last().1) =~= select(a, range) + select(b.drop_last(), range).push(
                b.last().1,
            ));
        }
    }
}

/// An id is selected exactly if some entry carries it whose point lies strictly inside
/// the range: it tells of no entry outside and misses none inside.
pub proof fn lemma_select_members(entries: Seq<Entry>, range: AABB, id: usize)
    ensures
        select(entries, range).contains(id) <==> exists|k: int|
            0 <= k < entries.len() && #[trigger] entries[k].1 == id && range.contains(entries[k].0),
    decreases entries.len(),
{
    if entries.len() == 0 {
    } else {
        let front = entries.drop_last();
        let rest = select(front, range);
        lemma_select_members(front, range, id);
        if select(entries, range).contains(id) {
            let j = choose|j: int|
                0 <= j < select(entries, range).len() && select(entries, range)[j] == id;
            if range.contains(entries.last().0) && j == rest.len() {
                let k = entries.len() - 1;
                assert(entries[k].1 == id && range.contains(entries[k].0));
            } else {
                assert(rest[j] == id);
                assert(rest.contains(id));
                let k = choose|k: int|
                    0 <= k < front.len() && #[trigger] front[k].1 == id && range.contains(
                        front[k].0,
                    );
                assert(entries[k] == front[k]);
            }
        }
        if exists|k: int|
            0 <= k < entries.len() && #[trigger] entries[k].1 == id && range.contains(
                entries[k].0,
            ) {
            let k = choose|k: int|
                0 <= k < entries.len() && #[trigger] entries[k].1 == id && range.contains(
                    entries[k].0,
                );
            if k == entries.len() - 1 {
                assert(select(entries, range) == rest.push(id));
                assert(rest.push(id)[rest.len() as int] == id);
            } else {
                assert(front[k] == entries[k]);
                assert(rest.contains(id));
                let j = choose|j: int| 0 <= j < rest.len() && rest[j] == id;
                assert(select(entries, range)[j] == id);
            }
        }
    }
}

/// Where every point lies inside the range, all ids are selected.
pub proof fn lemma_select_all(entries: Seq<Entry>, range: AABB)
    requires
        forall|i: int| 0 <= i < entries.len() ==> range.contains(#[trigger] entries[i].0),
    ensures
        select(entries, range) == ids(entries),
    decreases entries.len(),
{
    if entries.len() == 0 {
        assert(select(entries, range) =~= ids(entries));
    } else {
        let front = entries.drop_last();
        assert forall|i: int| 0 <= i < front.len() implies range.contains(
            #[trigger] front[i].0,
        ) by {
            assert(front[i] == entries[i]);
        }
        lemma_select_all(front, range);
        assert(range.contains(entries[entries.len() - 1].0));
        assert(ids(front).push(entries.last().1) =~= ids(entries));
    }
}

/// Where no point lies inside the range, nothing is selected.
pub proof fn lemma_select_none(entries: Seq<Entry>, range: AABB)
    requires
        forall|i: int| 0 <= i < entries.len() ==> !range.contains(#[trigger] entries[i].0),
    ensures
        select(entries, range) == Seq::<usize>::empty(),
    decreases entries.len(),
{
    if entries.len() > 0 {
        let front = entries.drop_last();
        assert forall|i: int| 0 <= i < front.len() implies !range.contains(
            #[trigger] front[i].0,
        ) by {
            assert(front[i] == entries[i]);
        }
        lemma_select_none(front, range);
        assert(!range.contains(entries[entries.len() - 1].0));
    }
}

/// Every entry of a well-formed tree, at whatever depth it is stored, lies strictly
/// inside the boundary of the root.
pub proof fn lemma_entries_inside(node: Node)
    requires
        node.wf(),
    ensures
        forall|i: int|
            0 <= i < node.all_entries().len() ==> node.boundary.contains(
                #[trigger] node.all_entries()[i].0,
            ),
    decreases node,
{
    match node.children {
        None => {},
        Some(c) => {
            lemma_entries_inside(*c.north_west);
            lemma_entries_inside(*c.north_east);
            lemma_entries_inside(*c.south_west);
            lemma_entries_inside(*c.south_east);
            lemma_quarter_inside(node.boundary, true, true);
            lemma_quarter_inside(node.boundary, false, true);
            lemma_quarter_inside(node.boundary, true, false);
            lemma_quarter_inside(node.boundary, false, false);
            let nw = c.north_west.all_entries();
            let ne = c.north_east.all_entries();
            let sw = c.south_west.all_entries();
            let se = c.south_east.all_entries();
            let all = node.all_entries();
            assert(all == node.entries + (nw + ne + sw + se));
            assert forall|i: int| 0 <= i < all.len() implies node.boundary.contains(
                #[trigger] all[i].0,
            ) by {
                let n0 = node.entries.len() as int;
                if i < n0 {
                    assert(all[i] == node.entries[i]);
                } else if i < n0 + nw.len() {
                    assert(all[i] == nw[i - n0]);
                    assert(c.north_west.boundary.contains(nw[i - n0].0));
                } else if i < n0 + nw.len() + ne.len() {
                    assert(all[i] == ne[i - n0 - nw.len()]);
                    assert(c.north_east.boundary.contains(ne[i - n0 - nw.len()].0));
                } else if i < n0 + nw.len() + ne.len() + sw.len() {
                    assert(all[i] == sw[i - n0 - nw.len() - ne.len()]);
                    assert(c.south_west.boundary.contains(sw[i - n0 - nw.len() - ne.len()].0));
                } else {
                    assert(all[i] == se[i - n0 - nw.len() - ne.len() - sw.len()]);
                    assert(c.south_east.boundary.contains(
                        se[i - n0 - nw.len() - ne.len() - sw.len()].0,
                    ));
                }
            }
        },
    }
}

/// A range query on a well-formed tree returns the ids of exactly those entries whose
/// point lies strictly inside the range. Skipping the subtrees whose boundary does not
/// overlap the range loses none of them.
pub proof fn lemma_query_exact(node: Node, range: AABB)
    requires
        node.wf(),
    ensures
        node.query(range) == select(node.all_entries(), range),
    decreases node,
{
    if !node.boundary.intersects(range) {
        lemma_entries_inside(node);
        let all = node.all_entries();
        assert forall|i: int| 0 <= i < all.len() implies !range.contains(#[trigger] all[i].0) by {
            if range.contains(all[i].0) {
                lemma_common_point_intersects(node.boundary, range, all[i].0);
            }
        }
        lemma_select_none(all, range);
    } else {
        match node.children {
            None => {},
            Some(c) => {
                lemma_query_exact(*c.north_west, range);
                lemma_query_exact(*c.north_east, range);
                lemma_query_exact(*c.south_west, range);
                lemma_query_exact(*c.south_east, range);
                let nw = c.north_west.all_entries();
                let ne = c.north_east.all_entries();
                let sw = c.south_west.all_entries();
                let se = c.south_east.all_entries();
                lemma_select_add(nw, ne, range);
                lemma_select_add(nw + ne, sw, range);
                lemma_select_add(nw + ne + sw, se, range);
                lemma_select_add(node.entries, nw + ne + sw + se, range);
            },
        }
    }
}

/// A query with the root's own boundary returns the id of every entry of the tree.
pub proof fn lemma_query_boundary_returns_all(node: Node)
    requires
        node.wf(),
    ensures
        node.query(node.boundary) == ids(node.all_entries()),
{
    lemma_query_exact(node, node.boundary);
    lemma_entries_inside(node);
    lemma_select_all(node.all_entries(), node.boundary);
}

/// An attempt to place a point, wherever it lies, keeps the shape of the tree, and
/// changes neither the boundary nor the depth of its root.
pub proof fn lemma_place_formed(node: Node, p: XY, id: usize)
    requires
        node.formed(),
    ensures
        node.place(p, id).formed(),
        node.place(p, id).boundary == node.boundary,
        node.place(p, id).depth == node.depth,
    decreases node.height(), (if node.takes() { 0nat } else { 1nat }),
{
    if !node.takes() {
        let c = node.routes();
        lemma_quarter_inside(node.boundary, true, true);
        lemma_quarter_inside(node.boundary, false, true);
        lemma_quarter_inside(node.boundary, true, false);
        lemma_quarter_inside(node.boundary, false, false);
        assert(c.formed_under(node.boundary, node.depth));
        if c.north_west.boundary.contains(p) {
            lemma_place_formed(*c.north_west, p, id);
        } else if c.north_east.boundary.contains(p) {
            lemma_place_formed(*c.north_east, p, id);
        } else if c.south_west.boundary.contains(p) {
            lemma_place_formed(*c.south_west, p, id);
        } else if c.south_east.boundary.contains(p) {
            lemma_place_formed(*c.south_east, p, id);
        }
    }
}

/// An attempt to place a point that lies inside the boundary keeps the tree well formed.
pub proof fn lemma_place_wf(node: Node, p: XY, id: usize)
    requires
        node.wf(),
        node.boundary.contains(p),
    ensures
        node.place(p, id).wf(),
        node.place(p, id).boundary == node.boundary,
        node.place(p, id).depth == node.depth,
    decreases node.height(), (if node.takes() { 0nat } else { 1nat }),
{
    lemma_place_formed(node, p, id);
    if node.takes() {
        let after = node.place(p, id);
        assert forall|i: int| 0 <= i < after.entries.len() implies after.boundary.contains(
            #[trigger] after.entries[i].0,
        ) by {
            if i < node.entries.len() {
                assert(after.entries[i] == node.entries[i]);
            }
        }
    } else {
        let c = node.routes();
        assert(c.inside());
        if c.north_west.boundary.contains(p) {
            lemma_place_wf(*c.north_west, p, id);
        } else if c.north_east.boundary.contains(p) {
            lemma_place_wf(*c.north_east, p, id);
        } else if c.south_west.boundary.contains(p) {
            lemma_place_wf(*c.south_west, p, id);
        } else if c.south_east.boundary.contains(p) {
            lemma_place_wf(*c.south_east, p, id);
        }
    }
}

/// An insertion keeps the shape of the tree, and keeps it well formed if it was.
pub proof fn lemma_insert_wf(node: Node, p: XY, id: usize)
    requires
        node.formed(),
    ensures
        node.insert(p, id).formed(),
        node.wf() ==> node.insert(p, id).wf(),
        node.insert(p, id).boundary == node.boundary,
        node.insert(p, id).depth == node.depth,
{
    if node.boundary.contains(p) {
        lemma_place_formed(node, p, id);
        if node.wf() {
            lemma_place_wf(node, p, id);
        }
    }
}

/// Inserting into the middle one of three sequences laid end to end inserts into the
/// whole.
proof fn lemma_insert_between(a: Seq<Entry>, b: Seq<Entry>, c: Seq<Entry>, j: int, e: Entry)
    requires
        0 <= j <= b.len(),
    ensures
        a + (b.insert(j, e) + c) == (a + (b + c)).insert(a.len() + j, e),
{
    assert(a + (b.insert(j, e) + c) =~= (a + (b + c)).insert(a.len() + j, e));
}

/// Inserting into one of five sequences laid end to end inserts into the whole: one
/// statement for each of the last four.
proof fn lemma_insert_into_second(
    own: Seq<Entry>,
    nw: Seq<Entry>,
    ne: Seq<Entry>,
    sw: Seq<Entry>,
    se: Seq<Entry>,
    j: int,
    e: Entry,
)
    requires
        0 <= j <= nw.len(),
    ensures
        own + (nw.insert(j, e) + ne + sw + se) == (own + (nw + ne + sw + se)).insert(
            own.len() + j,
            e,
        ),
{
    let all = own + (nw + ne + sw + se);
    let after = own + (nw.insert(j, e) + ne + sw + se);
    lemma_insert_between(own, nw, ne + sw + se, j, e);
    assert(all == own + (nw + (ne + sw + se))) by {
        assert(all =~= own + (nw + (ne + sw + se)));
    }
    assert(after == own + (nw.insert(j, e) + (ne + sw + se))) by {
        assert(after =~= own + (nw.insert(j, e) + (ne + sw + se)));
    }
}

proof fn lemma_insert_into_third(
    own: Seq<Entry>,
    nw: Seq<Entry>,
    ne: Seq<Entry>,
    sw: Seq<Entry>,
    se: Seq<Entry>,
    j: int,
    e: Entry,
)
    requires
        0 <= j <= ne.len(),
    ensures
        own + (nw + ne.insert(j, e) + sw + se) == (own + (nw + ne + sw + se)).insert(
            own.len() + nw.len() + j,
            e,
        ),
{
    let all = own + (nw + ne + sw + se);
    let after = own + (nw + ne.insert(j, e) + sw + se);
    lemma_insert_between(own + nw, ne, sw + se, j, e);
    assert(all == (own + nw) + (ne + (sw + se))) by {
        assert(all =~= (own + nw) + (ne + (sw + se)));
    }
    assert(after == (own + nw) + (ne.insert(j, e) + (sw + se))) by {
        assert(after =~= (own + nw) + (ne.insert(j, e) + (sw + se)));
    }
}

proof fn lemma_insert_into_fourth(
    own: Seq<Entry>,
    nw: Seq<Entry>,
    ne: Seq<Entry>,
    sw: Seq<Entry>,
    se: Seq<Entry>,
    j: int,
    e: Entry,
)
    requires
        0 <= j <= sw.len(),
    ensures
        own + (nw + ne + sw.insert(j, e) + se) == (own + (nw + ne + sw + se)).insert(
            own.len() + nw.len() + ne.len() + j,
            e,
        ),
{
    let all = own + (nw + ne + sw + se);
    let after = own + (nw + ne + sw.insert(j, e) + se);
    lemma_insert_between(own + nw + ne, sw, se, j, e);
    assert(all == (own + nw + ne) + (sw + se)) by {
        assert(all =~= (own + nw + ne) + (sw + se));
    }
    assert(after == (own + nw + ne) + (sw.insert(j, e) + se)) by {
        assert(after =~= (own + nw + ne) + (sw.insert(j, e) + se));
    }
}

proof fn lemma_insert_into_fifth(
    own: Seq<Entry>,
    nw: Seq<Entry>,
    ne: Seq<Entry>,
    sw: Seq<Entry>,
    se: Seq<Entry>,
    j: int,
    e: Entry,
)
    requires
        0 <= j <= se.len(),
    ensures
        own + (nw + ne + sw + se.insert(j, e)) == (own + (nw + ne + sw + se)).insert(
            own.len() + nw.len() + ne.len() + sw.len() + j,
            e,
        ),
{
    let all = own + (nw + ne + sw + se);
    let after = own + (nw + ne + sw + se.insert(j, e));
    lemma_insert_between(own + nw + ne + sw, se, Seq::<Entry>::empty(), j, e);
    assert(all == (own + nw + ne + sw) + (se + Seq::<Entry>::empty())) by {
        assert(all =~= (own + nw + ne + sw) + (se + Seq::<Entry>::empty()));
    }
    assert(after == (own + nw + ne + sw) + (se.insert(j, e) + Seq::<Entry>::empty())) by {
        assert(after =~= (own + nw + ne + sw) + (se.insert(j, e) + Seq::<Entry>::empty()));
    }
}

/// A point that finds a place becomes one more entry among the others, which keep
/// their order; one that finds none leaves the entries as they were.
pub proof fn lemma_place_entries(node: Node, p: XY, id: usize)
    ensures
        node.admits(p) ==> 0 <= node.spot(p) <= node.all_entries().len(),
        node.admits(p) ==> node.place(p, id).all_entries() == node.all_entries().insert(
            node.spot(p),
            (p, id),
        ),
        !node.admits(p) ==> node.place(p, id).all_entries() == node.all_entries(),
    decreases node.height(), (if node.takes() { 0nat } else { 1nat }),
{
    let e = (p, id);
    let all = node.all_entries();
    let after = node.place(p, id).all_entries();
    if node.takes() {
        assert(after =~= all.insert(all.len() as int, e));
    } else {
        let c = node.routes();
        let own = node.entries;
        let nw = c.north_west.all_entries();
        let ne = c.north_east.all_entries();
        let sw = c.south_west.all_entries();
        let se = c.south_east.all_entries();
        assert(all =~= own + (nw + ne + sw + se));
        if c.north_west.boundary.contains(p) {
            lemma_place_entries(*c.north_west, p, id);
            assert(after == own + (c.north_west.place(p, id).all_entries() + ne + sw + se));
            if node.admits(p) {
                lemma_insert_into_second(own, nw, ne, sw, se, c.north_west.spot(p), e);
            }
        } else if c.north_east.boundary.contains(p) {
            lemma_place_entries(*c.north_east, p, id);
            assert(after == own + (nw + c.north_east.place(p, id).all_entries() + sw + se));
            if node.admits(p) {
                lemma_insert_into_third(own, nw, ne, sw, se, c.north_east.spot(p), e);
            }
        } else if c.south_west.boundary.contains(p) {
            lemma_place_entries(*c.south_west, p, id);
            assert(after == own + (nw + ne + c.south_west.place(p, id).all_entries() + se));
            if node.admits(p) {
                lemma_insert_into_fourth(own, nw, ne, sw, se, c.south_west.spot(p), e);
            }
        } else if c.south_east.boundary.contains(p) {
            lemma_place_entries(*c.south_east, p, id);
            assert(after == own + (nw + ne + sw + c.south_east.place(p, id).all_entries()));
            if node.admits(p) {
                lemma_insert_into_fifth(own, nw, ne, sw, se, c.south_east.spot(p), e);
            }
        } else {
            assert(after == own + (nw + ne + sw + se));
        }
    }
}

/// An accepted insertion adds the pair to the entries, whose order is otherwise kept; a
/// rejected one changes no entry.
pub proof fn lemma_insert_entries(node: Node, p: XY, id: usize)
    ensures
        node.accepts(p) ==> 0 <= node.spot(p) <= node.all_entries().len(),
        node.accepts(p) ==> node.insert(p, id).all_entries() == node.all_entries().insert(
            node.spot(p),
            (p, id),
        ),
        !node.accepts(p) ==> node.insert(p, id).all_entries() == node.all_entries(),
{
    if node.boundary.contains(p) {
        lemma_place_entries(node, p, id);
    }
}

/// A node splits at most once: one that has children keeps them, and its own entries,
/// through every later insertion.
pub proof fn lemma_split_once(node: Node, p: XY, id: usize)
    requires
        node.children is Some,
    ensures
        node.insert(p, id).children is Some,
        node.insert(p, id).entries == node.entries,
{
}

/// Below a root that is not itself deeper, no node of a tree lies deeper than
/// `QT_MAX_DEPTH`, whatever points the tree was given.
pub proof fn lemma_depth_bound(node: Node)
    requires
        node.formed(),
        node.depth <= QT_MAX_DEPTH,
    ensures
        node.depth <= node.deepest() <= QT_MAX_DEPTH,
    decreases node,
{
    match node.children {
        None => {},
        Some(c) => {
            lemma_depth_bound(*c.north_west);
            lemma_depth_bound(*c.north_east);
            lemma_depth_bound(*c.south_west);
            lemma_depth_bound(*c.south_east);
        },
    }
}

/// A node at `QT_MAX_DEPTH` or deeper is a leaf that never splits: it takes every point
/// that it is handed as one more entry of its own, however many it already holds,
/// wherever the point lies and whether or not the points coincide.
pub proof fn lemma_deep_leaf_takes_all(node: Node, p: XY, id: usize)
    requires
        node.formed(),
        node.depth >= QT_MAX_DEPTH,
    ensures
        node.children is None,
        node.admits(p),
        node.place(p, id) == (Node { entries: node.entries.push((p, id)), ..node }),
        node.place(p, id).children is None,
        node.boundary.contains(p) ==> node.accepts(p) && node.insert(p, id) == node.place(p, id),
{
}

/// Every insertion keeps the depths in order: after it, as before, no node lies deeper
/// than `QT_MAX_DEPTH` below a root that does not, and each child lies one level below
/// its parent.
pub proof fn lemma_place_keeps_depths(node: Node, p: XY, id: usize)
    requires
        node.formed(),
        node.depth <= QT_MAX_DEPTH,
    ensures
        node.place(p, id).formed(),
        node.place(p, id).deepest() <= QT_MAX_DEPTH,
        node.insert(p, id).formed(),
        node.insert(p, id).deepest() <= QT_MAX_DEPTH,
{
    lemma_place_formed(node, p, id);
    lemma_depth_bound(node.place(p, id));
    lemma_depth_bound(node);
}

/// A tree filled from a sequence of pairs stays well formed and holds, beside what it
/// held before, exactly the pairs that were accepted when their turn came.
pub proof fn lemma_filled(root: Node, pairs: Seq<Entry>, n: nat, e: Entry)
    requires
        root.wf(),
        n <= pairs.len(),
    ensures
        root.filled(pairs, n).wf(),
        root.filled(pairs, n).boundary == root.boundary,
        root.filled(pairs, n).depth == root.depth,
        root.filled(pairs, n).all_entries().contains(e) <==> root.all_entries().contains(e) || exists|
            k: int,
        |
            0 <= k < n && #[trigger] pairs[k] == e && root.kept(pairs, k),
    decreases n,
{
    if n > 0 {
        let m = (n - 1) as nat;
        let before = root.filled(pairs, m);
        let prior = before.all_entries();
        let all = root.filled(pairs, n).all_entries();
        let last = pairs[m as int];
        lemma_filled(root, pairs, m, e);
        lemma_insert_wf(before, last.0, last.1);
        lemma_insert_entries(before, last.0, last.1);
        if before.accepts(last.0) {
            let at = before.spot(last.0);
            assert(all == prior.insert(at, last));
            if all.contains(e) {
                let i = choose|i: int| 0 <= i < all.len() && all[i] == e;
                if i < at {
                    assert(prior[i] == e);
                } else if i > at {
                    assert(prior[i - 1] == e);
                } else {
                    assert(pairs[m as int] == e && root.kept(pairs, m as int));
                }
            }
            if prior.contains(e) {
                let i = choose|i: int| 0 <= i < prior.len() && prior[i] == e;
                if i < at {
                    assert(all[i] == e);
                } else {
                    assert(all[i + 1] == e);
                }
            }
            if last == e {
                assert(all[at] == e);
            }
        }
    }
}

/// Asked for its whole boundary, a tree that started empty returns the ids of exactly
/// the pairs that were accepted. A pair is accepted unless it lies outside the boundary
/// or in none of the quarters that it would have to go to.
pub proof fn lemma_filled_query_returns_kept(
    boundary: AABB,
    depth: u16,
    pairs: Seq<Entry>,
    id: usize,
)
    requires
        boundary.fits(),
    ensures
        ({
            let root = Node::leaf(boundary, depth);
            root.filled(pairs, pairs.len()).query(boundary).contains(id) <==> exists|k: int|
                0 <= k < pairs.len() && (#[trigger] pairs[k]).1 == id && root.kept(pairs, k)
        }),
{
    let root = Node::leaf(boundary, depth);
    let tree = root.filled(pairs, pairs.len());
    let all = tree.all_entries();
    lemma_filled(root, pairs, pairs.len(), (boundary.center, id));
    lemma_query_boundary_returns_all(tree);
    if tree.query(boundary).contains(id) {
        let i = choose|i: int| 0 <= i < ids(all).len() && ids(all)[i] == id;
        lemma_filled(root, pairs, pairs.len(), all[i]);
        assert(all.contains(all[i]));
    }
    if exists|k: int| 0 <= k < pairs.len() && (#[trigger] pairs[k]).1 == id && root.kept(pairs, k) {
        let k = choose|k: int|
            0 <= k < pairs.len() && (#[trigger] pairs[k]).1 == id && root.kept(pairs, k);
        lemma_filled(root, pairs, pairs.len(), pairs[k]);
        let i = choose|i: int| 0 <= i < all.len() && all[i] == pairs[k];
        assert(ids(all)[i] == id);
    }
}

/// Moving the centre by a multiple of the step does not bring a point onto the lines.
proof fn lemma_off_lines_shift(c: int, x: int, shift: int, step: int)
    requires
        step > 0,
        shift % step == 0,
        (x - c) % step != 0,
    ensures
        (x - (c + shift)) % step != 0,
        (x - (c - shift)) % step != 0,
{
    let k = shift / step;
    lemma_fundamental_div_mod(shift, step);
    assert(shift == step * k);
    lemma_mod_multiples_vanish(-k, x - c, step);
    lemma_mod_multiples_vanish(k, x - c, step);
    assert(step * (-k) + (x - c) == x - (c + shift)) by (nonlinear_arith)
        requires
            shift == step * k,
    ;
    assert(step * k + (x - c) == x - (c - shift)) by (nonlinear_arith)
        requires
            shift == step * k,
    ;
}

/// A tree whose squares quarter evenly down to the greatest depth has a place for every
/// point of its boundary that lies off the centre lines of all nodes, whatever it
/// already holds.
pub proof fn lemma_off_lines_admitted(node: Node, p: XY, step: int)
    requires
        node.formed(),
        node.depth <= QT_MAX_DEPTH,
        step > 0,
        splits_evenly(node.boundary.half_dimension as int, step, (QT_MAX_DEPTH - node.depth) as nat),
        node.boundary.contains(p),
        off_lines(node.boundary.center, p, step),
    ensures
        node.admits(p),
        node.accepts(p),
    decreases node.height(), (if node.takes() { 0nat } else { 1nat }),
{
    if !node.takes() {
        let b = node.boundary;
        let h = b.half_dimension as int;
        let c = node.routes();
        let west = p.x < b.center.x;
        let north = p.y < b.center.y;
        assert(0int % step == 0);
        lemma_quarter_inside(b, true, true);
        lemma_quarter_inside(b, false, true);
        lemma_quarter_inside(b, true, false);
        lemma_quarter_inside(b, false, false);
        lemma_quarters_cover(b, p);
        assert(c.formed_under(b, node.depth));
        let q = b.quarter(west, north);
        if node.depth + 1 < QT_MAX_DEPTH {
            lemma_off_lines_shift(b.center.x as int, p.x as int, h / 2, step);
            lemma_off_lines_shift(b.center.y as int, p.y as int, h / 2, step);
            assert(off_lines(q.center, p, step));
        }
        if west && north {
            if node.depth + 1 < QT_MAX_DEPTH {
                lemma_off_lines_admitted(*c.north_west, p, step);
            }
        } else if !west && north {
            if node.depth + 1 < QT_MAX_DEPTH {
                lemma_off_lines_admitted(*c.north_east, p, step);
            }
        } else if west && !north {
            if node.depth + 1 < QT_MAX_DEPTH {
                lemma_off_lines_admitted(*c.south_west, p, step);
            }
        } else {
            if node.depth + 1 < QT_MAX_DEPTH {
                lemma_off_lines_admitted(*c.south_east, p, step);
            }
        }
    }
}

/// In a tree whose squares quarter evenly, every pair inside the boundary and off the
/// centre lines is accepted when its turn comes, and the tree grows by one entry each
/// time.
pub proof fn lemma_filled_off_lines_kept(
    boundary: AABB,
    depth: u16,
    pairs: Seq<Entry>,
    step: int,
    n: nat,
)
    requires
        boundary.fits(),
        depth <= QT_MAX_DEPTH,
        step > 0,
        splits_evenly(boundary.half_dimension as int, step, (QT_MAX_DEPTH - depth) as nat),
        n <= pairs.len(),
        forall|k: int|
            0 <= k < pairs.len() ==> boundary.contains((#[trigger] pairs[k]).0) && off_lines(
                boundary.center,
                pairs[k].0,
                step,
            ),
    ensures
        forall|k: int| 0 <= k < n ==> Node::leaf(boundary, depth).kept(pairs, k),
        Node::leaf(boundary, depth).filled(pairs, n).all_entries().len() == n,
    decreases n,
{
    let root = Node::leaf(boundary, depth);
    if n > 0 {
        let m = (n - 1) as nat;
        let before = root.filled(pairs, m);
        let last = pairs[m as int];
        lemma_filled_off_lines_kept(boundary, depth, pairs, step, m);
        lemma_filled(root, pairs, m, last);
        lemma_off_lines_admitted(before, last.0, step);
        lemma_insert_entries(before, last.0, last.1);
        assert(root.kept(pairs, m as int));
    }
}

/// Where the squares quarter evenly and every pair lies inside the boundary and off the
/// centre lines, a query for the whole boundary returns as many ids as there are pairs,
/// and among them the id of each pair and no other.
pub proof fn lemma_filled_off_lines_complete(
    boundary: AABB,
    depth: u16,
    pairs: Seq<Entry>,
    step: int,
    id: usize,
)
    requires
        boundary.fits(),
        depth <= QT_MAX_DEPTH,
        step > 0,
        splits_evenly(boundary.half_dimension as int, step, (QT_MAX_DEPTH - depth) as nat),
        forall|k: int|
            0 <= k < pairs.len() ==> boundary.contains((#[trigger] pairs[k]).0) && off_lines(
                boundary.center,
                pairs[k].0,
                step,
            ),
    ensures
        ({
            let found = Node::leaf(boundary, depth).filled(pairs, pairs.len()).query(boundary);
            &&& found.len() == pairs.len()
            &&& found.contains(id) <==> exists|k: int|
                0 <= k < pairs.len() && (#[trigger] pairs[k]).1 == id
        }),
{
    let root = Node::leaf(boundary, depth);
    let tree = root.filled(pairs, pairs.len());
    lemma_filled_off_lines_kept(boundary, depth, pairs, step, pairs.len());
    lemma_filled_query_returns_kept(boundary, depth, pairs, id);
    lemma_filled(root, pairs, pairs.len(), (boundary.center, id));
    lemma_query_boundary_returns_all(tree);
    if exists|k: int| 0 <= k < pairs.len() && (#[trigger] pairs[k]).1 == id {
        let k = choose|k: int| 0 <= k < pairs.len() && (#[trigger] pairs[k]).1 == id;
        assert(root.kept(pairs, k));
    }
}

} // verus!
