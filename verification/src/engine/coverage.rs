//! What the index keeps true of its tree, and what queries owe to it.
//!
//! The tree files a stored polygon in every leaf whose rectangles, from the
//! root down, each hold one of its vertices. A query visits the leaves whose
//! rectangles each hold a vertex of the area. So a polygon is found when it
//! collides with the area and shares such a leaf with it, which it always
//! does while the tree is a single leaf, and whenever a vertex of the area
//! is a vertex of the polygon.

use crate::engine::geometry::{encloses, Point};
use crate::engine::primitives::Polygon;
use crate::engine::quadtree::{
    distribute, found, hit, keeper, keeps, keyed, offer, prune, reach, survivors, Rect, Tree,
    MAX_TREE_ENTRIES,
};
use vstd::prelude::*;

verus! {

/// Whether the node `tree` of rectangle `rect` is in shape: an internal
/// node's rectangle can be split, and a leaf holds more than
/// `MAX_TREE_ENTRIES` entries only where its rectangle cannot.
pub open spec fn shaped(tree: Tree, rect: Rect) -> bool
    decreases tree,
{
    match tree {
        Tree::Leaf(ids) => ids.len() <= MAX_TREE_ENTRIES || !rect.splittable(),
        Tree::Split(a, b, c, d) => {
            &&& rect.splittable()
            &&& shaped(*a, rect.quadrant(0))
            &&& shaped(*b, rect.quadrant(1))
            &&& shaped(*c, rect.quadrant(2))
            &&& shaped(*d, rect.quadrant(3))
        },
    }
}

/// Whether the node `tree` of rectangle `rect` files the identity `id` for
/// the vertices `vs`: if one of them lies in the rectangle, a leaf lists the
/// identity, and an internal node files it in all four quadrants.
pub open spec fn files(tree: Tree, rect: Rect, id: usize, vs: Seq<Point>) -> bool
    decreases tree,
{
    rect.touches(vs) ==> match tree {
        Tree::Leaf(ids) => ids.contains(id),
        Tree::Split(a, b, c, d) => {
            &&& files(*a, rect.quadrant(0), id, vs)
            &&& files(*b, rect.quadrant(1), id, vs)
            &&& files(*c, rect.quadrant(2), id, vs)
            &&& files(*d, rect.quadrant(3), id, vs)
        },
    }
}

/// Whether the node files every polygon of `store`.
pub open spec fn complete(tree: Tree, rect: Rect, store: Map<usize, Polygon>) -> bool {
    forall|id: usize| store.contains_key(id) ==> files(tree, rect, id, (#[trigger] store[id])@)
}

/// Whether some leaf under the node lists the identity `id`.
pub open spec fn lists(tree: Tree, id: usize) -> bool
    decreases tree,
{
    match tree {
        Tree::Leaf(ids) => ids.contains(id),
        Tree::Split(a, b, c, d) => lists(*a, id) || lists(*b, id) || lists(*c, id) || lists(
            *d,
            id,
        ),
    }
}

/// Whether no leaf under the node lists an identity twice.
pub open spec fn distinct(tree: Tree) -> bool
    decreases tree,
{
    match tree {
        Tree::Leaf(ids) => ids.no_duplicates(),
        Tree::Split(a, b, c, d) => distinct(*a) && distinct(*b) && distinct(*c) && distinct(*d),
    }
}

/// The polygons of `store` that collide with `area`.
pub open spec fn colliding(store: Map<usize, Polygon>, area: Seq<Point>) -> Set<usize> {
    Set::new(|id: usize| hit(store, area, id))
}

/// The quadrants of a rectangle that can be split are valid and smaller,
/// and each point of the rectangle lies in one of them.
pub proof fn lemma_quadrants(rect: Rect)
    requires
        rect.valid(),
        rect.splittable(),
    ensures
        forall|i: int| 0 <= i < 4 ==> (#[trigger] rect.quadrant(i)).valid(),
        forall|i: int| 0 <= i < 4 ==> (#[trigger] rect.quadrant(i)).extent() < rect.extent(),
        forall|p: Point|
            #[trigger] rect.holds(p) ==> rect.quadrant(0).holds(p) || rect.quadrant(1).holds(p)
                || rect.quadrant(2).holds(p) || rect.quadrant(3).holds(p),
{
}

/// An offer keeps the tree in shape.
proof fn lemma_offer_shaped(tree: Tree, rect: Rect, p: Polygon, store: Map<usize, Polygon>)
    requires
        rect.valid(),
        shaped(tree, rect),
    ensures
        shaped(offer(tree, rect, p, store), rect),
    decreases rect.extent(), 0nat, 0nat,
{
    if rect.touches(p@) {
        match tree {
            Tree::Leaf(ids) => {
                let grown = ids.push(p.spec_id());
                if grown.len() > MAX_TREE_ENTRIES && rect.splittable() {
                    lemma_quadrants(rect);
                    lemma_distribute_shaped(rect.quadrant(0), grown, store);
                    lemma_distribute_shaped(rect.quadrant(1), grown, store);
                    lemma_distribute_shaped(rect.quadrant(2), grown, store);
                    lemma_distribute_shaped(rect.quadrant(3), grown, store);
                }
            },
            Tree::Split(a, b, c, d) => {
                lemma_quadrants(rect);
                lemma_offer_shaped(*a, rect.quadrant(0), p, store);
                lemma_offer_shaped(*b, rect.quadrant(1), p, store);
                lemma_offer_shaped(*c, rect.quadrant(2), p, store);
                lemma_offer_shaped(*d, rect.quadrant(3), p, store);
            },
        }
    }
}

/// Quartering a leaf gives quadrants in shape.
proof fn lemma_distribute_shaped(rect: Rect, ids: Seq<usize>, store: Map<usize, Polygon>)
    requires
        rect.valid(),
    ensures
        shaped(distribute(rect, ids, store), rect),
    decreases rect.extent(), 1nat, ids.len(),
{
    if ids.len() > 0 {
        lemma_distribute_shaped(rect, ids.drop_last(), store);
        if store.contains_key(ids.last()) {
            let before = distribute(rect, ids.drop_last(), store);
            lemma_offer_shaped(before, rect, store[ids.last()], store);
        }
    }
}

/// Offering a polygon keeps every filed polygon filed.
proof fn lemma_offer_keeps(
    tree: Tree,
    rect: Rect,
    p: Polygon,
    store: Map<usize, Polygon>,
    id: usize,
)
    requires
        rect.valid(),
        shaped(tree, rect),
        store.contains_key(id),
        store[id].spec_id() == id,
        files(tree, rect, id, store[id]@),
    ensures
        files(offer(tree, rect, p, store), rect, id, store[id]@),
    decreases rect.extent(), 0nat, 0nat,
{
    let vs = store[id]@;
    if rect.touches(p@) {
        match tree {
            Tree::Leaf(ids) => {
                let grown = ids.push(p.spec_id());
                if rect.touches(vs) {
                    assert(ids.contains(id));
                    let w = choose|w: int| 0 <= w < ids.len() && ids[w] == id;
                    assert(grown[w] == id);
                    if grown.len() > MAX_TREE_ENTRIES && rect.splittable() {
                        lemma_quadrants(rect);
                        lemma_distribute_files(rect.quadrant(0), grown, store, id);
                        lemma_distribute_files(rect.quadrant(1), grown, store, id);
                        lemma_distribute_files(rect.quadrant(2), grown, store, id);
                        lemma_distribute_files(rect.quadrant(3), grown, store, id);
                    }
                }
            },
            Tree::Split(a, b, c, d) => {
                if rect.touches(vs) {
                    lemma_quadrants(rect);
                    lemma_offer_keeps(*a, rect.quadrant(0), p, store, id);
                    lemma_offer_keeps(*b, rect.quadrant(1), p, store, id);
                    lemma_offer_keeps(*c, rect.quadrant(2), p, store, id);
                    lemma_offer_keeps(*d, rect.quadrant(3), p, store, id);
                }
            },
        }
    }
}

/// Offering a stored polygon files it.
proof fn lemma_offer_files(tree: Tree, rect: Rect, p: Polygon, store: Map<usize, Polygon>)
    requires
        rect.valid(),
        shaped(tree, rect),
        store.contains_key(p.spec_id()),
        store[p.spec_id()] == p,
    ensures
        files(offer(tree, rect, p, store), rect, p.spec_id(), p@),
    decreases rect.extent(), 0nat, 0nat,
{
    if rect.touches(p@) {
        match tree {
            Tree::Leaf(ids) => {
                let grown = ids.push(p.spec_id());
                assert(grown[ids.len() as int] == p.spec_id());
                if grown.len() > MAX_TREE_ENTRIES && rect.splittable() {
                    lemma_quadrants(rect);
                    lemma_distribute_files(rect.quadrant(0), grown, store, p.spec_id());
                    lemma_distribute_files(rect.quadrant(1), grown, store, p.spec_id());
                    lemma_distribute_files(rect.quadrant(2), grown, store, p.spec_id());
                    lemma_distribute_files(rect.quadrant(3), grown, store, p.spec_id());
                }
            },
            Tree::Split(a, b, c, d) => {
                lemma_quadrants(rect);
                lemma_offer_files(*a, rect.quadrant(0), p, store);
                lemma_offer_files(*b, rect.quadrant(1), p, store);
                lemma_offer_files(*c, rect.quadrant(2), p, store);
                lemma_offer_files(*d, rect.quadrant(3), p, store);
            },
        }
    }
}

/// Quartering a leaf files every stored polygon that the leaf listed.
proof fn lemma_distribute_files(
    rect: Rect,
    ids: Seq<usize>,
    store: Map<usize, Polygon>,
    id: usize,
)
    requires
        rect.valid(),
        ids.contains(id),
        store.contains_key(id),
        store[id].spec_id() == id,
    ensures
        files(distribute(rect, ids, store), rect, id, store[id]@),
    decreases rect.extent(), 1nat, ids.len(),
{
    let before = distribute(rect, ids.drop_last(), store);
    lemma_distribute_shaped(rect, ids.drop_last(), store);
    if ids.last() == id {
        lemma_offer_files(before, rect, store[id], store);
    } else {
        let w = choose|w: int| 0 <= w < ids.len() && ids[w] == id;
        assert(ids.drop_last()[w] == id);
        lemma_distribute_files(rect, ids.drop_last(), store, id);
        if store.contains_key(ids.last()) {
            lemma_offer_keeps(before, rect, store[ids.last()], store, id);
        }
    }
}

/// Inserting a polygon into the store and offering it to the tree keeps the
/// tree in shape and complete.
pub proof fn lemma_insert_preserves(tree: Tree, rect: Rect, p: Polygon, store: Map<usize, Polygon>)
    requires
        rect.valid(),
        shaped(tree, rect),
        keyed(store),
        complete(tree, rect, store),
    ensures
        ({
            let after = store.insert(p.spec_id(), p);
            &&& shaped(offer(tree, rect, p, after), rect)
            &&& keyed(after)
            &&& complete(offer(tree, rect, p, after), rect, after)
        }),
{
    let after = store.insert(p.spec_id(), p);
    lemma_offer_shaped(tree, rect, p, after);
    assert forall|id: usize| after.contains_key(id) implies files(
        offer(tree, rect, p, after),
        rect,
        id,
        (#[trigger] after[id])@,
    ) by {
        if id == p.spec_id() {
            lemma_offer_files(tree, rect, p, after);
        } else {
            assert(files(tree, rect, id, store[id]@));
            lemma_offer_keeps(tree, rect, p, after, id);
        }
    }
}

/// A removal keeps every polygon filed that it leaves in the store.
proof fn lemma_prune_files(
    tree: Tree,
    rect: Rect,
    point: Point,
    store: Map<usize, Polygon>,
    id: usize,
    vs: Seq<Point>,
)
    requires
        files(tree, rect, id, vs),
        keeps(store, point, id),
    ensures
        files(prune(tree, rect, point, store), rect, id, vs),
    decreases tree,
{
    if rect.holds(point) && rect.touches(vs) {
        match tree {
            Tree::Leaf(ids) => {
                let w = choose|w: int| 0 <= w < ids.len() && ids[w] == id;
                assert(keeper(store, point)(ids[w]));
                ids.lemma_filter_contains(keeper(store, point), w);
            },
            Tree::Split(a, b, c, d) => {
                lemma_prune_files(*a, rect.quadrant(0), point, store, id, vs);
                lemma_prune_files(*b, rect.quadrant(1), point, store, id, vs);
                lemma_prune_files(*c, rect.quadrant(2), point, store, id, vs);
                lemma_prune_files(*d, rect.quadrant(3), point, store, id, vs);
            },
        }
    }
}

/// A removal keeps the tree in shape.
proof fn lemma_prune_shaped(tree: Tree, rect: Rect, point: Point, store: Map<usize, Polygon>)
    requires
        shaped(tree, rect),
    ensures
        shaped(prune(tree, rect, point, store), rect),
    decreases tree,
{
    if rect.holds(point) {
        match tree {
            Tree::Leaf(ids) => {
                ids.lemma_filter_len(keeper(store, point));
            },
            Tree::Split(a, b, c, d) => {
                lemma_prune_shaped(*a, rect.quadrant(0), point, store);
                lemma_prune_shaped(*b, rect.quadrant(1), point, store);
                lemma_prune_shaped(*c, rect.quadrant(2), point, store);
                lemma_prune_shaped(*d, rect.quadrant(3), point, store);
            },
        }
    }
}

/// Removing at a point keeps the tree in shape and complete for the
/// polygons that are left.
pub proof fn lemma_remove_preserves(
    tree: Tree,
    rect: Rect,
    point: Point,
    store: Map<usize, Polygon>,
)
    requires
        shaped(tree, rect),
        keyed(store),
        complete(tree, rect, store),
    ensures
        shaped(prune(tree, rect, point, store), rect),
        keyed(survivors(store, point)),
        complete(prune(tree, rect, point, store), rect, survivors(store, point)),
{
    let left = survivors(store, point);
    lemma_prune_shaped(tree, rect, point, store);
    assert forall|id: usize| left.contains_key(id) implies files(
        prune(tree, rect, point, store),
        rect,
        id,
        (#[trigger] left[id])@,
    ) by {
        assert(files(tree, rect, id, store[id]@));
        lemma_prune_files(tree, rect, point, store, id, store[id]@);
    }
    assert forall|id: usize| left.contains_key(id) implies (#[trigger] left[id]).spec_id()
        == id by {
        assert(store[id].spec_id() == id);
    }
}

/// A query visits every leaf whose rectangles hold a point that is a vertex
/// of the area: there it reaches each filed polygon that has that vertex
/// too.
pub proof fn lemma_reach_shared_vertex(
    tree: Tree,
    rect: Rect,
    area: Seq<Point>,
    id: usize,
    vs: Seq<Point>,
    q: Point,
)
    requires
        rect.valid(),
        shaped(tree, rect),
        files(tree, rect, id, vs),
        rect.holds(q),
        area.contains(q),
        vs.contains(q),
    ensures
        reach(tree, rect, area).contains(id),
    decreases tree,
{
    let i = choose|i: int| 0 <= i < area.len() && area[i] == q;
    let j = choose|j: int| 0 <= j < vs.len() && vs[j] == q;
    assert(rect.holds(area[i]));
    assert(rect.holds(vs[j]));
    match tree {
        Tree::Leaf(ids) => {},
        Tree::Split(a, b, c, d) => {
            lemma_quadrants(rect);
            if rect.quadrant(0).holds(q) {
                lemma_reach_shared_vertex(*a, rect.quadrant(0), area, id, vs, q);
            } else if rect.quadrant(1).holds(q) {
                lemma_reach_shared_vertex(*b, rect.quadrant(1), area, id, vs, q);
            } else if rect.quadrant(2).holds(q) {
                lemma_reach_shared_vertex(*c, rect.quadrant(2), area, id, vs, q);
            } else {
                lemma_reach_shared_vertex(*d, rect.quadrant(3), area, id, vs, q);
            }
        },
    }
}

/// A stored polygon that collides with the area and has a vertex in common
/// with it is found.
pub proof fn lemma_found_shared_vertex(
    tree: Tree,
    store: Map<usize, Polygon>,
    area: Seq<Point>,
    id: usize,
    q: Point,
)
    requires
        shaped(tree, Rect::whole()),
        complete(tree, Rect::whole(), store),
        hit(store, area, id),
        area.contains(q),
        store[id]@.contains(q),
    ensures
        found(tree, Rect::whole(), store, area).contains(id),
{
    lemma_reach_shared_vertex(tree, Rect::whole(), area, id, store[id]@, q);
}

/// What is found collides with the area; and where every stored polygon
/// that collides with the area is reached, as in a tree that is a single
/// leaf, exactly the colliding polygons are found.
pub proof fn lemma_found_is_colliding(
    tree: Tree,
    rect: Rect,
    store: Map<usize, Polygon>,
    area: Seq<Point>,
)
    ensures
        found(tree, rect, store, area).subset_of(colliding(store, area)),
        (forall|id: usize| #[trigger] hit(store, area, id) ==> reach(tree, rect, area).contains(id))
            ==> found(tree, rect, store, area) == colliding(store, area),
{
    if forall|id: usize| #[trigger] hit(store, area, id) ==> reach(tree, rect, area).contains(id) {
        assert(found(tree, rect, store, area) =~= colliding(store, area));
    }
}

/// While the tree is a single leaf, a query with an area that has a vertex
/// reaches every stored polygon that has one.
pub proof fn lemma_leaf_reaches_all(
    ids: Seq<usize>,
    store: Map<usize, Polygon>,
    area: Seq<Point>,
    id: usize,
)
    requires
        complete(Tree::Leaf(ids), Rect::whole(), store),
        store.contains_key(id),
        store[id]@.len() > 0,
        area.len() > 0,
    ensures
        reach(Tree::Leaf(ids), Rect::whole(), area).contains(id),
{
    assert(Rect::whole().holds(area[0]));
    assert(Rect::whole().holds(store[id]@[0]));
    assert(files(Tree::Leaf(ids), Rect::whole(), id, store[id]@));
}

/// Where one stored polygon contains the point and no other does, removing
/// at the point takes that polygon out of the store and leaves the rest,
/// and no query finds it afterwards.
pub proof fn lemma_remove_single(
    store: Map<usize, Polygon>,
    point: Point,
    id: usize,
    tree: Tree,
    area: Seq<Point>,
)
    requires
        store.dom().finite(),
        store.contains_key(id),
        encloses(store[id]@, point),
        forall|other: usize|
            store.contains_key(other) && other != id ==> !encloses(
                (#[trigger] store[other])@,
                point,
            ),
    ensures
        survivors(store, point) == store.remove(id),
        survivors(store, point).len() == store.len() - 1,
        !found(tree, Rect::whole(), survivors(store, point), area).contains(id),
{
    assert(survivors(store, point) =~= store.remove(id));
}


/// An offer lists no identity but that of the polygon offered.
proof fn lemma_offer_lists(
    tree: Tree,
    rect: Rect,
    p: Polygon,
    store: Map<usize, Polygon>,
    id: usize,
)
    requires
        keyed(store),
        lists(offer(tree, rect, p, store), id),
    ensures
        lists(tree, id) || id == p.spec_id(),
    decreases rect.extent(), 0nat, 0nat,
{
    if rect.touches(p@) {
        match tree {
            Tree::Leaf(ids) => {
                let grown = ids.push(p.spec_id());
                if grown.len() > MAX_TREE_ENTRIES && rect.splittable() {
                    if lists(distribute(rect.quadrant(0), grown, store), id) {
                        lemma_distribute_lists(rect.quadrant(0), grown, store, id);
                    } else if lists(distribute(rect.quadrant(1), grown, store), id) {
                        lemma_distribute_lists(rect.quadrant(1), grown, store, id);
                    } else if lists(distribute(rect.quadrant(2), grown, store), id) {
                        lemma_distribute_lists(rect.quadrant(2), grown, store, id);
                    } else {
                        lemma_distribute_lists(rect.quadrant(3), grown, store, id);
                    }
                }
                let w = choose|w: int| 0 <= w < grown.len() && grown[w] == id;
                if w < ids.len() {
                    assert(ids[w] == id);
                }
            },
            Tree::Split(a, b, c, d) => {
                if rect.splittable() {
                    if lists(offer(*a, rect.quadrant(0), p, store), id) {
                        lemma_offer_lists(*a, rect.quadrant(0), p, store, id);
                    } else if lists(offer(*b, rect.quadrant(1), p, store), id) {
                        lemma_offer_lists(*b, rect.quadrant(1), p, store, id);
                    } else if lists(offer(*c, rect.quadrant(2), p, store), id) {
                        lemma_offer_lists(*c, rect.quadrant(2), p, store, id);
                    } else {
                        lemma_offer_lists(*d, rect.quadrant(3), p, store, id);
                    }
                }
            },
        }
    }
}

/// Quartering a leaf lists no identity that the leaf did not list.
proof fn lemma_distribute_lists(rect: Rect, ids: Seq<usize>, store: Map<usize, Polygon>, id: usize)
    requires
        keyed(store),
        lists(distribute(rect, ids, store), id),
    ensures
        ids.contains(id),
    decreases rect.extent(), 1nat, ids.len(),
{
    if ids.len() > 0 {
        let before = distribute(rect, ids.drop_last(), store);
        if store.contains_key(ids.last()) {
            lemma_offer_lists(before, rect, store[ids.last()], store, id);
        }
        if lists(before, id) {
            lemma_distribute_lists(rect, ids.drop_last(), store, id);
            let w = choose|w: int| 0 <= w < ids.drop_last().len() && ids.drop_last()[w] == id;
            assert(ids[w] == id);
        } else {
            assert(ids[ids.len() - 1] == id);
        }
    }
}

/// An offer of a polygon that no leaf lists yet lists no identity twice.
proof fn lemma_offer_distinct(tree: Tree, rect: Rect, p: Polygon, store: Map<usize, Polygon>)
    requires
        keyed(store),
        distinct(tree),
        !lists(tree, p.spec_id()),
    ensures
        distinct(offer(tree, rect, p, store)),
    decreases rect.extent(), 0nat, 0nat,
{
    if rect.touches(p@) {
        match tree {
            Tree::Leaf(ids) => {
                let grown = ids.push(p.spec_id());
                assert(grown.no_duplicates()) by {
                    assert forall|i: int, j: int|
                        0 <= i < grown.len() && 0 <= j < grown.len() && i != j implies grown[i]
                        != grown[j] by {
                        if i < ids.len() && j < ids.len() {
                            assert(ids[i] != ids[j]);
                        } else if i < ids.len() {
                            assert(ids.contains(ids[i]));
                        } else {
                            assert(ids.contains(ids[j]));
                        }
                    }
                }
                if grown.len() > MAX_TREE_ENTRIES && rect.splittable() {
                    lemma_distribute_distinct(rect.quadrant(0), grown, store);
                    lemma_distribute_distinct(rect.quadrant(1), grown, store);
                    lemma_distribute_distinct(rect.quadrant(2), grown, store);
                    lemma_distribute_distinct(rect.quadrant(3), grown, store);
                }
            },
            Tree::Split(a, b, c, d) => {
                if rect.splittable() {
                    lemma_offer_distinct(*a, rect.quadrant(0), p, store);
                    lemma_offer_distinct(*b, rect.quadrant(1), p, store);
                    lemma_offer_distinct(*c, rect.quadrant(2), p, store);
                    lemma_offer_distinct(*d, rect.quadrant(3), p, store);
                }
            },
        }
    }
}

/// Quartering a leaf that lists no identity twice lists none twice.
proof fn lemma_distribute_distinct(rect: Rect, ids: Seq<usize>, store: Map<usize, Polygon>)
    requires
        keyed(store),
        ids.no_duplicates(),
    ensures
        distinct(distribute(rect, ids, store)),
    decreases rect.extent(), 1nat, ids.len(),
{
    if ids.len() > 0 {
        let before = distribute(rect, ids.drop_last(), store);
        lemma_distribute_distinct(rect, ids.drop_last(), store);
        if store.contains_key(ids.last()) {
            if lists(before, ids.last()) {
                lemma_distribute_lists(rect, ids.drop_last(), store, ids.last());
                let w = choose|w: int|
                    0 <= w < ids.drop_last().len() && ids.drop_last()[w] == ids.last();
                assert(ids[w] == ids[ids.len() - 1]);
            }
            lemma_offer_distinct(before, rect, store[ids.last()], store);
        }
    }
}

/// What is left of a list without an entry twice has no entry twice.
proof fn lemma_filter_distinct(ids: Seq<usize>, keep: spec_fn(usize) -> bool)
    requires
        ids.no_duplicates(),
    ensures
        ids.filter(keep).no_duplicates(),
    decreases ids.len(),
{
    reveal_with_fuel(Seq::filter, 1);
    if ids.len() > 0 {
        let rest = ids.drop_last();
        lemma_filter_distinct(rest, keep);
        if keep(ids.last()) {
            let kept = rest.filter(keep);
            if kept.contains(ids.last()) {
                rest.lemma_filter_contains_rev(keep, ids.last());
                let w = choose|w: int| 0 <= w < rest.len() && rest[w] == ids.last();
                assert(ids[w] == ids[ids.len() - 1]);
            }
            assert forall|i: int, j: int|
                0 <= i < kept.len() + 1 && 0 <= j < kept.len() + 1 && i != j implies kept.push(
                ids.last())[i] != kept.push(ids.last())[j] by {
                if i < kept.len() && j < kept.len() {
                    assert(kept[i] != kept[j]);
                } else if i < kept.len() {
                    assert(kept.contains(kept[i]));
                } else {
                    assert(kept.contains(kept[j]));
                }
            }
        }
    }
}

/// A removal lists no identity anew.
proof fn lemma_prune_lists(
    tree: Tree,
    rect: Rect,
    point: Point,
    store: Map<usize, Polygon>,
    id: usize,
)
    requires
        lists(prune(tree, rect, point, store), id),
    ensures
        lists(tree, id),
    decreases tree,
{
    if rect.holds(point) {
        match tree {
            Tree::Leaf(ids) => {
                ids.lemma_filter_contains_rev(keeper(store, point), id);
            },
            Tree::Split(a, b, c, d) => {
                if lists(prune(*a, rect.quadrant(0), point, store), id) {
                    lemma_prune_lists(*a, rect.quadrant(0), point, store, id);
                } else if lists(prune(*b, rect.quadrant(1), point, store), id) {
                    lemma_prune_lists(*b, rect.quadrant(1), point, store, id);
                } else if lists(prune(*c, rect.quadrant(2), point, store), id) {
                    lemma_prune_lists(*c, rect.quadrant(2), point, store, id);
                } else {
                    lemma_prune_lists(*d, rect.quadrant(3), point, store, id);
                }
            },
        }
    }
}

/// A removal lists no identity twice that was not listed twice.
proof fn lemma_prune_distinct(tree: Tree, rect: Rect, point: Point, store: Map<usize, Polygon>)
    requires
        distinct(tree),
    ensures
        distinct(prune(tree, rect, point, store)),
    decreases tree,
{
    if rect.holds(point) {
        match tree {
            Tree::Leaf(ids) => {
                lemma_filter_distinct(ids, keeper(store, point));
            },
            Tree::Split(a, b, c, d) => {
                lemma_prune_distinct(*a, rect.quadrant(0), point, store);
                lemma_prune_distinct(*b, rect.quadrant(1), point, store);
                lemma_prune_distinct(*c, rect.quadrant(2), point, store);
                lemma_prune_distinct(*d, rect.quadrant(3), point, store);
            },
        }
    }
}

/// Inserting a polygon lists its identity and no other anew; and where no
/// leaf listed the identity, no leaf lists an identity twice unless one did
/// before.
pub proof fn lemma_insert_lists(tree: Tree, rect: Rect, p: Polygon, store: Map<usize, Polygon>)
    requires
        keyed(store),
    ensures
        ({
            let after = offer(tree, rect, p, store.insert(p.spec_id(), p));
            &&& forall|id: usize|
                #[trigger] lists(after, id) ==> lists(tree, id) || id == p.spec_id()
            &&& distinct(tree) && !lists(tree, p.spec_id()) ==> distinct(after)
        }),
{
    let stored = store.insert(p.spec_id(), p);
    let after = offer(tree, rect, p, stored);
    assert forall|id: usize| #[trigger] lists(after, id) implies lists(tree, id) || id
        == p.spec_id() by {
        lemma_offer_lists(tree, rect, p, stored, id);
    }
    if distinct(tree) && !lists(tree, p.spec_id()) {
        lemma_offer_distinct(tree, rect, p, stored);
    }
}

/// Removing at a point lists no identity anew, and none twice unless it was
/// listed twice before.
pub proof fn lemma_remove_lists(tree: Tree, rect: Rect, point: Point, store: Map<usize, Polygon>)
    ensures
        forall|id: usize| #[trigger] lists(prune(tree, rect, point, store), id) ==> lists(tree, id),
        distinct(tree) ==> distinct(prune(tree, rect, point, store)),
{
    assert forall|id: usize| #[trigger] lists(prune(tree, rect, point, store), id) implies lists(
        tree,
        id,
    ) by {
        lemma_prune_lists(tree, rect, point, store, id);
    }
    if distinct(tree) {
        lemma_prune_distinct(tree, rect, point, store);
    }
}

} // verus!
