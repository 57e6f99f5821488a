//! An adaptive quadtree over polygons keyed by identity.
//!
//! A master store owns the polygons. The tree holds identities only: a leaf
//! lists the polygons that have a vertex in every rectangle on the way down
//! to it, and a leaf that outgrows `MAX_TREE_ENTRIES` is quartered, unless
//! its rectangle is too small to be split. The vertex test is a cheap
//! pre-filter, and a loose one: a polygon that spans a rectangle without a
//! vertex in it is not listed there, and a query whose area has no vertex in
//! a rectangle does not look there.

use crate::engine::coverage::{
    complete, distinct, lemma_insert_lists, lemma_insert_preserves, lemma_remove_lists,
    lemma_remove_preserves, lists, shaped,
};
use crate::engine::geometry::{collide, encloses, Point};
use crate::engine::primitives::Polygon;
use std::collections::HashMap;
use vstd::prelude::*;
use vstd::std_specs::iter::IteratorSpec;

verus! {

broadcast use vstd::std_specs::hash::group_hash_axioms;

/// The number of entries beyond which a leaf is quartered.
pub const MAX_TREE_ENTRIES: usize = 10;

/// An axis-aligned rectangle, borders included.
#[derive(Clone, Copy, Debug, PartialEq, Eq, Structural)]
pub struct Rect {
    pub x_min: i32,
    pub x_max: i32,
    pub y_min: i32,
    pub y_max: i32,
}

/// The point halfway between `lo` and `hi`, rounded towards `lo`.
pub open spec fn midpoint(lo: i32, hi: i32) -> i32 {
    (lo + (hi - lo) / 2) as i32
}

impl Rect {
    /// The whole plane.
    pub open spec fn whole() -> Rect {
        Rect { x_min: i32::MIN, x_max: i32::MAX, y_min: i32::MIN, y_max: i32::MAX }
    }

    /// Whether neither range is inverted.
    pub open spec fn valid(&self) -> bool {
        self.x_min <= self.x_max && self.y_min <= self.y_max
    }

    /// Whether `p` lies in the rectangle.
    pub open spec fn holds(&self, p: Point) -> bool {
        self.x_min <= p.x <= self.x_max && self.y_min <= p.y <= self.y_max
    }

    /// Whether one of the points `vs` lies in the rectangle.
    pub open spec fn touches(&self, vs: Seq<Point>) -> bool {
        exists|i: int| 0 <= i < vs.len() && self.holds(#[trigger] vs[i])
    }

    /// Whether both sides are long enough for four smaller quadrants.
    pub open spec fn splittable(&self) -> bool {
        self.x_max - self.x_min >= 2 && self.y_max - self.y_min >= 2
    }

    /// Width plus height.
    pub open spec fn extent(&self) -> nat {
        if self.valid() {
            ((self.x_max - self.x_min) + (self.y_max - self.y_min)) as nat
        } else {
            0
        }
    }

    /// The quadrants at the midpoint of both axes: top left, top right,
    /// bottom left, bottom right. Neighbours share their border.
    pub open spec fn quadrant(&self, i: int) -> Rect {
        let mid_x = midpoint(self.x_min, self.x_max);
        let mid_y = midpoint(self.y_min, self.y_max);
        if i == 0 {
            Rect { x_min: self.x_min, x_max: mid_x, y_min: mid_y, y_max: self.y_max }
        } else if i == 1 {
            Rect { x_min: mid_x, x_max: self.x_max, y_min: mid_y, y_max: self.y_max }
        } else if i == 2 {
            Rect { x_min: self.x_min, x_max: mid_x, y_min: self.y_min, y_max: mid_y }
        } else {
            Rect { x_min: mid_x, x_max: self.x_max, y_min: self.y_min, y_max: mid_y }
        }
    }
}

/// What a tree node holds: the identities listed in a leaf, or the four
/// quadrants of an internal node. A node's rectangle follows from its place
/// in the tree.
pub enum Tree {
    Leaf(Seq<usize>),
    Split(Box<Tree>, Box<Tree>, Box<Tree>, Box<Tree>),
}

/// The node `tree` of rectangle `rect` after `p` was offered to it. A node
/// takes a polygon that has a vertex in its rectangle. A leaf lists it, and
/// is quartered when that makes it outgrow `MAX_TREE_ENTRIES` and its
/// rectangle can be split; an internal node offers it to all four quadrants.
pub open spec fn offer(tree: Tree, rect: Rect, p: Polygon, store: Map<usize, Polygon>) -> Tree
    decreases rect.extent(), 0nat, 0nat,
{
    if !rect.touches(p@) {
        tree
    } else {
        match tree {
            Tree::Leaf(ids) => {
                let grown = ids.push(p.spec_id());
                if grown.len() > MAX_TREE_ENTRIES && rect.splittable() {
                    Tree::Split(
                        Box::new(distribute(rect.quadrant(0), grown, store)),
                        Box::new(distribute(rect.quadrant(1), grown, store)),
                        Box::new(distribute(rect.quadrant(2), grown, store)),
                        Box::new(distribute(rect.quadrant(3), grown, store)),
                    )
                } else {
                    Tree::Leaf(grown)
                }
            },
            Tree::Split(a, b, c, d) => {
                if rect.splittable() {
                    Tree::Split(
                        Box::new(offer(*a, rect.quadrant(0), p, store)),
                        Box::new(offer(*b, rect.quadrant(1), p, store)),
                        Box::new(offer(*c, rect.quadrant(2), p, store)),
                        Box::new(offer(*d, rect.quadrant(3), p, store)),
                    )
                } else {
                    tree
                }
            },
        }
    }
}

/// The fresh node of rectangle `rect` after each of `ids` that `store`
/// knows was offered to it, in order.
pub open spec fn distribute(rect: Rect, ids: Seq<usize>, store: Map<usize, Polygon>) -> Tree
    decreases rect.extent(), 1nat, ids.len(),
{
    if ids.len() == 0 {
        Tree::Leaf(Seq::empty())
    } else {
        let before = distribute(rect, ids.drop_last(), store);
        if store.contains_key(ids.last()) {
            offer(before, rect, store[ids.last()], store)
        } else {
            before
        }
    }
}


/// Whether `store` knows `id` and its polygon does not contain `point`.
pub open spec fn keeps(store: Map<usize, Polygon>, point: Point, id: usize) -> bool {
    store.contains_key(id) && !encloses(store[id]@, point)
}

/// `keeps` as a predicate on identities.
pub open spec fn keeper(store: Map<usize, Polygon>, point: Point) -> spec_fn(usize) -> bool {
    |id: usize| keeps(store, point, id)
}

/// The node `tree` of rectangle `rect` after a removal at `point`: every
/// leaf whose rectangles down from `rect` all hold the point keeps the
/// entries that `keeps` accepts, in order. Nothing is merged.
pub open spec fn prune(tree: Tree, rect: Rect, point: Point, store: Map<usize, Polygon>) -> Tree
    decreases tree,
{
    if !rect.holds(point) {
        tree
    } else {
        match tree {
            Tree::Leaf(ids) => Tree::Leaf(ids.filter(keeper(store, point))),
            Tree::Split(a, b, c, d) => Tree::Split(
                Box::new(prune(*a, rect.quadrant(0), point, store)),
                Box::new(prune(*b, rect.quadrant(1), point, store)),
                Box::new(prune(*c, rect.quadrant(2), point, store)),
                Box::new(prune(*d, rect.quadrant(3), point, store)),
            ),
        }
    }
}

/// The identities listed in the leaves that a query with the vertices
/// `area` visits: those whose rectangles down from `rect` each hold a
/// vertex of the area.
pub open spec fn reach(tree: Tree, rect: Rect, area: Seq<Point>) -> Set<usize>
    decreases tree,
{
    if !rect.touches(area) {
        Set::empty()
    } else {
        match tree {
            Tree::Leaf(ids) => ids.to_set(),
            Tree::Split(a, b, c, d) => reach(*a, rect.quadrant(0), area).union(
                reach(*b, rect.quadrant(1), area),
            ).union(reach(*c, rect.quadrant(2), area)).union(reach(*d, rect.quadrant(3), area)),
        }
    }
}

/// Whether `store` knows `id` and its polygon collides with `area`.
pub open spec fn hit(store: Map<usize, Polygon>, area: Seq<Point>, id: usize) -> bool {
    store.contains_key(id) && collide(store[id]@, area)
}

/// What a query with the vertices `area` finds under the node `tree` of
/// rectangle `rect`: the reached identities whose polygons collide with the
/// area.
pub open spec fn found(tree: Tree, rect: Rect, store: Map<usize, Polygon>, area: Seq<Point>) -> Set<
    usize,
> {
    Set::new(|id: usize| reach(tree, rect, area).contains(id) && hit(store, area, id))
}

/// `store` without the polygons that contain `point`.
pub open spec fn survivors(store: Map<usize, Polygon>, point: Point) -> Map<usize, Polygon> {
    store.restrict(Set::new(|id: usize| keeps(store, point, id)))
}

/// Whether every polygon of `store` is filed under its own identity.
pub open spec fn keyed(store: Map<usize, Polygon>) -> bool {
    forall|id: usize| store.contains_key(id) ==> (#[trigger] store[id]).spec_id() == id
}

impl Rect {
    /// Whether `p` lies in the rectangle.
    pub fn contains(&self, p: &Point) -> (r: bool)
        ensures
            r == self.holds(*p),
    {
        self.x_min <= p.x && p.x <= self.x_max && self.y_min <= p.y && p.y <= self.y_max
    }

    /// Whether one of the points `vs` lies in the rectangle.
    pub fn contains_any(&self, vs: &Vec<Point>) -> (r: bool)
        ensures
            r == self.touches(vs@),
    {
        let mut i: usize = 0;
        while i < vs.len()
            invariant
                i <= vs.len(),
                forall|j: int| 0 <= j < i ==> !self.holds(#[trigger] vs@[j]),
            decreases vs.len() - i,
        {
            if self.contains(&vs[i]) {
                return true;
            }
            i += 1;
        }
        false
    }

    /// Whether both sides are long enough for four smaller quadrants.
    pub fn can_split(&self) -> (r: bool)
        ensures
            r == self.splittable(),
    {
        self.x_max as i64 - self.x_min as i64 >= 2 && self.y_max as i64 - self.y_min as i64 >= 2
    }

    /// Quadrant `i` of a rectangle: see `quadrant`.
    pub fn quarter(&self, i: usize) -> (r: Rect)
        requires
            self.valid(),
        ensures
            r == self.quadrant(i as int),
            r.valid(),
            self.splittable() ==> r.extent() < self.extent(),
    {
        let mid_x: i32 = halfway(self.x_min, self.x_max);
        let mid_y: i32 = halfway(self.y_min, self.y_max);
        if i == 0 {
            Rect { x_min: self.x_min, x_max: mid_x, y_min: mid_y, y_max: self.y_max }
        } else if i == 1 {
            Rect { x_min: mid_x, x_max: self.x_max, y_min: mid_y, y_max: self.y_max }
        } else if i == 2 {
            Rect { x_min: self.x_min, x_max: mid_x, y_min: self.y_min, y_max: mid_y }
        } else {
            Rect { x_min: mid_x, x_max: self.x_max, y_min: self.y_min, y_max: mid_y }
        }
    }
}

/// `midpoint`, computed.
fn halfway(lo: i32, hi: i32) -> (r: i32)
    requires
        lo <= hi,
    ensures
        r == midpoint(lo, hi),
        lo <= r <= hi,
{
    let width: i64 = hi as i64 - lo as i64;
    (lo as i64 + width / 2) as i32
}

/// What a node holds: the identities listed in a leaf, or four quadrants.
#[derive(Debug)]
enum Body {
    Elements(Vec<usize>),
    Children(Box<QuadTreeInner>, Box<QuadTreeInner>, Box<QuadTreeInner>, Box<QuadTreeInner>),
}

/// A node of the tree: the rectangle it answers for, and either the
/// identities listed in it or its four quadrants.
#[derive(Debug)]
pub struct QuadTreeInner {
    body: Body,
    region: Rect,
}

impl View for QuadTreeInner {
    type V = Tree;

    closed spec fn view(&self) -> Tree {
        self.contents()
    }
}

impl QuadTreeInner {
    /// What the node holds, without its rectangles.
    spec fn contents(&self) -> Tree
        decreases self,
    {
        match self.body {
            Body::Elements(ids) => Tree::Leaf(ids@),
            Body::Children(a, b, c, d) => Tree::Split(
                Box::new(a.contents()),
                Box::new(b.contents()),
                Box::new(c.contents()),
                Box::new(d.contents()),
            ),
        }
    }

    /// The rectangle that the node answers for.
    pub closed spec fn region(&self) -> Rect {
        self.region
    }

    /// Whether every rectangle in the tree is valid, and every internal
    /// node's rectangle is split into those of its four quadrants.
    pub closed spec fn wf(&self) -> bool
        decreases self,
    {
        &&& self.region.valid()
        &&& match self.body {
            Body::Elements(_) => true,
            Body::Children(a, b, c, d) => {
                &&& self.region.splittable()
                &&& a.region == self.region.quadrant(0)
                &&& b.region == self.region.quadrant(1)
                &&& c.region == self.region.quadrant(2)
                &&& d.region == self.region.quadrant(3)
                &&& a.wf()
                &&& b.wf()
                &&& c.wf()
                &&& d.wf()
            },
        }
    }

    /// An empty leaf that answers for `region`, whose ranges must not be
    /// inverted.
    fn new_with_ranges(region: Rect) -> (r: Self)
        requires
            region.valid(),
        ensures
            r.wf(),
            r.region() == region,
            r@ == Tree::Leaf(Seq::empty()),
    {
        QuadTreeInner { body: Body::Elements(Vec::new()), region }
    }

    /// An empty leaf that answers for the whole plane.
    pub fn new() -> (r: Self)
        ensures
            r.wf(),
            r.region() == Rect::whole(),
            r@ == Tree::Leaf(Seq::empty()),
    {
        QuadTreeInner::new_with_ranges(
            Rect { x_min: i32::MIN, x_max: i32::MAX, y_min: i32::MIN, y_max: i32::MAX },
        )
    }

    /// Offers `polygon` to the node: see `offer`. Where a leaf is quartered,
    /// its entries are looked up in `store` and offered to the quadrants.
    pub fn insert(&mut self, polygon: &Polygon, store: &HashMap<usize, Polygon>)
        requires
            old(self).wf(),
        ensures
            final(self).wf(),
            final(self).region() == old(self).region(),
            final(self)@ == offer(old(self)@, old(self).region(), *polygon, store@),
        decreases old(self).region().extent(),
    {
        if !self.region.contains_any(polygon.vertices()) {
            return ;
        }
        let region: Rect = self.region;
        match &mut self.body {
            Body::Elements(elements) => {
                elements.push(polygon.id());
                if elements.len() > MAX_TREE_ENTRIES && region.can_split() {
                    let mut c0 = QuadTreeInner::new_with_ranges(region.quarter(0));
                    let mut c1 = QuadTreeInner::new_with_ranges(region.quarter(1));
                    let mut c2 = QuadTreeInner::new_with_ranges(region.quarter(2));
                    let mut c3 = QuadTreeInner::new_with_ranges(region.quarter(3));
                    let mut i: usize = 0;
                    while i < elements.len()
                        invariant
                            i <= elements.len(),
                            region == old(self).region(),
                            region.quadrant(0).extent() < region.extent(),
                            region.quadrant(1).extent() < region.extent(),
                            region.quadrant(2).extent() < region.extent(),
                            region.quadrant(3).extent() < region.extent(),
                            c0.wf(),
                            c1.wf(),
                            c2.wf(),
                            c3.wf(),
                            c0.region() == region.quadrant(0),
                            c1.region() == region.quadrant(1),
                            c2.region() == region.quadrant(2),
                            c3.region() == region.quadrant(3),
                            c0@ == distribute(region.quadrant(0), elements@.take(i as int), store@),
                            c1@ == distribute(region.quadrant(1), elements@.take(i as int), store@),
                            c2@ == distribute(region.quadrant(2), elements@.take(i as int), store@),
                            c3@ == distribute(region.quadrant(3), elements@.take(i as int), store@),
                        decreases elements.len() - i,
                    {
                        proof {
                            assert(elements@.take(i + 1).drop_last() =~= elements@.take(i as int));
                        }
                        match store.get(&elements[i]) {
                            Some(known) => {
                                c0.insert(known, store);
                                c1.insert(known, store);
                                c2.insert(known, store);
                                c3.insert(known, store);
                            },
                            None => {},
                        }
                        i += 1;
                    }
                    proof {
                        assert(elements@.take(elements.len() as int) =~= elements@);
                    }
                    self.body = Body::Children(
                        Box::new(c0),
                        Box::new(c1),
                        Box::new(c2),
                        Box::new(c3),
                    );
                }
            },
            Body::Children(a, b, c, d) => {
                a.insert(polygon, store);
                b.insert(polygon, store);
                c.insert(polygon, store);
                d.insert(polygon, store);
            },
        }
    }
}


/// A list with one entry more holds that entry and what it held.
proof fn lemma_push_contains(s: Seq<usize>, e: usize, x: usize)
    ensures
        s.push(e).contains(x) <==> s.contains(x) || x == e,
{
    if s.contains(x) {
        let w = choose|w: int| 0 <= w < s.len() && s[w] == x;
        assert(s.push(e)[w] == x);
    }
    if x == e {
        assert(s.push(e)[s.len() as int] == x);
    }
}

/// Whether `ids` lists `id`.
fn holds_id(ids: &Vec<usize>, id: usize) -> (r: bool)
    ensures
        r == ids@.contains(id),
{
    let mut i: usize = 0;
    while i < ids.len()
        invariant
            i <= ids.len(),
            forall|j: int| 0 <= j < i ==> ids@[j] != id,
        decreases ids.len() - i,
    {
        if ids[i] == id {
            return true;
        }
        i += 1;
    }
    false
}

impl QuadTreeInner {
    /// Removes at `point`: see `prune`.
    pub fn remove_from_point(&mut self, point: Point, store: &HashMap<usize, Polygon>)
        requires
            old(self).wf(),
        ensures
            final(self).wf(),
            final(self).region() == old(self).region(),
            final(self)@ == prune(old(self)@, old(self).region(), point, store@),
        decreases *old(self),
    {
        if !self.contains_point(&point) {
            return ;
        }
        match &mut self.body {
            Body::Elements(elements) => {
                let mut kept: Vec<usize> = Vec::new();
                let mut i: usize = 0;
                proof {
                    reveal_with_fuel(Seq::filter, 1);
                    assert(elements@.take(0).filter(keeper(store@, point)) =~= Seq::<
                        usize,
                    >::empty());
                }
                while i < elements.len()
                    invariant
                        i <= elements.len(),
                        kept@ == elements@.take(i as int).filter(keeper(store@, point)),
                    decreases elements.len() - i,
                {
                    let id: usize = elements[i];
                    let keep: bool = match store.get(&id) {
                        Some(polygon) => !polygon.contains_point(point),
                        None => false,
                    };
                    proof {
                        assert(elements@.take(i + 1) =~= elements@.take(i as int).push(id));
                        elements@.take(i as int).lemma_filter_push(id, keeper(store@, point));
                        assert(keep == keeper(store@, point)(id));
                    }
                    if keep {
                        kept.push(id);
                    }
                    i += 1;
                }
                proof {
                    assert(elements@.take(elements.len() as int) =~= elements@);
                }
                *elements = kept;
            },
            Body::Children(a, b, c, d) => {
                a.remove_from_point(point, store);
                b.remove_from_point(point, store);
                c.remove_from_point(point, store);
                d.remove_from_point(point, store);
            },
        }
    }

    /// Whether the node's rectangle holds `point`.
    fn contains_point(&self, point: &Point) -> (r: bool)
        ensures
            r == self.region().holds(*point),
    {
        self.region.contains(point)
    }

    /// Appends to `out` what a query with `area` finds under this node and
    /// `out` does not list yet.
    fn find_in_area(&self, area: &Polygon, store: &HashMap<usize, Polygon>, out: &mut Vec<usize>)
        requires
            self.wf(),
            old(out)@.no_duplicates(),
        ensures
            final(out)@.no_duplicates(),
            final(out)@.to_set() == old(out)@.to_set().union(
                found(self@, self.region(), store@, area@),
            ),
        decreases self,
    {
        if !self.region.contains_any(area.vertices()) {
            assert(found(self@, self.region(), store@, area@) =~= Set::<usize>::empty());
            assert(out@.to_set().union(Set::<usize>::empty()) =~= out@.to_set());
            return ;
        }
        match &self.body {
            Body::Elements(elements) => {
                let mut i: usize = 0;
                proof {
                    assert(elements@.take(0) =~= Seq::<usize>::empty());
                }
                while i < elements.len()
                    invariant
                        i <= elements.len(),
                        out@.no_duplicates(),
                        forall|id: usize|
                            out@.contains(id) <==> old(out)@.contains(id) || (elements@.take(
                                i as int,
                            ).contains(id) && hit(store@, area@, id)),
                    decreases elements.len() - i,
                {
                    let id: usize = elements[i];
                    let collides: bool = match store.get(&id) {
                        Some(polygon) => polygon.collides_with(area),
                        None => false,
                    };
                    let ghost before = out@;
                    if collides && !holds_id(out, id) {
                        out.push(id);
                    }
                    proof {
                        assert(elements@.take(i + 1) =~= elements@.take(i as int).push(id));
                        assert forall|k: usize|
                            out@.contains(k) <==> old(out)@.contains(k) || (elements@.take(
                                i + 1,
                            ).contains(k) && hit(store@, area@, k)) by {
                            lemma_push_contains(elements@.take(i as int), id, k);
                            if out@ != before {
                                lemma_push_contains(before, id, k);
                            }
                        }
                    }
                    i += 1;
                }
                proof {
                    assert(elements@.take(elements.len() as int) =~= elements@);
                    assert(out@.to_set() =~= old(out)@.to_set().union(
                        found(self@, self.region(), store@, area@),
                    ));
                }
            },
            Body::Children(a, b, c, d) => {
                a.find_in_area(area, store, out);
                b.find_in_area(area, store, out);
                c.find_in_area(area, store, out);
                d.find_in_area(area, store, out);
                assert(out@.to_set() =~= old(out)@.to_set().union(
                    found(self@, self.region(), store@, area@),
                ));
            },
        }
    }
}


/// The spatial index: the master store of the polygons by identity, and the
/// tree over their identities.
pub struct QuadTree {
    store: HashMap<usize, Polygon>,
    root: QuadTreeInner,
}

impl View for QuadTree {
    type V = Map<usize, Polygon>;

    closed spec fn view(&self) -> Map<usize, Polygon> {
        self.store@
    }
}

impl QuadTree {
    /// What the tree holds. Its root answers for the whole plane.
    pub closed spec fn index(&self) -> Tree {
        self.root@
    }

    /// Whether the tree's rectangles are in order and its root answers for
    /// the whole plane.
    pub closed spec fn rooted(&self) -> bool {
        self.root.wf() && self.root.region() == Rect::whole()
    }

    /// The invariant of the index: every polygon is stored under its own
    /// identity, and the tree is in shape and files every stored polygon.
    pub open spec fn wf(&self) -> bool {
        &&& self.rooted()
        &&& self@.dom().finite()
        &&& keyed(self@)
        &&& shaped(self.index(), Rect::whole())
        &&& complete(self.index(), Rect::whole(), self@)
    }

    /// Whether `polygon` is the polygon stored under its identity.
    pub open spec fn stores(&self, polygon: &Polygon) -> bool {
        self@.contains_key(polygon.spec_id()) && self@[polygon.spec_id()] == *polygon
    }

    /// What a query with the vertices `area` finds.
    pub open spec fn found_in(&self, area: Seq<Point>) -> Set<usize> {
        found(self.index(), Rect::whole(), self@, area)
    }

    /// An empty index.
    pub fn new() -> (r: Self)
        ensures
            r.wf(),
            r@ == Map::<usize, Polygon>::empty(),
            r.index() == Tree::Leaf(Seq::empty()),
            distinct(r.index()),
    {
        QuadTree { store: HashMap::new(), root: QuadTreeInner::new() }
    }

    /// The number of polygons stored.
    pub fn len(&self) -> (r: usize)
        ensures
            r == self@.len(),
    {
        self.store.len()
    }

    /// The stored polygons, each once, in no particular order.
    pub fn iter(&self) -> (r: Vec<&Polygon>)
        requires
            self.wf(),
        ensures
            r@.len() == self@.len(),
            forall|i: int|
                0 <= i < r@.len() ==> self.stores(#[trigger] r@[i]),
            forall|i: int, j: int|
                0 <= i < j < r@.len() ==> (#[trigger] r@[i]).spec_id() != (
                #[trigger] r@[j]).spec_id(),
    {
        let mut out: Vec<&Polygon> = Vec::new();
        let ghost keys = self.store.keys().remaining();
        for k in it: self.store.keys()
            invariant
                it.seq() == keys,
                keys == self.store.keys().remaining(),
                keyed(self.store@),
                out@.len() == it.index(),
                forall|j: int|
                    0 <= j < out@.len() ==> self.store@.contains_key(*(#[trigger] keys[j])),
                forall|j: int| 0 <= j < out@.len() ==> (#[trigger] out@[j]).spec_id() == *keys[j],
                forall|j: int|
                    0 <= j < out@.len() ==> *(#[trigger] out@[j]) == self.store@[*keys[j]],
        {
            proof {
                let n = it.index() as int;
                assert(keys.unref()[n] == *k);
                assert(keys.unref().contains(*k));
                assert(keys.unref().to_set().contains(*k));
            }
            match self.store.get(k) {
                Some(polygon) => {
                    out.push(polygon);
                },
                None => {
                    // A key of the store is in the store.
                    assert(false);
                },
            }
        }
        proof {
            assert forall|i: int, j: int| 0 <= i < j < out@.len() implies (
            #[trigger] out@[i]).spec_id() != (#[trigger] out@[j]).spec_id() by {
                assert(keys.unref()[i] != keys.unref()[j]);
            }
        }
        out
    }

    /// Stores `polygon` under its identity, in place of any polygon stored
    /// under it before, and offers it to the tree. A leaf that lists the
    /// identity already lists it once more: with identities that are not
    /// used twice, no leaf lists one twice.
    pub fn insert(&mut self, polygon: Polygon)
        requires
            old(self).wf(),
        ensures
            final(self).wf(),
            final(self)@ == old(self)@.insert(polygon.spec_id(), polygon),
            final(self).index() == offer(old(self).index(), Rect::whole(), polygon, final(self)@),
            forall|id: usize| #[trigger]
                lists(final(self).index(), id) ==> lists(old(self).index(), id) || id
                    == polygon.spec_id(),
            distinct(old(self).index()) && !lists(old(self).index(), polygon.spec_id())
                ==> distinct(final(self).index()),
    {
        let id: usize = polygon.id();
        proof {
            lemma_insert_preserves(self.index(), Rect::whole(), polygon, self@);
            lemma_insert_lists(self.index(), Rect::whole(), polygon, self@);
        }
        self.store.insert(id, polygon);
        match self.store.get(&id) {
            Some(stored) => {
                self.root.insert(stored, &self.store);
            },
            None => {},
        }
    }

    /// Drops every polygon that contains `point` from the store, and from
    /// the leaves that answer for the point: see `prune`.
    pub fn remove_from_point(&mut self, point: Point)
        requires
            old(self).wf(),
        ensures
            final(self).wf(),
            final(self)@ == survivors(old(self)@, point),
            final(self).index() == prune(old(self).index(), Rect::whole(), point, old(self)@),
            forall|id: usize| #[trigger]
                lists(final(self).index(), id) ==> lists(old(self).index(), id),
            distinct(old(self).index()) ==> distinct(final(self).index()),
    {
        proof {
            lemma_remove_preserves(self.index(), Rect::whole(), point, self@);
            lemma_remove_lists(self.index(), Rect::whole(), point, self@);
        }
        self.root.remove_from_point(point, &self.store);
        let ghost pruned = self.root;
        let ghost start = self.store@;
        let mut doomed: Vec<usize> = Vec::new();
        let ghost keys = self.store.keys().remaining();
        for k in it: self.store.keys()
            invariant
                it.seq() == keys,
                keys == self.store.keys().remaining(),
                self.store@ == start,
                forall|id: usize|
                    doomed@.contains(id) <==> keys.unref().take(it.index() as int).contains(id)
                        && start.contains_key(id) && encloses(start[id]@, point),
        {
            let ghost before = doomed@;
            let ghost n = it.index() as int;
            proof {
                assert(keys.unref().take(n + 1) =~= keys.unref().take(n).push(*k));
            }
            match self.store.get(k) {
                Some(polygon) => {
                    if polygon.contains_point(point) {
                        doomed.push(*k);
                    }
                },
                None => {},
            }
            proof {
                assert forall|id: usize|
                    doomed@.contains(id) <==> keys.unref().take(n + 1).contains(id)
                        && start.contains_key(id) && encloses(start[id]@, point) by {
                    lemma_push_contains(keys.unref().take(n), *k, id);
                    if doomed@ != before {
                        lemma_push_contains(before, *k, id);
                    }
                }
            }
        }
        proof {
            assert(keys.unref().take(keys.len() as int) =~= keys.unref());
            assert forall|id: usize|
                doomed@.contains(id) <==> start.contains_key(id) && encloses(start[id]@, point) by {
                if start.contains_key(id) {
                    assert(keys.unref().to_set().contains(id));
                }
            }
            assert(doomed@.take(0) =~= Seq::<usize>::empty());
            assert(start =~= start.remove_keys(doomed@.take(0).to_set()));
        }
        let mut i: usize = 0;
        while i < doomed.len()
            invariant
                i <= doomed.len(),
                self.root == pruned,
                self.store@ == start.remove_keys(doomed@.take(i as int).to_set()),
            decreases doomed.len() - i,
        {
            let ghost held = self.store@;
            self.store.remove(&doomed[i]);
            proof {
                assert(self.store@ == held.remove(doomed@[i as int]));
                assert(doomed@.take(i + 1) =~= doomed@.take(i as int).push(doomed@[i as int]));
                assert forall|id: usize|
                    doomed@.take(i + 1).to_set().contains(id) <==> doomed@.take(
                        i as int,
                    ).to_set().contains(id) || id == doomed@[i as int] by {
                    lemma_push_contains(doomed@.take(i as int), doomed@[i as int], id);
                }
                assert(self.store@ =~= start.remove_keys(doomed@.take(i + 1).to_set()));
            }
            i += 1;
        }
        proof {
            assert(doomed@.take(doomed.len() as int) =~= doomed@);
            assert(self.store@ =~= survivors(start, point));
        }
    }

    /// The stored polygons that collide with `area` and are listed in a
    /// leaf that the area's vertices lead to, each once, in no particular
    /// order.
    pub fn find_in_area(&self, area: &Polygon) -> (r: Vec<&Polygon>)
        requires
            self.wf(),
        ensures
            forall|i: int|
                0 <= i < r@.len() ==> self.stores(#[trigger] r@[i]),
            forall|i: int, j: int|
                0 <= i < j < r@.len() ==> (#[trigger] r@[i]).spec_id() != (
                #[trigger] r@[j]).spec_id(),
            forall|id: usize|
                self.found_in(area@).contains(id) <==> exists|i: int|
                    0 <= i < r@.len() && (#[trigger] r@[i]).spec_id() == id,
            r@.len() == self.found_in(area@).len(),
    {
        let mut ids: Vec<usize> = Vec::new();
        self.root.find_in_area(area, &self.store, &mut ids);
        proof {
            assert(ids@.to_set() =~= self.found_in(area@));
            ids@.unique_seq_to_set();
        }
        let mut out: Vec<&Polygon> = Vec::new();
        let mut i: usize = 0;
        while i < ids.len()
            invariant
                i <= ids.len(),
                keyed(self.store@),
                ids@.to_set() == self.found_in(area@),
                self@ == self.store@,
                out@.len() == i,
                forall|j: int|
                    0 <= j < i ==> (#[trigger] out@[j]).spec_id() == ids@[j]
                        && self.store@.contains_key(ids@[j]) && *out@[j] == self.store@[ids@[j]],
            decreases ids.len() - i,
        {
            proof {
                assert(ids@.to_set().contains(ids@[i as int]));
            }
            match self.store.get(&ids[i]) {
                Some(polygon) => {
                    out.push(polygon);
                },
                None => {},
            }
            i += 1;
        }
        proof {
            assert forall|id: usize| self.found_in(area@).contains(id) implies exists|i: int|
                0 <= i < out@.len() && (#[trigger] out@[i]).spec_id() == id by {
                assert(ids@.to_set().contains(id));
                let w = choose|w: int| 0 <= w < ids@.len() && ids@[w] == id;
                assert(out@[w].spec_id() == id);
            }
            assert forall|i: int| 0 <= i < out@.len() implies self.found_in(area@).contains(
                (#[trigger] out@[i]).spec_id(),
            ) by {
                assert(ids@.to_set().contains(ids@[i]));
            }
        }
        out
    }
}

} // verus!
