use vstd::prelude::*;
use vstd::multiset::Multiset;
use vstd::seq_lib::lemma_multiset_commutative;

use crate::geometry::{Point, Rect};

verus! {

broadcast use vstd::seq_lib::group_to_multiset_ensures;

/// One body recorded in the index: its handle and where it stood when inserted.
#[derive(Clone, Copy, Debug, PartialEq, Eq, Structural)]
pub struct QuadtreeItem {
    pub id: u64,
    pub position: Point,
}

/// The four children of an internal node.
pub struct Quadrants {
    pub upper_right: Quadtree,
    pub upper_left: Quadtree,
    pub lower_left: Quadtree,
    pub lower_right: Quadtree,
}

/// A point-region quadtree over a closed integer rectangle. A leaf holds its
/// items; an internal node holds none and owns four children.
pub struct Quadtree {
    bounds: Rect,
    capacity: usize,
    items: Vec<QuadtreeItem>,
    children: Option<Box<Quadrants>>,
}

/// Midline of `r` on the x axis: points with `x <= mid_x(r)` belong to the left half.
pub open spec fn mid_x(r: Rect) -> int {
    r.min_x + (r.max_x - r.min_x) / 2
}

/// Midline of `r` on the y axis: points with `y <= mid_y(r)` belong to the bottom half.
pub open spec fn mid_y(r: Rect) -> int {
    r.min_y + (r.max_y - r.min_y) / 2
}

/// The half-width plus half-height measure that strictly shrinks from a node to
/// each non-empty child.
pub open spec fn extent(r: Rect) -> int {
    (r.max_x - r.min_x) + (r.max_y - r.min_y)
}

/// A node over `r` may split: `r` holds more than one point, and the children's
/// lower sides (a midline plus one) are representable.
pub open spec fn splittable(r: Rect) -> bool {
    r.min_x <= r.max_x && r.min_y <= r.max_y && extent(r) >= 1 && r.max_x < i64::MAX && r.max_y
        < i64::MAX
}

/// Quadrant of `p` in `r`: 0 upper right, 1 upper left, 2 lower left, 3 lower
/// right. A point on a midline belongs to the lower or left side.
pub open spec fn quadrant_of(r: Rect, p: Point) -> int {
    let top = p.y > mid_y(r);
    let right = p.x > mid_x(r);
    if top && right {
        0
    } else if top {
        1
    } else if !right {
        2
    } else {
        3
    }
}

/// The closed rectangle of quadrant `k` of `r`; together the four hold every
/// point of `r` exactly once.
pub open spec fn quadrant_rect(r: Rect, k: int) -> Rect {
    let mx = mid_x(r);
    let my = mid_y(r);
    if k == 0 {
        Rect { min_x: (mx + 1) as i64, min_y: (my + 1) as i64, max_x: r.max_x, max_y: r.max_y }
    } else if k == 1 {
        Rect { min_x: r.min_x, min_y: (my + 1) as i64, max_x: mx as i64, max_y: r.max_y }
    } else if k == 2 {
        Rect { min_x: r.min_x, min_y: r.min_y, max_x: mx as i64, max_y: my as i64 }
    } else {
        Rect { min_x: (mx + 1) as i64, min_y: r.min_y, max_x: r.max_x, max_y: my as i64 }
    }
}

/// Handles, in order, of the items of `s` whose position lies in `area`.
pub open spec fn hits(s: Seq<QuadtreeItem>, area: Rect) -> Seq<u64>
    decreases s.len(),
{
    if s.len() == 0 {
        Seq::empty()
    } else {
        let rest = hits(s.drop_last(), area);
        if area.contains_spec(s.last().position) {
            rest.push(s.last().id)
        } else {
            rest
        }
    }
}

/// What an index over `bounds` holds after `id` is inserted at `p` into one
/// holding `m`: the insertion is ignored outside `bounds`.
pub open spec fn inserted(
    m: Multiset<QuadtreeItem>,
    bounds: Rect,
    id: u64,
    p: Point,
) -> Multiset<QuadtreeItem> {
    if bounds.contains_spec(p) {
        m.insert(QuadtreeItem { id, position: p })
    } else {
        m
    }
}

/// The items an index over `bounds` holds after every entry of `snapshot` was
/// inserted: the entries inside `bounds`, in snapshot order.
pub open spec fn accepted(snapshot: Seq<(u64, Point)>, bounds: Rect) -> Seq<QuadtreeItem> {
    snapshot.filter(|e: (u64, Point)| bounds.contains_spec(e.1)).map_values(
        |e: (u64, Point)| QuadtreeItem { id: e.0, position: e.1 },
    )
}

/// Brute force: the handles of the snapshot entries that lie in both `bounds`
/// and `area`, in snapshot order.
pub open spec fn brute_force(snapshot: Seq<(u64, Point)>, bounds: Rect, area: Rect) -> Seq<u64> {
    snapshot.filter(|e: (u64, Point)| bounds.contains_spec(e.1) && area.contains_spec(e.1)).map_values(
        |e: (u64, Point)| e.0,
    )
}

/// The shape of an index: a leaf and its items, or four subtrees in quadrant
/// order. Bounds and capacity follow from the root's.
pub enum Node {
    Leaf(Seq<QuadtreeItem>),
    Inner(Box<Node>, Box<Node>, Box<Node>, Box<Node>),
}

/// The items of `s` in quadrant `k` of `r`, in order.
pub open spec fn in_quadrant(s: Seq<QuadtreeItem>, r: Rect, k: int) -> Seq<QuadtreeItem> {
    s.filter(|it: QuadtreeItem| quadrant_of(r, it.position) == k)
}

/// Every item of a shape, leaves in quadrant order.
pub open spec fn node_elems(n: Node) -> Seq<QuadtreeItem>
    decreases n,
{
    match n {
        Node::Leaf(s) => s,
        Node::Inner(a, b, c, d) => node_elems(*a) + node_elems(*b) + node_elems(*c) + node_elems(*d),
    }
}

/// The shape after inserting `it` into a node over `r` that splits past `cap`
/// items: nothing changes outside `r`; a leaf with room, or one too small to
/// divide, appends the item; a full leaf becomes four leaves holding its items
/// by quadrant, and the item goes down into its quadrant, as it does in an
/// internal node.
pub open spec fn node_insert(n: Node, r: Rect, cap: int, it: QuadtreeItem) -> Node
    decreases extent(r),
{
    if !r.contains_spec(it.position) {
        n
    } else {
        let k = quadrant_of(r, it.position);
        match n {
            Node::Leaf(s) => {
                if s.len() < cap || !splittable(r) {
                    Node::Leaf(s.push(it))
                } else {
                    let part = |j: int|
                        if j == k && extent(quadrant_rect(r, j)) < extent(r) {
                            node_insert(Node::Leaf(in_quadrant(s, r, j)), quadrant_rect(r, j), cap, it)
                        } else {
                            Node::Leaf(in_quadrant(s, r, j))
                        };
                    Node::Inner(Box::new(part(0)), Box::new(part(1)), Box::new(part(2)), Box::new(part(3)))
                }
            },
            Node::Inner(a, b, c, d) => {
                if !splittable(r) {
                    n
                } else {
                    let down = |j: int, m: Node|
                        if j == k && extent(quadrant_rect(r, j)) < extent(r) {
                            node_insert(m, quadrant_rect(r, j), cap, it)
                        } else {
                            m
                        };
                    Node::Inner(
                        Box::new(down(0, *a)),
                        Box::new(down(1, *b)),
                        Box::new(down(2, *c)),
                        Box::new(down(3, *d)),
                    )
                }
            },
        }
    }
}

/// The shape of an index over `bounds` after every entry of `snapshot` was
/// inserted, in order, into an empty one.
pub open spec fn built(snapshot: Seq<(u64, Point)>, bounds: Rect, cap: int) -> Node
    decreases snapshot.len(),
{
    if snapshot.len() == 0 {
        Node::Leaf(Seq::empty())
    } else {
        node_insert(
            built(snapshot.drop_last(), bounds, cap),
            bounds,
            cap,
            QuadtreeItem { id: snapshot.last().0, position: snapshot.last().1 },
        )
    }
}

proof fn lemma_quadrant_in_child(r: Rect, p: Point)
    requires
        splittable(r),
        r.contains_spec(p),
    ensures
        0 <= quadrant_of(r, p) < 4,
        quadrant_rect(r, quadrant_of(r, p)).contains_spec(p),
{
}

proof fn lemma_quadrants_within(r: Rect)
    requires
        splittable(r),
    ensures
        forall|k: int| 0 <= k < 4 ==> #[trigger] quadrant_rect(r, k).within(r),
        forall|k: int| 0 <= k < 4 ==> extent(#[trigger] quadrant_rect(r, k)) < extent(r),
{
}

pub proof fn lemma_hits_add(a: Seq<QuadtreeItem>, b: Seq<QuadtreeItem>, area: Rect)
    ensures
        hits(a + b, area) == hits(a, area) + hits(b, area),
    decreases b.len(),
{
    if b.len() == 0 {
        assert(a + b =~= a);
        assert(hits(b, area) =~= Seq::empty());
        assert(hits(a, area) + hits(b, area) =~= hits(a, area));
    } else {
        lemma_hits_add(a, b.drop_last(), area);
        assert((a + b).drop_last() =~= a + b.drop_last());
        assert((a + b).last() == b.last());
        if area.contains_spec(b.last().position) {
            assert(hits(a, area) + hits(b.drop_last(), area).push(b.last().id) =~= (hits(a, area)
                + hits(b.drop_last(), area)).push(b.last().id));
        }
    }
}

proof fn lemma_hits_none(s: Seq<QuadtreeItem>, area: Rect)
    requires
        forall|i: int| 0 <= i < s.len() ==> !area.contains_spec(#[trigger] s[i].position),
    ensures
        hits(s, area) == Seq::<u64>::empty(),
    decreases s.len(),
{
    if s.len() > 0 {
        lemma_hits_none(s.drop_last(), area);
        assert(!area.contains_spec(s[s.len() - 1].position));
    }
}

impl Quadtree {
    pub closed spec fn bounds_spec(self) -> Rect {
        self.bounds
    }

    pub closed spec fn capacity_spec(self) -> usize {
        self.capacity
    }

    pub closed spec fn is_leaf(self) -> bool {
        self.children is None
    }

    /// Every node in preorder (a node, then its subtrees in quadrant order), with its bounds and whether it has children.
    pub closed spec fn outlines(self) -> Seq<(Rect, bool)>
        decreases self,
    {
        match self.children {
            None => seq![(self.bounds, false)],
            Some(q) => seq![(self.bounds, true)] + q.upper_right.outlines() + q.upper_left.outlines()
                + q.lower_left.outlines() + q.lower_right.outlines(),
        }
    }

    /// The shape of the tree.
    pub closed spec fn shape(self) -> Node
        decreases self,
    {
        match self.children {
            None => Node::Leaf(self.items@),
            Some(q) => Node::Inner(
                Box::new(q.upper_right.shape()),
                Box::new(q.upper_left.shape()),
                Box::new(q.lower_left.shape()),
                Box::new(q.lower_right.shape()),
            ),
        }
    }

    /// The items are those of the shape.
    pub proof fn lemma_elems_of_shape(self)
        ensures
            self.elems() == node_elems(self.shape()),
        decreases self,
    {
        if let Some(q) = self.children {
            q.upper_right.lemma_elems_of_shape();
            q.upper_left.lemma_elems_of_shape();
            q.lower_left.lemma_elems_of_shape();
            q.lower_right.lemma_elems_of_shape();
        }
    }

    /// Every item of the tree, leaves in quadrant order (upper right, upper
    /// left, lower left, lower right), each leaf's items in its own order.
    pub closed spec fn elems(self) -> Seq<QuadtreeItem>
        decreases self,
    {
        match self.children {
            None => self.items@,
            Some(q) => q.upper_right.elems() + q.upper_left.elems() + q.lower_left.elems()
                + q.lower_right.elems(),
        }
    }

    /// Leaves hold items inside their bounds; internal nodes hold no items and
    /// four well-formed children over the quadrants of their bounds.
    pub closed spec fn wf(self) -> bool
        decreases self,
    {
        match self.children {
            None => forall|i: int|
                0 <= i < self.items@.len() ==> self.bounds.contains_spec(
                    #[trigger] self.items@[i].position,
                ),
            Some(q) => {
                &&& self.items@.len() == 0
                &&& splittable(self.bounds)
                &&& q.upper_right.bounds == quadrant_rect(self.bounds, 0)
                &&& q.upper_left.bounds == quadrant_rect(self.bounds, 1)
                &&& q.lower_left.bounds == quadrant_rect(self.bounds, 2)
                &&& q.lower_right.bounds == quadrant_rect(self.bounds, 3)
                &&& q.upper_right.capacity == self.capacity
                &&& q.upper_left.capacity == self.capacity
                &&& q.lower_left.capacity == self.capacity
                &&& q.lower_right.capacity == self.capacity
                &&& q.upper_right.wf()
                &&& q.upper_left.wf()
                &&& q.lower_left.wf()
                &&& q.lower_right.wf()
            },
        }
    }

    /// Every item of a well-formed tree lies inside its bounds.
    pub proof fn lemma_elems_in_bounds(self)
        requires
            self.wf(),
        ensures
            forall|i: int|
                0 <= i < self.elems().len() ==> self.bounds_spec().contains_spec(
                    #[trigger] self.elems()[i].position,
                ),
        decreases self,
    {
        if let Some(q) = self.children {
            q.upper_right.lemma_elems_in_bounds();
            q.upper_left.lemma_elems_in_bounds();
            q.lower_left.lemma_elems_in_bounds();
            q.lower_right.lemma_elems_in_bounds();
            lemma_quadrants_within(self.bounds);
            let s0 = q.upper_right.elems();
            let s1 = q.upper_left.elems();
            let s2 = q.lower_left.elems();
            let s3 = q.lower_right.elems();
            assert forall|i: int| 0 <= i < self.elems().len() implies self.bounds.contains_spec(
                #[trigger] self.elems()[i].position,
            ) by {
                assert(quadrant_rect(self.bounds, 0).within(self.bounds));
                assert(quadrant_rect(self.bounds, 1).within(self.bounds));
                assert(quadrant_rect(self.bounds, 2).within(self.bounds));
                assert(quadrant_rect(self.bounds, 3).within(self.bounds));
                if i < s0.len() {
                    assert(self.elems()[i] == s0[i]);
                } else if i < s0.len() + s1.len() {
                    assert(self.elems()[i] == s1[i - s0.len()]);
                } else if i < s0.len() + s1.len() + s2.len() {
                    assert(self.elems()[i] == s2[i - s0.len() - s1.len()]);
                } else {
                    assert(self.elems()[i] == s3[i - s0.len() - s1.len() - s2.len()]);
                }
            }
        }
    }

    /// An empty leaf over `bounds` that splits once it holds `capacity` items.
    pub fn new(bounds: Rect, capacity: usize) -> (r: Quadtree)
        ensures
            r.wf(),
            r.is_leaf(),
            r.bounds_spec() == bounds,
            r.capacity_spec() == capacity,
            r.elems() == Seq::<QuadtreeItem>::empty(),
    {
        Quadtree { bounds, capacity, items: Vec::new(), children: None }
    }

    pub fn bounds(&self) -> (r: Rect)
        ensures
            r == self.bounds_spec(),
    {
        self.bounds
    }

    pub fn capacity(&self) -> (r: usize)
        ensures
            r == self.capacity_spec(),
    {
        self.capacity
    }

    /// Whether `position` lies inside this node's bounds.
    pub fn point_in_bounds(&self, position: Point) -> (r: bool)
        ensures
            r == self.bounds_spec().contains_spec(position),
    {
        self.bounds.contains(position)
    }

    /// The quadrant of this node's bounds that `position` belongs to.
    pub fn get_quadrant_index_for_position(&self, position: Point) -> (r: usize)
        requires
            self.bounds_spec().min_x <= self.bounds_spec().max_x,
            self.bounds_spec().min_y <= self.bounds_spec().max_y,
        ensures
            r == quadrant_of(self.bounds_spec(), position),
    {
        let (mx, my) = midpoint(&self.bounds);
        let top = position.y > my;
        let right = position.x > mx;
        if top && right {
            0
        } else if top {
            1
        } else if !right {
            2
        } else {
            3
        }
    }
}

impl Quadtree {
    /// Turns a full leaf into an internal node: four empty children over the
    /// quadrants, and each item moved into the child whose quadrant holds it.
    fn split(&mut self)
        requires
            old(self).wf(),
            old(self).is_leaf(),
            splittable(old(self).bounds_spec()),
        ensures
            final(self).wf(),
            !final(self).is_leaf(),
            final(self).bounds_spec() == old(self).bounds_spec(),
            final(self).capacity_spec() == old(self).capacity_spec(),
            final(self).elems().to_multiset() == old(self).elems().to_multiset(),
            final(self).shape() == Node::Inner(
                Box::new(Node::Leaf(in_quadrant(old(self).elems(), old(self).bounds_spec(), 0))),
                Box::new(Node::Leaf(in_quadrant(old(self).elems(), old(self).bounds_spec(), 1))),
                Box::new(Node::Leaf(in_quadrant(old(self).elems(), old(self).bounds_spec(), 2))),
                Box::new(Node::Leaf(in_quadrant(old(self).elems(), old(self).bounds_spec(), 3))),
            ),
    {
        let r = self.bounds;
        let (mx, my) = midpoint(&r);
        let mut v0: Vec<QuadtreeItem> = Vec::new();
        let mut v1: Vec<QuadtreeItem> = Vec::new();
        let mut v2: Vec<QuadtreeItem> = Vec::new();
        let mut v3: Vec<QuadtreeItem> = Vec::new();
        let mut i: usize = 0;
        while i < self.items.len()
            invariant
                self.wf(),
                self.is_leaf(),
                self.bounds == r,
                splittable(r),
                0 <= i <= self.items@.len(),
                v0@.to_multiset().add(v1@.to_multiset()).add(v2@.to_multiset()).add(
                    v3@.to_multiset(),
                ) == self.items@.subrange(0, i as int).to_multiset(),
                forall|j: int| 0 <= j < v0@.len() ==> quadrant_rect(r, 0).contains_spec(#[trigger] v0@[j].position),
                forall|j: int| 0 <= j < v1@.len() ==> quadrant_rect(r, 1).contains_spec(#[trigger] v1@[j].position),
                forall|j: int| 0 <= j < v2@.len() ==> quadrant_rect(r, 2).contains_spec(#[trigger] v2@[j].position),
                forall|j: int| 0 <= j < v3@.len() ==> quadrant_rect(r, 3).contains_spec(#[trigger] v3@[j].position),
                v0@ == in_quadrant(self.items@.subrange(0, i as int), r, 0),
                v1@ == in_quadrant(self.items@.subrange(0, i as int), r, 1),
                v2@ == in_quadrant(self.items@.subrange(0, i as int), r, 2),
                v3@ == in_quadrant(self.items@.subrange(0, i as int), r, 3),
            decreases self.items@.len() - i,
        {
            let it = self.items[i];
            proof {
                assert(self.bounds.contains_spec(self.items@[i as int].position));
                lemma_quadrant_in_child(r, it.position);
                assert(self.items@.subrange(0, i as int + 1) =~= self.items@.subrange(0, i as int).push(it));
                assert(self.items@.subrange(0, i as int + 1).drop_last() =~= self.items@.subrange(0, i as int));
                reveal(Seq::filter);
            }
            let k = self.get_quadrant_index_for_position(it.position);
            if k == 0 {
                v0.push(it);
            } else if k == 1 {
                v1.push(it);
            } else if k == 2 {
                v2.push(it);
            } else {
                v3.push(it);
            }
            proof {
                assert(v0@.to_multiset().add(v1@.to_multiset()).add(v2@.to_multiset()).add(
                    v3@.to_multiset(),
                ) =~= self.items@.subrange(0, i as int + 1).to_multiset());
            }
            i = i + 1;
        }
        proof {
            assert(self.items@.subrange(0, i as int) =~= self.items@);
            assert(self.elems() == self.items@);
        }
        let cap = self.capacity;
        let q = Quadrants {
            upper_right: Quadtree {
                bounds: Rect { min_x: mx + 1, min_y: my + 1, max_x: r.max_x, max_y: r.max_y },
                capacity: cap,
                items: v0,
                children: None,
            },
            upper_left: Quadtree {
                bounds: Rect { min_x: r.min_x, min_y: my + 1, max_x: mx, max_y: r.max_y },
                capacity: cap,
                items: v1,
                children: None,
            },
            lower_left: Quadtree {
                bounds: Rect { min_x: r.min_x, min_y: r.min_y, max_x: mx, max_y: my },
                capacity: cap,
                items: v2,
                children: None,
            },
            lower_right: Quadtree {
                bounds: Rect { min_x: mx + 1, min_y: r.min_y, max_x: r.max_x, max_y: my },
                capacity: cap,
                items: v3,
                children: None,
            },
        };
        let ghost old_items = self.items@;
        self.items = Vec::new();
        self.children = Some(Box::new(q));
        proof {
            let s0 = q.upper_right.elems();
            let s1 = q.upper_left.elems();
            let s2 = q.lower_left.elems();
            let s3 = q.lower_right.elems();
            assert(self.elems() == s0 + s1 + s2 + s3);
            lemma_multiset_commutative(s0 + s1 + s2, s3);
            lemma_multiset_commutative(s0 + s1, s2);
            lemma_multiset_commutative(s0, s1);
            assert(old(self).elems() == old_items);
            assert(s0 == in_quadrant(old_items, r, 0));
            assert(s1 == in_quadrant(old_items, r, 1));
            assert(s2 == in_quadrant(old_items, r, 2));
            assert(s3 == in_quadrant(old_items, r, 3));
            assert(q.upper_right.shape() == Node::Leaf(s0));
            assert(q.upper_left.shape() == Node::Leaf(s1));
            assert(q.lower_left.shape() == Node::Leaf(s2));
            assert(q.lower_right.shape() == Node::Leaf(s3));
            assert(q.upper_right.wf());
            assert(q.upper_left.wf());
            assert(q.lower_left.wf());
            assert(q.lower_right.wf());
        }
    }

    /// Records `id` at `position`. A position outside this node's bounds is
    /// ignored; a full leaf whose bounds can still be divided splits first.
    pub fn insert(&mut self, id: u64, position: Point)
        requires
            old(self).wf(),
        ensures
            final(self).wf(),
            final(self).bounds_spec() == old(self).bounds_spec(),
            final(self).capacity_spec() == old(self).capacity_spec(),
            final(self).shape() == node_insert(
                old(self).shape(),
                old(self).bounds_spec(),
                old(self).capacity_spec() as int,
                QuadtreeItem { id, position },
            ),
            !old(self).bounds_spec().contains_spec(position) ==> *final(self) == *old(self),
            final(self).elems().to_multiset() == inserted(
                old(self).elems().to_multiset(),
                old(self).bounds_spec(),
                id,
                position,
            ),
        decreases extent(old(self).bounds_spec()),
    {
        if !self.point_in_bounds(position) {
            return ;
        }
        let item = QuadtreeItem { id, position };
        if self.children.is_none() {
            if self.items.len() < self.capacity || !is_splittable(&self.bounds) {
                self.items.push(item);
                proof {
                    assert(self.elems() == old(self).elems().push(item));
                    assert forall|i: int| 0 <= i < self.items@.len() implies self.bounds.contains_spec(
                        #[trigger] self.items@[i].position,
                    ) by {
                        if i < old(self).items@.len() {
                            assert(self.items@[i] == old(self).items@[i]);
                        }
                    }
                }
                return ;
            }
            self.split();
        }
        let k = self.get_quadrant_index_for_position(position);
        proof {
            lemma_quadrant_in_child(self.bounds, position);
            lemma_quadrants_within(self.bounds);
            assert(extent(quadrant_rect(self.bounds, k as int)) < extent(self.bounds));
        }
        let ghost mid = *self;
        match &mut self.children {
            Some(q) => {
                if k == 0 {
                    q.upper_right.insert(id, position);
                } else if k == 1 {
                    q.upper_left.insert(id, position);
                } else if k == 2 {
                    q.lower_left.insert(id, position);
                } else {
                    q.lower_right.insert(id, position);
                }
            },
            None => {},
        }
        proof {
            let mq = mid.children.unwrap();
            let nq = self.children.unwrap();
            lemma_multiset_commutative(mq.upper_right.elems() + mq.upper_left.elems() + mq.lower_left.elems(), mq.lower_right.elems());
            lemma_multiset_commutative(mq.upper_right.elems() + mq.upper_left.elems(), mq.lower_left.elems());
            lemma_multiset_commutative(mq.upper_right.elems(), mq.upper_left.elems());
            lemma_multiset_commutative(nq.upper_right.elems() + nq.upper_left.elems() + nq.lower_left.elems(), nq.lower_right.elems());
            lemma_multiset_commutative(nq.upper_right.elems() + nq.upper_left.elems(), nq.lower_left.elems());
            lemma_multiset_commutative(nq.upper_right.elems(), nq.upper_left.elems());
            assert(self.elems().to_multiset() =~= mid.elems().to_multiset().insert(item));
        }
    }

    /// Appends to `found`, in the tree's order, the handle of every item whose
    /// position lies in `area`; subtrees whose bounds miss `area` are skipped.
    pub fn query(&self, area: &Rect, found: &mut Vec<u64>)
        requires
            self.wf(),
        ensures
            final(found)@ == old(found)@ + hits(self.elems(), *area),
        decreases self,
    {
        if !self.bounds.intersects(area) {
            proof {
                self.lemma_elems_in_bounds();
                assert forall|i: int| 0 <= i < self.elems().len() implies !area.contains_spec(
                    #[trigger] self.elems()[i].position,
                ) by {
                    assert(self.bounds.contains_spec(self.elems()[i].position));
                }
                lemma_hits_none(self.elems(), *area);
                assert(old(found)@ + hits(self.elems(), *area) =~= old(found)@);
            }
            return ;
        }
        match &self.children {
            Some(q) => {
                q.upper_right.query(area, found);
                q.upper_left.query(area, found);
                q.lower_left.query(area, found);
                q.lower_right.query(area, found);
                proof {
                    let s0 = q.upper_right.elems();
                    let s1 = q.upper_left.elems();
                    let s2 = q.lower_left.elems();
                    let s3 = q.lower_right.elems();
                    lemma_hits_add(s0 + s1 + s2, s3, *area);
                    lemma_hits_add(s0 + s1, s2, *area);
                    lemma_hits_add(s0, s1, *area);
                    assert(final(found)@ =~= old(found)@ + hits(self.elems(), *area));
                }
            },
            None => {
                let mut i: usize = 0;
                while i < self.items.len()
                    invariant
                        self.children is None,
                        0 <= i <= self.items@.len(),
                        found@ == old(found)@ + hits(self.items@.subrange(0, i as int), *area),
                    decreases self.items@.len() - i,
                {
                    let it = self.items[i];
                    proof {
                        assert(self.items@.subrange(0, i as int + 1).drop_last() =~= self.items@.subrange(0, i as int));
                    }
                    if area.contains(it.position) {
                        found.push(it.id);
                    }
                    i = i + 1;
                }
                proof {
                    assert(self.items@.subrange(0, i as int) =~= self.items@);
                }
            },
        }
    }
}

/// A fresh index over `bounds` holding every entry of `snapshot` that lies
/// inside `bounds`; the others are left out.
pub fn rebuild(bounds: Rect, capacity: usize, snapshot: &Vec<(u64, Point)>) -> (r: Quadtree)
    ensures
        r.wf(),
        r.bounds_spec() == bounds,
        r.capacity_spec() == capacity,
        r.elems().to_multiset() == accepted(snapshot@, bounds).to_multiset(),
        r.shape() == built(snapshot@, bounds, capacity as int),
{
    let mut t = Quadtree::new(bounds, capacity);
    let mut i: usize = 0;
    while i < snapshot.len()
        invariant
            0 <= i <= snapshot@.len(),
            t.wf(),
            t.bounds_spec() == bounds,
            t.capacity_spec() == capacity,
            t.elems().to_multiset() == accepted(snapshot@.subrange(0, i as int), bounds).to_multiset(),
            t.shape() == built(snapshot@.subrange(0, i as int), bounds, capacity as int),
        decreases snapshot@.len() - i,
    {
        let (id, p) = snapshot[i];
        proof {
            lemma_accepted_step(snapshot@, bounds, i as int);
            assert(snapshot@.subrange(0, i as int + 1).drop_last() =~= snapshot@.subrange(0, i as int));
        }
        t.insert(id, p);
        i = i + 1;
    }
    proof {
        assert(snapshot@.subrange(0, i as int) =~= snapshot@);
    }
    t
}

proof fn lemma_accepted_step(s: Seq<(u64, Point)>, bounds: Rect, i: int)
    requires
        0 <= i < s.len(),
    ensures
        accepted(s.subrange(0, i + 1), bounds).to_multiset() == inserted(
            accepted(s.subrange(0, i), bounds).to_multiset(),
            bounds,
            s[i].0,
            s[i].1,
        ),
{
    let pre = s.subrange(0, i);
    let cur = s.subrange(0, i + 1);
    assert(cur.drop_last() =~= pre);
    assert(cur.last() == s[i]);
    reveal(Seq::filter);
    let pred = |e: (u64, Point)| bounds.contains_spec(e.1);
    let f = |e: (u64, Point)| QuadtreeItem { id: e.0, position: e.1 };
    if bounds.contains_spec(s[i].1) {
        assert(cur.filter(pred) == pre.filter(pred).push(s[i]));
        assert(cur.filter(pred).map_values(f) =~= pre.filter(pred).map_values(f).push(f(s[i])));
    } else {
        assert(cur.filter(pred) == pre.filter(pred));
    }
}

impl Quadtree {
    /// Read-only traversal for debug drawing: appends every node in preorder,
    /// with its bounds and whether it has children.
    pub fn node_outlines(&self, out: &mut Vec<(Rect, bool)>)
        ensures
            final(out)@ == old(out)@ + self.outlines(),
        decreases self,
    {
        match &self.children {
            None => {
                out.push((self.bounds, false));
                proof {
                    assert(out@ =~= old(out)@ + self.outlines());
                }
            },
            Some(q) => {
                out.push((self.bounds, true));
                q.upper_right.node_outlines(out);
                q.upper_left.node_outlines(out);
                q.lower_left.node_outlines(out);
                q.lower_right.node_outlines(out);
                proof {
                    assert(out@ =~= old(out)@ + self.outlines());
                }
            },
        }
    }
}

/// Whether a node over `r` may split.
fn is_splittable(r: &Rect) -> (b: bool)
    ensures
        b == splittable(*r),
{
    r.min_x <= r.max_x && r.min_y <= r.max_y && r.max_x < i64::MAX && r.max_y < i64::MAX && (r.min_x
        < r.max_x || r.min_y < r.max_y)
}

/// The midlines of a non-empty rectangle.
fn midpoint(r: &Rect) -> (m: (i64, i64))
    requires
        r.min_x <= r.max_x,
        r.min_y <= r.max_y,
    ensures
        m.0 == mid_x(*r),
        m.1 == mid_y(*r),
        r.min_x <= m.0 <= r.max_x,
        r.min_y <= m.1 <= r.max_y,
{
    let w = (r.max_x as i128 - r.min_x as i128) as u64;
    let h = (r.max_y as i128 - r.min_y as i128) as u64;
    let mx = (r.min_x as i128 + (w / 2) as i128) as i64;
    let my = (r.min_y as i128 + (h / 2) as i128) as i64;
    (mx, my)
}

} // verus!
