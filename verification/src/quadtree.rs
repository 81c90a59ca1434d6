use vstd::multiset::Multiset;
use vstd::prelude::*;

use crate::seq_facts::{lemma_filter_all_false, lemma_filter_all_true, lemma_filter_push};
use crate::shapes::{
    lemma_point_in_both_rects_intersect, lemma_quad_of_routes, lemma_quarter_wf, quad_of,
    quarter_spec, rect_contains, rect_size, rect_splittable, rect_wf, rects_intersect, shape_rect,
    Rect, Shape,
};
use crate::util::{determine_quadrant, group_by_quadrant, in_quad};
use crate::{Point, Pt};

verus! {

broadcast use vstd::multiset::group_multiset_axioms;

/// The multiset of an empty sequence is the empty multiset.
proof fn lemma_to_multiset_empty<A>()
    ensures
        Seq::<A>::empty().to_multiset() == Multiset::<A>::empty(),
{
    Seq::<A>::empty().to_multiset_ensures();
    assert(Seq::<A>::empty().to_multiset() =~= Multiset::<A>::empty());
}

/// The multiset of a four-way concatenation is the sum of the four multisets.
proof fn lemma_concat4_mset<A>(a: Seq<A>, b: Seq<A>, c: Seq<A>, d: Seq<A>)
    ensures
        (a + b + c + d).to_multiset() == a.to_multiset().add(b.to_multiset()).add(
            c.to_multiset(),
        ).add(d.to_multiset()),
{
    vstd::seq_lib::lemma_multiset_commutative(a, b);
    vstd::seq_lib::lemma_multiset_commutative(a + b, c);
    vstd::seq_lib::lemma_multiset_commutative(a + b + c, d);
}

/// Routing to a quadrant survives adding routed items, however the result
/// sequence orders them.
proof fn lemma_routed_after_add<T: Point + Copy>(
    olds: Seq<T>,
    added: Seq<T>,
    news: Seq<T>,
    b: Rect,
    i: int,
)
    requires
        routed_to(olds, b, i),
        routed_to(added, b, i),
        news.to_multiset() == olds.to_multiset().add(added.to_multiset()),
    ensures
        routed_to(news, b, i),
{
    news.to_multiset_ensures();
    olds.to_multiset_ensures();
    added.to_multiset_ensures();
    assert forall|j: int| 0 <= j < news.len() implies quad_of(b, (#[trigger] news[j]).pos())
        == i by {
        let t = news[j];
        assert(news.contains(t));
        assert(news.to_multiset().count(t) > 0);
        if olds.to_multiset().count(t) > 0 {
            assert(olds.contains(t));
            let k = choose|k: int| 0 <= k < olds.len() && olds[k] == t;
            assert(quad_of(b, olds[k].pos()) == i);
        } else {
            assert(added.contains(t));
            let k = choose|k: int| 0 <= k < added.len() && added[k] == t;
            assert(quad_of(b, added[k].pos()) == i);
        }
    }
}

/// Grouping a batch of in-boundary items by quadrant partitions it: the four
/// groups together hold exactly the batch.
proof fn lemma_quad_partition<T: Point + Copy>(s: Seq<T>, b: Rect)
    requires
        rect_wf(b),
        forall|j: int| 0 <= j < s.len() ==> rect_contains(b, (#[trigger] s[j]).pos()),
    ensures
        s.filter(in_quad(b, 0)).to_multiset().add(s.filter(in_quad(b, 1)).to_multiset()).add(
            s.filter(in_quad(b, 2)).to_multiset(),
        ).add(s.filter(in_quad(b, 3)).to_multiset()) == s.to_multiset(),
        s.filter(in_quad(b, 0)).len() + s.filter(in_quad(b, 1)).len() + s.filter(
            in_quad(b, 2),
        ).len() + s.filter(in_quad(b, 3)).len() == s.len(),
    decreases s.len(),
{
    s.to_multiset_ensures();
    s.filter(in_quad::<T>(b, 0)).to_multiset_ensures();
    s.filter(in_quad::<T>(b, 1)).to_multiset_ensures();
    s.filter(in_quad::<T>(b, 2)).to_multiset_ensures();
    s.filter(in_quad::<T>(b, 3)).to_multiset_ensures();
    if s.len() == 0 {
        lemma_filter_all_false(s, in_quad::<T>(b, 0));
        lemma_filter_all_false(s, in_quad::<T>(b, 1));
        lemma_filter_all_false(s, in_quad::<T>(b, 2));
        lemma_filter_all_false(s, in_quad::<T>(b, 3));
        lemma_to_multiset_empty::<T>();
        assert(s =~= Seq::<T>::empty());
        assert(s.filter(in_quad(b, 0)).to_multiset().add(
            s.filter(in_quad(b, 1)).to_multiset(),
        ).add(s.filter(in_quad(b, 2)).to_multiset()).add(s.filter(in_quad(b, 3)).to_multiset())
            =~= s.to_multiset());
    } else {
        let pre = s.drop_last();
        let t = s.last();
        lemma_quad_partition(pre, b);
        pre.to_multiset_ensures();
        pre.filter(in_quad::<T>(b, 0)).to_multiset_ensures();
        pre.filter(in_quad::<T>(b, 1)).to_multiset_ensures();
        pre.filter(in_quad::<T>(b, 2)).to_multiset_ensures();
        pre.filter(in_quad::<T>(b, 3)).to_multiset_ensures();
        lemma_filter_push(pre, in_quad::<T>(b, 0), t);
        lemma_filter_push(pre, in_quad::<T>(b, 1), t);
        lemma_filter_push(pre, in_quad::<T>(b, 2), t);
        lemma_filter_push(pre, in_quad::<T>(b, 3), t);
        assert(pre.push(t) =~= s);
        lemma_quad_of_routes(b, t.pos());
        assert(s.filter(in_quad(b, 0)).to_multiset().add(
            s.filter(in_quad(b, 1)).to_multiset(),
        ).add(s.filter(in_quad(b, 2)).to_multiset()).add(s.filter(in_quad(b, 3)).to_multiset())
            =~= s.to_multiset());
    }
}

/// The predicate satisfied by items whose position lies in `b`.
pub open spec fn in_boundary<T: Point>(b: Rect) -> spec_fn(T) -> bool {
    |t: T| rect_contains(b, t.pos())
}

/// The predicate satisfied by items whose position lies outside `b`.
pub open spec fn outside_boundary<T: Point>(b: Rect) -> spec_fn(T) -> bool {
    |t: T| !rect_contains(b, t.pos())
}

/// Splitting a batch into the items inside and outside a boundary loses none.
proof fn lemma_split_in_out<T: Point + Copy>(s: Seq<T>, b: Rect)
    ensures
        s.filter(in_boundary(b)).len() + s.filter(outside_boundary(b)).len() == s.len(),
    decreases s.len(),
{
    if s.len() == 0 {
        lemma_filter_all_false(s, in_boundary::<T>(b));
        lemma_filter_all_false(s, outside_boundary::<T>(b));
    } else {
        let pre = s.drop_last();
        let t = s.last();
        lemma_split_in_out(pre, b);
        lemma_filter_push(pre, in_boundary::<T>(b), t);
        lemma_filter_push(pre, outside_boundary::<T>(b), t);
        assert(pre.push(t) =~= s);
    }
}

/// A predicate over stored items, used to narrow queries and deletions.
/// Implementations pair the executable test with its specification meaning.
pub trait Filter<T>: Sized {
    /// Whether the filter accepts the item, for use in specifications.
    spec fn accepts(&self, item: T) -> bool;

    /// Test an item against the filter.
    fn test(&self, item: &T) -> (b: bool)
        ensures
            b == self.accepts(*item),
    ;
}

/// The filter that accepts every item; the unfiltered operations use it.
pub struct AcceptAll;

impl<T> Filter<T> for AcceptAll {
    open spec fn accepts(&self, item: T) -> bool {
        true
    }

    fn test(&self, item: &T) -> (b: bool) {
        true
    }
}

/// A filter that rejects exactly the items lying at one position.
pub struct ExcludePoint {
    pub pos: Pt,
}

impl<T: Point> Filter<T> for ExcludePoint {
    open spec fn accepts(&self, item: T) -> bool {
        item.pos() != self.pos
    }

    fn test(&self, item: &T) -> (b: bool) {
        let p = item.point();
        p != self.pos
    }
}

/// Quadtree node.
///
/// ## Variants
/// - `Internal`: contains four child nodes and represents a subdivided area
/// - `External`: contains data and represents a leaf node
/// - `Empty`: represents an empty area without any data
enum Node<T> {
    Internal {
        boundary: Rect,
        q0: Box<Node<T>>,
        q1: Box<Node<T>>,
        q2: Box<Node<T>>,
        q3: Box<Node<T>>,
    },
    External { boundary: Rect, data: Vec<T> },
    Empty { boundary: Rect },
}

/// Whether every item of `s` is routed to quadrant `i` of `b`.
spec fn routed_to<T: Point>(s: Seq<T>, b: Rect, i: int) -> bool {
    forall|j: int| 0 <= j < s.len() ==> quad_of(b, (#[trigger] s[j]).pos()) == i
}

impl<T: Point + Copy> Node<T> {
    /// The rectangle this node is responsible for.
    spec fn spec_boundary(self) -> Rect {
        match self {
            Node::Internal { boundary, .. } => boundary,
            Node::External { boundary, .. } => boundary,
            Node::Empty { boundary } => boundary,
        }
    }

    /// The stored items of the subtree, in depth-first order.
    spec fn items(self) -> Seq<T>
        decreases self,
    {
        match self {
            Node::Empty { .. } => Seq::empty(),
            Node::External { data, .. } => data@,
            Node::Internal { q0, q1, q2, q3, .. } => (*q0).items() + (*q1).items() + (*q2).items()
                + (*q3).items(),
        }
    }

    /// Well-formedness of a subtree for a leaf capacity:
    /// - boundaries are well formed, and an internal node's children carry
    ///   exactly the four quadrants of its boundary;
    /// - leaf items lie within the leaf boundary, and a child subtree's items
    ///   are routed to that child's quadrant;
    /// - a leaf holds at most `capacity` items unless its boundary has become
    ///   too small to split further;
    /// - only the `Empty` variant holds no items, and internal nodes are only
    ///   present where splitting makes progress.
    spec fn wf(self, capacity: int) -> bool
        decreases self,
    {
        match self {
            Node::Empty { boundary } => rect_wf(boundary),
            Node::External { boundary, data } => {
                &&& rect_wf(boundary)
                &&& data@.len() >= 1
                &&& (data@.len() <= capacity || !rect_splittable(boundary))
                &&& forall|j: int|
                    0 <= j < data@.len() ==> rect_contains(boundary, (#[trigger] data@[j]).pos())
            },
            Node::Internal { boundary, q0, q1, q2, q3 } => {
                &&& rect_wf(boundary)
                &&& rect_splittable(boundary)
                &&& (*q0).spec_boundary() == quarter_spec(boundary, 0)
                &&& (*q1).spec_boundary() == quarter_spec(boundary, 1)
                &&& (*q2).spec_boundary() == quarter_spec(boundary, 2)
                &&& (*q3).spec_boundary() == quarter_spec(boundary, 3)
                &&& (*q0).wf(capacity)
                &&& (*q1).wf(capacity)
                &&& (*q2).wf(capacity)
                &&& (*q3).wf(capacity)
                &&& routed_to((*q0).items(), boundary, 0)
                &&& routed_to((*q1).items(), boundary, 1)
                &&& routed_to((*q2).items(), boundary, 2)
                &&& routed_to((*q3).items(), boundary, 3)
                &&& self.items().len() >= 1
            },
        }
    }

    /// Every stored item of a well-formed subtree lies within its boundary.
    proof fn lemma_items_in_boundary(self, capacity: int)
        requires
            self.wf(capacity),
        ensures
            forall|j: int|
                0 <= j < self.items().len() ==> rect_contains(
                    self.spec_boundary(),
                    (#[trigger] self.items()[j]).pos(),
                ),
    {
        match self {
            Node::Empty { .. } => {},
            Node::External { .. } => {},
            Node::Internal { boundary, q0, q1, q2, q3 } => {
                assert forall|j: int| 0 <= j < self.items().len() implies rect_contains(
                    self.spec_boundary(),
                    (#[trigger] self.items()[j]).pos(),
                ) by {
                    let a = (*q0).items();
                    let b = (*q1).items();
                    let c = (*q2).items();
                    let d = (*q3).items();
                    let t = self.items()[j];
                    assert(self.items() == a + b + c + d);
                    if j < a.len() {
                        assert(t == a[j]);
                    } else if j < a.len() + b.len() {
                        assert(t == b[j - a.len()]);
                    } else if j < a.len() + b.len() + c.len() {
                        assert(t == c[j - a.len() - b.len()]);
                    } else {
                        assert(t == d[j - a.len() - b.len() - c.len()]);
                    }
                    lemma_quad_of_routes(boundary, t.pos());
                }
            },
        }
    }

    /// Get the boundary rect of the node.
    fn boundary(&self) -> (r: Rect)
        ensures
            r == self.spec_boundary(),
    {
        match self {
            Node::Internal { boundary, .. } => *boundary,
            Node::External { boundary, .. } => *boundary,
            Node::Empty { boundary } => *boundary,
        }
    }

    /// Four fresh empty children covering the quadrants of `boundary`.
    fn subdivide(boundary: &Rect) -> (c: (Box<Node<T>>, Box<Node<T>>, Box<Node<T>>, Box<Node<T>>))
        requires
            rect_wf(*boundary),
        ensures
            (*c.0).spec_boundary() == quarter_spec(*boundary, 0),
            (*c.1).spec_boundary() == quarter_spec(*boundary, 1),
            (*c.2).spec_boundary() == quarter_spec(*boundary, 2),
            (*c.3).spec_boundary() == quarter_spec(*boundary, 3),
            forall|cap: int| (*c.0).wf(cap) && (*c.1).wf(cap) && (*c.2).wf(cap) && (*c.3).wf(cap),
            (*c.0).items() == Seq::<T>::empty(),
            (*c.1).items() == Seq::<T>::empty(),
            (*c.2).items() == Seq::<T>::empty(),
            (*c.3).items() == Seq::<T>::empty(),
    {
        proof {
            lemma_quarter_wf(*boundary, 0);
            lemma_quarter_wf(*boundary, 1);
            lemma_quarter_wf(*boundary, 2);
            lemma_quarter_wf(*boundary, 3);
        }
        let qs = boundary.quarter();
        (
            Box::new(Node::Empty { boundary: qs[0] }),
            Box::new(Node::Empty { boundary: qs[1] }),
            Box::new(Node::Empty { boundary: qs[2] }),
            Box::new(Node::Empty { boundary: qs[3] }),
        )
    }
}

impl<T: Point + Copy> Node<T> {
    /// The boundary of a well-formed node is a well-formed rectangle.
    proof fn lemma_wf_rect(self, capacity: int)
        requires
            self.wf(capacity),
        ensures
            rect_wf(self.spec_boundary()),
    {
        match self {
            Node::Empty { .. } => {},
            Node::External { .. } => {},
            Node::Internal { .. } => {},
        }
    }

    /// Distribute a batch of in-boundary items over the four children of an
    /// internal node, routing each item to the quadrant that contains it.
    fn distribute(
        boundary: Rect,
        c0: Box<Node<T>>,
        c1: Box<Node<T>>,
        c2: Box<Node<T>>,
        c3: Box<Node<T>>,
        items: Vec<T>,
        capacity: usize,
    ) -> (res: (Box<Node<T>>, Box<Node<T>>, Box<Node<T>>, Box<Node<T>>))
        requires
            rect_wf(boundary),
            rect_splittable(boundary),
            capacity >= 1,
            (*c0).wf(capacity as int),
            (*c1).wf(capacity as int),
            (*c2).wf(capacity as int),
            (*c3).wf(capacity as int),
            (*c0).spec_boundary() == quarter_spec(boundary, 0),
            (*c1).spec_boundary() == quarter_spec(boundary, 1),
            (*c2).spec_boundary() == quarter_spec(boundary, 2),
            (*c3).spec_boundary() == quarter_spec(boundary, 3),
            routed_to((*c0).items(), boundary, 0),
            routed_to((*c1).items(), boundary, 1),
            routed_to((*c2).items(), boundary, 2),
            routed_to((*c3).items(), boundary, 3),
            forall|j: int|
                0 <= j < items@.len() ==> rect_contains(boundary, (#[trigger] items@[j]).pos()),
        ensures
            (*res.0).wf(capacity as int),
            (*res.1).wf(capacity as int),
            (*res.2).wf(capacity as int),
            (*res.3).wf(capacity as int),
            (*res.0).spec_boundary() == quarter_spec(boundary, 0),
            (*res.1).spec_boundary() == quarter_spec(boundary, 1),
            (*res.2).spec_boundary() == quarter_spec(boundary, 2),
            (*res.3).spec_boundary() == quarter_spec(boundary, 3),
            routed_to((*res.0).items(), boundary, 0),
            routed_to((*res.1).items(), boundary, 1),
            routed_to((*res.2).items(), boundary, 2),
            routed_to((*res.3).items(), boundary, 3),
            ((*res.0).items() + (*res.1).items() + (*res.2).items() + (*res.3).items())
                .to_multiset() == ((*c0).items() + (*c1).items() + (*c2).items()
                + (*c3).items()).to_multiset().add(items@.to_multiset()),
            ((*res.0).items() + (*res.1).items() + (*res.2).items() + (*res.3).items()).len()
                == ((*c0).items() + (*c1).items() + (*c2).items() + (*c3).items()).len()
                + items@.len(),
        decreases rect_size(boundary), 0int,
    {
        let ghost items0 = items@;
        proof {
            assert forall|j: int| 0 <= j < items@.len() implies quad_of(
                boundary,
                (#[trigger] items@[j]).pos(),
            ) != -1 by {
                lemma_quad_of_routes(boundary, items@[j].pos());
            }
            lemma_quad_partition(items@, boundary);
            lemma_quarter_wf(boundary, 0);
            lemma_quarter_wf(boundary, 1);
            lemma_quarter_wf(boundary, 2);
            lemma_quarter_wf(boundary, 3);
        }
        let (g0, g1, g2, g3, outside) = group_by_quadrant(&boundary, items);
        proof {
            lemma_filter_all_false(items0, in_quad::<T>(boundary, -1));
            assert(outside@ == Seq::<T>::empty());
            assert forall|j: int| 0 <= j < g0@.len() implies quad_of(
                boundary,
                (#[trigger] g0@[j]).pos(),
            ) == 0 by {
                items0.lemma_filter_pred(in_quad::<T>(boundary, 0), j);
            }
            assert forall|j: int| 0 <= j < g1@.len() implies quad_of(
                boundary,
                (#[trigger] g1@[j]).pos(),
            ) == 1 by {
                items0.lemma_filter_pred(in_quad::<T>(boundary, 1), j);
            }
            assert forall|j: int| 0 <= j < g2@.len() implies quad_of(
                boundary,
                (#[trigger] g2@[j]).pos(),
            ) == 2 by {
                items0.lemma_filter_pred(in_quad::<T>(boundary, 2), j);
            }
            assert forall|j: int| 0 <= j < g3@.len() implies quad_of(
                boundary,
                (#[trigger] g3@[j]).pos(),
            ) == 3 by {
                items0.lemma_filter_pred(in_quad::<T>(boundary, 3), j);
            }
        }
        let ghost (s0, s1, s2, s3) = (g0@, g1@, g2@, g3@);
        let n0 = if g0.len() > 0 {
            Box::new(Node::insert_many(*c0, g0, capacity))
        } else {
            proof {
                lemma_to_multiset_empty::<T>();
                assert(g0@ =~= Seq::<T>::empty());
                assert((*c0).items().to_multiset().add(g0@.to_multiset()) =~= (*c0)
                    .items().to_multiset());
            }
            c0
        };
        let n1 = if g1.len() > 0 {
            Box::new(Node::insert_many(*c1, g1, capacity))
        } else {
            proof {
                lemma_to_multiset_empty::<T>();
                assert(g1@ =~= Seq::<T>::empty());
                assert((*c1).items().to_multiset().add(g1@.to_multiset()) =~= (*c1)
                    .items().to_multiset());
            }
            c1
        };
        let n2 = if g2.len() > 0 {
            Box::new(Node::insert_many(*c2, g2, capacity))
        } else {
            proof {
                lemma_to_multiset_empty::<T>();
                assert(g2@ =~= Seq::<T>::empty());
                assert((*c2).items().to_multiset().add(g2@.to_multiset()) =~= (*c2)
                    .items().to_multiset());
            }
            c2
        };
        let n3 = if g3.len() > 0 {
            Box::new(Node::insert_many(*c3, g3, capacity))
        } else {
            proof {
                lemma_to_multiset_empty::<T>();
                assert(g3@ =~= Seq::<T>::empty());
                assert((*c3).items().to_multiset().add(g3@.to_multiset()) =~= (*c3)
                    .items().to_multiset());
            }
            c3
        };
        proof {
            lemma_routed_after_add((*c0).items(), s0, (*n0).items(), boundary, 0);
            lemma_routed_after_add((*c1).items(), s1, (*n1).items(), boundary, 1);
            lemma_routed_after_add((*c2).items(), s2, (*n2).items(), boundary, 2);
            lemma_routed_after_add((*c3).items(), s3, (*n3).items(), boundary, 3);
            lemma_concat4_mset((*c0).items(), (*c1).items(), (*c2).items(), (*c3).items());
            lemma_concat4_mset((*n0).items(), (*n1).items(), (*n2).items(), (*n3).items());
            assert(((*n0).items() + (*n1).items() + (*n2).items() + (*n3).items()).to_multiset()
                =~= ((*c0).items() + (*c1).items() + (*c2).items()
                + (*c3).items()).to_multiset().add(items0.to_multiset()));
            ((*n0).items() + (*n1).items() + (*n2).items() + (*n3).items()).to_multiset_ensures();
            ((*c0).items() + (*c1).items() + (*c2).items() + (*c3).items()).to_multiset_ensures();
            items0.to_multiset_ensures();
        }
        (n0, n1, n2, n3)
    }

    /// Insert a batch of items that all lie within the node's boundary.
    fn insert_many(node: Node<T>, items: Vec<T>, capacity: usize) -> (n: Node<T>)
        requires
            node.wf(capacity as int),
            capacity >= 1,
            items@.len() >= 1,
            forall|j: int|
                0 <= j < items@.len() ==> rect_contains(
                    node.spec_boundary(),
                    (#[trigger] items@[j]).pos(),
                ),
        ensures
            n.wf(capacity as int),
            n.spec_boundary() == node.spec_boundary(),
            n.items().to_multiset() == node.items().to_multiset().add(items@.to_multiset()),
            n.items().len() == node.items().len() + items@.len(),
        decreases rect_size(node.spec_boundary()), 1int,
    {
        proof {
            node.lemma_wf_rect(capacity as int);
        }
        match node {
            Node::Empty { boundary } => {
                let splittable = boundary.splittable();
                if items.len() <= capacity || !splittable {
                    proof {
                        lemma_to_multiset_empty::<T>();
                        items@.to_multiset_ensures();
                    }
                    Node::External { boundary, data: items }
                } else {
                    let (c0, c1, c2, c3) = Node::subdivide(&boundary);
                    let ghost empty4 = (*c0).items() + (*c1).items() + (*c2).items()
                        + (*c3).items();
                    let (n0, n1, n2, n3) = Node::distribute(
                        boundary,
                        c0,
                        c1,
                        c2,
                        c3,
                        items,
                        capacity,
                    );
                    proof {
                        lemma_to_multiset_empty::<T>();
                        assert(empty4 =~= Seq::<T>::empty());
                    }
                    Node::Internal { boundary, q0: n0, q1: n1, q2: n2, q3: n3 }
                }
            },
            Node::External { boundary, mut data } => {
                let splittable = boundary.splittable();
                let fits = items.len() <= capacity && data.len() <= capacity - items.len();
                if fits || !splittable {
                    let ghost olddata = data@;
                    let mut more = items;
                    proof {
                        vstd::seq_lib::lemma_multiset_commutative(olddata, more@);
                    }
                    data.append(&mut more);
                    Node::External { boundary, data }
                } else {
                    let ghost olddata = data@;
                    let ghost oldbatch = items@;
                    let mut merged = items;
                    merged.append(&mut data);
                    proof {
                        vstd::seq_lib::lemma_multiset_commutative(oldbatch, olddata);
                    }
                    let (c0, c1, c2, c3) = Node::subdivide(&boundary);
                    let ghost empty4 = (*c0).items() + (*c1).items() + (*c2).items()
                        + (*c3).items();
                    let (n0, n1, n2, n3) = Node::distribute(
                        boundary,
                        c0,
                        c1,
                        c2,
                        c3,
                        merged,
                        capacity,
                    );
                    proof {
                        lemma_to_multiset_empty::<T>();
                        assert(empty4 =~= Seq::<T>::empty());
                        (oldbatch + olddata).to_multiset_ensures();
                        olddata.to_multiset_ensures();
                        oldbatch.to_multiset_ensures();
                    }
                    Node::Internal { boundary, q0: n0, q1: n1, q2: n2, q3: n3 }
                }
            },
            Node::Internal { boundary, q0, q1, q2, q3 } => {
                let ghost old4 = (*q0).items() + (*q1).items() + (*q2).items() + (*q3).items();
                let (n0, n1, n2, n3) = Node::distribute(
                    boundary,
                    q0,
                    q1,
                    q2,
                    q3,
                    items,
                    capacity,
                );
                proof {
                    old4.to_multiset_ensures();
                    ((*n0).items() + (*n1).items() + (*n2).items() + (*n3).items())
                        .to_multiset_ensures();
                }
                Node::Internal { boundary, q0: n0, q1: n1, q2: n2, q3: n3 }
            },
        }
    }

    /// Look up an item stored at exactly the given position, routing down a
    /// single path through the tree.
    fn get(node: &Node<T>, point: &Pt, Ghost(capacity): Ghost<int>) -> (r: Option<T>)
        requires
            node.wf(capacity),
        ensures
            match r {
                Some(t) => t.pos() == *point && node.items().contains(t),
                None => forall|j: int|
                    0 <= j < node.items().len() ==> (#[trigger] node.items()[j]).pos() != *point,
            },
        decreases rect_size(node.spec_boundary()),
    {
        proof {
            node.lemma_wf_rect(capacity);
        }
        match node {
            Node::Empty { .. } => None,
            Node::External { data, .. } => {
                let mut idx: usize = 0;
                while idx < data.len()
                    invariant
                        idx <= data@.len(),
                        node.items() == data@,
                        forall|k: int| 0 <= k < idx ==> (#[trigger] data@[k]).pos() != *point,
                    decreases data@.len() - idx,
                {
                    let p = data[idx].point();
                    if p.x == point.x && p.y == point.y {
                        proof {
                            assert(p == *point);
                            assert(data@.contains(data@[idx as int]));
                        }
                        return Some(data[idx]);
                    }
                    idx = idx + 1;
                }
                None
            },
            Node::Internal { boundary, q0, q1, q2, q3 } => {
                proof {
                    lemma_quad_of_routes(*boundary, *point);
                    lemma_quarter_wf(*boundary, 0);
                    lemma_quarter_wf(*boundary, 1);
                    lemma_quarter_wf(*boundary, 2);
                    lemma_quarter_wf(*boundary, 3);
                }
                let ghost a = (*q0).items();
                let ghost b = (*q1).items();
                let ghost c = (*q2).items();
                let ghost d = (*q3).items();
                proof {
                    assert(node.items() == a + b + c + d);
                }
                match determine_quadrant(boundary, point) {
                    Some(i) => {
                        let r = if i == 0 {
                            Node::get(&*q0, point, Ghost(capacity))
                        } else if i == 1 {
                            Node::get(&*q1, point, Ghost(capacity))
                        } else if i == 2 {
                            Node::get(&*q2, point, Ghost(capacity))
                        } else {
                            Node::get(&*q3, point, Ghost(capacity))
                        };
                        proof {
                            let qi = quad_of(*boundary, *point);
                            match r {
                                Some(t) => {
                                    let s = if qi == 0 {
                                        a
                                    } else if qi == 1 {
                                        b
                                    } else if qi == 2 {
                                        c
                                    } else {
                                        d
                                    };
                                    let k = choose|k: int| 0 <= k < s.len() && s[k] == t;
                                    let off = if qi == 0 {
                                        0int
                                    } else if qi == 1 {
                                        a.len() as int
                                    } else if qi == 2 {
                                        a.len() + b.len() as int
                                    } else {
                                        a.len() + b.len() + c.len() as int
                                    };
                                    assert(node.items()[off + k] == t);
                                    assert(node.items().contains(t));
                                },
                                None => {
                                    assert forall|j: int| 0 <= j < node.items().len() implies (
                                    #[trigger] node.items()[j]).pos() != *point by {
                                        let t = node.items()[j];
                                        if j < a.len() {
                                            assert(t == a[j]);
                                            assert(quad_of(*boundary, t.pos()) == 0);
                                        } else if j < a.len() + b.len() {
                                            assert(t == b[j - a.len()]);
                                            assert(quad_of(*boundary, t.pos()) == 1);
                                        } else if j < a.len() + b.len() + c.len() {
                                            assert(t == c[j - a.len() - b.len()]);
                                            assert(quad_of(*boundary, t.pos()) == 2);
                                        } else {
                                            assert(t == d[j - a.len() - b.len() - c.len()]);
                                            assert(quad_of(*boundary, t.pos()) == 3);
                                        }
                                    }
                                },
                            }
                        }
                        r
                    },
                    None => {
                        proof {
                            node.lemma_items_in_boundary(capacity);
                        }
                        None
                    },
                }
            },
        }
    }

    /// Insert a single item. The insert fails, leaving the node unchanged,
    /// exactly when the item's position lies outside the node's boundary.
    fn insert(node: Node<T>, item: T, capacity: usize) -> (res: (Node<T>, bool))
        requires
            node.wf(capacity as int),
            capacity >= 1,
        ensures
            res.0.wf(capacity as int),
            res.0.spec_boundary() == node.spec_boundary(),
            res.1 == rect_contains(node.spec_boundary(), item.pos()),
            res.1 ==> res.0.items().to_multiset() == node.items().to_multiset().insert(item),
            !res.1 ==> res.0.items() == node.items(),
            res.0.items().len() == node.items().len() + (if res.1 {
                1int
            } else {
                0int
            }),
        decreases rect_size(node.spec_boundary()), 2int,
    {
        proof {
            node.lemma_wf_rect(capacity as int);
            node.items().to_multiset_ensures();
        }
        let boundary = node.boundary();
        let p = item.point();
        if !(boundary.start.x <= p.x && p.x <= boundary.end.x && boundary.start.y <= p.y && p.y
            <= boundary.end.y) {
            return (node, false);
        }
        match node {
            Node::Empty { boundary } => {
                let mut data: Vec<T> = Vec::new();
                data.push(item);
                proof {
                    lemma_to_multiset_empty::<T>();
                    Seq::<T>::empty().to_multiset_ensures();
                }
                (Node::External { boundary, data }, true)
            },
            Node::External { boundary, mut data } => {
                let splittable = boundary.splittable();
                if data.len() < capacity || !splittable {
                    let ghost olddata = data@;
                    data.push(item);
                    proof {
                        olddata.to_multiset_ensures();
                    }
                    (Node::External { boundary, data }, true)
                } else {
                    let ghost olddata = data@;
                    data.push(item);
                    let (c0, c1, c2, c3) = Node::subdivide(&boundary);
                    let ghost empty4 = (*c0).items() + (*c1).items() + (*c2).items()
                        + (*c3).items();
                    let (n0, n1, n2, n3) = Node::distribute(
                        boundary,
                        c0,
                        c1,
                        c2,
                        c3,
                        data,
                        capacity,
                    );
                    proof {
                        lemma_to_multiset_empty::<T>();
                        assert(empty4 =~= Seq::<T>::empty());
                        olddata.to_multiset_ensures();
                        olddata.push(item).to_multiset_ensures();
                        ((*n0).items() + (*n1).items() + (*n2).items() + (*n3).items())
                            .to_multiset_ensures();
                    }
                    (Node::Internal { boundary, q0: n0, q1: n1, q2: n2, q3: n3 }, true)
                }
            },
            Node::Internal { boundary, q0, q1, q2, q3 } => {
                proof {
                    lemma_quad_of_routes(boundary, item.pos());
                    lemma_quarter_wf(boundary, 0);
                    lemma_quarter_wf(boundary, 1);
                    lemma_quarter_wf(boundary, 2);
                    lemma_quarter_wf(boundary, 3);
                }
                let ghost itemseq = seq![item];
                proof {
                    Seq::<T>::empty().to_multiset_ensures();
                    lemma_to_multiset_empty::<T>();
                    assert(itemseq =~= Seq::<T>::empty().push(item));
                }
                match determine_quadrant(&boundary, &item) {
                    Some(i) => {
                        if i == 0 {
                            let (n0, ok) = Node::insert(*q0, item, capacity);
                            proof {
                                assert(rect_contains(quarter_spec(boundary, 0), item.pos()));
                                assert(ok);
                                assert((*q0).items().to_multiset().add(itemseq.to_multiset())
                                    =~= (*q0).items().to_multiset().insert(item));
                                lemma_concat4_mset((*q0).items(), (*q1).items(), (*q2).items(), (*q3).items());
                                lemma_concat4_mset(n0.items(), (*q1).items(), (*q2).items(), (*q3).items());
                                lemma_routed_after_add((*q0).items(), itemseq, n0.items(), boundary, 0);
                                (n0.items() + (*q1).items() + (*q2).items() + (*q3).items())
                                    .to_multiset_ensures();
                            }
                            (
                                Node::Internal { boundary, q0: Box::new(n0), q1, q2, q3 },
                                ok,
                            )
                        } else if i == 1 {
                            let (n1, ok) = Node::insert(*q1, item, capacity);
                            proof {
                                assert(rect_contains(quarter_spec(boundary, 1), item.pos()));
                                assert(ok);
                                assert((*q1).items().to_multiset().add(itemseq.to_multiset())
                                    =~= (*q1).items().to_multiset().insert(item));
                                lemma_concat4_mset((*q0).items(), (*q1).items(), (*q2).items(), (*q3).items());
                                lemma_concat4_mset((*q0).items(), n1.items(), (*q2).items(), (*q3).items());
                                lemma_routed_after_add((*q1).items(), itemseq, n1.items(), boundary, 1);
                                ((*q0).items() + n1.items() + (*q2).items() + (*q3).items())
                                    .to_multiset_ensures();
                            }
                            (
                                Node::Internal { boundary, q0, q1: Box::new(n1), q2, q3 },
                                ok,
                            )
                        } else if i == 2 {
                            let (n2, ok) = Node::insert(*q2, item, capacity);
                            proof {
                                assert(rect_contains(quarter_spec(boundary, 2), item.pos()));
                                assert(ok);
                                assert((*q2).items().to_multiset().add(itemseq.to_multiset())
                                    =~= (*q2).items().to_multiset().insert(item));
                                lemma_concat4_mset((*q0).items(), (*q1).items(), (*q2).items(), (*q3).items());
                                lemma_concat4_mset((*q0).items(), (*q1).items(), n2.items(), (*q3).items());
                                lemma_routed_after_add((*q2).items(), itemseq, n2.items(), boundary, 2);
                                ((*q0).items() + (*q1).items() + n2.items() + (*q3).items())
                                    .to_multiset_ensures();
                            }
                            (
                                Node::Internal { boundary, q0, q1, q2: Box::new(n2), q3 },
                                ok,
                            )
                        } else {
                            let (n3, ok) = Node::insert(*q3, item, capacity);
                            proof {
                                assert(rect_contains(quarter_spec(boundary, 3), item.pos()));
                                assert(ok);
                                assert((*q3).items().to_multiset().add(itemseq.to_multiset())
                                    =~= (*q3).items().to_multiset().insert(item));
                                lemma_concat4_mset((*q0).items(), (*q1).items(), (*q2).items(), (*q3).items());
                                lemma_concat4_mset((*q0).items(), (*q1).items(), (*q2).items(), n3.items());
                                lemma_routed_after_add((*q3).items(), itemseq, n3.items(), boundary, 3);
                                ((*q0).items() + (*q1).items() + (*q2).items() + n3.items())
                                    .to_multiset_ensures();
                            }
                            (
                                Node::Internal { boundary, q0, q1, q2, q3: Box::new(n3) },
                                ok,
                            )
                        }
                    },
                    None => {
                        proof {
                            assert(false);
                        }
                        (Node::Internal { boundary, q0, q1, q2, q3 }, false)
                    },
                }
            },
        }
    }
}

/// The predicate satisfied by items whose position the shape contains.
pub open spec fn in_shape<T: Point, S: Shape>(shape: S) -> spec_fn(T) -> bool {
    |t: T| shape.spec_contains(t.pos())
}

/// The predicate satisfied by items whose position the shape does not contain.
pub open spec fn outside_shape<T: Point, S: Shape>(shape: S) -> spec_fn(T) -> bool {
    |t: T| !shape.spec_contains(t.pos())
}

/// The predicate satisfied by items that a deletion with the given shape and
/// filter leaves in place.
pub open spec fn shape_miss<T: Point, S: Shape, F: Filter<T>>(
    shape: S,
    filter: F,
) -> spec_fn(T) -> bool {
    |t: T| !(shape.spec_contains(t.pos()) && filter.accepts(t))
}

/// The predicate satisfied by items that the filter accepts.
pub open spec fn accepted_by<T, F: Filter<T>>(filter: F) -> spec_fn(T) -> bool {
    |t: T| filter.accepts(t)
}

/// The predicate satisfied by items that lie in the shape and pass the filter.
pub open spec fn shape_match<T: Point, S: Shape, F: Filter<T>>(
    shape: S,
    filter: F,
) -> spec_fn(T) -> bool {
    |t: T| shape.spec_contains(t.pos()) && filter.accepts(t)
}

impl<T: Point + Copy> Node<T> {
    /// What a query of this subtree returns: a depth-first traversal that
    /// skips subtrees whose quadrant does not intersect the shape's bounding
    /// rectangle, and that emits a whole leaf without per-item containment
    /// tests when the shape contains both corners of the leaf's boundary.
    spec fn query_spec<S: Shape, F: Filter<T>>(self, shape: S, filter: F) -> Seq<T>
        decreases self,
    {
        match self {
            Node::Empty { .. } => Seq::empty(),
            Node::External { boundary, data } => {
                if shape.spec_contains(boundary.start) && shape.spec_contains(boundary.end) {
                    data@.filter(accepted_by(filter))
                } else {
                    data@.filter(shape_match(shape, filter))
                }
            },
            Node::Internal { boundary, q0, q1, q2, q3 } => {
                if rects_intersect(boundary, shape_rect(shape)) {
                    (if rects_intersect(quarter_spec(boundary, 0), shape_rect(shape)) {
                        (*q0).query_spec(shape, filter)
                    } else {
                        Seq::empty()
                    }) + (if rects_intersect(quarter_spec(boundary, 1), shape_rect(shape)) {
                        (*q1).query_spec(shape, filter)
                    } else {
                        Seq::empty()
                    }) + (if rects_intersect(quarter_spec(boundary, 2), shape_rect(shape)) {
                        (*q2).query_spec(shape, filter)
                    } else {
                        Seq::empty()
                    }) + (if rects_intersect(quarter_spec(boundary, 3), shape_rect(shape)) {
                        (*q3).query_spec(shape, filter)
                    } else {
                        Seq::empty()
                    })
                } else {
                    Seq::empty()
                }
            },
        }
    }

    /// Depth-first query with pruning, appending matches to `results`.
    #[verifier::loop_isolation(false)]
    fn query<S: Shape, F: Filter<T>>(
        node: &Node<T>,
        shape: &S,
        filter: &F,
        results: &mut Vec<T>,
        Ghost(capacity): Ghost<int>,
    )
        requires
            node.wf(capacity),
            shape.spec_wf(),
        ensures
            final(results)@ == old(results)@ + node.query_spec(*shape, *filter),
        decreases rect_size(node.spec_boundary()),
    {
        proof {
            node.lemma_wf_rect(capacity);
        }
        match node {
            Node::Empty { .. } => {
                proof {
                    assert(results@ =~= old(results)@ + node.query_spec(*shape, *filter));
                }
            },
            Node::External { boundary, data } => {
                let ghost pre = results@;
                if shape.contains_rect(boundary) {
                    let mut idx: usize = 0;
                    while idx < data.len()
                        invariant
                            idx <= data@.len(),
                            results@ == pre + data@.take(idx as int).filter(
                                accepted_by::<T, F>(*filter),
                            ),
                        decreases data@.len() - idx,
                    {
                        proof {
                            assert(data@.take(idx as int + 1) =~= data@.take(idx as int).push(
                                data@[idx as int],
                            ));
                            lemma_filter_push(
                                data@.take(idx as int),
                                accepted_by::<T, F>(*filter),
                                data@[idx as int],
                            );
                        }
                        if filter.test(&data[idx]) {
                            results.push(data[idx]);
                        }
                        idx = idx + 1;
                    }
                    proof {
                        assert(data@.take(data@.len() as int) =~= data@);
                    }
                } else {
                    let mut idx: usize = 0;
                    while idx < data.len()
                        invariant
                            idx <= data@.len(),
                            results@ == pre + data@.take(idx as int).filter(
                                shape_match::<T, S, F>(*shape, *filter),
                            ),
                        decreases data@.len() - idx,
                    {
                        proof {
                            assert(data@.take(idx as int + 1) =~= data@.take(idx as int).push(
                                data@[idx as int],
                            ));
                            lemma_filter_push(
                                data@.take(idx as int),
                                shape_match::<T, S, F>(*shape, *filter),
                                data@[idx as int],
                            );
                        }
                        let p = data[idx].point();
                        if shape.contains(&p) && filter.test(&data[idx]) {
                            results.push(data[idx]);
                        }
                        idx = idx + 1;
                    }
                    proof {
                        assert(data@.take(data@.len() as int) =~= data@);
                    }
                }
            },
            Node::Internal { boundary, q0, q1, q2, q3 } => {
                proof {
                    lemma_quarter_wf(*boundary, 0);
                    lemma_quarter_wf(*boundary, 1);
                    lemma_quarter_wf(*boundary, 2);
                    lemma_quarter_wf(*boundary, 3);
                }
                let ghost pre = results@;
                let ghost s0 = if rects_intersect(quarter_spec(*boundary, 0), shape_rect(*shape)) {
                    (*q0).query_spec(*shape, *filter)
                } else {
                    Seq::<T>::empty()
                };
                let ghost s1 = if rects_intersect(quarter_spec(*boundary, 1), shape_rect(*shape)) {
                    (*q1).query_spec(*shape, *filter)
                } else {
                    Seq::<T>::empty()
                };
                let ghost s2 = if rects_intersect(quarter_spec(*boundary, 2), shape_rect(*shape)) {
                    (*q2).query_spec(*shape, *filter)
                } else {
                    Seq::<T>::empty()
                };
                let ghost s3 = if rects_intersect(quarter_spec(*boundary, 3), shape_rect(*shape)) {
                    (*q3).query_spec(*shape, *filter)
                } else {
                    Seq::<T>::empty()
                };
                let srect = shape.rect();
                if boundary.intersects(&srect) {
                    let qs = boundary.quarter();
                    if qs[0].intersects(&srect) {
                        Node::query(&*q0, shape, filter, results, Ghost(capacity));
                    }
                    proof {
                        assert(results@ =~= pre + s0);
                    }
                    if qs[1].intersects(&srect) {
                        Node::query(&*q1, shape, filter, results, Ghost(capacity));
                    }
                    proof {
                        assert(results@ =~= pre + s0 + s1);
                    }
                    if qs[2].intersects(&srect) {
                        Node::query(&*q2, shape, filter, results, Ghost(capacity));
                    }
                    proof {
                        assert(results@ =~= pre + s0 + s1 + s2);
                    }
                    if qs[3].intersects(&srect) {
                        Node::query(&*q3, shape, filter, results, Ghost(capacity));
                    }
                    proof {
                        assert(results@ =~= pre + s0 + s1 + s2 + s3);
                        assert(node.query_spec(*shape, *filter) == s0 + s1 + s2 + s3);
                        assert(pre + s0 + s1 + s2 + s3 =~= pre + (s0 + s1 + s2 + s3));
                    }
                } else {
                    proof {
                        assert(results@ =~= pre + node.query_spec(*shape, *filter));
                    }
                }
            },
        }
    }
}

/// Filtering a sequence whose items are routed to one quadrant keeps them
/// routed there.
proof fn lemma_routed_filter<T: Point + Copy>(
    s: Seq<T>,
    pred: spec_fn(T) -> bool,
    b: Rect,
    i: int,
)
    requires
        routed_to(s, b, i),
    ensures
        routed_to(s.filter(pred), b, i),
{
    crate::seq_facts::lemma_filter_elems(s, pred);
    assert forall|j: int| 0 <= j < s.filter(pred).len() implies quad_of(
        b,
        (#[trigger] s.filter(pred)[j]).pos(),
    ) == i by {
        let t = s.filter(pred)[j];
        let k = choose|k: int| 0 <= k < s.len() && s[k] == t;
        assert(quad_of(b, s[k].pos()) == i);
    }
}

/// Filtering a sequence of items contained in a rectangle keeps them inside.
proof fn lemma_contained_filter<T: Point + Copy>(s: Seq<T>, pred: spec_fn(T) -> bool, b: Rect)
    requires
        forall|j: int| 0 <= j < s.len() ==> rect_contains(b, (#[trigger] s[j]).pos()),
    ensures
        forall|j: int|
            0 <= j < s.filter(pred).len() ==> rect_contains(
                b,
                (#[trigger] s.filter(pred)[j]).pos(),
            ),
{
    crate::seq_facts::lemma_filter_elems(s, pred);
    assert forall|j: int| 0 <= j < s.filter(pred).len() implies rect_contains(
        b,
        (#[trigger] s.filter(pred)[j]).pos(),
    ) by {
        let t = s.filter(pred)[j];
        let k = choose|k: int| 0 <= k < s.len() && s[k] == t;
        assert(rect_contains(b, s[k].pos()));
    }
}

impl<T: Point + Copy> Node<T> {
    /// Remove every item that lies in the shape and passes the filter, moving
    /// the removed items into `results`; a node left without items collapses
    /// back to `Empty`, and the returned flag reports that collapse.
    #[verifier::loop_isolation(false)]
    fn pop<S: Shape, F: Filter<T>>(
        node: Node<T>,
        shape: &S,
        filter: &F,
        results: &mut Vec<T>,
        Ghost(capacity): Ghost<int>,
    ) -> (res: (Node<T>, bool))
        requires
            node.wf(capacity),
            shape.spec_wf(),
        ensures
            res.0.wf(capacity),
            res.0.spec_boundary() == node.spec_boundary(),
            res.0.items() == node.items().filter(shape_miss(*shape, *filter)),
            final(results)@ == old(results)@ + node.items().filter(shape_match(*shape, *filter)),
            res.1 == (res.0.items().len() == 0),
        decreases rect_size(node.spec_boundary()),
    {
        proof {
            node.lemma_wf_rect(capacity);
        }
        let ghost m = shape_match::<T, S, F>(*shape, *filter);
        let ghost miss = shape_miss::<T, S, F>(*shape, *filter);
        let srect = shape.rect();
        match node {
            Node::Empty { boundary } => {
                proof {
                    crate::seq_facts::lemma_filter_all_false(Seq::<T>::empty(), m);
                    crate::seq_facts::lemma_filter_all_false(Seq::<T>::empty(), miss);
                    assert(results@ =~= old(results)@ + Seq::<T>::empty());
                }
                (Node::Empty { boundary }, true)
            },
            Node::External { boundary, data } => {
                if !boundary.intersects(&srect) {
                    proof {
                        assert forall|j: int| 0 <= j < data@.len() implies !m(
                            #[trigger] data@[j],
                        ) by {
                            if m(data@[j]) {
                                shape.lemma_contains_in_bounds(data@[j].pos());
                                lemma_point_in_both_rects_intersect(
                                    boundary,
                                    shape_rect(*shape),
                                    data@[j].pos(),
                                );
                            }
                        }
                        crate::seq_facts::lemma_filter_all_false(data@, m);
                        lemma_filter_all_true(data@, miss);
                        assert(results@ =~= old(results)@ + Seq::<T>::empty());
                    }
                    (Node::External { boundary, data }, false)
                } else {
                    let ghost pre = results@;
                    let mut left: Vec<T> = Vec::new();
                    let mut idx: usize = 0;
                    while idx < data.len()
                        invariant
                            idx <= data@.len(),
                            results@ == pre + data@.take(idx as int).filter(m),
                            left@ == data@.take(idx as int).filter(miss),
                        decreases data@.len() - idx,
                    {
                        proof {
                            assert(data@.take(idx as int + 1) =~= data@.take(idx as int).push(
                                data@[idx as int],
                            ));
                            lemma_filter_push(data@.take(idx as int), m, data@[idx as int]);
                            lemma_filter_push(data@.take(idx as int), miss, data@[idx as int]);
                        }
                        let p = data[idx].point();
                        if shape.contains(&p) && filter.test(&data[idx]) {
                            results.push(data[idx]);
                        } else {
                            left.push(data[idx]);
                        }
                        idx = idx + 1;
                    }
                    proof {
                        assert(data@.take(data@.len() as int) =~= data@);
                        lemma_contained_filter(data@, miss, boundary);
                        data@.lemma_filter_len(miss);
                    }
                    if left.len() == 0 {
                        proof {
                            assert(left@ =~= Seq::<T>::empty());
                        }
                        (Node::Empty { boundary }, true)
                    } else {
                        (Node::External { boundary, data: left }, false)
                    }
                }
            },
            Node::Internal { boundary, q0, q1, q2, q3 } => {
                let ghost a = (*q0).items();
                let ghost b = (*q1).items();
                let ghost c = (*q2).items();
                let ghost d = (*q3).items();
                proof {
                    assert(node.items() == a + b + c + d);
                    Seq::filter_distributes_over_add(a, b, m);
                    Seq::filter_distributes_over_add(a + b, c, m);
                    Seq::filter_distributes_over_add(a + b + c, d, m);
                    Seq::filter_distributes_over_add(a, b, miss);
                    Seq::filter_distributes_over_add(a + b, c, miss);
                    Seq::filter_distributes_over_add(a + b + c, d, miss);
                }
                if boundary.intersects(&srect) {
                    let ghost pre = results@;
                    let (n0, e0) = Node::pop(*q0, shape, filter, results, Ghost(capacity));
                    let (n1, e1) = Node::pop(*q1, shape, filter, results, Ghost(capacity));
                    let (n2, e2) = Node::pop(*q2, shape, filter, results, Ghost(capacity));
                    let (n3, e3) = Node::pop(*q3, shape, filter, results, Ghost(capacity));
                    proof {
                        assert(results@ =~= pre + (a + b + c + d).filter(m));
                        lemma_routed_filter(a, miss, boundary, 0);
                        lemma_routed_filter(b, miss, boundary, 1);
                        lemma_routed_filter(c, miss, boundary, 2);
                        lemma_routed_filter(d, miss, boundary, 3);
                    }
                    if e0 && e1 && e2 && e3 {
                        proof {
                            assert((a + b + c + d).filter(miss) =~= Seq::<T>::empty());
                        }
                        (Node::Empty { boundary }, true)
                    } else {
                        let out = Node::Internal {
                            boundary,
                            q0: Box::new(n0),
                            q1: Box::new(n1),
                            q2: Box::new(n2),
                            q3: Box::new(n3),
                        };
                        proof {
                            assert(out.items() =~= (a + b + c + d).filter(miss));
                            assert(out.items().len() >= 1);
                        }
                        (out, false)
                    }
                } else {
                    proof {
                        node.lemma_items_in_boundary(capacity);
                        assert forall|j: int| 0 <= j < node.items().len() implies !m(
                            #[trigger] node.items()[j],
                        ) by {
                            if m(node.items()[j]) {
                                shape.lemma_contains_in_bounds(node.items()[j].pos());
                                lemma_point_in_both_rects_intersect(
                                    boundary,
                                    shape_rect(*shape),
                                    node.items()[j].pos(),
                                );
                            }
                        }
                        crate::seq_facts::lemma_filter_all_false(node.items(), m);
                        lemma_filter_all_true(node.items(), miss);
                        assert(results@ =~= old(results)@ + Seq::<T>::empty());
                    }
                    let out = Node::Internal { boundary, q0, q1, q2, q3 };
                    proof {
                        assert(out.items() == node.items());
                    }
                    (out, false)
                }
            },
        }
    }

    /// Remove every item that lies in the shape and passes the filter,
    /// counting the removed items; collapse and flag as `pop` does.
    #[verifier::loop_isolation(false)]
    fn delete<S: Shape, F: Filter<T>>(
        node: Node<T>,
        shape: &S,
        filter: &F,
        deleted: &mut usize,
        Ghost(capacity): Ghost<int>,
    ) -> (res: (Node<T>, bool))
        requires
            node.wf(capacity),
            shape.spec_wf(),
            *old(deleted) + node.items().len() <= usize::MAX,
        ensures
            res.0.wf(capacity),
            res.0.spec_boundary() == node.spec_boundary(),
            res.0.items() == node.items().filter(shape_miss(*shape, *filter)),
            *final(deleted) == *old(deleted) + node.items().filter(
                shape_match(*shape, *filter),
            ).len(),
            res.1 == (res.0.items().len() == 0),
        decreases rect_size(node.spec_boundary()),
    {
        proof {
            node.lemma_wf_rect(capacity);
        }
        let ghost m = shape_match::<T, S, F>(*shape, *filter);
        let ghost miss = shape_miss::<T, S, F>(*shape, *filter);
        proof {
            crate::seq_facts::lemma_filter_complement(node.items(), m, miss);
        }
        let srect = shape.rect();
        match node {
            Node::Empty { boundary } => {
                proof {
                    crate::seq_facts::lemma_filter_all_false(Seq::<T>::empty(), m);
                    crate::seq_facts::lemma_filter_all_false(Seq::<T>::empty(), miss);
                }
                (Node::Empty { boundary }, true)
            },
            Node::External { boundary, data } => {
                if !boundary.intersects(&srect) {
                    proof {
                        assert forall|j: int| 0 <= j < data@.len() implies !m(
                            #[trigger] data@[j],
                        ) by {
                            if m(data@[j]) {
                                shape.lemma_contains_in_bounds(data@[j].pos());
                                lemma_point_in_both_rects_intersect(
                                    boundary,
                                    shape_rect(*shape),
                                    data@[j].pos(),
                                );
                            }
                        }
                        crate::seq_facts::lemma_filter_all_false(data@, m);
                        lemma_filter_all_true(data@, miss);
                    }
                    (Node::External { boundary, data }, false)
                } else {
                    let ghost pre = *deleted;
                    let mut left: Vec<T> = Vec::new();
                    let mut idx: usize = 0;
                    while idx < data.len()
                        invariant
                            idx <= data@.len(),
                            *deleted == pre + data@.take(idx as int).filter(m).len(),
                            left@ == data@.take(idx as int).filter(miss),
                        decreases data@.len() - idx,
                    {
                        proof {
                            assert(data@.take(idx as int + 1) =~= data@.take(idx as int).push(
                                data@[idx as int],
                            ));
                            lemma_filter_push(data@.take(idx as int), m, data@[idx as int]);
                            lemma_filter_push(data@.take(idx as int), miss, data@[idx as int]);
                            data@.take(idx as int + 1).lemma_filter_len(m);
                            crate::seq_facts::lemma_filter_complement(
                                data@.take(idx as int + 1),
                                m,
                                miss,
                            );
                        }
                        let p = data[idx].point();
                        if shape.contains(&p) && filter.test(&data[idx]) {
                            *deleted = *deleted + 1;
                        } else {
                            left.push(data[idx]);
                        }
                        idx = idx + 1;
                    }
                    proof {
                        assert(data@.take(data@.len() as int) =~= data@);
                        lemma_contained_filter(data@, miss, boundary);
                        data@.lemma_filter_len(miss);
                    }
                    if left.len() == 0 {
                        proof {
                            assert(left@ =~= Seq::<T>::empty());
                        }
                        (Node::Empty { boundary }, true)
                    } else {
                        (Node::External { boundary, data: left }, false)
                    }
                }
            },
            Node::Internal { boundary, q0, q1, q2, q3 } => {
                let ghost a = (*q0).items();
                let ghost b = (*q1).items();
                let ghost c = (*q2).items();
                let ghost d = (*q3).items();
                proof {
                    assert(node.items() == a + b + c + d);
                    Seq::filter_distributes_over_add(a, b, m);
                    Seq::filter_distributes_over_add(a + b, c, m);
                    Seq::filter_distributes_over_add(a + b + c, d, m);
                    Seq::filter_distributes_over_add(a, b, miss);
                    Seq::filter_distributes_over_add(a + b, c, miss);
                    Seq::filter_distributes_over_add(a + b + c, d, miss);
                    a.lemma_filter_len(m);
                    b.lemma_filter_len(m);
                    c.lemma_filter_len(m);
                    d.lemma_filter_len(m);
                }
                if boundary.intersects(&srect) {
                    let ghost pre = *deleted;
                    let (n0, e0) = Node::delete(*q0, shape, filter, deleted, Ghost(capacity));
                    let (n1, e1) = Node::delete(*q1, shape, filter, deleted, Ghost(capacity));
                    let (n2, e2) = Node::delete(*q2, shape, filter, deleted, Ghost(capacity));
                    let (n3, e3) = Node::delete(*q3, shape, filter, deleted, Ghost(capacity));
                    proof {
                        assert(*deleted == pre + (a + b + c + d).filter(m).len());
                        lemma_routed_filter(a, miss, boundary, 0);
                        lemma_routed_filter(b, miss, boundary, 1);
                        lemma_routed_filter(c, miss, boundary, 2);
                        lemma_routed_filter(d, miss, boundary, 3);
                    }
                    if e0 && e1 && e2 && e3 {
                        proof {
                            assert((a + b + c + d).filter(miss) =~= Seq::<T>::empty());
                        }
                        (Node::Empty { boundary }, true)
                    } else {
                        let out = Node::Internal {
                            boundary,
                            q0: Box::new(n0),
                            q1: Box::new(n1),
                            q2: Box::new(n2),
                            q3: Box::new(n3),
                        };
                        proof {
                            assert(out.items() =~= (a + b + c + d).filter(miss));
                            assert(out.items().len() >= 1);
                        }
                        (out, false)
                    }
                } else {
                    proof {
                        node.lemma_items_in_boundary(capacity);
                        assert forall|j: int| 0 <= j < node.items().len() implies !m(
                            #[trigger] node.items()[j],
                        ) by {
                            if m(node.items()[j]) {
                                shape.lemma_contains_in_bounds(node.items()[j].pos());
                                lemma_point_in_both_rects_intersect(
                                    boundary,
                                    shape_rect(*shape),
                                    node.items()[j].pos(),
                                );
                            }
                        }
                        crate::seq_facts::lemma_filter_all_false(node.items(), m);
                        lemma_filter_all_true(node.items(), miss);
                    }
                    let out = Node::Internal { boundary, q0, q1, q2, q3 };
                    proof {
                        assert(out.items() == node.items());
                    }
                    (out, false)
                }
            },
        }
    }

    /// Depth-first query with pruning, appending references to the matching
    /// items to `results`; the identical traversal to `query`.
    #[verifier::loop_isolation(false)]
    fn query_ref<'a, S: Shape, F: Filter<T>>(
        node: &'a Node<T>,
        shape: &S,
        filter: &F,
        results: &mut Vec<&'a T>,
        Ghost(capacity): Ghost<int>,
    )
        requires
            node.wf(capacity),
            shape.spec_wf(),
        ensures
            final(results)@.map_values(|r: &T| *r) == old(results)@.map_values(|r: &T| *r)
                + node.query_spec(*shape, *filter),
        decreases rect_size(node.spec_boundary()),
    {
        proof {
            node.lemma_wf_rect(capacity);
        }
        match node {
            Node::Empty { .. } => {
                proof {
                    assert(results@.map_values(|r: &T| *r) =~= old(results)@.map_values(
                        |r: &T| *r,
                    ) + node.query_spec(*shape, *filter));
                }
            },
            Node::External { boundary, data } => {
                let ghost pre = results@.map_values(|r: &T| *r);
                if shape.contains_rect(boundary) {
                    let mut idx: usize = 0;
                    while idx < data.len()
                        invariant
                            idx <= data@.len(),
                            results@.map_values(|r: &T| *r) == pre + data@.take(
                                idx as int,
                            ).filter(accepted_by::<T, F>(*filter)),
                        decreases data@.len() - idx,
                    {
                        proof {
                            assert(data@.take(idx as int + 1) =~= data@.take(idx as int).push(
                                data@[idx as int],
                            ));
                            lemma_filter_push(
                                data@.take(idx as int),
                                accepted_by::<T, F>(*filter),
                                data@[idx as int],
                            );
                        }
                        if filter.test(&data[idx]) {
                            let ghost oldrefs = results@;
                            results.push(&data[idx]);
                            proof {
                                assert(results@.map_values(|r: &T| *r) =~= oldrefs.map_values(
                                    |r: &T| *r,
                                ).push(data@[idx as int]));
                            }
                        }
                        idx = idx + 1;
                    }
                    proof {
                        assert(data@.take(data@.len() as int) =~= data@);
                    }
                } else {
                    let mut idx: usize = 0;
                    while idx < data.len()
                        invariant
                            idx <= data@.len(),
                            results@.map_values(|r: &T| *r) == pre + data@.take(
                                idx as int,
                            ).filter(shape_match::<T, S, F>(*shape, *filter)),
                        decreases data@.len() - idx,
                    {
                        proof {
                            assert(data@.take(idx as int + 1) =~= data@.take(idx as int).push(
                                data@[idx as int],
                            ));
                            lemma_filter_push(
                                data@.take(idx as int),
                                shape_match::<T, S, F>(*shape, *filter),
                                data@[idx as int],
                            );
                        }
                        let p = data[idx].point();
                        if shape.contains(&p) && filter.test(&data[idx]) {
                            let ghost oldrefs = results@;
                            results.push(&data[idx]);
                            proof {
                                assert(results@.map_values(|r: &T| *r) =~= oldrefs.map_values(
                                    |r: &T| *r,
                                ).push(data@[idx as int]));
                            }
                        }
                        idx = idx + 1;
                    }
                    proof {
                        assert(data@.take(data@.len() as int) =~= data@);
                    }
                }
            },
            Node::Internal { boundary, q0, q1, q2, q3 } => {
                proof {
                    lemma_quarter_wf(*boundary, 0);
                    lemma_quarter_wf(*boundary, 1);
                    lemma_quarter_wf(*boundary, 2);
                    lemma_quarter_wf(*boundary, 3);
                }
                let ghost pre = results@.map_values(|r: &T| *r);
                let ghost s0 = if rects_intersect(quarter_spec(*boundary, 0), shape_rect(*shape)) {
                    (*q0).query_spec(*shape, *filter)
                } else {
                    Seq::<T>::empty()
                };
                let ghost s1 = if rects_intersect(quarter_spec(*boundary, 1), shape_rect(*shape)) {
                    (*q1).query_spec(*shape, *filter)
                } else {
                    Seq::<T>::empty()
                };
                let ghost s2 = if rects_intersect(quarter_spec(*boundary, 2), shape_rect(*shape)) {
                    (*q2).query_spec(*shape, *filter)
                } else {
                    Seq::<T>::empty()
                };
                let ghost s3 = if rects_intersect(quarter_spec(*boundary, 3), shape_rect(*shape)) {
                    (*q3).query_spec(*shape, *filter)
                } else {
                    Seq::<T>::empty()
                };
                let srect = shape.rect();
                if boundary.intersects(&srect) {
                    let qs = boundary.quarter();
                    if qs[0].intersects(&srect) {
                        Node::query_ref(&*q0, shape, filter, results, Ghost(capacity));
                    }
                    proof {
                        assert(results@.map_values(|r: &T| *r) =~= pre + s0);
                    }
                    if qs[1].intersects(&srect) {
                        Node::query_ref(&*q1, shape, filter, results, Ghost(capacity));
                    }
                    proof {
                        assert(results@.map_values(|r: &T| *r) =~= pre + s0 + s1);
                    }
                    if qs[2].intersects(&srect) {
                        Node::query_ref(&*q2, shape, filter, results, Ghost(capacity));
                    }
                    proof {
                        assert(results@.map_values(|r: &T| *r) =~= pre + s0 + s1 + s2);
                    }
                    if qs[3].intersects(&srect) {
                        Node::query_ref(&*q3, shape, filter, results, Ghost(capacity));
                    }
                    proof {
                        assert(results@.map_values(|r: &T| *r) =~= pre + s0 + s1 + s2 + s3);
                        assert(node.query_spec(*shape, *filter) == s0 + s1 + s2 + s3);
                        assert(pre + s0 + s1 + s2 + s3 =~= pre + (s0 + s1 + s2 + s3));
                    }
                } else {
                    proof {
                        assert(results@.map_values(|r: &T| *r) =~= pre + node.query_spec(
                            *shape,
                            *filter,
                        ));
                    }
                }
            },
        }
    }

    /// A query result never misses a stored item that lies in the shape and
    /// passes the filter; pruning only ever skips subtrees without matches.
    proof fn lemma_query_spec_complete<S: Shape, F: Filter<T>>(
        self,
        shape: S,
        filter: F,
        capacity: int,
    )
        requires
            self.wf(capacity),
            shape.spec_wf(),
        ensures
            forall|j: int|
                0 <= j < self.items().len() && shape.spec_contains(
                    (#[trigger] self.items()[j]).pos(),
                ) && filter.accepts(self.items()[j]) ==> self.query_spec(shape, filter).contains(
                    self.items()[j],
                ),
        decreases self,
    {
        match self {
            Node::Empty { .. } => {},
            Node::External { boundary, data } => {
                assert forall|j: int|
                    0 <= j < self.items().len() && shape.spec_contains(
                        (#[trigger] self.items()[j]).pos(),
                    ) && filter.accepts(self.items()[j]) implies self.query_spec(
                    shape,
                    filter,
                ).contains(self.items()[j]) by {
                    if shape.spec_contains(boundary.start) && shape.spec_contains(boundary.end) {
                        data@.lemma_filter_contains(accepted_by(filter), j);
                    } else {
                        data@.lemma_filter_contains(shape_match(shape, filter), j);
                    }
                }
            },
            Node::Internal { boundary, q0, q1, q2, q3 } => {
                (*q0).lemma_query_spec_complete(shape, filter, capacity);
                (*q1).lemma_query_spec_complete(shape, filter, capacity);
                (*q2).lemma_query_spec_complete(shape, filter, capacity);
                (*q3).lemma_query_spec_complete(shape, filter, capacity);
                let a = (*q0).items();
                let b = (*q1).items();
                let c = (*q2).items();
                let d = (*q3).items();
                assert forall|j: int|
                    0 <= j < self.items().len() && shape.spec_contains(
                        (#[trigger] self.items()[j]).pos(),
                    ) && filter.accepts(self.items()[j]) implies self.query_spec(
                    shape,
                    filter,
                ).contains(self.items()[j]) by {
                    let t = self.items()[j];
                    shape.lemma_contains_in_bounds(t.pos());
                    assert(rect_contains(shape_rect(shape), t.pos()));
                    let s0 = if rects_intersect(quarter_spec(boundary, 0), shape_rect(shape)) {
                        (*q0).query_spec(shape, filter)
                    } else {
                        Seq::<T>::empty()
                    };
                    let s1 = if rects_intersect(quarter_spec(boundary, 1), shape_rect(shape)) {
                        (*q1).query_spec(shape, filter)
                    } else {
                        Seq::<T>::empty()
                    };
                    let s2 = if rects_intersect(quarter_spec(boundary, 2), shape_rect(shape)) {
                        (*q2).query_spec(shape, filter)
                    } else {
                        Seq::<T>::empty()
                    };
                    let s3 = if rects_intersect(quarter_spec(boundary, 3), shape_rect(shape)) {
                        (*q3).query_spec(shape, filter)
                    } else {
                        Seq::<T>::empty()
                    };
                    if j < a.len() {
                        assert(t == a[j]);
                        assert(rect_contains(quarter_spec(boundary, 0), t.pos()));
                        lemma_point_in_both_rects_intersect(
                            quarter_spec(boundary, 0),
                            shape_rect(shape),
                            t.pos(),
                        );
                        lemma_quarter_wf(boundary, 0);
                        lemma_point_in_both_rects_intersect(boundary, shape_rect(shape), t.pos());
                        assert(s0.contains(t));
                        let k = choose|k: int| 0 <= k < s0.len() && s0[k] == t;
                        assert((s0 + s1 + s2 + s3)[k] == t);
                    } else if j < a.len() + b.len() {
                        assert(t == b[j - a.len()]);
                        assert(rect_contains(quarter_spec(boundary, 1), t.pos()));
                        lemma_point_in_both_rects_intersect(
                            quarter_spec(boundary, 1),
                            shape_rect(shape),
                            t.pos(),
                        );
                        lemma_quarter_wf(boundary, 1);
                        lemma_point_in_both_rects_intersect(boundary, shape_rect(shape), t.pos());
                        assert(s1.contains(t));
                        let k = choose|k: int| 0 <= k < s1.len() && s1[k] == t;
                        assert((s0 + s1 + s2 + s3)[s0.len() + k] == t);
                    } else if j < a.len() + b.len() + c.len() {
                        assert(t == c[j - a.len() - b.len()]);
                        assert(rect_contains(quarter_spec(boundary, 2), t.pos()));
                        lemma_point_in_both_rects_intersect(
                            quarter_spec(boundary, 2),
                            shape_rect(shape),
                            t.pos(),
                        );
                        lemma_quarter_wf(boundary, 2);
                        lemma_point_in_both_rects_intersect(boundary, shape_rect(shape), t.pos());
                        assert(s2.contains(t));
                        let k = choose|k: int| 0 <= k < s2.len() && s2[k] == t;
                        assert((s0 + s1 + s2 + s3)[s0.len() + s1.len() + k] == t);
                    } else {
                        assert(t == d[j - a.len() - b.len() - c.len()]);
                        assert(rect_contains(quarter_spec(boundary, 3), t.pos()));
                        lemma_point_in_both_rects_intersect(
                            quarter_spec(boundary, 3),
                            shape_rect(shape),
                            t.pos(),
                        );
                        lemma_quarter_wf(boundary, 3);
                        lemma_point_in_both_rects_intersect(boundary, shape_rect(shape), t.pos());
                        assert(s3.contains(t));
                        let k = choose|k: int| 0 <= k < s3.len() && s3[k] == t;
                        assert((s0 + s1 + s2 + s3)[s0.len() + s1.len() + s2.len() + k] == t);
                    }
                }
            },
        }
    }

    /// Every item of a query result is stored in the subtree and passes the
    /// filter.
    proof fn lemma_query_spec_elems<S: Shape, F: Filter<T>>(
        self,
        shape: S,
        filter: F,
        capacity: int,
    )
        requires
            self.wf(capacity),
            shape.spec_wf(),
        ensures
            forall|j: int|
                0 <= j < self.query_spec(shape, filter).len() ==> self.items().contains(
                    #[trigger] self.query_spec(shape, filter)[j],
                ) && filter.accepts(self.query_spec(shape, filter)[j]),
        decreases self,
    {
        match self {
            Node::Empty { .. } => {},
            Node::External { boundary, data } => {
                assert forall|j: int| 0 <= j < self.query_spec(shape, filter).len() implies self
                    .items().contains(#[trigger] self.query_spec(shape, filter)[j])
                    && filter.accepts(self.query_spec(shape, filter)[j]) by {
                    let t = self.query_spec(shape, filter)[j];
                    if shape.spec_contains(boundary.start) && shape.spec_contains(boundary.end) {
                        data@.lemma_filter_pred(accepted_by(filter), j);
                        assert(data@.filter(accepted_by(filter)).contains(t));
                        data@.lemma_filter_contains_rev(accepted_by(filter), t);
                    } else {
                        data@.lemma_filter_pred(shape_match(shape, filter), j);
                        assert(data@.filter(shape_match(shape, filter)).contains(t));
                        data@.lemma_filter_contains_rev(shape_match(shape, filter), t);
                    }
                }
            },
            Node::Internal { boundary, q0, q1, q2, q3 } => {
                (*q0).lemma_query_spec_elems(shape, filter, capacity);
                (*q1).lemma_query_spec_elems(shape, filter, capacity);
                (*q2).lemma_query_spec_elems(shape, filter, capacity);
                (*q3).lemma_query_spec_elems(shape, filter, capacity);
                let a = (*q0).items();
                let b = (*q1).items();
                let c = (*q2).items();
                let d = (*q3).items();
                assert forall|j: int| 0 <= j < self.query_spec(shape, filter).len() implies self
                    .items().contains(#[trigger] self.query_spec(shape, filter)[j])
                    && filter.accepts(self.query_spec(shape, filter)[j]) by {
                    if rects_intersect(boundary, shape_rect(shape)) {
                        let s0 = if rects_intersect(quarter_spec(boundary, 0), shape_rect(shape)) {
                            (*q0).query_spec(shape, filter)
                        } else {
                            Seq::<T>::empty()
                        };
                        let s1 = if rects_intersect(quarter_spec(boundary, 1), shape_rect(shape)) {
                            (*q1).query_spec(shape, filter)
                        } else {
                            Seq::<T>::empty()
                        };
                        let s2 = if rects_intersect(quarter_spec(boundary, 2), shape_rect(shape)) {
                            (*q2).query_spec(shape, filter)
                        } else {
                            Seq::<T>::empty()
                        };
                        let s3 = if rects_intersect(quarter_spec(boundary, 3), shape_rect(shape)) {
                            (*q3).query_spec(shape, filter)
                        } else {
                            Seq::<T>::empty()
                        };
                        let t = self.query_spec(shape, filter)[j];
                        assert(self.query_spec(shape, filter) == s0 + s1 + s2 + s3);
                        if j < s0.len() {
                            assert(s0[j] == t);
                            assert(a.contains(t));
                            let k = choose|k: int| 0 <= k < a.len() && a[k] == t;
                            assert(self.items()[k] == t);
                        } else if j < s0.len() + s1.len() {
                            assert(s1[j - s0.len()] == t);
                            assert(b.contains(t));
                            let k = choose|k: int| 0 <= k < b.len() && b[k] == t;
                            assert(self.items()[a.len() + k] == t);
                        } else if j < s0.len() + s1.len() + s2.len() {
                            assert(s2[j - s0.len() - s1.len()] == t);
                            assert(c.contains(t));
                            let k = choose|k: int| 0 <= k < c.len() && c[k] == t;
                            assert(self.items()[a.len() + b.len() + k] == t);
                        } else {
                            assert(s3[j - s0.len() - s1.len() - s2.len()] == t);
                            assert(d.contains(t));
                            let k = choose|k: int| 0 <= k < d.len() && d[k] == t;
                            assert(self.items()[a.len() + b.len() + c.len() + k] == t);
                        }
                    }
                }
            },
        }
    }

    /// A subtree routed to a quadrant that misses the shape's bounding
    /// rectangle holds no item that the shape contains.
    proof fn lemma_child_filter_empty<S: Shape, F: Filter<T>>(
        s: Seq<T>,
        boundary: Rect,
        i: int,
        shape: S,
        filter: F,
    )
        requires
            shape.spec_wf(),
            0 <= i < 4,
            routed_to(s, boundary, i),
            !rects_intersect(quarter_spec(boundary, i), shape_rect(shape)),
        ensures
            s.filter(shape_match(shape, filter)) == Seq::<T>::empty(),
    {
        let m = shape_match::<T, S, F>(shape, filter);
        assert forall|j: int| 0 <= j < s.len() implies !m(#[trigger] s[j]) by {
            if m(s[j]) {
                shape.lemma_contains_in_bounds(s[j].pos());
                assert(rect_contains(quarter_spec(boundary, i), s[j].pos()));
                lemma_point_in_both_rects_intersect(
                    quarter_spec(boundary, i),
                    shape_rect(shape),
                    s[j].pos(),
                );
            }
        }
        crate::seq_facts::lemma_filter_all_false(s, m);
    }

    /// For corner-exact shapes the pruned, fast-path traversal returns exactly
    /// the stored items that lie in the shape and pass the filter, in storage
    /// order.
    proof fn lemma_query_spec_exact<S: Shape, F: Filter<T>>(
        self,
        shape: S,
        filter: F,
        capacity: int,
    )
        requires
            self.wf(capacity),
            shape.spec_wf(),
            shape.spec_corner_exact(),
        ensures
            self.query_spec(shape, filter) == self.items().filter(shape_match(shape, filter)),
        decreases self,
    {
        match self {
            Node::Empty { .. } => {
                crate::seq_facts::lemma_filter_all_false(
                    Seq::<T>::empty(),
                    shape_match(shape, filter),
                );
            },
            Node::External { boundary, data } => {
                if shape.spec_contains(boundary.start) && shape.spec_contains(boundary.end) {
                    assert forall|j: int| 0 <= j < data@.len() implies accepted_by(filter)(
                        #[trigger] data@[j],
                    ) == shape_match(shape, filter)(data@[j]) by {
                        shape.lemma_corner_exact(boundary, data@[j].pos());
                    }
                    crate::seq_facts::lemma_filter_equiv(
                        data@,
                        accepted_by(filter),
                        shape_match(shape, filter),
                    );
                }
            },
            Node::Internal { boundary, q0, q1, q2, q3 } => {
                (*q0).lemma_query_spec_exact(shape, filter, capacity);
                (*q1).lemma_query_spec_exact(shape, filter, capacity);
                (*q2).lemma_query_spec_exact(shape, filter, capacity);
                (*q3).lemma_query_spec_exact(shape, filter, capacity);
                let a = (*q0).items();
                let b = (*q1).items();
                let c = (*q2).items();
                let d = (*q3).items();
                let m = shape_match::<T, S, F>(shape, filter);
                Seq::filter_distributes_over_add(a, b, m);
                Seq::filter_distributes_over_add(a + b, c, m);
                Seq::filter_distributes_over_add(a + b + c, d, m);
                if !rects_intersect(quarter_spec(boundary, 0), shape_rect(shape)) {
                    Self::lemma_child_filter_empty(a, boundary, 0, shape, filter);
                }
                if !rects_intersect(quarter_spec(boundary, 1), shape_rect(shape)) {
                    Self::lemma_child_filter_empty(b, boundary, 1, shape, filter);
                }
                if !rects_intersect(quarter_spec(boundary, 2), shape_rect(shape)) {
                    Self::lemma_child_filter_empty(c, boundary, 2, shape, filter);
                }
                if !rects_intersect(quarter_spec(boundary, 3), shape_rect(shape)) {
                    Self::lemma_child_filter_empty(d, boundary, 3, shape, filter);
                }
                if rects_intersect(boundary, shape_rect(shape)) {
                    assert(self.query_spec(shape, filter) =~= self.items().filter(m));
                } else {
                    assert forall|j: int| 0 <= j < self.items().len() implies !m(
                        #[trigger] self.items()[j],
                    ) by {
                        if m(self.items()[j]) {
                            let t = self.items()[j];
                            self.lemma_items_in_boundary(capacity);
                            shape.lemma_contains_in_bounds(t.pos());
                            lemma_point_in_both_rects_intersect(
                                boundary,
                                shape_rect(shape),
                                t.pos(),
                            );
                        }
                    }
                    crate::seq_facts::lemma_filter_all_false(self.items(), m);
                }
            },
        }
    }
}

/// A quadtree for spatial indexing of 2D points.
pub struct QuadTree<T> {
    root: Node<T>,
    node_capacity: usize,
    count: usize,
}

impl<T: Point + Copy> View for QuadTree<T> {
    type V = Seq<T>;

    closed spec fn view(&self) -> Seq<T> {
        self.root.items()
    }
}

impl<T: Point + Copy> QuadTree<T> {
    /// Well-formedness of the tree: the root subtree is well formed for the
    /// configured capacity, and the item counter matches the stored items.
    pub closed spec fn wf(self) -> bool {
        &&& self.root.wf(self.node_capacity as int)
        &&& self.node_capacity >= 1
        &&& self.count == self.root.items().len()
    }

    /// The boundary rectangle of the tree.
    pub closed spec fn spec_boundary(self) -> Rect {
        self.root.spec_boundary()
    }

    /// The configured number of items a leaf may hold before subdividing.
    pub closed spec fn spec_capacity(self) -> int {
        self.node_capacity as int
    }

    /// Create a new empty quadtree.
    ///
    /// ## Arguments
    /// - `boundary`: The boundary of the quadtree
    /// - `node_capacity`: The maximum number of items a node can hold before subdividing
    pub fn new(boundary: Rect, node_capacity: usize) -> (qt: Self)
        requires
            rect_wf(boundary),
            node_capacity >= 1,
        ensures
            qt.wf(),
            qt@ == Seq::<T>::empty(),
            qt.spec_boundary() == boundary,
            qt.spec_capacity() == node_capacity,
    {
        QuadTree { root: Node::Empty { boundary }, node_capacity, count: 0 }
    }

    /// Get current number of items stored.
    pub fn count(&self) -> (c: usize)
        requires
            self.wf(),
        ensures
            c == self@.len(),
    {
        self.count
    }

    /// Get the boundary rect of the quadtree.
    pub fn boundary(&self) -> (r: Rect)
        ensures
            r == self.spec_boundary(),
    {
        self.root.boundary()
    }

    /// Insert an item into the quadtree.
    ///
    /// **Returns** a boolean value indicating if the item was inserted
    /// successfully; the insert fails exactly when the item's position lies
    /// outside the tree's boundary, and then the tree is unchanged.
    pub fn insert(&mut self, item: &T) -> (ok: bool)
        requires
            old(self).wf(),
            old(self)@.len() < usize::MAX,
        ensures
            final(self).wf(),
            final(self).spec_boundary() == old(self).spec_boundary(),
            final(self).spec_capacity() == old(self).spec_capacity(),
            ok == rect_contains(old(self).spec_boundary(), item.pos()),
            ok ==> final(self)@.to_multiset() == old(self)@.to_multiset().insert(*item),
            !ok ==> final(self)@ == old(self)@,
            final(self)@.len() == old(self)@.len() + (if ok {
                1int
            } else {
                0int
            }),
    {
        let boundary = self.root.boundary();
        let mut root = Node::Empty { boundary };
        proof {
            old(self).root.lemma_wf_rect(old(self).node_capacity as int);
        }
        core::mem::swap(&mut root, &mut self.root);
        let (newroot, ok) = Node::insert(root, *item, self.node_capacity);
        self.root = newroot;
        if ok {
            self.count = self.count + 1;
        }
        ok
    }

    /// Insert multiple items into the quadtree.
    ///
    /// **Returns** a vector of the items that failed to insert because their
    /// position lies outside the tree's boundary, if any; all other items are
    /// stored.
    pub fn insert_many(&mut self, items: &[T]) -> (failed: Vec<T>)
        requires
            old(self).wf(),
            old(self)@.len() + items@.len() <= usize::MAX,
        ensures
            final(self).wf(),
            final(self).spec_boundary() == old(self).spec_boundary(),
            final(self).spec_capacity() == old(self).spec_capacity(),
            failed@ == items@.filter(outside_boundary(old(self).spec_boundary())),
            final(self)@.to_multiset() == old(self)@.to_multiset().add(
                items@.filter(in_boundary(old(self).spec_boundary())).to_multiset(),
            ),
            final(self)@.len() == old(self)@.len() + items@.filter(
                in_boundary(old(self).spec_boundary()),
            ).len(),
    {
        let ghost b = self.spec_boundary();
        let boundary = self.root.boundary();
        proof {
            old(self).root.lemma_wf_rect(old(self).node_capacity as int);
        }
        let mut valid: Vec<T> = Vec::new();
        let mut failed: Vec<T> = Vec::new();
        let mut idx: usize = 0;
        while idx < items.len()
            invariant
                idx <= items@.len(),
                rect_wf(b),
                boundary == b,
                valid@ == items@.take(idx as int).filter(in_boundary::<T>(b)),
                failed@ == items@.take(idx as int).filter(outside_boundary::<T>(b)),
            decreases items@.len() - idx,
        {
            let it = items[idx];
            proof {
                assert(items@.take(idx as int + 1) =~= items@.take(idx as int).push(it));
                lemma_filter_push(items@.take(idx as int), in_boundary::<T>(b), it);
                lemma_filter_push(items@.take(idx as int), outside_boundary::<T>(b), it);
            }
            let p = it.point();
            if boundary.start.x <= p.x && p.x <= boundary.end.x && boundary.start.y <= p.y && p.y
                <= boundary.end.y {
                valid.push(it);
            } else {
                failed.push(it);
            }
            idx = idx + 1;
        }
        proof {
            assert(items@.take(items@.len() as int) =~= items@);
            items@.lemma_filter_len(in_boundary::<T>(b));
            assert forall|j: int| 0 <= j < valid@.len() implies rect_contains(
                b,
                (#[trigger] valid@[j]).pos(),
            ) by {
                items@.lemma_filter_pred(in_boundary::<T>(b), j);
            }
            lemma_split_in_out::<T>(items@, b);
        }
        if valid.len() > 0 {
            let mut root = Node::Empty { boundary };
            core::mem::swap(&mut root, &mut self.root);
            let newroot = Node::insert_many(root, valid, self.node_capacity);
            self.root = newroot;
            self.count = self.count + (items.len() - failed.len());
        } else {
            proof {
                lemma_to_multiset_empty::<T>();
                assert(valid@ =~= Seq::<T>::empty());
                assert(old(self)@.to_multiset().add(valid@.to_multiset()) =~= old(
                    self,
                )@.to_multiset());
            }
        }
        failed
    }

    /// Get an item by its exact position.
    ///
    /// **Returns** an `Option` containing an item with that position if one
    /// is stored, and `None` if no stored item lies exactly there.
    pub fn get(&self, point: &Pt) -> (r: Option<T>)
        requires
            self.wf(),
        ensures
            match r {
                Some(t) => t.pos() == *point && self@.contains(t),
                None => forall|j: int|
                    0 <= j < self@.len() ==> (#[trigger] self@[j]).pos() != *point,
            },
    {
        Node::get(&self.root, point, Ghost(self.node_capacity as int))
    }

    /// What a query with the given shape and filter returns.
    pub closed spec fn query_items<S: Shape, F: Filter<T>>(self, shape: S, filter: F) -> Seq<T> {
        self.root.query_spec(shape, filter)
    }

    /// Query for items within a specified shape area.
    ///
    /// **Returns** a vector of items. For corner-exact shapes these are
    /// exactly the stored items the shape contains, in storage order; for
    /// any shape, no stored item within the shape is missed, and only stored
    /// items are returned.
    pub fn query<S: Shape>(&self, shape: &S) -> (results: Vec<T>)
        requires
            self.wf(),
            shape.spec_wf(),
        ensures
            results@ == self.query_items(*shape, AcceptAll),
            shape.spec_corner_exact() ==> results@ == self@.filter(in_shape(*shape)),
            forall|j: int|
                0 <= j < self@.len() && shape.spec_contains((#[trigger] self@[j]).pos())
                    ==> results@.contains(self@[j]),
            forall|j: int| 0 <= j < results@.len() ==> self@.contains(#[trigger] results@[j]),
    {
        let mut results: Vec<T> = Vec::new();
        let filter = AcceptAll;
        Node::query(&self.root, shape, &filter, &mut results, Ghost(self.node_capacity as int));
        proof {
            assert(results@ =~= self.root.query_spec(*shape, AcceptAll));
            self.root.lemma_query_spec_complete(*shape, AcceptAll, self.node_capacity as int);
            self.root.lemma_query_spec_elems(*shape, AcceptAll, self.node_capacity as int);
            if shape.spec_corner_exact() {
                self.root.lemma_query_spec_exact(*shape, AcceptAll, self.node_capacity as int);
                crate::seq_facts::lemma_filter_equiv(
                    self@,
                    shape_match::<T, S, AcceptAll>(*shape, AcceptAll),
                    in_shape::<T, S>(*shape),
                );
            }
        }
        results
    }

    /// Query for items within a specified shape area that pass a filter.
    ///
    /// **Returns** a vector of items, as `query` does, narrowed to the items
    /// the filter accepts.
    pub fn query_filter<S: Shape, F: Filter<T>>(&self, shape: &S, filter: F) -> (results: Vec<T>)
        requires
            self.wf(),
            shape.spec_wf(),
        ensures
            results@ == self.query_items(*shape, filter),
            shape.spec_corner_exact() ==> results@ == self@.filter(shape_match(*shape, filter)),
            forall|j: int|
                0 <= j < self@.len() && shape.spec_contains((#[trigger] self@[j]).pos())
                    && filter.accepts(self@[j]) ==> results@.contains(self@[j]),
            forall|j: int|
                0 <= j < results@.len() ==> self@.contains(#[trigger] results@[j])
                    && filter.accepts(results@[j]),
    {
        let mut results: Vec<T> = Vec::new();
        Node::query(&self.root, shape, &filter, &mut results, Ghost(self.node_capacity as int));
        proof {
            assert(results@ =~= self.root.query_spec(*shape, filter));
            self.root.lemma_query_spec_complete(*shape, filter, self.node_capacity as int);
            self.root.lemma_query_spec_elems(*shape, filter, self.node_capacity as int);
            if shape.spec_corner_exact() {
                self.root.lemma_query_spec_exact(*shape, filter, self.node_capacity as int);
            }
        }
        results
    }

    /// Query for items within a specified shape area.
    ///
    /// **Returns** a vector of immutable references to items; the referenced
    /// items are those that `query` returns, in the same order.
    pub fn query_ref<'a, S: Shape>(&'a self, shape: &S) -> (results: Vec<&'a T>)
        requires
            self.wf(),
            shape.spec_wf(),
        ensures
            results@.map_values(|r: &T| *r) == self.query_items(*shape, AcceptAll),
            shape.spec_corner_exact() ==> results@.map_values(|r: &T| *r) == self@.filter(
                in_shape(*shape),
            ),
    {
        let mut results: Vec<&T> = Vec::new();
        let filter = AcceptAll;
        Node::query_ref(
            &self.root,
            shape,
            &filter,
            &mut results,
            Ghost(self.node_capacity as int),
        );
        proof {
            assert(Seq::<&T>::empty().map_values(|r: &T| *r) =~= Seq::<T>::empty());
            assert(results@.map_values(|r: &T| *r) =~= self.root.query_spec(*shape, AcceptAll));
            if shape.spec_corner_exact() {
                self.root.lemma_query_spec_exact(*shape, AcceptAll, self.node_capacity as int);
                crate::seq_facts::lemma_filter_equiv(
                    self@,
                    shape_match::<T, S, AcceptAll>(*shape, AcceptAll),
                    in_shape::<T, S>(*shape),
                );
            }
        }
        results
    }

    /// Query for items within a specified shape area that pass a filter.
    ///
    /// **Returns** a vector of immutable references to items; the referenced
    /// items are those that `query_filter` returns, in the same order.
    pub fn query_ref_filter<'a, S: Shape, F: Filter<T>>(&'a self, shape: &S, filter: F) -> (results:
        Vec<&'a T>)
        requires
            self.wf(),
            shape.spec_wf(),
        ensures
            results@.map_values(|r: &T| *r) == self.query_items(*shape, filter),
            shape.spec_corner_exact() ==> results@.map_values(|r: &T| *r) == self@.filter(
                shape_match(*shape, filter),
            ),
    {
        let mut results: Vec<&T> = Vec::new();
        Node::query_ref(
            &self.root,
            shape,
            &filter,
            &mut results,
            Ghost(self.node_capacity as int),
        );
        proof {
            assert(Seq::<&T>::empty().map_values(|r: &T| *r) =~= Seq::<T>::empty());
            assert(results@.map_values(|r: &T| *r) =~= self.root.query_spec(*shape, filter));
            if shape.spec_corner_exact() {
                self.root.lemma_query_spec_exact(*shape, filter, self.node_capacity as int);
            }
        }
        results
    }

    /// Delete items that are within a specified shape area.
    ///
    /// **Returns** the number of items that were deleted; exactly the stored
    /// items the shape contains are removed, and the rest keep their order.
    pub fn delete<S: Shape>(&mut self, shape: &S) -> (deleted: usize)
        requires
            old(self).wf(),
            shape.spec_wf(),
        ensures
            final(self).wf(),
            final(self).spec_boundary() == old(self).spec_boundary(),
            final(self).spec_capacity() == old(self).spec_capacity(),
            final(self)@ == old(self)@.filter(outside_shape(*shape)),
            deleted == old(self)@.filter(in_shape(*shape)).len(),
            final(self)@.len() + deleted == old(self)@.len(),
    {
        let boundary = self.root.boundary();
        proof {
            old(self).root.lemma_wf_rect(old(self).node_capacity as int);
            crate::seq_facts::lemma_filter_equiv(
                self@,
                shape_match::<T, S, AcceptAll>(*shape, AcceptAll),
                in_shape::<T, S>(*shape),
            );
            crate::seq_facts::lemma_filter_equiv(
                self@,
                shape_miss::<T, S, AcceptAll>(*shape, AcceptAll),
                outside_shape::<T, S>(*shape),
            );
            crate::seq_facts::lemma_filter_complement(
                self@,
                in_shape::<T, S>(*shape),
                outside_shape::<T, S>(*shape),
            );
        }
        let mut root = Node::Empty { boundary };
        core::mem::swap(&mut root, &mut self.root);
        let mut deleted: usize = 0;
        let filter = AcceptAll;
        let (newroot, _) = Node::delete(
            root,
            shape,
            &filter,
            &mut deleted,
            Ghost(self.node_capacity as int),
        );
        self.root = newroot;
        self.count = self.count - deleted;
        deleted
    }

    /// Delete items that are within a specified shape area and pass a filter.
    ///
    /// **Returns** the number of items that were deleted; exactly the stored
    /// items that the shape contains and the filter accepts are removed.
    pub fn delete_filter<S: Shape, F: Filter<T>>(&mut self, shape: &S, filter: F) -> (deleted:
        usize)
        requires
            old(self).wf(),
            shape.spec_wf(),
        ensures
            final(self).wf(),
            final(self).spec_boundary() == old(self).spec_boundary(),
            final(self).spec_capacity() == old(self).spec_capacity(),
            final(self)@ == old(self)@.filter(shape_miss(*shape, filter)),
            deleted == old(self)@.filter(shape_match(*shape, filter)).len(),
            final(self)@.len() + deleted == old(self)@.len(),
    {
        let boundary = self.root.boundary();
        proof {
            old(self).root.lemma_wf_rect(old(self).node_capacity as int);
            crate::seq_facts::lemma_filter_complement(
                self@,
                shape_match::<T, S, F>(*shape, filter),
                shape_miss::<T, S, F>(*shape, filter),
            );
        }
        let mut root = Node::Empty { boundary };
        core::mem::swap(&mut root, &mut self.root);
        let mut deleted: usize = 0;
        let (newroot, _) = Node::delete(
            root,
            shape,
            &filter,
            &mut deleted,
            Ghost(self.node_capacity as int),
        );
        self.root = newroot;
        self.count = self.count - deleted;
        deleted
    }

    /// Pop items that are within a specified shape area.
    ///
    /// **Returns** a vector of the items that were found within the shape and
    /// removed, in storage order; the remaining items keep their order.
    pub fn pop<S: Shape>(&mut self, shape: &S) -> (results: Vec<T>)
        requires
            old(self).wf(),
            shape.spec_wf(),
        ensures
            final(self).wf(),
            final(self).spec_boundary() == old(self).spec_boundary(),
            final(self).spec_capacity() == old(self).spec_capacity(),
            results@ == old(self)@.filter(in_shape(*shape)),
            final(self)@ == old(self)@.filter(outside_shape(*shape)),
            final(self)@.len() + results@.len() == old(self)@.len(),
    {
        let boundary = self.root.boundary();
        proof {
            old(self).root.lemma_wf_rect(old(self).node_capacity as int);
            crate::seq_facts::lemma_filter_equiv(
                self@,
                shape_match::<T, S, AcceptAll>(*shape, AcceptAll),
                in_shape::<T, S>(*shape),
            );
            crate::seq_facts::lemma_filter_equiv(
                self@,
                shape_miss::<T, S, AcceptAll>(*shape, AcceptAll),
                outside_shape::<T, S>(*shape),
            );
            crate::seq_facts::lemma_filter_complement(
                self@,
                in_shape::<T, S>(*shape),
                outside_shape::<T, S>(*shape),
            );
        }
        let mut root = Node::Empty { boundary };
        core::mem::swap(&mut root, &mut self.root);
        let mut results: Vec<T> = Vec::new();
        let filter = AcceptAll;
        let (newroot, _) = Node::pop(
            root,
            shape,
            &filter,
            &mut results,
            Ghost(self.node_capacity as int),
        );
        self.root = newroot;
        proof {
            assert(Seq::<T>::empty() + old(self)@.filter(in_shape(*shape)) =~= old(
                self,
            )@.filter(in_shape(*shape)));
        }
        self.count = self.count - results.len();
        results
    }

    /// Pop items that are within a specified shape area and pass a filter.
    ///
    /// **Returns** a vector of the items that were found within the shape,
    /// accepted by the filter, and removed, in storage order.
    pub fn pop_filter<S: Shape, F: Filter<T>>(&mut self, shape: &S, filter: F) -> (results: Vec<
        T,
    >)
        requires
            old(self).wf(),
            shape.spec_wf(),
        ensures
            final(self).wf(),
            final(self).spec_boundary() == old(self).spec_boundary(),
            final(self).spec_capacity() == old(self).spec_capacity(),
            results@ == old(self)@.filter(shape_match(*shape, filter)),
            final(self)@ == old(self)@.filter(shape_miss(*shape, filter)),
            final(self)@.len() + results@.len() == old(self)@.len(),
    {
        let boundary = self.root.boundary();
        proof {
            old(self).root.lemma_wf_rect(old(self).node_capacity as int);
            crate::seq_facts::lemma_filter_complement(
                self@,
                shape_match::<T, S, F>(*shape, filter),
                shape_miss::<T, S, F>(*shape, filter),
            );
        }
        let mut root = Node::Empty { boundary };
        core::mem::swap(&mut root, &mut self.root);
        let mut results: Vec<T> = Vec::new();
        let (newroot, _) = Node::pop(
            root,
            shape,
            &filter,
            &mut results,
            Ghost(self.node_capacity as int),
        );
        self.root = newroot;
        proof {
            assert(Seq::<T>::empty() + old(self)@.filter(shape_match(*shape, filter)) =~= old(
                self,
            )@.filter(shape_match(*shape, filter)));
        }
        self.count = self.count - results.len();
        results
    }

    /// Containment invariant: every stored item lies within the tree's
    /// boundary. In particular, with the contracts of `insert` and
    /// `insert_many`, nothing outside the boundary is ever stored.
    pub proof fn lemma_items_within_boundary(self)
        requires
            self.wf(),
        ensures
            forall|j: int|
                0 <= j < self@.len() ==> rect_contains(
                    self.spec_boundary(),
                    (#[trigger] self@[j]).pos(),
                ),
    {
        self.root.lemma_items_in_boundary(self.node_capacity as int);
    }

    /// Containment invariant: an item held in the stored multiset is found by
    /// a lookup at its position: some stored index holds an item with exactly
    /// that position. With the contract of `insert`, which adds the inserted
    /// item to the stored multiset, and the contract of `get`, which returns
    /// `Some` exactly when such an index exists, a successfully inserted item
    /// is retrievable through `get` by its coordinates.
    pub proof fn lemma_stored_item_is_found(self, item: T)
        requires
            self@.to_multiset().contains(item),
        ensures
            exists|j: int| 0 <= j < self@.len() && (#[trigger] self@[j]).pos() == item.pos(),
    {
        self@.to_multiset_ensures();
        assert(self@.contains(item));
        let k = choose|k: int| 0 <= k < self@.len() && self@[k] == item;
        assert(self@[k].pos() == item.pos());
    }

    /// Count consistency: a query over the whole boundary keeps every stored
    /// item, so with the contracts of `count` and `query` the stored count
    /// equals the length of a whole-boundary query result, after any sequence
    /// of insertions and removals.
    pub proof fn lemma_full_query_returns_all(self)
        requires
            self.wf(),
        ensures
            self@.filter(in_shape(self.spec_boundary())) == self@,
    {
        self.lemma_items_within_boundary();
        crate::seq_facts::lemma_filter_all_true(
            self@,
            in_shape::<T, Rect>(self.spec_boundary()),
        );
    }

    /// Query/delete duality for corner-exact shapes: a query returns exactly
    /// the items that a pop with the same shape and filter removes; querying
    /// again after the pop finds nothing; and the items that remain are
    /// exactly the stored items minus the removed ones.
    pub proof fn lemma_pop_query_duality<S: Shape, F: Filter<T>>(self, shape: S, filter: F)
        requires
            self.wf(),
            shape.spec_wf(),
            shape.spec_corner_exact(),
        ensures
            self.query_items(shape, filter) == self@.filter(shape_match(shape, filter)),
            self@.filter(shape_miss(shape, filter)).filter(shape_match(shape, filter)) == Seq::<
                T,
            >::empty(),
            self@.filter(shape_match(shape, filter)).to_multiset().add(
                self@.filter(shape_miss(shape, filter)).to_multiset(),
            ) == self@.to_multiset(),
    {
        let m = shape_match::<T, S, F>(shape, filter);
        let miss = shape_miss::<T, S, F>(shape, filter);
        self.root.lemma_query_spec_exact(shape, filter, self.node_capacity as int);
        crate::seq_facts::lemma_filter_elems(self@, miss);
        assert forall|j: int| 0 <= j < self@.filter(miss).len() implies !m(
            #[trigger] self@.filter(miss)[j],
        ) by {}
        crate::seq_facts::lemma_filter_all_false(self@.filter(miss), m);
        crate::seq_facts::lemma_filter_complement_mset(self@, m, miss);
    }

    /// Return the point at the center of the boundary.
    pub fn center(&self) -> (p: Pt)
        ensures
            p == self.spec_boundary().center,
    {
        let b = self.root.boundary();
        b.center
    }
}

} // verus!

