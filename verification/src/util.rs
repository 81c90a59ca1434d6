use vstd::prelude::*;

use crate::seq_facts::lemma_filter_push;
use crate::shapes::{
    lemma_quad_of_routes, lemma_quarter_wf, quad_of, quarter_spec, rect_wf, rects_intersect, Rect,
    Shape,
};
use crate::{Point, Pt};

verus! {

/// The predicate satisfied by items routed to quadrant `i` of `r`;
/// `i == -1` selects the items that lie outside `r` entirely.
pub open spec fn in_quad<T: Point>(r: Rect, i: int) -> spec_fn(T) -> bool {
    |t: T| quad_of(r, t.pos()) == i
}

/// The index of the first quadrant of `rect` whose inclusive bounds contain
/// the item's position, or `None` when the position lies outside `rect`.
pub fn determine_quadrant<T: Point>(rect: &Rect, item: &T) -> (q: Option<usize>)
    requires
        rect_wf(*rect),
    ensures
        match q {
            Some(i) => i < 4 && quad_of(*rect, item.pos()) == i as int,
            None => quad_of(*rect, item.pos()) == -1,
        },
{
    proof {
        lemma_quad_of_routes(*rect, item.pos());
        lemma_quarter_wf(*rect, 0);
        lemma_quarter_wf(*rect, 1);
        lemma_quarter_wf(*rect, 2);
        lemma_quarter_wf(*rect, 3);
    }
    let p = item.point();
    let qs = rect.quarter();
    if qs[0].contains(&p) {
        Some(0)
    } else if qs[1].contains(&p) {
        Some(1)
    } else if qs[2].contains(&p) {
        Some(2)
    } else if qs[3].contains(&p) {
        Some(3)
    } else {
        None
    }
}

/// Partition a batch of items into the four quadrants of `rect`, plus a fifth
/// bucket for the items that are not contained in `rect` at all.
pub fn group_by_quadrant<T: Point + Copy>(rect: &Rect, items: Vec<T>) -> (groups: (
    Vec<T>,
    Vec<T>,
    Vec<T>,
    Vec<T>,
    Vec<T>,
))
    requires
        rect_wf(*rect),
    ensures
        groups.0@ == items@.filter(in_quad(*rect, 0)),
        groups.1@ == items@.filter(in_quad(*rect, 1)),
        groups.2@ == items@.filter(in_quad(*rect, 2)),
        groups.3@ == items@.filter(in_quad(*rect, 3)),
        groups.4@ == items@.filter(in_quad(*rect, -1)),
{
    let mut g0: Vec<T> = Vec::new();
    let mut g1: Vec<T> = Vec::new();
    let mut g2: Vec<T> = Vec::new();
    let mut g3: Vec<T> = Vec::new();
    let mut g4: Vec<T> = Vec::new();
    let mut idx: usize = 0;
    while idx < items.len()
        invariant
            idx <= items.len(),
            rect_wf(*rect),
            g0@ == items@.take(idx as int).filter(in_quad::<T>(*rect, 0)),
            g1@ == items@.take(idx as int).filter(in_quad::<T>(*rect, 1)),
            g2@ == items@.take(idx as int).filter(in_quad::<T>(*rect, 2)),
            g3@ == items@.take(idx as int).filter(in_quad::<T>(*rect, 3)),
            g4@ == items@.take(idx as int).filter(in_quad::<T>(*rect, -1)),
        decreases items.len() - idx,
    {
        let it = items[idx];
        proof {
            assert(items@.take(idx as int + 1) =~= items@.take(idx as int).push(it));
            lemma_filter_push(items@.take(idx as int), in_quad::<T>(*rect, 0), it);
            lemma_filter_push(items@.take(idx as int), in_quad::<T>(*rect, 1), it);
            lemma_filter_push(items@.take(idx as int), in_quad::<T>(*rect, 2), it);
            lemma_filter_push(items@.take(idx as int), in_quad::<T>(*rect, 3), it);
            lemma_filter_push(items@.take(idx as int), in_quad::<T>(*rect, -1), it);
        }
        match determine_quadrant(rect, &it) {
            Some(i) => {
                if i == 0 {
                    g0.push(it);
                } else if i == 1 {
                    g1.push(it);
                } else if i == 2 {
                    g2.push(it);
                } else {
                    g3.push(it);
                }
            },
            None => {
                g4.push(it);
            },
        }
        idx = idx + 1;
    }
    proof {
        assert(items@.take(items@.len() as int) =~= items@);
    }
    (g0, g1, g2, g3, g4)
}

/// The quadrant indices of `outer` whose rectangles intersect `inner`, in
/// increasing order; touching at an edge counts as overlap.
pub open spec fn overlap_quadrants(outer: Rect, inner: Rect) -> Seq<usize> {
    (if rects_intersect(quarter_spec(outer, 0), inner) {
        seq![0usize]
    } else {
        Seq::empty()
    }) + (if rects_intersect(quarter_spec(outer, 1), inner) {
        seq![1usize]
    } else {
        Seq::empty()
    }) + (if rects_intersect(quarter_spec(outer, 2), inner) {
        seq![2usize]
    } else {
        Seq::empty()
    }) + (if rects_intersect(quarter_spec(outer, 3), inner) {
        seq![3usize]
    } else {
        Seq::empty()
    })
}

/// Every quadrant of `outer` whose rectangle intersects the query rectangle
/// `inner`; used to fan a region query into only the relevant children.
pub fn determine_overlap_quadrants(outer: &Rect, inner: &Rect) -> (q: Vec<usize>)
    requires
        rect_wf(*outer),
        rect_wf(*inner),
    ensures
        q@ == overlap_quadrants(*outer, *inner),
{
    proof {
        lemma_quarter_wf(*outer, 0);
        lemma_quarter_wf(*outer, 1);
        lemma_quarter_wf(*outer, 2);
        lemma_quarter_wf(*outer, 3);
    }
    let qs = outer.quarter();
    let mut q: Vec<usize> = Vec::new();
    if qs[0].intersects(inner) {
        q.push(0);
    }
    if qs[1].intersects(inner) {
        q.push(1);
    }
    if qs[2].intersects(inner) {
        q.push(2);
    }
    if qs[3].intersects(inner) {
        q.push(3);
    }
    proof {
        assert(q@ =~= overlap_quadrants(*outer, *inner));
    }
    q
}

} // verus!
