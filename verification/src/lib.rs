//! A verified quadtree: a spatial index over 2D point-like data that stores
//! items exposing an integer coordinate and answers region queries by
//! hierarchically subdividing space.

use vstd::prelude::*;

pub mod quadtree;
mod seq_facts;
pub mod shapes;
pub mod util;

pub use quadtree::AcceptAll;
pub use quadtree::ExcludePoint;
pub use quadtree::Filter;
pub use quadtree::QuadTree;

verus! {

/// A 2-dimensional point with `i64` coordinates.
#[derive(Clone, Copy, Debug, PartialEq, Eq, Structural)]
pub struct Pt {
    pub x: i64,
    pub y: i64,
}

/// Trait for getting a 2d point position of data stored in the quadtree.
pub trait Point: Sized {
    /// The position of the item, for use in specifications.
    spec fn pos(&self) -> Pt;

    /// Get the 2d point position of the item.
    fn point(&self) -> (p: Pt)
        ensures
            p == self.pos(),
    ;
}

impl Point for Pt {
    open spec fn pos(&self) -> Pt {
        *self
    }

    fn point(&self) -> (p: Pt) {
        *self
    }
}

} // verus!
