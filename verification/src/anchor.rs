//! Positions inside a sequence: where a node attaches ([`Anchor`]) and where a
//! cursor, selection edge or mark boundary sits ([`RelativePosition`]).
//!
//! An integer offset drifts the moment another replica inserts or deletes ahead of
//! it. A [`RelativePosition`] instead binds to the stable id of a nearby item, or to
//! a boundary of the sequence.

use crate::stamp::Stamp;
use vstd::prelude::*;

verus! {

/// Which side of its parent a node hangs on.
#[derive(Clone, Copy, PartialEq, Eq, Hash, Debug, Structural)]
pub enum Side {
    Left,
    Right,
}

/// Where a new node attaches in the Fugue tree: a parent node (or the root when
/// `None`) and the side it hangs on.
#[derive(Clone, Copy, PartialEq, Eq, Debug, Structural)]
pub struct Anchor {
    pub parent: Option<Stamp>,
    pub side: Side,
}

/// A stable position in a List or Text sequence.
#[derive(Clone, Copy, PartialEq, Eq, Debug, Structural)]
pub enum RelativePosition {
    /// The very start of the sequence.
    Start,
    /// The very end of the sequence.
    End,
    /// The left edge of the item with this id.
    Before(Stamp),
    /// The right edge of the item with this id.
    After(Stamp),
}

} // verus!
