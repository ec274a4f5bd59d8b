//! Obstacles: one per grid cell, independent of the particle grid.
//! A `Block` unconditionally halts traversal, a `Hole` removes any particle
//! that lands on it, and `Empty` is transparent.

use vstd::prelude::*;

pub mod block;
pub mod hole;

use crate::obstacle::block::Block;
use crate::obstacle::hole::Hole;

verus! {

pub trait ObstacleTrait {
}

#[derive(PartialEq, Eq, Structural, Clone, Copy, Hash, Debug)]
pub enum Obstacle {
    Empty(Empty),
    Block(Block),
    Hole(Hole),
}

impl Default for Obstacle {
    fn default() -> (r: Self)
        ensures
            r == Obstacle::Empty(Empty),
    {
        Obstacle::Empty(Empty)
    }
}

/// The transparent obstacle: traversal passes straight over it.
#[derive(PartialEq, Eq, Structural, Clone, Copy, Hash, Debug)]
pub struct Empty;

impl Default for Empty {
    fn default() -> (r: Self)
        ensures
            r == Empty,
    {
        Empty
    }
}

impl ObstacleTrait for Empty {
}

impl From<Empty> for Obstacle {
    fn from(value: Empty) -> (r: Obstacle) {
        Obstacle::Empty(value)
    }
}

impl vstd::std_specs::convert::FromSpecImpl<Empty> for Obstacle {
    open spec fn obeys_from_spec() -> bool {
        true
    }

    open spec fn from_spec(v: Empty) -> Obstacle {
        Obstacle::Empty(v)
    }
}

impl From<Block> for Obstacle {
    fn from(value: Block) -> (r: Obstacle) {
        Obstacle::Block(value)
    }
}

impl vstd::std_specs::convert::FromSpecImpl<Block> for Obstacle {
    open spec fn obeys_from_spec() -> bool {
        true
    }

    open spec fn from_spec(v: Block) -> Obstacle {
        Obstacle::Block(v)
    }
}

impl From<Hole> for Obstacle {
    fn from(value: Hole) -> (r: Obstacle) {
        Obstacle::Hole(value)
    }
}

impl vstd::std_specs::convert::FromSpecImpl<Hole> for Obstacle {
    open spec fn obeys_from_spec() -> bool {
        true
    }

    open spec fn from_spec(v: Hole) -> Obstacle {
        Obstacle::Hole(v)
    }
}

} // verus!
