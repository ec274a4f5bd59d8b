//! The impassable obstacle: a wall that halts any traversal.

use vstd::prelude::*;

use crate::obstacle::ObstacleTrait;

verus! {

#[derive(PartialEq, Eq, Structural, Clone, Copy, Hash, Debug, Default)]
pub struct Block;

impl ObstacleTrait for Block {
}

} // verus!
