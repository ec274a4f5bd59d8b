//! The absorbing obstacle: a hole that removes any particle landing on it.

use vstd::prelude::*;

use crate::obstacle::ObstacleTrait;

verus! {

#[derive(PartialEq, Eq, Structural, Clone, Copy, Hash, Debug, Default)]
pub struct Hole;

impl ObstacleTrait for Hole {
}

} // verus!
