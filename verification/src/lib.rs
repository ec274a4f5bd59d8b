//! A grid puzzle model and solver: typed particles move on a rectangular
//! board under per-type movement rules (charge attraction, annihilation,
//! holes, blocking walls), and a breadth-first search over board states
//! finds a shortest path to a configuration covering every goal cell.

pub mod board;
pub mod container;
pub mod object;
pub mod obstacle;
pub mod ordered;
pub mod particle;
pub mod property;
pub mod solver;
pub mod tree;
pub mod unordered;

use vstd::prelude::*;

verus! {

pub fn add(left: usize, right: usize) -> (r: usize)
    requires
        left + right <= usize::MAX,
    ensures
        r == left + right,
{
    left + right
}

} // verus!
