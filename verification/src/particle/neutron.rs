//! The neutron: carries no charge and moves freely in all four directions,
//! annihilating with anti-neutrons it runs into.

use vstd::prelude::*;

use crate::board::Board;
use crate::ordered::OrdIx2;
use crate::particle::{boards_view, moves_for_dirs, particle_moves, Particle};
use crate::property::{Antiness, Direction};

verus! {

#[derive(PartialEq, Eq, Structural, Clone, Copy, Hash, Debug)]
pub struct Neutron {
    pub anti: Antiness,
}

impl Default for Neutron {
    fn default() -> (r: Self)
        ensures
            r == (Neutron { anti: Antiness::Ordinary }),
    {
        Neutron { anti: Antiness::Ordinary }
    }
}

impl Neutron {
    pub fn new(anti: Antiness) -> (r: Self)
        ensures
            r == (Neutron { anti }),
    {
        Neutron { anti }
    }
}

impl Neutron {
    /// Every one-move successor board: one try in each of the four
    /// directions, in the order right, down, left, up.
    pub fn all_moves(&self, board: &Board, pos: OrdIx2) -> (r: Vec<Board>)
        requires
            board@.wf(),
            board@.in_bounds(pos),
        ensures
            boards_view(r@) == particle_moves(board@, Particle::Neutron(*self), pos),
    {
        let mut dirs: Vec<Direction> = Vec::new();
        dirs.push(Direction::Right);
        dirs.push(Direction::Down);
        dirs.push(Direction::Left);
        dirs.push(Direction::Up);
        proof {
            assert(dirs@ =~= seq![
                Direction::Right,
                Direction::Down,
                Direction::Left,
                Direction::Up,
            ]);
        }
        moves_for_dirs(Particle::Neutron(*self), board, pos, &dirs)
    }
}

} // verus!
