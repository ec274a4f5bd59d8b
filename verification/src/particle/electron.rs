//! The electron: a charged particle whose movement is charge-directed.

use vstd::prelude::*;

use crate::board::{Board, BoardModel};
use crate::ordered::OrdIx2;
use crate::particle::{boards_view, moves_for_dirs, particle_moves, Particle, ParticleTrait};
use crate::property::{AntiTrait, Antiness, Direction};

verus! {

#[derive(PartialEq, Eq, Structural, Clone, Copy, Hash, Debug)]
pub struct Electron {
    pub anti: Antiness,
}

impl Electron {
    pub fn new(anti: Antiness) -> (r: Self)
        ensures
            r == (Electron { anti }),
    {
        Electron { anti }
    }
}

impl Default for Electron {
    fn default() -> (r: Self)
        ensures
            r == (Electron { anti: Antiness::Ordinary }),
    {
        Electron { anti: Antiness::Ordinary }
    }
}

impl AntiTrait for Electron {
    open spec fn spec_anti(&self) -> Antiness {
        self.anti
    }

    fn anti(&self) -> (r: Antiness) {
        self.anti
    }
}

impl ParticleTrait for Electron {
    open spec fn spec_charge(&self) -> int {
        match self.anti {
            Antiness::Ordinary => -3,
            Antiness::Anti => 3,
        }
    }

    fn charge(&self) -> (r: i32) {
        match self.anti {
            Antiness::Ordinary => -3,
            Antiness::Anti => 3,
        }
    }
}

/// The directions an electron's charge sensing admits from `pos`: the
/// shared charge rule applied to its own charge.
pub open spec fn electron_dirs(m: BoardModel, e: Electron, pos: OrdIx2) -> Seq<Direction> {
    crate::particle::charge_directed_dirs(m, e.spec_charge(), pos)
}

impl Electron {
    /// The admitted movement directions, per the axis charge comparison.
    pub(crate) fn check_electric(&self, board: &Board, pos: OrdIx2) -> (r: Vec<Direction>)
        requires
            board@.wf(),
            board@.in_bounds(pos),
        ensures
            r@ == electron_dirs(board@, *self, pos),
    {
        let mut ret_directions: Vec<Direction> = Vec::new();

        let x = ParticleTrait::charge(self) * (board.find_charge_single(pos, Direction::Right)
            - board.find_charge_single(pos, Direction::Left));
        if x >= 0 {
            ret_directions.push(Direction::Left);
        }
        if x <= 0 {
            ret_directions.push(Direction::Right);
        }

        let y = ParticleTrait::charge(self) * (board.find_charge_single(pos, Direction::Down)
            - board.find_charge_single(pos, Direction::Up));
        if y >= 0 {
            ret_directions.push(Direction::Up);
        }
        if y <= 0 {
            ret_directions.push(Direction::Down);
        }

        proof {
            assert(ret_directions@ =~= electron_dirs(board@, *self, pos));
        }
        ret_directions
    }

    /// Every one-move successor board, one try per admitted direction.
    pub fn all_moves(&self, board: &Board, pos: OrdIx2) -> (r: Vec<Board>)
        requires
            board@.wf(),
            board@.in_bounds(pos),
        ensures
            boards_view(r@) == particle_moves(board@, Particle::Electron(*self), pos),
    {
        let dirs = self.check_electric(board, pos);
        moves_for_dirs(Particle::Electron(*self), board, pos, &dirs)
    }
}

} // verus!
