//! The muon: a declared particle variant whose movement rule is not part of
//! this design's scope. Boards whose moves are generated must not contain
//! one (see `BoardModel::muon_free`).

use vstd::prelude::*;

use crate::property::Antiness;

verus! {

#[derive(PartialEq, Eq, Structural, Clone, Copy, Hash, Debug)]
pub struct Muon {
    pub anti: Antiness,
}

impl Default for Muon {
    fn default() -> (r: Self)
        ensures
            r == (Muon { anti: Antiness::Ordinary }),
    {
        Muon { anti: Antiness::Ordinary }
    }
}

impl Muon {
    pub fn new(anti: Antiness) -> (r: Self)
        ensures
            r == (Muon { anti }),
    {
        Muon { anti }
    }
}

} // verus!
