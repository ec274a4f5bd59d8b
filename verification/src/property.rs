//! Shared particle properties: antiness, colour, mass, movement directions,
//! and the per-cell `Step` outcome used while a move traversal walks outward
//! along an axis.

use vstd::prelude::*;

verus! {

/// Distinguishes matter from antimatter variants of a particle type;
/// governs charge sign and annihilation eligibility.
#[derive(PartialEq, Eq, Structural, Clone, Copy, Hash, Debug)]
pub enum Antiness {
    Ordinary,
    Anti,
}

impl Default for Antiness {
    fn default() -> (r: Self)
        ensures
            r == Antiness::Ordinary,
    {
        Antiness::Ordinary
    }
}

pub trait AntiTrait {
    /// The antiness flag this value carries.
    spec fn spec_anti(&self) -> Antiness;

    fn anti(&self) -> (r: Antiness)
        ensures
            r == self.spec_anti(),
    ;
}

#[derive(PartialEq, Eq, Structural, Clone, Copy, Hash, Debug)]
pub enum Colour {
    White,
    Red,
    Green,
    Blue,
    Yellow,
    Cyan,
    Magenta,
    AntiRed,
    AntiGreen,
    AntiBlue,
    AntiYellow,
    AntiCyan,
    AntiMagenta,
}

impl Default for Colour {
    fn default() -> (r: Self)
        ensures
            r == Colour::White,
    {
        Colour::White
    }
}

pub trait ColourTrait {
    fn colour(&self) -> Colour;
}

#[derive(PartialEq, Eq, Structural, Clone, Copy, Hash, Debug)]
pub enum Mass {
    Massless,
    Light,
    Medium,
    Heavy,
    Motionless,
    Unstable,
}

pub trait MassTrait {
    fn mass(&self) -> Mass;
}

/// One of the four axis directions a particle can move along.
#[derive(PartialEq, Eq, Structural, Clone, Copy, Hash, Debug)]
pub enum Direction {
    Right,
    Down,
    Left,
    Up,
}

/// The outcome of inspecting one cell while a move traversal walks outward:
/// keep walking, stop before the cell, annihilate with its occupant
/// (clearing obstacles within the carried radius), or fall into a hole.
#[derive(PartialEq, Eq, Structural, Clone, Copy, Hash, Debug)]
pub enum Step {
    Continue,
    Shift,
    Annihilate(usize),
    Remove,
}

impl Default for Step {
    fn default() -> (r: Self)
        ensures
            r == Step::Continue,
    {
        Step::Continue
    }
}

} // verus!
