//! A cell's occupant seen with its bonding context: either a lone
//! particle, or a particle wrapped by the container that bonds it.

use vstd::prelude::*;

use crate::container::Container;
use crate::particle::Particle;

verus! {

#[derive(PartialEq, Eq, Hash, Debug)]
pub enum Object {
    Particle(Particle),
    Container(Container, Box<Object>),
}

} // verus!
