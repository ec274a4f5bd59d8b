//! The nucleus: a bonded group of proton and neutron positions acting as a
//! single charge-bearing unit. Aggregation (charge sensing across the
//! group) is supported; movement of a bonded group as a rigid unit is not
//! part of this design's scope.

use vstd::prelude::*;

use crate::container::{comps_view, Component, ContainerTrait, Contents};
use crate::container::CompModel;
use crate::ordered::{canonical_pos_vec, canonicalize_pos, OrdIx2};
use crate::property::{Antiness, Colour};

verus! {

/// The largest proton count a nucleus may carry, so that every aggregate
/// charge stays well inside `i32` arithmetic.
pub const MAX_PROTONS: usize = 0x100_0000;

#[derive(PartialEq, Eq, Hash, Debug)]
pub struct NucleusParticle {
    pub antiness: Antiness,
    pub protons: Vec<OrdIx2>,
    pub neutrons: Vec<OrdIx2>,
    pub contents: Contents,
}

/// The mathematical shape of a nucleus.
#[verifier::ext_equal]
pub ghost struct NucleusModel {
    pub antiness: Antiness,
    pub protons: Seq<OrdIx2>,
    pub neutrons: Seq<OrdIx2>,
    pub contents: Seq<CompModel>,
}

impl Clone for NucleusParticle {
    /// A deep copy with the same mathematical shape.
    fn clone(&self) -> (r: Self)
        ensures
            r@ == self@,
    {
        let r = NucleusParticle {
            antiness: self.antiness,
            protons: crate::ordered::clone_pos_vec(&self.protons),
            neutrons: crate::ordered::clone_pos_vec(&self.neutrons),
            contents: crate::container::clone_contents(&self.contents),
        };
        proof {
            assert(r@ =~= self@);
        }
        r
    }
}

impl View for NucleusParticle {
    type V = NucleusModel;

    open spec fn view(&self) -> NucleusModel {
        NucleusModel {
            antiness: self.antiness,
            protons: self.protons@,
            neutrons: self.neutrons@,
            contents: comps_view(self.contents@),
        }
    }
}

impl NucleusModel {
    /// Aggregate charge: three units per proton, positive for ordinary
    /// matter and negative for antimatter.
    pub open spec fn charge(self) -> int {
        self.protons.len() * (match self.antiness {
            Antiness::Ordinary => 3int,
            Antiness::Anti => -3int,
        })
    }
}

impl ContainerTrait for NucleusParticle {
    open spec fn spec_contents(&self) -> Seq<CompModel> {
        self@.contents
    }

    open spec fn spec_charge(&self) -> int {
        self@.charge()
    }

    open spec fn charge_ok(&self) -> bool {
        self.protons@.len() <= MAX_PROTONS
    }

    open spec fn spec_colour(&self) -> Colour {
        Colour::White
    }

    fn contents(&self) -> (r: &Contents) {
        &self.contents
    }

    fn charge(&self) -> (r: i32)
    {
        let protons: i32 = self.protons.len() as i32;
        protons * (match self.antiness {
            Antiness::Ordinary => 3,
            Antiness::Anti => -3,
        })
    }

    fn colour(&self) -> Colour {
        Colour::White
    }
}

impl NucleusParticle {
    /// Builds a bonded group whose contents is the sorted, duplicate-free
    /// union of the proton and neutron positions. Both position lists are
    /// canonicalized, so construction order does not matter.
    pub fn new(antiness: Antiness, protons: Vec<OrdIx2>, neutrons: Vec<OrdIx2>) -> (r: Self)
        requires
            protons@.len() <= MAX_PROTONS,
        ensures
            r.antiness == antiness,
            r.protons@ == canonicalize_pos(protons@),
            r.neutrons@ == canonicalize_pos(neutrons@),
            comps_view(r.contents@) == comps_of_positions(
                canonicalize_pos(canonicalize_pos(protons@) + canonicalize_pos(neutrons@)),
            ),
    {
        let protons = canonical_pos_vec(protons);
        let neutrons = canonical_pos_vec(neutrons);
        let mut merged: Vec<OrdIx2> = Vec::new();
        let mut i: usize = 0;
        while i < protons.len()
            invariant
                i <= protons@.len(),
                merged@ == protons@.subrange(0, i as int),
            decreases protons@.len() - i,
        {
            merged.push(protons[i]);
            proof {
                assert(merged@ =~= protons@.subrange(0, i + 1));
            }
            i = i + 1;
        }
        proof {
            assert(protons@.subrange(0, protons@.len() as int) =~= protons@);
        }
        let mut j: usize = 0;
        while j < neutrons.len()
            invariant
                j <= neutrons@.len(),
                merged@ == protons@ + neutrons@.subrange(0, j as int),
            decreases neutrons@.len() - j,
        {
            merged.push(neutrons[j]);
            proof {
                assert(merged@ =~= protons@ + neutrons@.subrange(0, j + 1));
            }
            j = j + 1;
        }
        proof {
            assert(protons@ + neutrons@.subrange(0, neutrons@.len() as int) =~= protons@
                + neutrons@);
        }
        let merged = canonical_pos_vec(merged);
        let mut contents: Contents = Vec::new();
        let mut k: usize = 0;
        while k < merged.len()
            invariant
                k <= merged@.len(),
                comps_view(contents@) == comps_of_positions(merged@.subrange(0, k as int)),
            decreases merged@.len() - k,
        {
            let ghost pre = contents@;
            contents.push(Component::Particle(merged[k]));
            proof {
                assert(comps_view(pre).len() == pre.len());
                assert(comps_of_positions(merged@.subrange(0, k as int)).len() == k);
                assert(pre.len() == k);
                assert(contents@ == pre.push(Component::Particle(merged@[k as int])));
                assert forall|i: int| 0 <= i < k + 1 implies comps_view(contents@)[i]
                    == comps_of_positions(merged@.subrange(0, k + 1))[i] by {
                    assert(comps_of_positions(merged@.subrange(0, k + 1))[i]
                        == CompModel::Particle(merged@.subrange(0, k + 1)[i]));
                    if i < k {
                        assert(contents@[i] == pre[i]);
                        assert(comps_view(pre)[i] == pre[i]@);
                        assert(comps_view(pre)[i] == comps_of_positions(
                            merged@.subrange(0, k as int),
                        )[i]);
                        assert(comps_of_positions(merged@.subrange(0, k as int))[i]
                            == CompModel::Particle(merged@.subrange(0, k as int)[i]));
                    } else {
                        assert(contents@[i] == Component::Particle(merged@[k as int]));
                    }
                    assert(comps_view(contents@)[i] == contents@[i]@);
                }
                assert(comps_view(contents@) =~= comps_of_positions(merged@.subrange(0, k + 1)));
            }
            k = k + 1;
        }
        proof {
            assert(merged@.subrange(0, merged@.len() as int) =~= merged@);
        }
        Self { antiness, protons, neutrons, contents }
    }
}

/// Whether two nuclei have the same mathematical shape.
pub fn nucleus_eq(a: &NucleusParticle, b: &NucleusParticle) -> (r: bool)
    ensures
        r == (a@ == b@),
{
    let same = a.antiness == b.antiness && crate::ordered::pos_vec_eq(&a.protons, &b.protons)
        && crate::ordered::pos_vec_eq(&a.neutrons, &b.neutrons) && crate::container::contents_eq(
        &a.contents,
        &b.contents,
    );
    proof {
        if same {
            assert(a@ =~= b@);
        }
    }
    same
}

/// The component sequence standing for one particle position each.
pub open spec fn comps_of_positions(s: Seq<OrdIx2>) -> Seq<CompModel> {
    Seq::new(s.len(), |i: int| CompModel::Particle(s[i]))
}

} // verus!
