//! Containers: overlays bonding several grid positions into one
//! charge-bearing unit. A `Component` is either a single position or a
//! nested bonded group, so containers can nest; the `CompModel` ghost type
//! is its mathematical shape, used by every contract that speaks of
//! container structure.

use vstd::prelude::*;

use crate::container::nucleus::NucleusParticle;
use crate::ordered::OrdIx2;
use crate::property::Colour;

pub mod nucleus;

verus! {

/// An ordered, duplicate-free collection of components, canonicalized by
/// sort order so that two groups with the same members in any construction
/// order compare equal.
pub type Contents = Vec<Component>;

/// The lookup table from a component to the container directly wrapping it.
pub type ContainerLUT = Vec<(Component, Container)>;

#[derive(PartialEq, Eq, Hash, Debug)]
pub enum Component {
    Particle(OrdIx2),
    Container(Contents),
}

/// The mathematical shape of a `Component`: the same tree with sequences
/// in place of vectors.
#[verifier::ext_equal]
pub ghost enum CompModel {
    Particle(OrdIx2),
    Container(Seq<CompModel>),
}

/// The views of a sequence of components.
pub open spec fn comps_view(s: Seq<Component>) -> Seq<CompModel>
    decreases s,
{
    Seq::new(
        s.len(),
        |i: int|
            if 0 <= i < s.len() {
                s[i]@
            } else {
                CompModel::Particle(OrdIx2 { x: 0, y: 0 })
            },
    )
}

impl View for Component {
    type V = CompModel;

    open spec fn view(&self) -> CompModel
        decreases self,
    {
        match self {
            Component::Particle(p) => CompModel::Particle(*p),
            Component::Container(c) => CompModel::Container(comps_view(c@)),
        }
    }
}

impl Clone for Component {
    /// A deep copy with the same mathematical shape.
    fn clone(&self) -> (r: Self)
        ensures
            r@ == self@,
        decreases *self,
    {
        match self {
            Component::Particle(p) => Component::Particle(*p),
            Component::Container(c) => {
                let mut v: Vec<Component> = Vec::new();
                let mut k: usize = 0;
                while k < c.len()
                    invariant
                        k <= c.len(),
                        v@.len() == k,
                        forall|i: int| 0 <= i < k ==> (#[trigger] v@[i])@ == c@[i]@,
                        decreases_to!(*self => *c),
                    decreases c.len() - k,
                {
                    proof {
                        assert(decreases_to!(*c => c@[k as int]));
                    }
                    let x = c[k].clone();
                    v.push(x);
                    k = k + 1;
                }
                let r = Component::Container(v);
                proof {
                    assert(comps_view(v@) =~= comps_view(c@));
                }
                r
            },
        }
    }
}

impl Clone for Container {
    /// A deep copy with the same mathematical shape.
    fn clone(&self) -> (r: Self)
        ensures
            r@ == self@,
    {
        match self {
            Container::NucleusParticle(n) => Container::NucleusParticle(n.clone()),
        }
    }
}

/// Copies a vector of components, keeping its mathematical shape.
pub fn clone_contents(c: &Contents) -> (r: Contents)
    ensures
        comps_view(r@) == comps_view(c@),
{
    let mut v: Vec<Component> = Vec::new();
    let mut k: usize = 0;
    while k < c.len()
        invariant
            k <= c.len(),
            v@.len() == k,
            forall|i: int| 0 <= i < k ==> (#[trigger] v@[i])@ == c@[i]@,
        decreases c.len() - k,
    {
        let x = c[k].clone();
        v.push(x);
        k = k + 1;
    }
    proof {
        assert(comps_view(v@) =~= comps_view(c@));
    }
    v
}

impl From<OrdIx2> for Component {
    fn from(value: OrdIx2) -> (r: Component) {
        Component::Particle(value)
    }
}

impl vstd::std_specs::convert::FromSpecImpl<OrdIx2> for Component {
    open spec fn obeys_from_spec() -> bool {
        true
    }

    open spec fn from_spec(v: OrdIx2) -> Component {
        Component::Particle(v)
    }
}

impl From<Contents> for Component {
    fn from(value: Contents) -> (r: Component) {
        Component::Container(value)
    }
}

impl vstd::std_specs::convert::FromSpecImpl<Contents> for Component {
    open spec fn obeys_from_spec() -> bool {
        true
    }

    open spec fn from_spec(v: Contents) -> Component {
        Component::Container(v)
    }
}

/// All positions below a component, in depth-first order.
pub open spec fn positions_of(c: CompModel) -> Seq<OrdIx2>
    decreases c, 0int,
{
    match c {
        CompModel::Particle(p) => seq![p],
        CompModel::Container(s) => positions_of_seq(s),
    }
}

pub open spec fn positions_of_seq(s: Seq<CompModel>) -> Seq<OrdIx2>
    decreases s, 1int,
{
    if s.len() == 0 {
        Seq::empty()
    } else {
        positions_of(s[0]) + positions_of_seq(s.drop_first())
    }
}

impl Component {
    pub fn all_positions(&self) -> (r: Vec<OrdIx2>)
        ensures
            r@ == positions_of(self@),
    {
        let mut positions: Vec<OrdIx2> = Vec::new();
        self.all_positions_push(&mut positions);
        positions
    }

    fn all_positions_push(&self, positions: &mut Vec<OrdIx2>)
        ensures
            final(positions)@ == old(positions)@ + positions_of(self@),
        decreases *self,
    {
        match self {
            Component::Particle(i) => {
                positions.push(*i);
                proof {
                    assert(final(positions)@ =~= old(positions)@ + positions_of(self@));
                }
            },
            Component::Container(c) => {
                let ghost orig = positions@;
                let mut k: usize = 0;
                proof {
                    assert(comps_view(c@).subrange(0, 0) =~= Seq::<CompModel>::empty());
                }
                while k < c.len()
                    invariant
                        k <= c.len(),
                        positions@ == orig + positions_of_seq(
                            comps_view(c@).subrange(0, k as int),
                        ),
                        decreases_to!(*self => *c),
                    decreases c.len() - k,
                {
                    proof {
                        assert(decreases_to!(*c => c@[k as int]));
                    }
                    c[k].all_positions_push(positions);
                    proof {
                        let cv = comps_view(c@);
                        lemma_positions_of_seq_snoc(cv.subrange(0, k as int), cv[k as int]);
                        assert(cv.subrange(0, k + 1) =~= cv.subrange(0, k as int).push(
                            cv[k as int],
                        ));
                        assert(cv[k as int] == c@[k as int]@);
                        assert(positions@ =~= orig + positions_of_seq(cv.subrange(0, k + 1)));
                    }
                    k = k + 1;
                }
                proof {
                    assert(comps_view(c@).subrange(0, c@.len() as int) =~= comps_view(c@));
                    assert(positions@ =~= orig + positions_of(self@));
                }
            },
        }
    }
}

/// Appending one component appends its positions.
pub proof fn lemma_positions_of_seq_snoc(s: Seq<CompModel>, c: CompModel)
    ensures
        positions_of_seq(s.push(c)) == positions_of_seq(s) + positions_of(c),
    decreases s.len(),
{
    let t = s.push(c);
    if s.len() == 0 {
        assert(t.len() == 1);
        assert(t[0] == c);
        assert(t.drop_first() =~= Seq::<CompModel>::empty());
        assert(positions_of_seq(t) == positions_of(c) + positions_of_seq(
            Seq::<CompModel>::empty(),
        ));
        assert(positions_of(c) + Seq::<OrdIx2>::empty() =~= Seq::<OrdIx2>::empty()
            + positions_of(c));
    } else {
        assert(t[0] == s[0]);
        assert(t.drop_first() =~= s.drop_first().push(c));
        lemma_positions_of_seq_snoc(s.drop_first(), c);
        assert(positions_of_seq(t) == positions_of(s[0]) + (positions_of_seq(s.drop_first())
            + positions_of(c)));
        assert(positions_of(s[0]) + (positions_of_seq(s.drop_first()) + positions_of(c)) =~= (
        positions_of(s[0]) + positions_of_seq(s.drop_first())) + positions_of(c));
    }
}

/// All positions below the components of a group, in depth-first order.
pub fn contents_positions(contents: &Contents) -> (r: Vec<OrdIx2>)
    ensures
        r@ == positions_of_seq(comps_view(contents@)),
{
    let mut positions: Vec<OrdIx2> = Vec::new();
    let mut k: usize = 0;
    proof {
        assert(comps_view(contents@).subrange(0, 0) =~= Seq::<CompModel>::empty());
    }
    while k < contents.len()
        invariant
            k <= contents.len(),
            positions@ == positions_of_seq(comps_view(contents@).subrange(0, k as int)),
        decreases contents.len() - k,
    {
        contents[k].all_positions_push(&mut positions);
        proof {
            let cv = comps_view(contents@);
            lemma_positions_of_seq_snoc(cv.subrange(0, k as int), cv[k as int]);
            assert(cv.subrange(0, k + 1) =~= cv.subrange(0, k as int).push(cv[k as int]));
            assert(cv[k as int] == contents@[k as int]@);
            assert(positions@ =~= positions_of_seq(cv.subrange(0, k + 1)));
        }
        k = k + 1;
    }
    proof {
        assert(comps_view(contents@).subrange(0, contents@.len() as int) =~= comps_view(
            contents@,
        ));
    }
    positions
}

/// Whether two components have the same mathematical shape.
#[verifier::loop_isolation(false)]
pub fn comp_eq(a: &Component, b: &Component) -> (r: bool)
    ensures
        r == (a@ == b@),
    decreases *a,
{
    match a {
        Component::Particle(p) => match b {
            Component::Particle(q) => p.x == q.x && p.y == q.y,
            Component::Container(_) => false,
        },
        Component::Container(x) => match b {
            Component::Particle(_) => false,
            Component::Container(y) => {
            if x.len() != y.len() {
                proof {
                    assert(comps_view(x@).len() != comps_view(y@).len());
                }
                return false;
            }
            let mut k: usize = 0;
            while k < x.len()
                invariant
                    k <= x@.len(),
                    x@.len() == y@.len(),
                    forall|i: int| 0 <= i < k ==> #[trigger] x@[i]@ == y@[i]@,
                    decreases_to!(*a => *x),
                decreases x@.len() - k,
            {
                proof {
                    assert(decreases_to!(*x => x@[k as int]));
                }
                let same = comp_eq(&x[k], &y[k]);
                if !same {
                    proof {
                        assert(comps_view(x@)[k as int] == x@[k as int]@);
                        assert(comps_view(y@)[k as int] == y@[k as int]@);
                        assert(comps_view(x@) != comps_view(y@));
                    }
                    return false;
                }
                k = k + 1;
            }
                proof {
                    assert forall|i: int| 0 <= i < x@.len() implies comps_view(x@)[i]
                        == comps_view(y@)[i] by {
                        assert(comps_view(x@)[i] == x@[i]@);
                        assert(comps_view(y@)[i] == y@[i]@);
                    }
                    assert(comps_view(x@) =~= comps_view(y@));
                }
                true
            },
        },
    }
}

/// Whether two contents lists have the same mathematical shape.
pub fn contents_eq(x: &Contents, y: &Contents) -> (r: bool)
    ensures
        r == (comps_view(x@) == comps_view(y@)),
{
    if x.len() != y.len() {
        proof {
            assert(comps_view(x@).len() != comps_view(y@).len());
        }
        return false;
    }
    let mut k: usize = 0;
    while k < x.len()
        invariant
            k <= x@.len(),
            x@.len() == y@.len(),
            forall|i: int| 0 <= i < k ==> #[trigger] x@[i]@ == y@[i]@,
        decreases x@.len() - k,
    {
        let same = comp_eq(&x[k], &y[k]);
        if !same {
            proof {
                assert(comps_view(x@)[k as int] == x@[k as int]@);
                assert(comps_view(y@)[k as int] == y@[k as int]@);
                assert(comps_view(x@) != comps_view(y@));
            }
            return false;
        }
        k = k + 1;
    }
    proof {
        assert forall|i: int| 0 <= i < x@.len() implies comps_view(x@)[i] == comps_view(y@)[i] by {
            assert(comps_view(x@)[i] == x@[i]@);
            assert(comps_view(y@)[i] == y@[i]@);
        }
        assert(comps_view(x@) =~= comps_view(y@));
    }
    true
}

/// Whether two containers have the same mathematical shape.
pub fn container_eq(a: &Container, b: &Container) -> (r: bool)
    ensures
        r == (a@ == b@),
{
    match (a, b) {
        (Container::NucleusParticle(n), Container::NucleusParticle(m)) => nucleus::nucleus_eq(
            n,
            m,
        ),
    }
}

/// Three-way comparison of positions in their lexicographic order.
pub open spec fn pos_cmp_m(a: OrdIx2, b: OrdIx2) -> int {
    if a.spec_lt(b) {
        -1
    } else if b.spec_lt(a) {
        1
    } else {
        0
    }
}

/// A total order on component shapes: single positions come before
/// groups, positions order lexicographically, and groups order
/// lexicographically by their members. It canonicalizes container
/// tables, so tables built in any insertion order compare equal.
pub open spec fn comp_cmp_m(a: CompModel, b: CompModel) -> int
    decreases a, 0int,
{
    match (a, b) {
        (CompModel::Particle(p), CompModel::Particle(q)) => pos_cmp_m(p, q),
        (CompModel::Particle(_), CompModel::Container(_)) => -1,
        (CompModel::Container(_), CompModel::Particle(_)) => 1,
        (CompModel::Container(x), CompModel::Container(y)) => comps_cmp_m(x, y),
    }
}

pub open spec fn comps_cmp_m(x: Seq<CompModel>, y: Seq<CompModel>) -> int
    decreases x, 1int,
{
    if x.len() == 0 && y.len() == 0 {
        0
    } else if x.len() == 0 {
        -1
    } else if y.len() == 0 {
        1
    } else if comp_cmp_m(x[0], y[0]) != 0 {
        comp_cmp_m(x[0], y[0])
    } else {
        comps_cmp_m(x.drop_first(), y.drop_first())
    }
}

/// The comparison returns zero exactly on equal shapes.
pub proof fn lemma_comp_cmp_eq(a: CompModel, b: CompModel)
    ensures
        comp_cmp_m(a, b) == 0 <==> a == b,
    decreases a, 0int,
{
    match (a, b) {
        (CompModel::Particle(p), CompModel::Particle(q)) => {},
        (CompModel::Container(x), CompModel::Container(y)) => {
            lemma_comps_cmp_eq(x, y);
        },
        _ => {},
    }
}

proof fn lemma_comps_cmp_eq(x: Seq<CompModel>, y: Seq<CompModel>)
    ensures
        comps_cmp_m(x, y) == 0 <==> x == y,
    decreases x, 1int,
{
    if x.len() == 0 && y.len() == 0 {
        assert(x =~= y);
    } else if x.len() == 0 || y.len() == 0 {
        assert(x.len() != y.len());
    } else {
        lemma_comp_cmp_eq(x[0], y[0]);
        lemma_comps_cmp_eq(x.drop_first(), y.drop_first());
        if comps_cmp_m(x, y) == 0 {
            assert(x[0] == y[0]);
            assert(x.drop_first() == y.drop_first());
            assert forall|i: int| 0 <= i < x.len() implies x[i] == y[i] by {
                if i > 0 {
                    assert(x.drop_first()[i - 1] == y.drop_first()[i - 1]);
                }
            }
            assert(x =~= y);
        }
        if x == y {
            assert(x.drop_first() =~= y.drop_first());
        }
    }
}

/// The comparison is antisymmetric.
pub proof fn lemma_comp_cmp_antisym(a: CompModel, b: CompModel)
    ensures
        comp_cmp_m(a, b) == -comp_cmp_m(b, a),
    decreases a, 0int,
{
    match (a, b) {
        (CompModel::Container(x), CompModel::Container(y)) => {
            lemma_comps_cmp_antisym(x, y);
        },
        _ => {},
    }
}

proof fn lemma_comps_cmp_antisym(x: Seq<CompModel>, y: Seq<CompModel>)
    ensures
        comps_cmp_m(x, y) == -comps_cmp_m(y, x),
    decreases x, 1int,
{
    if x.len() == 0 || y.len() == 0 {
    } else {
        lemma_comp_cmp_antisym(x[0], y[0]);
        lemma_comps_cmp_antisym(x.drop_first(), y.drop_first());
    }
}

/// The comparison is transitive; moreover a tie at the ends forces ties
/// throughout, which turns non-strict into strict transitivity.
pub proof fn lemma_comp_cmp_trans(a: CompModel, b: CompModel, c: CompModel)
    requires
        comp_cmp_m(a, b) <= 0,
        comp_cmp_m(b, c) <= 0,
    ensures
        comp_cmp_m(a, c) <= 0,
        comp_cmp_m(a, c) == 0 ==> comp_cmp_m(a, b) == 0 && comp_cmp_m(b, c) == 0,
    decreases a, 0int,
{
    match (a, b, c) {
        (CompModel::Container(x), CompModel::Container(y), CompModel::Container(z)) => {
            lemma_comps_cmp_trans(x, y, z);
        },
        _ => {},
    }
}

proof fn lemma_comps_cmp_trans(x: Seq<CompModel>, y: Seq<CompModel>, z: Seq<CompModel>)
    requires
        comps_cmp_m(x, y) <= 0,
        comps_cmp_m(y, z) <= 0,
    ensures
        comps_cmp_m(x, z) <= 0,
        comps_cmp_m(x, z) == 0 ==> comps_cmp_m(x, y) == 0 && comps_cmp_m(y, z) == 0,
    decreases x, 1int,
{
    if x.len() == 0 {
        if comps_cmp_m(x, z) == 0 {
            assert(z.len() == 0);
            assert(y.len() == 0);
        }
    } else {
        assert(y.len() > 0);
        assert(z.len() > 0);
        lemma_comp_cmp_trans(x[0], y[0], z[0]);
        lemma_comp_cmp_eq(x[0], y[0]);
        lemma_comp_cmp_eq(y[0], z[0]);
        lemma_comp_cmp_eq(x[0], z[0]);
        if comp_cmp_m(x[0], y[0]) == 0 && comp_cmp_m(y[0], z[0]) == 0 {
            assert(x[0] == y[0] && y[0] == z[0]);
            lemma_comps_cmp_trans(x.drop_first(), y.drop_first(), z.drop_first());
        } else {
            assert(comp_cmp_m(x[0], z[0]) < 0);
        }
    }
}

/// The executable three-way comparison, reflecting `comp_cmp_m`.
#[verifier::loop_isolation(false)]
pub fn comp_cmp(a: &Component, b: &Component) -> (r: i8)
    ensures
        r as int == comp_cmp_m(a@, b@),
    decreases *a,
{
    match a {
        Component::Particle(p) => match b {
            Component::Particle(q) => {
                if p.lt(q) {
                    -1
                } else if q.lt(p) {
                    1
                } else {
                    0
                }
            },
            Component::Container(_) => -1,
        },
        Component::Container(x) => match b {
            Component::Particle(_) => 1,
            Component::Container(y) => {
                let mut k: usize = 0;
                let shorter = if x.len() < y.len() {
                    x.len()
                } else {
                    y.len()
                };
                while k < shorter
                    invariant
                        k <= shorter,
                        forall|j: int| 0 <= j < k ==> #[trigger] x@[j]@ == y@[j]@,
                    decreases shorter - k,
                {
                    proof {
                        assert(decreases_to!(*x => x@[k as int]));
                    }
                    let c = comp_cmp(&x[k], &y[k]);
                    if c != 0 {
                        proof {
                            assert forall|j: int| 0 <= j < k implies comps_view(x@)[j]
                                == comps_view(y@)[j] by {
                                assert(comps_view(x@)[j] == x@[j]@);
                                assert(comps_view(y@)[j] == y@[j]@);
                            }
                            lemma_comps_cmp_skip(comps_view(x@), comps_view(y@), k as int);
                            assert(comps_view(x@).skip(k as int)[0] == x@[k as int]@);
                            assert(comps_view(y@).skip(k as int)[0] == y@[k as int]@);
                        }
                        return c;
                    }
                    proof {
                        lemma_comp_cmp_eq(x@[k as int]@, y@[k as int]@);
                    }
                    k = k + 1;
                }
                proof {
                    assert forall|j: int| 0 <= j < shorter implies comps_view(x@)[j]
                        == comps_view(y@)[j] by {
                        assert(comps_view(x@)[j] == x@[j]@);
                        assert(comps_view(y@)[j] == y@[j]@);
                    }
                    lemma_comps_cmp_skip(comps_view(x@), comps_view(y@), shorter as int);
                }
                if x.len() < y.len() {
                    -1
                } else if y.len() < x.len() {
                    1
                } else {
                    proof {
                        assert(comps_view(x@).skip(shorter as int) =~= Seq::<
                            CompModel,
                        >::empty());
                        assert(comps_view(y@).skip(shorter as int) =~= Seq::<
                            CompModel,
                        >::empty());
                    }
                    0
                }
            },
        },
    }
}

/// Dropping an equal prefix does not change the comparison.
proof fn lemma_comps_cmp_skip(x: Seq<CompModel>, y: Seq<CompModel>, k: int)
    requires
        0 <= k <= x.len(),
        k <= y.len(),
        forall|j: int| 0 <= j < k ==> x[j] == y[j],
    ensures
        comps_cmp_m(x, y) == comps_cmp_m(x.skip(k), y.skip(k)),
    decreases k,
{
    if k == 0 {
        assert(x.skip(0) =~= x);
        assert(y.skip(0) =~= y);
    } else {
        assert(x.len() > 0 && y.len() > 0);
        assert(x[0] == y[0]);
        lemma_comp_cmp_eq(x[0], y[0]);
        assert forall|j: int| 0 <= j < k - 1 implies x.drop_first()[j] == y.drop_first()[j] by {
            assert(x.drop_first()[j] == x[j + 1]);
            assert(y.drop_first()[j] == y[j + 1]);
        }
        lemma_comps_cmp_skip(x.drop_first(), y.drop_first(), k - 1);
        assert(x.drop_first().skip(k - 1) =~= x.skip(k));
        assert(y.drop_first().skip(k - 1) =~= y.skip(k));
    }
}

pub trait ContainerTrait {
    /// The components bonded by this container.
    spec fn spec_contents(&self) -> Seq<CompModel>;

    /// The aggregate charge of the bonded group.
    spec fn spec_charge(&self) -> int;

    /// Whether the group is small enough for its charge to fit comfortably
    /// in `i32` arithmetic; exceeding it is a fatal configuration error.
    spec fn charge_ok(&self) -> bool;

    fn contents(&self) -> (r: &Contents)
        ensures
            comps_view(r@) == self.spec_contents(),
    ;

    fn charge(&self) -> (r: i32)
        requires
            self.charge_ok(),
        ensures
            r as int == self.spec_charge(),
    ;

    /// The aggregate colour of the bonded group.
    spec fn spec_colour(&self) -> Colour;

    fn colour(&self) -> (r: Colour)
        ensures
            r == self.spec_colour(),
    ;
}

#[derive(PartialEq, Eq, Hash, Debug)]
pub enum Container {
    NucleusParticle(NucleusParticle),
}

/// The mathematical shape of a `Container`.
#[verifier::ext_equal]
pub ghost enum ContainerModel {
    NucleusParticle(nucleus::NucleusModel),
}

impl View for Container {
    type V = ContainerModel;

    open spec fn view(&self) -> ContainerModel {
        match self {
            Container::NucleusParticle(n) => ContainerModel::NucleusParticle(n@),
        }
    }
}

impl ContainerModel {
    pub open spec fn contents(self) -> Seq<CompModel> {
        match self {
            ContainerModel::NucleusParticle(n) => n.contents,
        }
    }

    pub open spec fn charge(self) -> int {
        match self {
            ContainerModel::NucleusParticle(n) => n.charge(),
        }
    }

    pub open spec fn charge_ok(self) -> bool {
        match self {
            ContainerModel::NucleusParticle(n) => n.protons.len() <= nucleus::MAX_PROTONS,
        }
    }
}

impl ContainerTrait for Container {
    open spec fn spec_contents(&self) -> Seq<CompModel> {
        self@.contents()
    }

    open spec fn spec_charge(&self) -> int {
        self@.charge()
    }

    open spec fn charge_ok(&self) -> bool {
        self@.charge_ok()
    }

    open spec fn spec_colour(&self) -> Colour {
        match self {
            Container::NucleusParticle(n) => ContainerTrait::spec_colour(n),
        }
    }

    fn contents(&self) -> (r: &Contents) {
        match self {
            Container::NucleusParticle(n) => ContainerTrait::contents(n),
        }
    }

    fn charge(&self) -> (r: i32) {
        match self {
            Container::NucleusParticle(n) => ContainerTrait::charge(n),
        }
    }

    fn colour(&self) -> Colour {
        match self {
            Container::NucleusParticle(n) => ContainerTrait::colour(n),
        }
    }
}

} // verus!
