//! The board: a rectangular grid of particles, a parallel grid of
//! obstacles, an unordered set of goal cells, and the container lookup
//! table. Boards are value types: move generation clones them and never
//! mutates the input. Every operation is specified against `BoardModel`,
//! the board's mathematical shape.

use vstd::prelude::*;

use crate::container::{
    clone_contents, comp_cmp, comp_cmp_m, comp_eq, comps_view, container_eq,
    lemma_comp_cmp_antisym, lemma_comp_cmp_eq, lemma_comp_cmp_trans, CompModel, Component,
    Container, ContainerLUT, ContainerModel, ContainerTrait, Contents,
};
use crate::obstacle::Obstacle;
use crate::ordered::{canonical_pos_vec, canonicalize_pos, clone_pos_vec, strictly_sorted_pos, OrdIx2};
use crate::particle::Particle;
use crate::property::Direction;

verus! {

/// The bound within which every charge on a well-formed board stays: a
/// lone particle contributes at most 3 and a container at most
/// `3 * MAX_PROTONS`, so axis differences times a particle charge fit in
/// `i32` arithmetic.
pub const CHARGE_LIMIT: i32 = 0x300_0000;

/// The mathematical shape of a board.
#[verifier::ext_equal]
pub ghost struct BoardModel {
    pub width: nat,
    pub height: nat,
    pub goals: Seq<OrdIx2>,
    pub lut: Seq<(CompModel, ContainerModel)>,
    pub particles: Seq<Particle>,
    pub obstacles: Seq<Obstacle>,
}

impl BoardModel {
    /// Whether a position lies on the board.
    pub open spec fn in_bounds(self, p: OrdIx2) -> bool {
        p.x < self.width && p.y < self.height
    }

    /// The cell index of a position: column-major, `x` outermost.
    pub open spec fn idx(self, p: OrdIx2) -> int {
        p.x * self.height + p.y
    }

    pub open spec fn particle_at(self, p: OrdIx2) -> Particle {
        self.particles[self.idx(p)]
    }

    pub open spec fn obstacle_at(self, p: OrdIx2) -> Obstacle {
        self.obstacles[self.idx(p)]
    }

    /// Both grids cover exactly the board's cells.
    pub open spec fn grids_wf(self) -> bool {
        &&& self.particles.len() == self.width * self.height
        &&& self.obstacles.len() == self.width * self.height
        &&& self.width * self.height <= usize::MAX
        &&& self.width <= usize::MAX
        &&& self.height <= usize::MAX
    }

    /// A well-formed board: grids of the right size, goals canonical and
    /// on the board, the container table canonically sorted by key, and
    /// every container small enough for charge arithmetic.
    pub open spec fn wf(self) -> bool {
        &&& self.grids_wf()
        &&& strictly_sorted_pos(self.goals)
        &&& forall|i: int| 0 <= i < self.goals.len() ==> self.in_bounds(#[trigger] self.goals[i])
        &&& forall|i: int| 0 <= i < self.lut.len() ==> (#[trigger] self.lut[i]).1.charge_ok()
        &&& lut_sorted(self.lut)
    }

    /// No cell holds a muon: its movement rule is outside this design's
    /// scope, so move generation is only specified for muon-free boards.
    pub open spec fn muon_free(self) -> bool {
        forall|i: int|
            0 <= i < self.particles.len() ==> !((#[trigger] self.particles[i]) is Muon)
    }

    /// Whether every goal cell is occupied.
    pub open spec fn solved(self) -> bool {
        forall|i: int|
            0 <= i < self.goals.len() ==> !(self.particle_at(#[trigger] self.goals[i]) is Empty)
    }

    /// The board with one particle cell replaced.
    pub open spec fn set_particle(self, p: OrdIx2, v: Particle) -> BoardModel {
        BoardModel { particles: self.particles.update(self.idx(p), v), ..self }
    }

    /// The board with one obstacle cell replaced.
    pub open spec fn set_obstacle(self, p: OrdIx2, v: Obstacle) -> BoardModel {
        BoardModel { obstacles: self.obstacles.update(self.idx(p), v), ..self }
    }

    /// The board after moving the particle at `from` to `to` (for
    /// `from != to`): `to` takes the moved particle and `from` empties.
    pub open spec fn move_particle_m(self, from: OrdIx2, to: OrdIx2) -> BoardModel {
        self.set_particle(to, self.particle_at(from)).set_particle(
            from,
            Particle::Empty(crate::particle::Empty),
        )
    }

    /// The board with the particle at `p` removed.
    pub open spec fn remove_particle_m(self, p: OrdIx2) -> BoardModel {
        self.set_particle(p, Particle::Empty(crate::particle::Empty))
    }

    /// The board after a shockwave at `center`: every obstacle within
    /// Manhattan distance `strength` is cleared; particles are untouched.
    pub open spec fn annihilate_m(self, center: OrdIx2, strength: int) -> BoardModel {
        BoardModel {
            obstacles: Seq::new(
                self.obstacles.len(),
                |i: int|
                    if self.height > 0 && manhattan(
                        OrdIx2 { x: (i / self.height as int) as usize, y: (i % self.height as int) as usize },
                        center,
                    ) <= strength {
                        Obstacle::Empty(crate::obstacle::Empty)
                    } else {
                        self.obstacles[i]
                    },
            ),
            ..self
        }
    }

    /// The adjacent position one step along `d`, or `None` at the edge.
    pub open spec fn step_m(self, d: Direction, p: OrdIx2) -> Option<OrdIx2> {
        match d {
            Direction::Right => if p.x + 1 < self.width && p.x < usize::MAX {
                Some(OrdIx2 { x: (p.x + 1) as usize, y: p.y })
            } else {
                None
            },
            Direction::Down => if p.y + 1 < self.height && p.y < usize::MAX {
                Some(OrdIx2 { x: p.x, y: (p.y + 1) as usize })
            } else {
                None
            },
            Direction::Left => if p.x > 0 {
                Some(OrdIx2 { x: (p.x - 1) as usize, y: p.y })
            } else {
                None
            },
            Direction::Up => if p.y > 0 {
                Some(OrdIx2 { x: p.x, y: (p.y - 1) as usize })
            } else {
                None
            },
        }
    }

    /// How many steps along `d` remain before the board edge.
    pub open spec fn ray_len(self, d: Direction, p: OrdIx2) -> int {
        match d {
            Direction::Right => self.width - 1 - p.x,
            Direction::Down => self.height - 1 - p.y,
            Direction::Left => p.x as int,
            Direction::Up => p.y as int,
        }
    }
}

/// The Manhattan distance between two positions.
pub open spec fn manhattan(a: OrdIx2, b: OrdIx2) -> int {
    (if a.x >= b.x {
        a.x - b.x
    } else {
        b.x - a.x
    }) + (if a.y >= b.y {
        a.y - b.y
    } else {
        b.y - a.y
    })
}

/// Distinct in-bounds positions have distinct cell indices.
pub proof fn lemma_idx_injective(m: BoardModel, p: OrdIx2, q: OrdIx2)
    requires
        m.in_bounds(p),
        m.in_bounds(q),
        m.idx(p) == m.idx(q),
    ensures
        p == q,
{
    assert(p.x == q.x && p.y == q.y) by (nonlinear_arith)
        requires
            p.x < m.width,
            q.x < m.width,
            p.y < m.height,
            q.y < m.height,
            p.x * m.height + p.y == q.x * m.height + q.y,
    ;
}

/// The cell index of an in-bounds position is a valid grid index.
pub proof fn lemma_idx_bounds(m: BoardModel, p: OrdIx2)
    requires
        m.in_bounds(p),
    ensures
        0 <= m.idx(p) < m.width * m.height,
{
    assert(p.x * m.height + p.y < m.width * m.height) by (nonlinear_arith)
        requires
            p.x < m.width,
            p.y < m.height,
    ;
}

#[derive(PartialEq, Eq, Hash, Debug)]
pub struct Board {
    width: usize,
    height: usize,
    goals: Vec<OrdIx2>,
    container_lut: ContainerLUT,
    particles: Vec<Particle>,
    obstacles: Vec<Obstacle>,
}

impl View for Board {
    type V = BoardModel;

    closed spec fn view(&self) -> BoardModel {
        BoardModel {
            width: self.width as nat,
            height: self.height as nat,
            goals: self.goals@,
            lut: lut_view(self.container_lut@),
            particles: self.particles@,
            obstacles: self.obstacles@,
        }
    }
}

/// The views of a container table's entries.
pub open spec fn lut_view(l: Seq<(Component, Container)>) -> Seq<(CompModel, ContainerModel)> {
    Seq::new(l.len(), |i: int| if 0 <= i < l.len() { (l[i].0@, l[i].1@) } else { arbitrary() })
}

impl Board {
    pub fn particles(&self) -> (r: &Vec<Particle>)
        ensures
            r@ == self@.particles,
    {
        &self.particles
    }

    pub fn obstacles(&self) -> (r: &Vec<Obstacle>)
        ensures
            r@ == self@.obstacles,
    {
        &self.obstacles
    }

    pub fn width(&self) -> (r: usize)
        ensures
            r == self@.width,
    {
        self.width
    }

    pub fn height(&self) -> (r: usize)
        ensures
            r == self@.height,
    {
        self.height
    }

    /// An empty board of the given dimensions: all cells empty, the goal
    /// set canonicalized, no containers.
    pub fn new(width: usize, height: usize, goals: Vec<OrdIx2>) -> (r: Self)
        requires
            width * height <= usize::MAX,
            forall|i: int|
                0 <= i < goals@.len() ==> (#[trigger] goals@[i]).x < width && goals@[i].y < height,
        ensures
            r@ == (BoardModel {
                width: width as nat,
                height: height as nat,
                goals: canonicalize_pos(goals@),
                lut: Seq::empty(),
                particles: Seq::new((width * height) as nat, |i: int| Particle::Empty(crate::particle::Empty)),
                obstacles: Seq::new((width * height) as nat, |i: int| Obstacle::Empty(crate::obstacle::Empty)),
            }),
            r@.wf(),
            r@.muon_free(),
    {
        let ghost goals0 = goals@;
        let goals = canonical_pos_vec(goals);
        let n = width * height;
        let mut particles: Vec<Particle> = Vec::new();
        let mut k: usize = 0;
        while k < n
            invariant
                k <= n,
                particles@.len() == k,
                forall|i: int|
                    0 <= i < k ==> #[trigger] particles@[i] == Particle::Empty(
                        crate::particle::Empty,
                    ),
            decreases n - k,
        {
            particles.push(Particle::Empty(crate::particle::Empty));
            k = k + 1;
        }
        let mut obstacles: Vec<Obstacle> = Vec::new();
        let mut k2: usize = 0;
        while k2 < n
            invariant
                k2 <= n,
                obstacles@.len() == k2,
                forall|i: int|
                    0 <= i < k2 ==> #[trigger] obstacles@[i] == Obstacle::Empty(
                        crate::obstacle::Empty,
                    ),
            decreases n - k2,
        {
            obstacles.push(Obstacle::Empty(crate::obstacle::Empty));
            k2 = k2 + 1;
        }
        let r = Board { width, height, goals, container_lut: Vec::new(), particles, obstacles };
        proof {
            crate::ordered::lemma_canonicalize_pos(goals0);
            assert forall|i: int| 0 <= i < r@.goals.len() implies r@.in_bounds(
                #[trigger] r@.goals[i],
            ) by {
                assert(canonicalize_pos(goals0).contains(canonicalize_pos(goals0)[i]));
                let j = choose|j: int| 0 <= j < goals0.len() && goals0[j] == r@.goals[i];
            }
            assert(r@.particles =~= Seq::new(
                (width * height) as nat,
                |i: int| Particle::Empty(crate::particle::Empty),
            ));
            assert(r@.obstacles =~= Seq::new(
                (width * height) as nat,
                |i: int| Obstacle::Empty(crate::obstacle::Empty),
            ));
            assert(r@.lut =~= Seq::<(CompModel, ContainerModel)>::empty());
            assert(r@ =~= (BoardModel {
                width: width as nat,
                height: height as nat,
                goals: canonicalize_pos(goals0),
                lut: Seq::empty(),
                particles: Seq::new(
                    (width * height) as nat,
                    |i: int| Particle::Empty(crate::particle::Empty),
                ),
                obstacles: Seq::new(
                    (width * height) as nat,
                    |i: int| Obstacle::Empty(crate::obstacle::Empty),
                ),
            }));
        }
        r
    }

    /// The cell index of an in-bounds position.
    fn index_of(&self, pos: OrdIx2) -> (r: usize)
        requires
            self@.grids_wf(),
            self@.in_bounds(pos),
        ensures
            r == self@.idx(pos),
            r < self@.particles.len(),
    {
        proof {
            lemma_idx_bounds(self@, pos);
        }
        pos.x * self.height + pos.y
    }

    /// The particle at an in-bounds position.
    pub fn get_particle(&self, pos: OrdIx2) -> (r: Particle)
        requires
            self@.grids_wf(),
            self@.in_bounds(pos),
        ensures
            r == self@.particle_at(pos),
    {
        let i = self.index_of(pos);
        self.particles[i]
    }

    /// The obstacle at an in-bounds position.
    pub fn get_obstacle(&self, pos: OrdIx2) -> (r: Obstacle)
        requires
            self@.grids_wf(),
            self@.in_bounds(pos),
        ensures
            r == self@.obstacle_at(pos),
    {
        let i = self.index_of(pos);
        self.obstacles[i]
    }

    /// Whether every goal cell holds a non-empty particle.
    pub fn is_solved(&self) -> (r: bool)
        requires
            self@.wf(),
        ensures
            r == self@.solved(),
    {
        let mut k: usize = 0;
        while k < self.goals.len()
            invariant
                self@.wf(),
                k <= self@.goals.len(),
                forall|i: int|
                    0 <= i < k ==> !(self@.particle_at(#[trigger] self@.goals[i]) is Empty),
            decreases self@.goals.len() - k,
        {
            let g = self.goals[k];
            let p = self.get_particle(g);
            if matches!(p, Particle::Empty(_)) {
                return false;
            }
            k = k + 1;
        }
        true
    }

    /// Moves the particle at `from_pos` to `to_pos`, returning the moved
    /// particle; a no-op returning `None` if the two coincide. The vacated
    /// cell is left empty.
    pub fn move_particle(&mut self, from_pos: OrdIx2, to_pos: OrdIx2) -> (r: Option<Particle>)
        requires
            old(self)@.grids_wf(),
            old(self)@.in_bounds(from_pos),
            old(self)@.in_bounds(to_pos),
        ensures
            from_pos == to_pos ==> r == None::<Particle> && *final(self) == *old(self),
            from_pos != to_pos ==> r == Some(old(self)@.particle_at(from_pos)) && final(self)@
                == old(self)@.move_particle_m(from_pos, to_pos),
            old(self)@.wf() ==> final(self)@.wf(),
            old(self)@.wf() && old(self)@.muon_free() ==> final(self)@.muon_free(),
    {
        proof {
            if old(self)@.wf() {
                lemma_idx_bounds(old(self)@, from_pos);
                lemma_idx_bounds(old(self)@, to_pos);
            }
        }
        if from_pos.x == to_pos.x && from_pos.y == to_pos.y {
            return None;
        }
        let moved = self.get_particle(from_pos);
        let ti = self.index_of(to_pos);
        self.particles.set(ti, moved);
        let fi = self.index_of(from_pos);
        proof {
            if old(self)@.idx(from_pos) == old(self)@.idx(to_pos) {
                lemma_idx_injective(old(self)@, from_pos, to_pos);
            }
        }
        self.particles.set(fi, Particle::Empty(crate::particle::Empty));
        proof {
            assert(final(self)@ =~= old(self)@.move_particle_m(from_pos, to_pos));
            if old(self)@.wf() {
                assert(self@.lut =~= old(self)@.lut);
                assert(self@.wf());
            }
        }
        Some(moved)
    }

    /// Places a particle, overwriting the cell and returning its
    /// previous occupant.
    pub fn add_particle<P>(&mut self, particle: P, pos: OrdIx2) -> (r: Particle) where
        Particle: From<P>
        requires
            old(self)@.grids_wf(),
            old(self)@.in_bounds(pos),
            <Particle as vstd::std_specs::convert::FromSpec<P>>::obeys_from_spec(),
        ensures
            r == old(self)@.particle_at(pos),
            final(self)@ == old(self)@.set_particle(
                pos,
                <Particle as vstd::std_specs::convert::FromSpec<P>>::from_spec(particle),
            ),
            old(self)@.wf() ==> final(self)@.wf(),
            old(self)@.wf() && old(self)@.muon_free() && !(<Particle as vstd::std_specs::convert::FromSpec<P>>::from_spec(particle) is Muon) ==> final(self)@.muon_free(),
    {
        proof {
            if old(self)@.wf() {
                lemma_idx_bounds(old(self)@, pos);
            }
        }
        let previous = self.get_particle(pos);
        let p = Particle::from(particle);
        let i = self.index_of(pos);
        self.particles.set(i, p);
        proof {
            if old(self)@.wf() {
                assert(self@.lut =~= old(self)@.lut);
                assert(self@.wf());
            }
        }
        previous
    }

    /// Empties a cell, returning the particle that occupied it, or `None`
    /// if the position lies off the board.
    pub fn remove_particle(&mut self, pos: OrdIx2) -> (r: Option<Particle>)
        requires
            old(self)@.grids_wf(),
        ensures
            !old(self)@.in_bounds(pos) ==> r == None::<Particle> && *final(self) == *old(self),
            old(self)@.in_bounds(pos) ==> r == Some(old(self)@.particle_at(pos)) && final(self)@
                == old(self)@.remove_particle_m(pos),
            old(self)@.wf() ==> final(self)@.wf(),
            old(self)@.wf() && old(self)@.muon_free() ==> final(self)@.muon_free(),
    {
        if pos.x >= self.width || pos.y >= self.height {
            return None;
        }
        proof {
            if old(self)@.wf() {
                lemma_idx_bounds(old(self)@, pos);
            }
        }
        let p = self.get_particle(pos);
        let i = self.index_of(pos);
        self.particles.set(i, Particle::Empty(crate::particle::Empty));
        proof {
            if old(self)@.wf() {
                assert(self@.lut =~= old(self)@.lut);
                assert(self@.wf());
                if old(self)@.muon_free() {
                    assert(self@.muon_free());
                }
            }
        }
        Some(p)
    }

    /// Places an obstacle, overwriting the cell and returning its
    /// previous occupant.
    pub fn add_obstacle<O>(&mut self, obstacle: O, pos: OrdIx2) -> (r: Obstacle) where
        Obstacle: From<O>
        requires
            old(self)@.grids_wf(),
            old(self)@.in_bounds(pos),
            <Obstacle as vstd::std_specs::convert::FromSpec<O>>::obeys_from_spec(),
        ensures
            r == old(self)@.obstacle_at(pos),
            final(self)@ == old(self)@.set_obstacle(
                pos,
                <Obstacle as vstd::std_specs::convert::FromSpec<O>>::from_spec(obstacle),
            ),
            old(self)@.wf() ==> final(self)@.wf(),
            old(self)@.muon_free() ==> final(self)@.muon_free(),
    {
        proof {
            if old(self)@.wf() {
                lemma_idx_bounds(old(self)@, pos);
            }
        }
        let previous = self.get_obstacle(pos);
        let o = Obstacle::from(obstacle);
        let i = self.index_of(pos);
        self.obstacles.set(i, o);
        proof {
            if old(self)@.wf() {
                assert(self@.lut =~= old(self)@.lut);
                assert(self@.wf());
            }
        }
        previous
    }

    /// Clears a cell's obstacle, returning what occupied it, or `None` if
    /// the position lies off the board.
    pub fn remove_obstacle(&mut self, pos: OrdIx2) -> (r: Option<Obstacle>)
        requires
            old(self)@.grids_wf(),
        ensures
            !old(self)@.in_bounds(pos) ==> r == None::<Obstacle> && *final(self) == *old(self),
            old(self)@.in_bounds(pos) ==> r == Some(old(self)@.obstacle_at(pos)) && final(self)@
                == old(self)@.set_obstacle(pos, Obstacle::Empty(crate::obstacle::Empty)),
            old(self)@.wf() ==> final(self)@.wf(),
            old(self)@.muon_free() ==> final(self)@.muon_free(),
    {
        if pos.x >= self.width || pos.y >= self.height {
            return None;
        }
        proof {
            if old(self)@.wf() {
                lemma_idx_bounds(old(self)@, pos);
            }
        }
        let o = self.get_obstacle(pos);
        let i = self.index_of(pos);
        self.obstacles.set(i, Obstacle::Empty(crate::obstacle::Empty));
        proof {
            if old(self)@.wf() {
                assert(self@.lut =~= old(self)@.lut);
                assert(self@.wf());
            }
        }
        Some(o)
    }

    /// The position one step left, or `None` at the edge.
    pub fn left(&self, pos: OrdIx2) -> (r: Option<OrdIx2>)
        ensures
            r == self@.step_m(Direction::Left, pos),
    {
        if pos.x == 0 {
            return None;
        }
        Some(OrdIx2 { x: pos.x - 1, y: pos.y })
    }

    /// The position one step right, or `None` at the edge.
    pub fn right(&self, pos: OrdIx2) -> (r: Option<OrdIx2>)
        ensures
            r == self@.step_m(Direction::Right, pos),
    {
        if self.width == 0 || pos.x >= self.width - 1 {
            return None;
        }
        Some(OrdIx2 { x: pos.x + 1, y: pos.y })
    }

    /// The position one step up, or `None` at the edge.
    pub fn up(&self, pos: OrdIx2) -> (r: Option<OrdIx2>)
        ensures
            r == self@.step_m(Direction::Up, pos),
    {
        if pos.y == 0 {
            return None;
        }
        Some(OrdIx2 { x: pos.x, y: pos.y - 1 })
    }

    /// The position one step down, or `None` at the edge.
    pub fn down(&self, pos: OrdIx2) -> (r: Option<OrdIx2>)
        ensures
            r == self@.step_m(Direction::Down, pos),
    {
        if self.height == 0 || pos.y >= self.height - 1 {
            return None;
        }
        Some(OrdIx2 { x: pos.x, y: pos.y + 1 })
    }

    /// The adjacent position along `direction`, or `None` at the edge.
    pub fn move_direction(&self, direction: Direction, pos: OrdIx2) -> (r: Option<OrdIx2>)
        ensures
            r == self@.step_m(direction, pos),
    {
        match direction {
            Direction::Right => self.right(pos),
            Direction::Down => self.down(pos),
            Direction::Left => self.left(pos),
            Direction::Up => self.up(pos),
        }
    }

    /// The positions from `pos` leftward to the edge, nearest first.
    pub fn left_axis_indices(&self, pos: OrdIx2) -> (r: Vec<OrdIx2>)
        ensures
            r@.len() == pos.x,
            forall|i: int|
                0 <= i < r@.len() ==> #[trigger] r@[i] == (OrdIx2 {
                    x: (pos.x - 1 - i) as usize,
                    y: pos.y,
                }),
    {
        let mut r: Vec<OrdIx2> = Vec::new();
        let mut x = pos.x;
        while x > 0
            invariant
                x <= pos.x,
                r@.len() == pos.x - x,
                forall|i: int|
                    0 <= i < r@.len() ==> #[trigger] r@[i] == (OrdIx2 {
                        x: (pos.x - 1 - i) as usize,
                        y: pos.y,
                    }),
            decreases x,
        {
            x = x - 1;
            r.push(OrdIx2 { x, y: pos.y });
        }
        r
    }

    /// The positions from `pos` rightward to the edge, nearest first.
    pub fn right_axis_indices(&self, pos: OrdIx2) -> (r: Vec<OrdIx2>)
        ensures
            pos.x < self@.width ==> r@.len() == self@.width - 1 - pos.x,
            pos.x >= self@.width ==> r@.len() == 0,
            forall|i: int|
                0 <= i < r@.len() ==> #[trigger] r@[i] == (OrdIx2 {
                    x: (pos.x + 1 + i) as usize,
                    y: pos.y,
                }),
    {
        let mut r: Vec<OrdIx2> = Vec::new();
        if pos.x >= self.width {
            return r;
        }
        let mut x = pos.x + 1;
        while x < self.width
            invariant
                pos.x + 1 <= x <= self@.width,
                r@.len() == x - pos.x - 1,
                forall|i: int|
                    0 <= i < r@.len() ==> #[trigger] r@[i] == (OrdIx2 {
                        x: (pos.x + 1 + i) as usize,
                        y: pos.y,
                    }),
            decreases self@.width - x,
        {
            r.push(OrdIx2 { x, y: pos.y });
            x = x + 1;
        }
        r
    }

    /// The positions from `pos` upward to the edge, nearest first.
    pub fn up_axis_indices(&self, pos: OrdIx2) -> (r: Vec<OrdIx2>)
        ensures
            r@.len() == pos.y,
            forall|i: int|
                0 <= i < r@.len() ==> #[trigger] r@[i] == (OrdIx2 {
                    x: pos.x,
                    y: (pos.y - 1 - i) as usize,
                }),
    {
        let mut r: Vec<OrdIx2> = Vec::new();
        let mut y = pos.y;
        while y > 0
            invariant
                y <= pos.y,
                r@.len() == pos.y - y,
                forall|i: int|
                    0 <= i < r@.len() ==> #[trigger] r@[i] == (OrdIx2 {
                        x: pos.x,
                        y: (pos.y - 1 - i) as usize,
                    }),
            decreases y,
        {
            y = y - 1;
            r.push(OrdIx2 { x: pos.x, y });
        }
        r
    }

    /// The positions from `pos` downward to the edge, nearest first.
    pub fn down_axis_indices(&self, pos: OrdIx2) -> (r: Vec<OrdIx2>)
        ensures
            pos.y < self@.height ==> r@.len() == self@.height - 1 - pos.y,
            pos.y >= self@.height ==> r@.len() == 0,
            forall|i: int|
                0 <= i < r@.len() ==> #[trigger] r@[i] == (OrdIx2 {
                    x: pos.x,
                    y: (pos.y + 1 + i) as usize,
                }),
    {
        let mut r: Vec<OrdIx2> = Vec::new();
        if pos.y >= self.height {
            return r;
        }
        let mut y = pos.y + 1;
        while y < self.height
            invariant
                pos.y + 1 <= y <= self@.height,
                r@.len() == y - pos.y - 1,
                forall|i: int|
                    0 <= i < r@.len() ==> #[trigger] r@[i] == (OrdIx2 {
                        x: pos.x,
                        y: (pos.y + 1 + i) as usize,
                    }),
            decreases self@.height - y,
        {
            r.push(OrdIx2 { x: pos.x, y });
            y = y + 1;
        }
        r
    }

    /// Clears every obstacle within Manhattan distance `strength` of
    /// `pos`, clipped to the board: the shockwave after an annihilation.
    pub fn annihilate(&mut self, pos: OrdIx2, strength: usize)
        requires
            old(self)@.grids_wf(),
            old(self)@.in_bounds(pos),
        ensures
            final(self)@ == old(self)@.annihilate_m(pos, strength as int),
            old(self)@.wf() ==> final(self)@.wf(),
            old(self)@.muon_free() ==> final(self)@.muon_free(),
    {
        let x = pos.x;
        let y = pos.y;

        let min_x = x.saturating_sub(strength);
        let min_y = y.saturating_sub(strength);
        let max_x = if self.width - x > strength {
            x + strength + 1
        } else {
            self.width
        };
        let max_y = if self.height - y > strength {
            y + strength + 1
        } else {
            self.height
        };

        let ghost m0 = old(self)@;
        let ghost target = old(self)@.annihilate_m(pos, strength as int);
        let mut j = min_y;
        while j < max_y
            invariant
                min_y <= j <= max_y,
                max_x <= self@.width,
                max_y <= self@.height,
                min_x <= max_x,
                min_y <= max_y,
                min_x == if x >= strength { (x - strength) as int } else { 0int },
                min_y == if y >= strength { (y - strength) as int } else { 0int },
                max_x as int == if m0.width - x > strength { x + strength + 1 } else { m0.width as int },
                max_y as int == if m0.height - y > strength { y + strength + 1 } else { m0.height as int },
                x == pos.x,
                y == pos.y,
                m0.grids_wf(),
                m0.in_bounds(pos),
                self.width == m0.width,
                self.height == m0.height,
                self@.particles == m0.particles,
                self@.goals == m0.goals,
                self@.lut == m0.lut,
                self@.obstacles.len() == m0.obstacles.len(),
                forall|q: OrdIx2|
                    m0.in_bounds(q) ==> #[trigger] self@.obstacle_at(q) == (if q.y < j
                        && manhattan(q, pos) <= strength {
                        Obstacle::Empty(crate::obstacle::Empty)
                    } else {
                        m0.obstacle_at(q)
                    }),
            decreases max_y - j,
        {
            let mut i = min_x;
            while i < max_x
                invariant
                    min_x <= i <= max_x,
                    max_x <= self@.width,
                    max_y <= self@.height,
                    j < max_y,
                    min_x == if x >= strength { (x - strength) as int } else { 0int },
                    min_y <= j,
                    min_y == if y >= strength { (y - strength) as int } else { 0int },
                    max_x as int == if m0.width - x > strength { x + strength + 1 } else { m0.width as int },
                    x == pos.x,
                    y == pos.y,
                    m0.grids_wf(),
                    m0.in_bounds(pos),
                    self.width == m0.width,
                    self.height == m0.height,
                    self@.particles == m0.particles,
                    self@.goals == m0.goals,
                    self@.lut == m0.lut,
                    self@.obstacles.len() == m0.obstacles.len(),
                    forall|q: OrdIx2|
                        m0.in_bounds(q) ==> #[trigger] self@.obstacle_at(q) == (if (q.y < j || (
                        q.y == j && q.x < i)) && manhattan(q, pos) <= strength {
                            Obstacle::Empty(crate::obstacle::Empty)
                        } else {
                            m0.obstacle_at(q)
                        }),
                decreases max_x - i,
            {
                let dx = if x >= i { x - i } else { i - x };
                let dy = if y >= j { y - j } else { j - y };
                proof {
                    assert(dx + dy <= usize::MAX) by (nonlinear_arith)
                        requires
                            dx < m0.width,
                            dy < m0.height,
                            1 <= m0.width,
                            1 <= m0.height,
                            m0.width * m0.height <= usize::MAX,
                    ;
                }
                let dist = dx + dy;
                let ghost pre = self@;
                if dist <= strength {
                    let q = OrdIx2 { x: i, y: j };
                    let qi = self.index_of(q);
                    self.obstacles.set(qi, Obstacle::Empty(crate::obstacle::Empty));
                    proof {
                        assert forall|q2: OrdIx2| m0.in_bounds(q2) implies #[trigger] self@
                            .obstacle_at(q2) == (if (q2.y < j || (q2.y == j && q2.x < i + 1))
                            && manhattan(q2, pos) <= strength {
                            Obstacle::Empty(crate::obstacle::Empty)
                        } else {
                            m0.obstacle_at(q2)
                        }) by {
                            assert(pre.obstacle_at(q2) == (if (q2.y < j || (q2.y == j && q2.x
                                < i)) && manhattan(q2, pos) <= strength {
                                Obstacle::Empty(crate::obstacle::Empty)
                            } else {
                                m0.obstacle_at(q2)
                            }));
                            lemma_idx_bounds(m0, q2);
                            lemma_idx_bounds(m0, q);
                            if pre.idx(q2) == pre.idx(q) {
                                lemma_idx_injective(pre, q2, q);
                            }
                            assert(manhattan(q, pos) == dx + dy);
                        }
                    }
                } else {
                    proof {
                        assert forall|q2: OrdIx2| m0.in_bounds(q2) implies #[trigger] self@
                            .obstacle_at(q2) == (if (q2.y < j || (q2.y == j && q2.x < i + 1))
                            && manhattan(q2, pos) <= strength {
                            Obstacle::Empty(crate::obstacle::Empty)
                        } else {
                            m0.obstacle_at(q2)
                        }) by {
                            assert(pre.obstacle_at(q2) == (if (q2.y < j || (q2.y == j && q2.x
                                < i)) && manhattan(q2, pos) <= strength {
                                Obstacle::Empty(crate::obstacle::Empty)
                            } else {
                                m0.obstacle_at(q2)
                            }));
                            if q2.y == j && q2.x == i {
                                assert(manhattan(q2, pos) == dx + dy);
                            }
                        }
                    }
                }
                i = i + 1;
            }
            proof {
                assert forall|q2: OrdIx2| m0.in_bounds(q2) implies #[trigger] self@.obstacle_at(
                    q2,
                ) == (if q2.y < j + 1 && manhattan(q2, pos) <= strength {
                    Obstacle::Empty(crate::obstacle::Empty)
                } else {
                    m0.obstacle_at(q2)
                }) by {
                    if q2.y == j && manhattan(q2, pos) <= strength {
                        // Any cell on row `j` within range lies inside the
                        // scanned column window.
                        assert(min_x <= q2.x < max_x);
                    }
                }
            }
            j = j + 1;
        }
        proof {
            assert forall|q2: OrdIx2| m0.in_bounds(q2) implies #[trigger] self@.obstacle_at(q2)
                == (if manhattan(q2, pos) <= strength {
                Obstacle::Empty(crate::obstacle::Empty)
            } else {
                m0.obstacle_at(q2)
            }) by {
                if manhattan(q2, pos) <= strength {
                    assert(min_y <= q2.y < max_y);
                }
            }
            assert forall|k: int| 0 <= k < self@.obstacles.len() implies self@.obstacles[k]
                == target.obstacles[k] by {
                let q = OrdIx2 {
                    x: (k / m0.height as int) as usize,
                    y: (k % m0.height as int) as usize,
                };
                assert(m0.height > 0) by (nonlinear_arith)
                    requires
                        m0.obstacles.len() == m0.width * m0.height,
                        0 <= k < m0.obstacles.len(),
                ;
                assert(0 <= k % (m0.height as int) && k % (m0.height as int) < m0.height
                    && 0 <= k / (m0.height as int) && k / (m0.height as int) < m0.width && k == (k
                    / (m0.height as int)) * (m0.height as int) + k % (m0.height as int))
                    by (nonlinear_arith)
                    requires
                        m0.height > 0,
                        0 <= k < m0.width * m0.height,
                ;
                assert(m0.in_bounds(q));
                assert(m0.idx(q) == k);
                assert(self@.obstacle_at(q) == self@.obstacles[k]);
            }
            assert(self@.obstacles =~= target.obstacles);
            assert(self@ =~= target);
        }
    }
}

} // verus!
// Container table operations and charge sensing.

verus! {

/// First-match lookup in the container table.
pub open spec fn lut_get(lut: Seq<(CompModel, ContainerModel)>, key: CompModel) -> Option<
    ContainerModel,
>
    decreases lut.len(),
{
    if lut.len() == 0 {
        None
    } else if lut[0].0 == key {
        Some(lut[0].1)
    } else {
        lut_get(lut.drop_first(), key)
    }
}

/// Whether the table is strictly sorted by key, the canonical form that
/// makes board equality independent of container insertion order.
pub open spec fn lut_sorted(lut: Seq<(CompModel, ContainerModel)>) -> bool {
    forall|i: int, j: int|
        0 <= i < j < lut.len() ==> comp_cmp_m((#[trigger] lut[i]).0, (#[trigger] lut[j]).0) < 0
}

/// The table with `key` bound to `val`: an existing binding is replaced,
/// a new one is placed at its sorted position.
pub open spec fn lut_insert(
    lut: Seq<(CompModel, ContainerModel)>,
    key: CompModel,
    val: ContainerModel,
) -> Seq<(CompModel, ContainerModel)>
    decreases lut.len(),
{
    if lut.len() == 0 {
        seq![(key, val)]
    } else if comp_cmp_m(key, lut[0].0) < 0 {
        seq![(key, val)] + lut
    } else if comp_cmp_m(key, lut[0].0) == 0 {
        seq![(key, val)] + lut.drop_first()
    } else {
        seq![lut[0]] + lut_insert(lut.drop_first(), key, val)
    }
}

/// The table with the first binding of `key` removed.
pub open spec fn lut_remove(lut: Seq<(CompModel, ContainerModel)>, key: CompModel) -> Seq<
    (CompModel, ContainerModel),
>
    decreases lut.len(),
{
    if lut.len() == 0 {
        lut
    } else if lut[0].0 == key {
        lut.drop_first()
    } else {
        seq![lut[0]] + lut_remove(lut.drop_first(), key)
    }
}

/// The table after binding every component of `comps` to `val`, in order.
pub open spec fn lut_insert_components(
    lut: Seq<(CompModel, ContainerModel)>,
    comps: Seq<CompModel>,
    val: ContainerModel,
) -> Seq<(CompModel, ContainerModel)>
    decreases comps.len(),
{
    if comps.len() == 0 {
        lut
    } else {
        lut_insert_components(lut_insert(lut, comps[0], val), comps.drop_first(), val)
    }
}

/// The table after removing every component of `comps`, in order.
pub open spec fn lut_remove_components(
    lut: Seq<(CompModel, ContainerModel)>,
    comps: Seq<CompModel>,
) -> Seq<(CompModel, ContainerModel)>
    decreases comps.len(),
{
    if comps.len() == 0 {
        lut
    } else {
        lut_remove_components(lut_remove(lut, comps[0]), comps.drop_first())
    }
}

/// Binding all components of a bounded container keeps the table bounded.
proof fn lemma_lut_insert_components_charge_ok(
    lut: Seq<(CompModel, ContainerModel)>,
    comps: Seq<CompModel>,
    val: ContainerModel,
)
    requires
        forall|i: int| 0 <= i < lut.len() ==> (#[trigger] lut[i]).1.charge_ok(),
        val.charge_ok(),
    ensures
        forall|i: int|
            0 <= i < lut_insert_components(lut, comps, val).len() ==> (
            #[trigger] lut_insert_components(lut, comps, val)[i]).1.charge_ok(),
    decreases comps.len(),
{
    if comps.len() == 0 {
    } else {
        lemma_lut_insert_charge_ok(lut, comps[0], val);
        lemma_lut_insert_components_charge_ok(lut_insert(lut, comps[0], val), comps.drop_first(), val);
        assert(lut_insert_components(lut, comps, val) == lut_insert_components(
            lut_insert(lut, comps[0], val),
            comps.drop_first(),
            val,
        ));
    }
}

/// Removing components keeps the table bounded.
proof fn lemma_lut_remove_components_charge_ok(
    lut: Seq<(CompModel, ContainerModel)>,
    comps: Seq<CompModel>,
)
    requires
        forall|i: int| 0 <= i < lut.len() ==> (#[trigger] lut[i]).1.charge_ok(),
    ensures
        forall|i: int|
            0 <= i < lut_remove_components(lut, comps).len() ==> (
            #[trigger] lut_remove_components(lut, comps)[i]).1.charge_ok(),
    decreases comps.len(),
{
    if comps.len() == 0 {
    } else {
        lemma_lut_remove_charge_ok(lut, comps[0]);
        lemma_lut_remove_components_charge_ok(lut_remove(lut, comps[0]), comps.drop_first());
        assert(lut_remove_components(lut, comps) == lut_remove_components(
            lut_remove(lut, comps[0]),
            comps.drop_first(),
        ));
    }
}

proof fn lemma_lut_insert_components_snoc(
    lut: Seq<(CompModel, ContainerModel)>,
    comps: Seq<CompModel>,
    c: CompModel,
    val: ContainerModel,
)
    ensures
        lut_insert_components(lut, comps.push(c), val) == lut_insert(
            lut_insert_components(lut, comps, val),
            c,
            val,
        ),
    decreases comps.len(),
{
    let t = comps.push(c);
    if comps.len() == 0 {
        assert(t[0] == c);
        assert(t.drop_first() =~= Seq::<CompModel>::empty());
        assert(lut_insert_components(lut_insert(lut, c, val), Seq::<CompModel>::empty(), val)
            == lut_insert(lut, c, val));
        assert(lut_insert_components(lut, Seq::<CompModel>::empty(), val) == lut);
    } else {
        assert(t[0] == comps[0]);
        assert(t.drop_first() =~= comps.drop_first().push(c));
        lemma_lut_insert_components_snoc(lut_insert(lut, comps[0], val), comps.drop_first(), c, val);
        assert(lut_insert_components(lut, t, val) == lut_insert_components(
            lut_insert(lut, comps[0], val),
            comps.drop_first().push(c),
            val,
        ));
        assert(lut_insert_components(lut, comps, val) == lut_insert_components(
            lut_insert(lut, comps[0], val),
            comps.drop_first(),
            val,
        ));
    }
}

proof fn lemma_lut_remove_components_snoc(
    lut: Seq<(CompModel, ContainerModel)>,
    comps: Seq<CompModel>,
    c: CompModel,
)
    ensures
        lut_remove_components(lut, comps.push(c)) == lut_remove(
            lut_remove_components(lut, comps),
            c,
        ),
    decreases comps.len(),
{
    let t = comps.push(c);
    if comps.len() == 0 {
        assert(t[0] == c);
        assert(t.drop_first() =~= Seq::<CompModel>::empty());
        assert(lut_remove_components(lut_remove(lut, c), Seq::<CompModel>::empty()) == lut_remove(
            lut,
            c,
        ));
        assert(lut_remove_components(lut, Seq::<CompModel>::empty()) == lut);
    } else {
        assert(t[0] == comps[0]);
        assert(t.drop_first() =~= comps.drop_first().push(c));
        lemma_lut_remove_components_snoc(lut_remove(lut, comps[0]), comps.drop_first(), c);
        assert(lut_remove_components(lut, t) == lut_remove_components(
            lut_remove(lut, comps[0]),
            comps.drop_first().push(c),
        ));
        assert(lut_remove_components(lut, comps) == lut_remove_components(
            lut_remove(lut, comps[0]),
            comps.drop_first(),
        ));
    }
}

/// Inserting a charge-bounded container keeps every table entry bounded.
proof fn lemma_lut_insert_charge_ok(
    lut: Seq<(CompModel, ContainerModel)>,
    key: CompModel,
    val: ContainerModel,
)
    requires
        forall|i: int| 0 <= i < lut.len() ==> (#[trigger] lut[i]).1.charge_ok(),
        val.charge_ok(),
    ensures
        forall|i: int|
            0 <= i < lut_insert(lut, key, val).len() ==> (#[trigger] lut_insert(lut, key, val)[i])
                .1
                .charge_ok(),
    decreases lut.len(),
{
    let r = lut_insert(lut, key, val);
    if lut.len() == 0 {
    } else if comp_cmp_m(key, lut[0].0) < 0 {
        assert forall|i: int| 0 <= i < r.len() implies (#[trigger] r[i]).1.charge_ok() by {
            if i > 0 {
                assert(r[i] == lut[i - 1]);
            }
        }
    } else if comp_cmp_m(key, lut[0].0) == 0 {
        assert forall|i: int| 0 <= i < r.len() implies (#[trigger] r[i]).1.charge_ok() by {
            if i > 0 {
                assert(r[i] == lut[i]);
            }
        }
    } else {
        assert forall|j: int| 0 <= j < lut.drop_first().len() implies (#[trigger] lut.drop_first()[j]).1.charge_ok() by {
            assert(lut.drop_first()[j] == lut[j + 1]);
        }
        lemma_lut_insert_charge_ok(lut.drop_first(), key, val);
        assert forall|i: int| 0 <= i < r.len() implies (#[trigger] r[i]).1.charge_ok() by {
            if i > 0 {
                assert(r[i] == lut_insert(lut.drop_first(), key, val)[i - 1]);
            } else {
                assert(r[0] == lut[0]);
            }
        }
    }
}

/// Removing a binding keeps every table entry charge-bounded.
proof fn lemma_lut_remove_charge_ok(lut: Seq<(CompModel, ContainerModel)>, key: CompModel)
    requires
        forall|i: int| 0 <= i < lut.len() ==> (#[trigger] lut[i]).1.charge_ok(),
    ensures
        forall|i: int|
            0 <= i < lut_remove(lut, key).len() ==> (#[trigger] lut_remove(lut, key)[i])
                .1
                .charge_ok(),
    decreases lut.len(),
{
    let r = lut_remove(lut, key);
    if lut.len() == 0 {
    } else if lut[0].0 == key {
        assert forall|i: int| 0 <= i < r.len() implies (#[trigger] r[i]).1.charge_ok() by {
            assert(r[i] == lut[i + 1]);
        }
    } else {
        assert forall|j: int| 0 <= j < lut.drop_first().len() implies (#[trigger] lut.drop_first()[j]).1.charge_ok() by {
            assert(lut.drop_first()[j] == lut[j + 1]);
        }
        lemma_lut_remove_charge_ok(lut.drop_first(), key);
        assert forall|i: int| 0 <= i < r.len() implies (#[trigger] r[i]).1.charge_ok() by {
            if i > 0 {
                assert(r[i] == lut_remove(lut.drop_first(), key)[i - 1]);
            } else {
                assert(r[0] == lut[0]);
            }
        }
    }
}

/// Whatever the table returns is one of its own entries' containers.
proof fn lemma_lut_get_charge_ok(lut: Seq<(CompModel, ContainerModel)>, key: CompModel)
    requires
        forall|i: int| 0 <= i < lut.len() ==> (#[trigger] lut[i]).1.charge_ok(),
        lut_get(lut, key) is Some,
    ensures
        lut_get(lut, key)->Some_0.charge_ok(),
    decreases lut.len(),
{
    if lut.len() == 0 {
    } else if lut[0].0 == key {
        assert(lut[0].1.charge_ok());
    } else {
        assert forall|j: int| 0 <= j < lut.drop_first().len() implies (#[trigger] lut.drop_first()[j]).1.charge_ok() by {
            assert(lut.drop_first()[j] == lut[j + 1]);
        }
        lemma_lut_get_charge_ok(lut.drop_first(), key);
    }
}

/// Insertion keeps the table sorted, and every entry of the result is
/// the new binding or one of the old entries.
proof fn lemma_lut_insert_sorted(
    lut: Seq<(CompModel, ContainerModel)>,
    key: CompModel,
    val: ContainerModel,
)
    requires
        lut_sorted(lut),
    ensures
        lut_sorted(lut_insert(lut, key, val)),
        forall|i: int|
            0 <= i < lut_insert(lut, key, val).len() ==> (#[trigger] lut_insert(lut, key, val)[i])
                == (key, val) || lut.contains(lut_insert(lut, key, val)[i]),
    decreases lut.len(),
{
    let r = lut_insert(lut, key, val);
    if lut.len() == 0 {
        assert(r[0] == (key, val));
    } else if comp_cmp_m(key, lut[0].0) < 0 {
        assert forall|i: int, j: int| 0 <= i < j < r.len() implies comp_cmp_m(
            (#[trigger] r[i]).0,
            (#[trigger] r[j]).0,
        ) < 0 by {
            if i == 0 {
                assert(r[j] == lut[j - 1]);
                if j > 1 {
                    assert(comp_cmp_m(lut[0].0, lut[j - 1].0) < 0);
                    lemma_comp_cmp_trans(key, lut[0].0, lut[j - 1].0);
                }
            } else {
                assert(r[i] == lut[i - 1] && r[j] == lut[j - 1]);
            }
        }
        assert forall|i: int| 0 <= i < r.len() implies (#[trigger] r[i]) == (key, val)
            || lut.contains(r[i]) by {
            if i > 0 {
                assert(r[i] == lut[i - 1]);
            }
        }
    } else if comp_cmp_m(key, lut[0].0) == 0 {
        lemma_comp_cmp_eq(key, lut[0].0);
        assert(key == lut[0].0);
        assert forall|i: int, j: int| 0 <= i < j < r.len() implies comp_cmp_m(
            (#[trigger] r[i]).0,
            (#[trigger] r[j]).0,
        ) < 0 by {
            if i == 0 {
                assert(r[j] == lut[j]);
                assert(comp_cmp_m(lut[0].0, lut[j].0) < 0);
            } else {
                assert(r[i] == lut[i] && r[j] == lut[j]);
            }
        }
        assert forall|i: int| 0 <= i < r.len() implies (#[trigger] r[i]) == (key, val)
            || lut.contains(r[i]) by {
            if i > 0 {
                assert(r[i] == lut[i]);
            }
        }
    } else {
        let tail = lut.drop_first();
        assert forall|i: int, j: int| 0 <= i < j < tail.len() implies comp_cmp_m(
            (#[trigger] tail[i]).0,
            (#[trigger] tail[j]).0,
        ) < 0 by {
            assert(tail[i] == lut[i + 1] && tail[j] == lut[j + 1]);
        }
        lemma_lut_insert_sorted(tail, key, val);
        let inner = lut_insert(tail, key, val);
        assert forall|i: int, j: int| 0 <= i < j < r.len() implies comp_cmp_m(
            (#[trigger] r[i]).0,
            (#[trigger] r[j]).0,
        ) < 0 by {
            if i == 0 {
                assert(r[j] == inner[j - 1]);
                if inner[j - 1] == (key, val) {
                    lemma_comp_cmp_antisym(key, lut[0].0);
                } else {
                    assert(tail.contains(inner[j - 1]));
                    let jj = choose|jj: int| 0 <= jj < tail.len() && tail[jj] == inner[j - 1];
                    assert(lut[jj + 1] == inner[j - 1]);
                    assert(comp_cmp_m(lut[0].0, lut[jj + 1].0) < 0);
                }
            } else {
                assert(r[i] == inner[i - 1] && r[j] == inner[j - 1]);
            }
        }
        assert forall|i: int| 0 <= i < r.len() implies (#[trigger] r[i]) == (key, val)
            || lut.contains(r[i]) by {
            if i == 0 {
                assert(r[0] == lut[0]);
            } else {
                assert(r[i] == inner[i - 1]);
                if inner[i - 1] != (key, val) {
                    assert(tail.contains(inner[i - 1]));
                    let jj = choose|jj: int| 0 <= jj < tail.len() && tail[jj] == inner[i - 1];
                    assert(lut[jj + 1] == inner[i - 1]);
                }
            }
        }
    }
}

/// Removal keeps the table sorted; every remaining entry was there.
proof fn lemma_lut_remove_sorted(lut: Seq<(CompModel, ContainerModel)>, key: CompModel)
    requires
        lut_sorted(lut),
    ensures
        lut_sorted(lut_remove(lut, key)),
        forall|i: int|
            0 <= i < lut_remove(lut, key).len() ==> lut.contains(
                #[trigger] lut_remove(lut, key)[i],
            ),
    decreases lut.len(),
{
    let r = lut_remove(lut, key);
    if lut.len() == 0 {
    } else if lut[0].0 == key {
        assert forall|i: int, j: int| 0 <= i < j < r.len() implies comp_cmp_m(
            (#[trigger] r[i]).0,
            (#[trigger] r[j]).0,
        ) < 0 by {
            assert(r[i] == lut[i + 1] && r[j] == lut[j + 1]);
        }
        assert forall|i: int| 0 <= i < r.len() implies lut.contains(#[trigger] r[i]) by {
            assert(r[i] == lut[i + 1]);
        }
    } else {
        let tail = lut.drop_first();
        assert forall|i: int, j: int| 0 <= i < j < tail.len() implies comp_cmp_m(
            (#[trigger] tail[i]).0,
            (#[trigger] tail[j]).0,
        ) < 0 by {
            assert(tail[i] == lut[i + 1] && tail[j] == lut[j + 1]);
        }
        lemma_lut_remove_sorted(tail, key);
        let inner = lut_remove(tail, key);
        assert forall|i: int, j: int| 0 <= i < j < r.len() implies comp_cmp_m(
            (#[trigger] r[i]).0,
            (#[trigger] r[j]).0,
        ) < 0 by {
            if i == 0 {
                assert(r[j] == inner[j - 1]);
                assert(tail.contains(inner[j - 1]));
                let jj = choose|jj: int| 0 <= jj < tail.len() && tail[jj] == inner[j - 1];
                assert(lut[jj + 1] == inner[j - 1]);
                assert(comp_cmp_m(lut[0].0, lut[jj + 1].0) < 0);
            } else {
                assert(r[i] == inner[i - 1] && r[j] == inner[j - 1]);
            }
        }
        assert forall|i: int| 0 <= i < r.len() implies lut.contains(#[trigger] r[i]) by {
            if i == 0 {
                assert(r[0] == lut[0]);
            } else {
                assert(r[i] == inner[i - 1]);
                assert(tail.contains(inner[i - 1]));
                let jj = choose|jj: int| 0 <= jj < tail.len() && tail[jj] == inner[i - 1];
                assert(lut[jj + 1] == inner[i - 1]);
            }
        }
    }
}

/// What a sorted table holds after an insertion: the new binding, plus
/// exactly the old entries whose key differs.
proof fn lemma_lut_insert_membership(
    lut: Seq<(CompModel, ContainerModel)>,
    key: CompModel,
    val: ContainerModel,
)
    requires
        lut_sorted(lut),
    ensures
        lut_insert(lut, key, val).contains((key, val)),
        forall|e: (CompModel, ContainerModel)|
            lut.contains(e) && e.0 != key ==> #[trigger] lut_insert(lut, key, val).contains(e),
        forall|e: (CompModel, ContainerModel)|
            #[trigger] lut_insert(lut, key, val).contains(e) ==> e == (key, val) || (lut.contains(
                e,
            ) && e.0 != key),
    decreases lut.len(),
{
    let r = lut_insert(lut, key, val);
    if lut.len() == 0 {
        assert(r[0] == (key, val));
    } else if comp_cmp_m(key, lut[0].0) < 0 {
        assert(r[0] == (key, val));
        assert forall|e: (CompModel, ContainerModel)|
            lut.contains(e) && e.0 != key implies #[trigger] r.contains(e) by {
            let i = choose|i: int| 0 <= i < lut.len() && lut[i] == e;
            assert(r[i + 1] == e);
        }
        assert forall|e: (CompModel, ContainerModel)| #[trigger] r.contains(e) implies e == (
        key,
        val,
        ) || (lut.contains(e) && e.0 != key) by {
            let i = choose|i: int| 0 <= i < r.len() && r[i] == e;
            if i > 0 {
                assert(lut[i - 1] == e);
                // The inserted key is strictly below every old key.
                if i == 1 {
                } else {
                    lemma_comp_cmp_trans(key, lut[0].0, lut[i - 1].0);
                }
                if e.0 == key {
                    lemma_comp_cmp_eq(key, e.0);
                }
            }
        }
    } else if comp_cmp_m(key, lut[0].0) == 0 {
        lemma_comp_cmp_eq(key, lut[0].0);
        assert(key == lut[0].0);
        assert(r[0] == (key, val));
        assert forall|e: (CompModel, ContainerModel)|
            lut.contains(e) && e.0 != key implies #[trigger] r.contains(e) by {
            let i = choose|i: int| 0 <= i < lut.len() && lut[i] == e;
            assert(i > 0);
            assert(r[i] == e);
        }
        assert forall|e: (CompModel, ContainerModel)| #[trigger] r.contains(e) implies e == (
        key,
        val,
        ) || (lut.contains(e) && e.0 != key) by {
            let i = choose|i: int| 0 <= i < r.len() && r[i] == e;
            if i > 0 {
                assert(lut[i] == e);
                assert(comp_cmp_m(lut[0].0, lut[i].0) < 0);
                if e.0 == key {
                    lemma_comp_cmp_eq(lut[0].0, lut[i].0);
                }
            }
        }
    } else {
        let tail = lut.drop_first();
        assert forall|i: int, j: int| 0 <= i < j < tail.len() implies comp_cmp_m(
            (#[trigger] tail[i]).0,
            (#[trigger] tail[j]).0,
        ) < 0 by {
            assert(tail[i] == lut[i + 1] && tail[j] == lut[j + 1]);
        }
        lemma_lut_insert_membership(tail, key, val);
        let inner = lut_insert(tail, key, val);
        assert(comp_cmp_m(key, lut[0].0) > 0);
        // The head's key is strictly below the inserted one.
        lemma_comp_cmp_antisym(key, lut[0].0);
        assert(inner.contains((key, val)));
        let w = choose|w: int| 0 <= w < inner.len() && inner[w] == (key, val);
        assert(r[w + 1] == (key, val));
        assert(r.contains((key, val)));
        assert forall|e: (CompModel, ContainerModel)|
            lut.contains(e) && e.0 != key implies #[trigger] r.contains(e) by {
            let i = choose|i: int| 0 <= i < lut.len() && lut[i] == e;
            if i == 0 {
                assert(r[0] == e);
            } else {
                assert(tail[i - 1] == e);
                assert(tail.contains(e));
                assert(inner.contains(e));
                let j = choose|j: int| 0 <= j < inner.len() && inner[j] == e;
                assert(r[j + 1] == e);
            }
        }
        assert forall|e: (CompModel, ContainerModel)| #[trigger] r.contains(e) implies e == (
        key,
        val,
        ) || (lut.contains(e) && e.0 != key) by {
            let i = choose|i: int| 0 <= i < r.len() && r[i] == e;
            if i == 0 {
                assert(e == lut[0]);
                assert(lut.contains(e));
                if e.0 == key {
                    lemma_comp_cmp_eq(key, lut[0].0);
                }
            } else {
                assert(inner[i - 1] == e);
                assert(inner.contains(e));
                if e != (key, val) {
                    assert(tail.contains(e) && e.0 != key);
                    let j = choose|j: int| 0 <= j < tail.len() && tail[j] == e;
                    assert(lut[j + 1] == e);
                }
            }
        }
    }
}

/// Registering bindings at distinct keys commutes: the canonical table
/// does not remember insertion order, as a board value must not.
pub proof fn lemma_lut_insert_commutes(
    lut: Seq<(CompModel, ContainerModel)>,
    k1: CompModel,
    v1: ContainerModel,
    k2: CompModel,
    v2: ContainerModel,
)
    requires
        lut_sorted(lut),
        k1 != k2,
    ensures
        lut_insert(lut_insert(lut, k1, v1), k2, v2) == lut_insert(lut_insert(lut, k2, v2), k1, v1),
{
    let a = lut_insert(lut_insert(lut, k1, v1), k2, v2);
    let b = lut_insert(lut_insert(lut, k2, v2), k1, v1);
    lemma_lut_insert_sorted(lut, k1, v1);
    lemma_lut_insert_sorted(lut, k2, v2);
    lemma_lut_insert_sorted(lut_insert(lut, k1, v1), k2, v2);
    lemma_lut_insert_sorted(lut_insert(lut, k2, v2), k1, v1);
    lemma_lut_insert_membership(lut, k1, v1);
    lemma_lut_insert_membership(lut, k2, v2);
    lemma_lut_insert_membership(lut_insert(lut, k1, v1), k2, v2);
    lemma_lut_insert_membership(lut_insert(lut, k2, v2), k1, v1);
    assert forall|e: (CompModel, ContainerModel)| a.contains(e) implies b.contains(e) by {
        if e == (k2, v2) {
            assert(lut_insert(lut, k2, v2).contains(e));
        }
    }
    assert forall|e: (CompModel, ContainerModel)| b.contains(e) implies a.contains(e) by {
        if e == (k1, v1) {
            assert(lut_insert(lut, k1, v1).contains(e));
        }
    }
    lemma_lut_sorted_canonical(a, b);
}

/// Binding a list of components keeps the table sorted.
proof fn lemma_lut_insert_components_sorted(
    lut: Seq<(CompModel, ContainerModel)>,
    comps: Seq<CompModel>,
    val: ContainerModel,
)
    requires
        lut_sorted(lut),
    ensures
        lut_sorted(lut_insert_components(lut, comps, val)),
    decreases comps.len(),
{
    if comps.len() == 0 {
    } else {
        lemma_lut_insert_sorted(lut, comps[0], val);
        lemma_lut_insert_components_sorted(lut_insert(lut, comps[0], val), comps.drop_first(), val);
        assert(lut_insert_components(lut, comps, val) == lut_insert_components(
            lut_insert(lut, comps[0], val),
            comps.drop_first(),
            val,
        ));
    }
}

/// Removing a list of components keeps the table sorted.
proof fn lemma_lut_remove_components_sorted(
    lut: Seq<(CompModel, ContainerModel)>,
    comps: Seq<CompModel>,
)
    requires
        lut_sorted(lut),
    ensures
        lut_sorted(lut_remove_components(lut, comps)),
    decreases comps.len(),
{
    if comps.len() == 0 {
    } else {
        lemma_lut_remove_sorted(lut, comps[0]);
        lemma_lut_remove_components_sorted(lut_remove(lut, comps[0]), comps.drop_first());
        assert(lut_remove_components(lut, comps) == lut_remove_components(
            lut_remove(lut, comps[0]),
            comps.drop_first(),
        ));
    }
}

/// A sorted table is a canonical form of its binding set: two sorted
/// tables with the same entries are equal. Boards that register the same
/// containers, in whatever order, therefore carry equal tables and
/// compare equal.
pub proof fn lemma_lut_sorted_canonical(
    a: Seq<(CompModel, ContainerModel)>,
    b: Seq<(CompModel, ContainerModel)>,
)
    requires
        lut_sorted(a),
        lut_sorted(b),
        forall|e: (CompModel, ContainerModel)| a.contains(e) <==> b.contains(e),
    ensures
        a =~= b,
    decreases a.len(),
{
    if a.len() == 0 {
        if b.len() > 0 {
            assert(b.contains(b[0]));
            assert(a.contains(b[0]));
        }
    } else {
        assert(a.contains(a[0]));
        assert(b.contains(b[0]));
        assert(b.contains(a[0]));
        assert(a.contains(b[0]));
        let ia = choose|i: int| 0 <= i < b.len() && b[i] == a[0];
        let ib = choose|i: int| 0 <= i < a.len() && a[i] == b[0];
        if ia > 0 {
            assert(comp_cmp_m(b[0].0, b[ia].0) < 0);
            if ib > 0 {
                assert(comp_cmp_m(a[0].0, a[ib].0) < 0);
                lemma_comp_cmp_antisym(a[0].0, b[0].0);
            } else {
                lemma_comp_cmp_eq(b[0].0, a[0].0);
            }
        }
        assert(a[0] == b[0]);
        let a1 = a.drop_first();
        let b1 = b.drop_first();
        assert forall|e: (CompModel, ContainerModel)| a1.contains(e) implies b1.contains(e) by {
            let i = choose|i: int| 0 <= i < a1.len() && a1[i] == e;
            assert(a[i + 1] == e);
            assert(a.contains(e));
            assert(b.contains(e));
            let j = choose|j: int| 0 <= j < b.len() && b[j] == e;
            assert(comp_cmp_m(a[0].0, e.0) < 0);
            if j == 0 {
                lemma_comp_cmp_eq(a[0].0, a[0].0);
            }
            assert(b1[j - 1] == e);
        }
        assert forall|e: (CompModel, ContainerModel)| b1.contains(e) implies a1.contains(e) by {
            let i = choose|i: int| 0 <= i < b1.len() && b1[i] == e;
            assert(b[i + 1] == e);
            assert(b.contains(e));
            assert(a.contains(e));
            let j = choose|j: int| 0 <= j < a.len() && a[j] == e;
            assert(comp_cmp_m(b[0].0, e.0) < 0);
            if j == 0 {
                lemma_comp_cmp_eq(b[0].0, b[0].0);
            }
            assert(a1[j - 1] == e);
        }
        assert forall|i: int, j: int| 0 <= i < j < a1.len() implies comp_cmp_m(
            (#[trigger] a1[i]).0,
            (#[trigger] a1[j]).0,
        ) < 0 by {
            assert(a1[i] == a[i + 1] && a1[j] == a[j + 1]);
        }
        assert forall|i: int, j: int| 0 <= i < j < b1.len() implies comp_cmp_m(
            (#[trigger] b1[i]).0,
            (#[trigger] b1[j]).0,
        ) < 0 by {
            assert(b1[i] == b[i + 1] && b1[j] == b[j + 1]);
        }
        lemma_lut_sorted_canonical(a1, b1);
        assert(a =~= seq![a[0]] + a1);
        assert(b =~= seq![b[0]] + b1);
    }
}

/// First-match removal localized: the matching entry disappears.
proof fn lemma_lut_remove_at(lut: Seq<(CompModel, ContainerModel)>, key: CompModel, i: int)
    requires
        0 <= i < lut.len(),
        lut[i].0 == key,
        forall|j: int| 0 <= j < i ==> (#[trigger] lut[j]).0 != key,
    ensures
        lut_remove(lut, key) == lut.subrange(0, i) + lut.subrange(i + 1, lut.len() as int),
    decreases lut.len(),
{
    if i == 0 {
        assert(lut_remove(lut, key) =~= lut.subrange(0, 0) + lut.subrange(1, lut.len() as int));
    } else {
        assert(lut[0].0 != key);
        assert forall|j: int| 0 <= j < i - 1 implies (#[trigger] lut.drop_first()[j]).0 != key by {
            assert(lut.drop_first()[j] == lut[j + 1]);
        }
        assert(lut.drop_first()[i - 1] == lut[i]);
        lemma_lut_remove_at(lut.drop_first(), key, i - 1);
        assert(lut_remove(lut, key) =~= lut.subrange(0, i) + lut.subrange(i + 1, lut.len() as int));
    }
}

/// Removing an absent key changes nothing.
proof fn lemma_lut_remove_absent(lut: Seq<(CompModel, ContainerModel)>, key: CompModel)
    requires
        forall|j: int| 0 <= j < lut.len() ==> (#[trigger] lut[j]).0 != key,
    ensures
        lut_remove(lut, key) == lut,
    decreases lut.len(),
{
    if lut.len() == 0 {
    } else {
        assert forall|j: int| 0 <= j < lut.drop_first().len() implies (#[trigger] lut.drop_first()[j]).0 != key by {
            assert(lut.drop_first()[j] == lut[j + 1]);
        }
        lemma_lut_remove_absent(lut.drop_first(), key);
        assert(lut_remove(lut, key) =~= lut);
    }
}

/// First-match lookup localized.
proof fn lemma_lut_get_at(lut: Seq<(CompModel, ContainerModel)>, key: CompModel, i: int)
    requires
        0 <= i < lut.len(),
        lut[i].0 == key,
        forall|j: int| 0 <= j < i ==> (#[trigger] lut[j]).0 != key,
    ensures
        lut_get(lut, key) == Some(lut[i].1),
    decreases lut.len(),
{
    if i == 0 {
    } else {
        assert(lut[0].0 != key);
        assert forall|j: int| 0 <= j < i - 1 implies (#[trigger] lut.drop_first()[j]).0 != key by {
            assert(lut.drop_first()[j] == lut[j + 1]);
        }
        assert(lut.drop_first()[i - 1] == lut[i]);
        lemma_lut_get_at(lut.drop_first(), key, i - 1);
    }
}

/// Lookup of an absent key fails.
proof fn lemma_lut_get_absent(lut: Seq<(CompModel, ContainerModel)>, key: CompModel)
    requires
        forall|j: int| 0 <= j < lut.len() ==> (#[trigger] lut[j]).0 != key,
    ensures
        lut_get(lut, key) is None,
    decreases lut.len(),
{
    if lut.len() == 0 {
    } else {
        assert forall|j: int| 0 <= j < lut.drop_first().len() implies (#[trigger] lut.drop_first()[j]).0 != key by {
            assert(lut.drop_first()[j] == lut[j + 1]);
        }
        lemma_lut_get_absent(lut.drop_first(), key);
    }
}

/// The outermost container transitively wrapping `key`, found by repeated
/// lookup; `fuel` bounds the walk, so even a cyclic table (a configuration
/// error) yields the last container found rather than diverging.
pub open spec fn top_container_m(
    lut: Seq<(CompModel, ContainerModel)>,
    key: CompModel,
    fuel: nat,
) -> Option<ContainerModel>
    decreases fuel,
{
    if fuel == 0 {
        None
    } else {
        match lut_get(lut, key) {
            None => None,
            Some(c) => match top_container_m(lut, CompModel::Container(c.contents()), (fuel - 1) as nat) {
                None => Some(c),
                Some(c2) => Some(c2),
            },
        }
    }
}

/// The outermost container's result is charge-bounded on a bounded table.
proof fn lemma_top_container_charge_ok(
    lut: Seq<(CompModel, ContainerModel)>,
    key: CompModel,
    fuel: nat,
)
    requires
        forall|i: int| 0 <= i < lut.len() ==> (#[trigger] lut[i]).1.charge_ok(),
        top_container_m(lut, key, fuel) is Some,
    ensures
        top_container_m(lut, key, fuel)->Some_0.charge_ok(),
    decreases fuel,
{
    if fuel == 0 {
    } else {
        match lut_get(lut, key) {
            None => {},
            Some(c) => {
                lemma_lut_get_charge_ok(lut, key);
                if top_container_m(lut, CompModel::Container(c.contents()), (fuel - 1) as nat) is Some {
                    lemma_top_container_charge_ok(
                        lut,
                        CompModel::Container(c.contents()),
                        (fuel - 1) as nat,
                    );
                }
            },
        }
    }
}

impl BoardModel {
    /// The aggregate charge sensed at `p`: the outermost container's
    /// charge if the cell is bonded, else the lone particle's.
    pub open spec fn charge_m(self, p: OrdIx2) -> int {
        match top_container_m(self.lut, CompModel::Particle(p), self.lut.len()) {
            Some(c) => c.charge(),
            None => self.particle_at(p).spec_charge(),
        }
    }

    /// The first non-zero charge met scanning outward from `p` along `d`,
    /// or zero if the ray is chargeless.
    pub open spec fn find_charge_single_m(self, d: Direction, p: OrdIx2) -> int
        decreases self.ray_len(d, p),
    {
        if self.in_bounds(p) {
            match self.step_m(d, p) {
                None => 0,
                Some(q) => if self.charge_m(q) != 0 {
                    self.charge_m(q)
                } else {
                    self.find_charge_single_m(d, q)
                },
            }
        } else {
            0
        }
    }
}

/// Every sensed charge on a well-formed board stays within `CHARGE_LIMIT`.
pub proof fn lemma_charge_m_bounded(m: BoardModel, p: OrdIx2)
    requires
        m.wf(),
        m.in_bounds(p),
    ensures
        -CHARGE_LIMIT <= m.charge_m(p) <= CHARGE_LIMIT,
{
    match top_container_m(m.lut, CompModel::Particle(p), m.lut.len()) {
        Some(c) => {
            lemma_top_container_charge_ok(m.lut, CompModel::Particle(p), m.lut.len());
            match c {
                ContainerModel::NucleusParticle(n) => {
                    assert(n.protons.len() * 3 <= crate::container::nucleus::MAX_PROTONS * 3)
                        by (nonlinear_arith)
                        requires
                            n.protons.len() <= crate::container::nucleus::MAX_PROTONS,
                    ;
                    assert(n.protons.len() * -3 >= crate::container::nucleus::MAX_PROTONS * -3)
                        by (nonlinear_arith)
                        requires
                            n.protons.len() <= crate::container::nucleus::MAX_PROTONS,
                    ;
                },
            }
        },
        None => {
            lemma_idx_bounds(m, p);
        },
    }
}

/// The first charge found along a ray is bounded like every cell charge.
pub proof fn lemma_find_charge_single_bounded(m: BoardModel, d: Direction, p: OrdIx2)
    requires
        m.wf(),
    ensures
        -CHARGE_LIMIT <= m.find_charge_single_m(d, p) <= CHARGE_LIMIT,
    decreases m.ray_len(d, p),
{
    if m.in_bounds(p) {
        match m.step_m(d, p) {
            None => {},
            Some(q) => {
                lemma_charge_m_bounded(m, q);
                if m.charge_m(q) == 0 {
                    lemma_find_charge_single_bounded(m, d, q);
                }
            },
        }
    }
}

impl Board {
    /// The index of the first table entry whose key matches, if any.
    fn lut_find_index(&self, key: &Component) -> (r: Option<usize>)
        ensures
            match r {
                Some(i) => i < self@.lut.len() && self@.lut[i as int].0 == key@ && forall|j: int|
                    0 <= j < i ==> (#[trigger] self@.lut[j]).0 != key@,
                None => forall|j: int|
                    0 <= j < self@.lut.len() ==> (#[trigger] self@.lut[j]).0 != key@,
            },
    {
        let mut k: usize = 0;
        while k < self.container_lut.len()
            invariant
                k <= self@.lut.len(),
                self@.lut.len() == self.container_lut@.len(),
                forall|j: int| 0 <= j < k ==> (#[trigger] self@.lut[j]).0 != key@,
                forall|j: int|
                    0 <= j < self.container_lut@.len() ==> #[trigger] self@.lut[j] == (
                    self.container_lut@[j].0@,
                    self.container_lut@[j].1@,
                    ),
            decreases self.container_lut@.len() - k,
        {
            let same = comp_eq(&self.container_lut[k].0, key);
            if same {
                return Some(k);
            }
            k = k + 1;
        }
        None
    }

    /// Binds one component to a container: an existing binding is
    /// overwritten, a new one enters at its sorted position.
    fn lut_insert_exec(&mut self, key: Component, val: Container)
        ensures
            final(self)@ == (BoardModel {
                lut: lut_insert(old(self)@.lut, key@, val@),
                ..old(self)@
            }),
    {
        let ghost orig = self@.lut;
        proof {
            assert(orig.subrange(0, 0) =~= Seq::<(CompModel, ContainerModel)>::empty());
            assert(orig.subrange(0, orig.len() as int) =~= orig);
            assert(Seq::<(CompModel, ContainerModel)>::empty() + lut_insert(orig, key@, val@)
                =~= lut_insert(orig, key@, val@));
        }
        let mut i: usize = 0;
        while i < self.container_lut.len()
            invariant
                i <= self.container_lut@.len(),
                self@.lut == orig,
                orig == old(self)@.lut,
                self@ == old(self)@,
                self@.lut.len() == self.container_lut@.len(),
                forall|j: int|
                    0 <= j < self.container_lut@.len() ==> #[trigger] self@.lut[j] == (
                    self.container_lut@[j].0@,
                    self.container_lut@[j].1@,
                    ),
                lut_insert(orig, key@, val@) == orig.subrange(0, i as int) + lut_insert(
                    orig.subrange(i as int, orig.len() as int),
                    key@,
                    val@,
                ),
            decreases self.container_lut@.len() - i,
        {
            let ghost pre = orig.subrange(i as int, orig.len() as int);
            proof {
                assert(pre[0] == orig[i as int]);
            }
            let c = comp_cmp(&key, &self.container_lut[i].0);
            if c == 0 {
                proof {
                    assert(lut_insert(pre, key@, val@) =~= seq![(key@, val@)] + pre.drop_first());
                    assert(orig.subrange(0, i as int) + (seq![(key@, val@)] + pre.drop_first())
                        =~= orig.update(i as int, (key@, val@)));
                }
                self.container_lut.set(i, (key, val));
                proof {
                    assert(final(self)@.lut =~= lut_insert(orig, key@, val@));
                    assert(final(self)@ =~= (BoardModel {
                        lut: lut_insert(old(self)@.lut, key@, val@),
                        ..old(self)@
                    }));
                }
                return ;
            }
            if c < 0 {
                proof {
                    assert(lut_insert(pre, key@, val@) =~= seq![(key@, val@)] + pre);
                }
                self.container_lut.insert(i, (key, val));
                proof {
                    assert(final(self)@.lut =~= orig.subrange(0, i as int) + (seq![
                        (key@, val@),
                    ] + pre));
                    assert(final(self)@ =~= (BoardModel {
                        lut: lut_insert(old(self)@.lut, key@, val@),
                        ..old(self)@
                    }));
                }
                return ;
            }
            proof {
                assert(comp_cmp_m(key@, orig[i as int].0) > 0);
                assert(lut_insert(pre, key@, val@) == seq![pre[0]] + lut_insert(
                    pre.drop_first(),
                    key@,
                    val@,
                ));
                assert(pre.drop_first() =~= orig.subrange(i + 1, orig.len() as int));
                assert(orig.subrange(0, i as int) + (seq![pre[0]] + lut_insert(
                    pre.drop_first(),
                    key@,
                    val@,
                )) =~= orig.subrange(0, i + 1) + lut_insert(
                    orig.subrange(i + 1, orig.len() as int),
                    key@,
                    val@,
                ));
            }
            i = i + 1;
        }
        proof {
            assert(orig.subrange(i as int, orig.len() as int) =~= Seq::<
                (CompModel, ContainerModel),
            >::empty());
            assert(lut_insert(Seq::empty(), key@, val@) == seq![(key@, val@)]);
        }
        self.container_lut.push((key, val));
        proof {
            assert(orig.subrange(0, i as int) =~= orig);
            assert(final(self)@.lut =~= orig + seq![(key@, val@)]);
            assert(orig + seq![(key@, val@)] =~= orig.subrange(0, i as int) + seq![
                (key@, val@),
            ]);
            assert(final(self)@ =~= (BoardModel {
                lut: lut_insert(old(self)@.lut, key@, val@),
                ..old(self)@
            }));
        }
    }

    /// Removes one component's binding, if present.
    fn lut_remove_exec(&mut self, key: &Component)
        ensures
            final(self)@ == (BoardModel { lut: lut_remove(old(self)@.lut, key@), ..old(self)@ }),
    {
        let found = self.lut_find_index(key);
        match found {
            Some(i) => {
                proof {
                    lemma_lut_remove_at(self@.lut, key@, i as int);
                }
                self.container_lut.remove(i);
                proof {
                    assert(final(self)@.lut =~= lut_remove(old(self)@.lut, key@));
                    assert(final(self)@ =~= (BoardModel {
                        lut: lut_remove(old(self)@.lut, key@),
                        ..old(self)@
                    }));
                }
            },
            None => {
                proof {
                    lemma_lut_remove_absent(self@.lut, key@);
                    assert(final(self)@ =~= (BoardModel {
                        lut: lut_remove(old(self)@.lut, key@),
                        ..old(self)@
                    }));
                }
            },
        }
    }

    /// Registers every component of the container's contents in the
    /// table, so charge sensing treats the bonded group as one unit.
    pub fn add_container(&mut self, container: Container)
        requires
            container@.charge_ok(),
        ensures
            final(self)@ == (BoardModel {
                lut: lut_insert_components(
                    old(self)@.lut,
                    container@.contents(),
                    container@,
                ),
                ..old(self)@
            }),
            old(self)@.wf() ==> final(self)@.wf(),
            old(self)@.muon_free() ==> final(self)@.muon_free(),
    {
        let n = container.contents().len();
        let mut k: usize = 0;
        while k < n
            invariant
                k <= n,
                n == container@.contents().len(),
                self@ == (BoardModel {
                    lut: lut_insert_components(
                        old(self)@.lut,
                        container@.contents().subrange(0, k as int),
                        container@,
                    ),
                    ..old(self)@
                }),
            decreases n - k,
        {
            let key = {
                let contents = container.contents();
                contents[k].clone()
            };
            let val = container.clone();
            proof {
                let cs = container@.contents();
                lemma_lut_insert_components_snoc(
                    old(self)@.lut,
                    cs.subrange(0, k as int),
                    cs[k as int],
                    container@,
                );
                assert(cs.subrange(0, k + 1) =~= cs.subrange(0, k as int).push(cs[k as int]));
                assert(key@ == cs[k as int]);
            }
            self.lut_insert_exec(key, val);
            k = k + 1;
        }
        proof {
            assert(container@.contents().subrange(0, n as int) =~= container@.contents());
            if old(self)@.wf() {
                lemma_lut_insert_components_charge_ok(
                    old(self)@.lut,
                    container@.contents(),
                    container@,
                );
                lemma_lut_insert_components_sorted(
                    old(self)@.lut,
                    container@.contents(),
                    container@,
                );
                assert(self@.wf());
            }
        }
    }

    /// Unregisters every component of the container's contents.
    pub fn remove_container(&mut self, contents: &Container)
        ensures
            final(self)@ == (BoardModel {
                lut: lut_remove_components(old(self)@.lut, contents@.contents()),
                ..old(self)@
            }),
            old(self)@.wf() ==> final(self)@.wf(),
            old(self)@.muon_free() ==> final(self)@.muon_free(),
    {
        let n = contents.contents().len();
        let mut k: usize = 0;
        while k < n
            invariant
                k <= n,
                n == contents@.contents().len(),
                self@ == (BoardModel {
                    lut: lut_remove_components(
                        old(self)@.lut,
                        contents@.contents().subrange(0, k as int),
                    ),
                    ..old(self)@
                }),
            decreases n - k,
        {
            let key = {
                let cs = contents.contents();
                cs[k].clone()
            };
            proof {
                let cs = contents@.contents();
                lemma_lut_remove_components_snoc(
                    old(self)@.lut,
                    cs.subrange(0, k as int),
                    cs[k as int],
                );
                assert(cs.subrange(0, k + 1) =~= cs.subrange(0, k as int).push(cs[k as int]));
                assert(key@ == cs[k as int]);
            }
            self.lut_remove_exec(&key);
            k = k + 1;
        }
        proof {
            assert(contents@.contents().subrange(0, n as int) =~= contents@.contents());
            if old(self)@.wf() {
                lemma_lut_remove_components_charge_ok(old(self)@.lut, contents@.contents());
                lemma_lut_remove_components_sorted(old(self)@.lut, contents@.contents());
                assert(self@.wf());
            }
        }
    }

    /// The outermost container transitively wrapping `component`, found by
    /// repeated lookup, or `None` if the component is unbonded.
    pub fn top_container(&self, component: &Component) -> (r: Option<&Container>)
        ensures
            match r {
                Some(c) => top_container_m(self@.lut, component@, self@.lut.len()) == Some(c@),
                None => top_container_m(self@.lut, component@, self@.lut.len()) is None,
            },
    {
        let fuel = self.container_lut.len();
        let mut current: Component = component.clone();
        let mut result: Option<usize> = None;
        let mut steps: usize = 0;
        while steps < fuel
            invariant
                steps <= fuel,
                fuel == self@.lut.len(),
                self@.lut.len() == self.container_lut@.len(),
                forall|j: int|
                    0 <= j < self.container_lut@.len() ==> #[trigger] self@.lut[j] == (
                    self.container_lut@[j].0@,
                    self.container_lut@[j].1@,
                    ),
                match result {
                    Some(i) => i < self@.lut.len() && top_container_m(
                        self@.lut,
                        component@,
                        self@.lut.len() as nat,
                    ) == (match top_container_m(self@.lut, current@, (fuel - steps) as nat) {
                        None => Some(self@.lut[i as int].1),
                        Some(c2) => Some(c2),
                    }),
                    None => top_container_m(self@.lut, component@, self@.lut.len() as nat)
                        == top_container_m(self@.lut, current@, (fuel - steps) as nat),
                },
            ensures
                match result {
                    Some(i) => i < self@.lut.len() && top_container_m(
                        self@.lut,
                        component@,
                        self@.lut.len() as nat,
                    ) == Some(self@.lut[i as int].1),
                    None => top_container_m(self@.lut, component@, self@.lut.len() as nat)
                        is None,
                },
            decreases fuel - steps,
        {
            let ghost f = (fuel - steps) as nat;
            let found = self.lut_find_index(&current);
            match found {
                Some(i) => {
                    proof {
                        lemma_lut_get_at(self@.lut, current@, i as int);
                        assert(lut_get(self@.lut, current@) == Some(self@.lut[i as int].1));
                    }
                    let ghost prev_result = result;
                    let ghost prev_current = current@;
                    result = Some(i);
                    let next = {
                        let c = &self.container_lut[i].1;
                        clone_contents(ContainerTrait::contents(c))
                    };
                    current = Component::Container(next);
                    proof {
                        let c1 = self@.lut[i as int].1;
                        assert(current@ == CompModel::Container(c1.contents()));
                        assert(top_container_m(self@.lut, prev_current, f) == (
                        match top_container_m(self@.lut, current@, (f - 1) as nat) {
                            None => Some(c1),
                            Some(c2) => Some(c2),
                        }));
                    }
                },
                None => {
                    proof {
                        lemma_lut_get_absent(self@.lut, current@);
                        assert(top_container_m(self@.lut, current@, f) is None);
                    }
                    break;
                },
            }
            steps = steps + 1;
        }
        match result {
            Some(i) => {
                let c = &self.container_lut[i].1;
                proof {
                    assert(self@.lut[i as int] == (
                        self.container_lut@[i as int].0@,
                        self.container_lut@[i as int].1@,
                    ));
                }
                Some(c)
            },
            None => None,
        }
    }

    /// The aggregate charge sensed at `pos`: the outermost container's if
    /// the cell is bonded, else the lone particle's.
    pub fn charge(&self, pos: OrdIx2) -> (r: i32)
        requires
            self@.wf(),
            self@.in_bounds(pos),
        ensures
            r as int == self@.charge_m(pos),
            -CHARGE_LIMIT <= r <= CHARGE_LIMIT,
    {
        proof {
            lemma_charge_m_bounded(self@, pos);
        }
        let key = Component::Particle(pos);
        let top = self.top_container(&key);
        match top {
            Some(container) => {
                proof {
                    lemma_top_container_charge_ok(self@.lut, key@, self@.lut.len());
                }
                ContainerTrait::charge(container)
            },
            None => self.get_particle(pos).charge(),
        }
    }

    /// The first non-zero charge met scanning outward from `pos` along
    /// `direction`, or zero if none is found before the edge.
    pub fn find_charge_single(&self, pos: OrdIx2, direction: Direction) -> (r: i32)
        requires
            self@.wf(),
            self@.in_bounds(pos),
        ensures
            r as int == self@.find_charge_single_m(direction, pos),
            -CHARGE_LIMIT <= r <= CHARGE_LIMIT,
    {
        proof {
            lemma_find_charge_single_bounded(self@, direction, pos);
        }
        let mut previous = pos;
        loop
            invariant
                self@.wf(),
                self@.in_bounds(previous),
                self@.find_charge_single_m(direction, pos) == self@.find_charge_single_m(
                    direction,
                    previous,
                ),
                -CHARGE_LIMIT <= self@.find_charge_single_m(direction, pos) <= CHARGE_LIMIT,
            decreases self@.ray_len(direction, previous),
        {
            match self.move_direction(direction, previous) {
                Some(next) => {
                    let c = self.charge(next);
                    if c != 0 {
                        return c;
                    }
                    previous = next;
                },
                None => {
                    return 0;
                },
            }
        }
    }
}

} // verus!
// Cloning and equality: boards are value types, compared by their
// mathematical shape regardless of how they were produced.

verus! {

/// Copies a vector of copyable values.
fn clone_copy_vec<T: Copy>(v: &Vec<T>) -> (r: Vec<T>)
    ensures
        r@ == v@,
{
    let mut r: Vec<T> = Vec::new();
    let mut k: usize = 0;
    while k < v.len()
        invariant
            k <= v@.len(),
            r@ == v@.subrange(0, k as int),
        decreases v@.len() - k,
    {
        let x = v[k];
        r.push(x);
        proof {
            assert(r@ =~= v@.subrange(0, k + 1));
        }
        k = k + 1;
    }
    proof {
        assert(v@.subrange(0, v@.len() as int) =~= v@);
    }
    r
}

impl Clone for Board {
    /// A deep copy with the same mathematical shape.
    fn clone(&self) -> (r: Self)
        ensures
            r@ == self@,
    {
        let mut lut: ContainerLUT = Vec::new();
        let mut k: usize = 0;
        while k < self.container_lut.len()
            invariant
                k <= self.container_lut@.len(),
                lut@.len() == k,
                forall|i: int|
                    0 <= i < k ==> (#[trigger] lut@[i]).0@ == self.container_lut@[i].0@
                        && lut@[i].1@ == self.container_lut@[i].1@,
            decreases self.container_lut@.len() - k,
        {
            let key = self.container_lut[k].0.clone();
            let val = self.container_lut[k].1.clone();
            lut.push((key, val));
            k = k + 1;
        }
        let r = Board {
            width: self.width,
            height: self.height,
            goals: clone_pos_vec(&self.goals),
            container_lut: lut,
            particles: clone_copy_vec(&self.particles),
            obstacles: clone_copy_vec(&self.obstacles),
        };
        proof {
            assert(lut_view(r.container_lut@) =~= lut_view(self.container_lut@));
            assert(r@ =~= self@);
        }
        r
    }
}

/// Whether two boards have the same mathematical shape: same dimensions,
/// goal set, container table, and both grids.
pub fn board_eq(a: &Board, b: &Board) -> (r: bool)
    ensures
        r == (a@ == b@),
{
    if a.width != b.width || a.height != b.height {
        return false;
    }
    if !crate::ordered::pos_vec_eq(&a.goals, &b.goals) {
        return false;
    }
    if a.container_lut.len() != b.container_lut.len() {
        proof {
            assert(a@.lut.len() != b@.lut.len());
        }
        return false;
    }
    let mut k: usize = 0;
    while k < a.container_lut.len()
        invariant
            k <= a.container_lut@.len(),
            a.container_lut@.len() == b.container_lut@.len(),
            forall|i: int|
                0 <= i < k ==> (#[trigger] a.container_lut@[i]).0@ == b.container_lut@[i].0@
                    && a.container_lut@[i].1@ == b.container_lut@[i].1@,
        decreases a.container_lut@.len() - k,
    {
        let keys_same = comp_eq(&a.container_lut[k].0, &b.container_lut[k].0);
        let vals_same = container_eq(&a.container_lut[k].1, &b.container_lut[k].1);
        if !keys_same || !vals_same {
            proof {
                assert(lut_view(a.container_lut@)[k as int] == (
                    a.container_lut@[k as int].0@,
                    a.container_lut@[k as int].1@,
                ));
                assert(lut_view(b.container_lut@)[k as int] == (
                    b.container_lut@[k as int].0@,
                    b.container_lut@[k as int].1@,
                ));
                assert(a@.lut != b@.lut);
            }
            return false;
        }
        k = k + 1;
    }
    if a.particles.len() != b.particles.len() {
        return false;
    }
    let mut k2: usize = 0;
    while k2 < a.particles.len()
        invariant
            k2 <= a.particles@.len(),
            a.particles@.len() == b.particles@.len(),
            forall|i: int| 0 <= i < k2 ==> a.particles@[i] == b.particles@[i],
        decreases a.particles@.len() - k2,
    {
        if !(a.particles[k2] == b.particles[k2]) {
            return false;
        }
        k2 = k2 + 1;
    }
    if a.obstacles.len() != b.obstacles.len() {
        return false;
    }
    let mut k3: usize = 0;
    while k3 < a.obstacles.len()
        invariant
            k3 <= a.obstacles@.len(),
            a.obstacles@.len() == b.obstacles@.len(),
            forall|i: int| 0 <= i < k3 ==> a.obstacles@[i] == b.obstacles@[i],
        decreases a.obstacles@.len() - k3,
    {
        if !(a.obstacles[k3] == b.obstacles[k3]) {
            return false;
        }
        k3 = k3 + 1;
    }
    proof {
        assert(a.particles@ =~= b.particles@);
        assert(a.obstacles@ =~= b.obstacles@);
        assert(lut_view(a.container_lut@) =~= lut_view(b.container_lut@));
        assert(a@ =~= b@);
    }
    true
}

} // verus!
// Whole-board move generation and the movement laws.

verus! {

/// The successor boards of one cell: none for an empty cell, the
/// occupant's moves otherwise.
pub open spec fn cell_moves(m: BoardModel, i: int) -> Seq<BoardModel> {
    if m.particles[i] is Empty {
        Seq::empty()
    } else {
        crate::particle::particle_moves(m, m.particles[i], m.pos_of_index(i))
    }
}

/// The successor boards of the first `n` cells, scanned in index order.
pub open spec fn board_moves_prefix(m: BoardModel, n: int) -> Seq<BoardModel>
    decreases n,
{
    if n <= 0 {
        Seq::empty()
    } else {
        board_moves_prefix(m, n - 1) + cell_moves(m, n - 1)
    }
}

/// The union of every occupied cell's moves, in cell order: the complete
/// one-step successor relation of the board.
pub open spec fn board_moves(m: BoardModel) -> Seq<BoardModel> {
    board_moves_prefix(m, m.particles.len() as int)
}

impl BoardModel {
    /// The position of a cell index.
    pub open spec fn pos_of_index(self, i: int) -> OrdIx2 {
        OrdIx2 { x: (i / (self.height as int)) as usize, y: (i % (self.height as int)) as usize }
    }
}

/// A cell index of a well-formed board addresses the in-bounds position
/// it decodes to.
pub proof fn lemma_pos_of_index(m: BoardModel, i: int)
    requires
        m.grids_wf(),
        0 <= i < m.particles.len(),
    ensures
        m.in_bounds(m.pos_of_index(i)),
        m.idx(m.pos_of_index(i)) == i,
{
    assert(m.height > 0) by (nonlinear_arith)
        requires
            m.particles.len() == m.width * m.height,
            0 <= i < m.particles.len(),
    ;
    assert(0 <= i % (m.height as int) && i % (m.height as int) < m.height && 0 <= i / (
    m.height as int) && i / (m.height as int) < m.width && i == (i / (m.height as int)) * (
    m.height as int) + i % (m.height as int)) by (nonlinear_arith)
        requires
            m.height > 0,
            0 <= i < m.width * m.height,
            m.particles.len() == m.width * m.height,
    ;
}

impl Board {
    /// Every one-move successor of every occupied cell, in cell order.
    /// No returned board equals the input: a move that would change
    /// nothing is never generated.
    pub fn all_moves(&self) -> (r: Vec<Board>)
        requires
            self@.wf(),
            self@.muon_free(),
        ensures
            crate::particle::boards_view(r@) == board_moves(self@),
            forall|i: int|
                0 <= i < r@.len() ==> (#[trigger] r@[i])@.wf() && r@[i]@.muon_free() && r@[i]@
                    != self@ && r@[i]@.width == self@.width && r@[i]@.height == self@.height
                    && r@[i]@.goals == self@.goals && r@[i]@.lut == self@.lut,
    {
        let mut r: Vec<Board> = Vec::new();
        let n = self.particles.len();
        let mut idx: usize = 0;
        while idx < n
            invariant
                idx <= n,
                n == self@.particles.len(),
                self@.wf(),
                self@.muon_free(),
                crate::particle::boards_view(r@) == board_moves_prefix(self@, idx as int),
                forall|i: int|
                    0 <= i < r@.len() ==> (#[trigger] r@[i])@.wf() && r@[i]@.muon_free() && r@[i]@
                        != self@ && r@[i]@.width == self@.width && r@[i]@.height == self@.height
                        && r@[i]@.goals == self@.goals && r@[i]@.lut == self@.lut,
            decreases n - idx,
        {
            let p = self.particles[idx];
            let is_empty = matches!(p, Particle::Empty(_));
            if !is_empty {
                proof {
                    lemma_pos_of_index(self@, idx as int);
                }
                let pos = OrdIx2 { x: idx / self.height, y: idx % self.height };
                proof {
                    assert(pos == self@.pos_of_index(idx as int));
                    assert(self@.particle_at(pos) == p);
                    assert(!(p is Muon));
                }
                let mut moves = p.all_moves(self, pos);
                let ghost pre = r@;
                let ghost mseq = moves@;
                r.append(&mut moves);
                proof {
                    let m = self@;
                    crate::particle::lemma_moves_along_properties(
                        m,
                        p,
                        pos,
                        match p {
                            Particle::Neutron(_) => seq![
                                Direction::Right,
                                Direction::Down,
                                Direction::Left,
                                Direction::Up,
                            ],
                            Particle::Electron(e) => crate::particle::electron::electron_dirs(
                                m,
                                e,
                                pos,
                            ),
                            Particle::Tau(t) => crate::particle::tau::tau_dirs(m, t, pos),
                            _ => Seq::empty(),
                        },
                    );
                    assert(crate::particle::boards_view(r@) =~= board_moves_prefix(
                        m,
                        idx + 1,
                    ));
                    assert forall|i: int|
                        0 <= i < r@.len() implies (#[trigger] r@[i])@.wf() && r@[i]@.muon_free()
                        && r@[i]@ != m && r@[i]@.width == m.width && r@[i]@.height == m.height
                        && r@[i]@.goals == m.goals && r@[i]@.lut == m.lut by {
                        if i < pre.len() {
                            assert(r@[i] == pre[i]);
                        } else {
                            assert(r@[i] == mseq[i - pre.len()]);
                            assert(crate::particle::boards_view(mseq)[i - pre.len()]
                                == mseq[i - pre.len()]@);
                            assert(crate::particle::particle_moves(m, p, pos)[i - pre.len()]
                                == mseq[i - pre.len()]@);
                        }
                    }
                }
            } else {
                proof {
                    assert(cell_moves(self@, idx as int) =~= Seq::<BoardModel>::empty());
                    assert(crate::particle::boards_view(r@) =~= board_moves_prefix(
                        self@,
                        idx + 1,
                    ));
                }
            }
            idx = idx + 1;
        }
        r
    }
}

/// Moving a particle out and back restores the original grid, provided
/// the target cell was empty (no intervening interaction).
pub proof fn lemma_move_particle_inverse(m: BoardModel, a: OrdIx2, b: OrdIx2)
    requires
        m.grids_wf(),
        m.in_bounds(a),
        m.in_bounds(b),
        a != b,
        m.particle_at(b) is Empty,
    ensures
        m.move_particle_m(a, b).move_particle_m(b, a) == m,
{
    lemma_idx_bounds(m, a);
    lemma_idx_bounds(m, b);
    if m.idx(a) == m.idx(b) {
        lemma_idx_injective(m, a, b);
    }
    let m2 = m.move_particle_m(a, b).move_particle_m(b, a);
    assert(m2.particles =~= m.particles);
    assert(m2 =~= m);
}

} // verus!
// Directional searching: the shared primitive behind charge sensing and
// collision detection.

verus! {

/// Whether `q` lies strictly beyond `p` on the ray leaving `p` along `d`.
pub open spec fn on_ray(m: BoardModel, d: Direction, p: OrdIx2, q: OrdIx2) -> bool {
    m.in_bounds(q) && match d {
        Direction::Right => q.y == p.y && q.x > p.x,
        Direction::Left => q.y == p.y && q.x < p.x,
        Direction::Down => q.x == p.x && q.y > p.y,
        Direction::Up => q.x == p.x && q.y < p.y,
    }
}

/// The first charge source met scanning outward from `p` along `d`: the
/// outermost container of the cell if it is bonded and charged, else the
/// lone particle if charged; `None` if the ray holds no source.
pub open spec fn find_source_m(m: BoardModel, d: Direction, p: OrdIx2) -> Option<(CompModel, int)>
    decreases m.ray_len(d, p),
{
    if !m.in_bounds(p) {
        None
    } else {
        match m.step_m(d, p) {
            None => None,
            Some(q) => match top_container_m(m.lut, CompModel::Particle(q), m.lut.len()) {
                Some(c) => if c.charge() != 0 {
                    Some((CompModel::Container(c.contents()), c.charge()))
                } else {
                    find_source_m(m, d, q)
                },
                None => if m.particle_at(q).spec_charge() != 0 {
                    Some((CompModel::Particle(q), m.particle_at(q).spec_charge()))
                } else {
                    find_source_m(m, d, q)
                },
            },
        }
    }
}

/// Whether a component model occurs in the sequence.
pub open spec fn comps_contain(s: Seq<CompModel>, c: CompModel) -> bool {
    exists|i: int| 0 <= i < s.len() && s[i] == c
}

/// The total of `find_charge_many`, threaded over the positions: each
/// position's first source is added once, a visited set keeping every
/// source counted at most once.
pub open spec fn fcm_rec(
    m: BoardModel,
    d: Direction,
    poss: Seq<OrdIx2>,
    visited: Seq<CompModel>,
    total: int,
) -> int
    decreases poss.len(),
{
    if poss.len() == 0 {
        total
    } else {
        match find_source_m(m, d, poss[0]) {
            None => fcm_rec(m, d, poss.drop_first(), visited, total),
            Some(s) => if comps_contain(visited, s.0) {
                fcm_rec(m, d, poss.drop_first(), visited, total)
            } else {
                fcm_rec(m, d, poss.drop_first(), visited.push(s.0), total + s.1)
            },
        }
    }
}

/// Whether every intermediate total of `fcm_rec` stays within `i32`:
/// exceeding it is a fatal configuration error, not a silent wraparound.
pub open spec fn fcm_fits(
    m: BoardModel,
    d: Direction,
    poss: Seq<OrdIx2>,
    visited: Seq<CompModel>,
    total: int,
) -> bool
    decreases poss.len(),
{
    if poss.len() == 0 {
        true
    } else {
        match find_source_m(m, d, poss[0]) {
            None => fcm_fits(m, d, poss.drop_first(), visited, total),
            Some(s) => if comps_contain(visited, s.0) {
                fcm_fits(m, d, poss.drop_first(), visited, total)
            } else {
                i32::MIN <= total + s.1 <= i32::MAX && fcm_fits(
                    m,
                    d,
                    poss.drop_first(),
                    visited.push(s.0),
                    total + s.1,
                )
            },
        }
    }
}

/// The aggregate charge `find_charge_many` reports for a contents group.
pub open spec fn find_charge_many_m(m: BoardModel, contents: Seq<CompModel>, d: Direction) -> int {
    fcm_rec(m, d, crate::container::positions_of_seq(contents), Seq::empty(), 0)
}

impl Board {
    /// The first charge source met scanning outward from `pos` along
    /// `direction`, as the component carrying it and its charge.
    fn find_source(&self, pos: OrdIx2, direction: Direction) -> (r: Option<(Component, i32)>)
        requires
            self@.wf(),
            self@.in_bounds(pos),
        ensures
            match r {
                Some(s) => find_source_m(self@, direction, pos) == Some((s.0@, s.1 as int)),
                None => find_source_m(self@, direction, pos) is None,
            },
    {
        let mut previous = pos;
        loop
            invariant
                self@.wf(),
                self@.in_bounds(previous),
                find_source_m(self@, direction, pos) == find_source_m(
                    self@,
                    direction,
                    previous,
                ),
            decreases self@.ray_len(direction, previous),
        {
            match self.move_direction(direction, previous) {
                None => {
                    return None;
                },
                Some(q) => {
                    let key = Component::Particle(q);
                    let top = self.top_container(&key);
                    match top {
                        Some(container) => {
                            proof {
                                lemma_top_container_charge_ok(
                                    self@.lut,
                                    key@,
                                    self@.lut.len(),
                                );
                            }
                            let charge = ContainerTrait::charge(container);
                            if charge != 0 {
                                let contents = clone_contents(ContainerTrait::contents(
                                    container,
                                ));
                                return Some((Component::Container(contents), charge));
                            }
                        },
                        None => {
                            let charge = self.get_particle(q).charge();
                            if charge != 0 {
                                return Some((Component::Particle(q), charge));
                            }
                        },
                    }
                    previous = q;
                },
            }
        }
    }

    /// Scans a whole contents group's positions, visiting each discovered
    /// charge source at most once and summing the distinct non-zero
    /// charges found along `direction`.
    pub fn find_charge_many(&self, contents: &Contents, direction: Direction) -> (r: i32)
        requires
            self@.wf(),
            forall|i: int|
                0 <= i < crate::container::positions_of_seq(comps_view(contents@)).len()
                    ==> self@.in_bounds(
                    #[trigger] crate::container::positions_of_seq(comps_view(contents@))[i],
                ),
            fcm_fits(
                self@,
                direction,
                crate::container::positions_of_seq(comps_view(contents@)),
                Seq::empty(),
                0,
            ),
        ensures
            r as int == find_charge_many_m(self@, comps_view(contents@), direction),
    {
        let mut visited: Vec<Component> = Vec::new();
        let mut total_charge: i32 = 0;

        let positions = crate::container::contents_positions(contents);
        let ghost all = crate::container::positions_of_seq(comps_view(contents@));
        proof {
            assert(all.subrange(0, all.len() as int) =~= all);
            assert(comps_view(visited@) =~= Seq::<CompModel>::empty());
        }
        let mut k: usize = 0;
        while k < positions.len()
            invariant
                k <= positions@.len(),
                positions@ == all,
                self@.wf(),
                forall|i: int| 0 <= i < all.len() ==> self@.in_bounds(#[trigger] all[i]),
                find_charge_many_m(self@, comps_view(contents@), direction) == fcm_rec(
                    self@,
                    direction,
                    all.subrange(k as int, all.len() as int),
                    comps_view(visited@),
                    total_charge as int,
                ),
                fcm_fits(
                    self@,
                    direction,
                    all.subrange(k as int, all.len() as int),
                    comps_view(visited@),
                    total_charge as int,
                ),
            decreases positions@.len() - k,
        {
            let ghost rest = all.subrange(k as int, all.len() as int);
            proof {
                assert(rest[0] == all[k as int]);
                assert(rest.drop_first() =~= all.subrange(k + 1, all.len() as int));
            }
            let pos = positions[k];
            let source = self.find_source(pos, direction);
            match source {
                Some((component, charge)) => {
                    let seen = comps_member(&visited, &component);
                    if !seen {
                        total_charge = total_charge + charge;
                        let ghost pre_visited = visited@;
                        visited.push(component);
                        proof {
                            assert(comps_view(visited@) =~= comps_view(pre_visited).push(
                                component@,
                            ));
                        }
                    }
                },
                None => {},
            }
            k = k + 1;
        }
        proof {
            assert(all.subrange(all.len() as int, all.len() as int) =~= Seq::<OrdIx2>::empty());
        }
        total_charge
    }
}

/// Whether a component with the same shape is already in the list.
fn comps_member(v: &Vec<Component>, c: &Component) -> (r: bool)
    ensures
        r == comps_contain(comps_view(v@), c@),
{
    let mut k: usize = 0;
    while k < v.len()
        invariant
            k <= v@.len(),
            forall|i: int| 0 <= i < k ==> (#[trigger] v@[i])@ != c@,
        decreases v@.len() - k,
    {
        let same = comp_eq(&v[k], c);
        if same {
            proof {
                assert(comps_view(v@)[k as int] == c@);
            }
            return true;
        }
        k = k + 1;
    }
    proof {
        assert forall|i: int| 0 <= i < comps_view(v@).len() implies comps_view(v@)[i] != c@ by {
            assert(comps_view(v@)[i] == v@[i]@);
        }
    }
    false
}

} // verus!
// Generic directional searching with caller-supplied predicates.

verus! {

/// Whether `q` lies on the ray from `p` along `d`, no farther than `r`.
pub open spec fn on_ray_upto(m: BoardModel, d: Direction, p: OrdIx2, r: OrdIx2, q: OrdIx2) -> bool {
    on_ray(m, d, p, q) && match d {
        Direction::Right => q.x <= r.x,
        Direction::Left => q.x >= r.x,
        Direction::Down => q.y <= r.y,
        Direction::Up => q.y >= r.y,
    }
}

/// Evidence that the applicable predicate refused the cell at `q`: the
/// container predicate returned false on the cell's outermost container,
/// or, for an unbonded cell, the particle predicate returned false on its
/// lone particle.
pub open spec fn probes_refused<FC: Fn(&Container) -> bool, FP: Fn(&Particle) -> bool>(
    m: BoardModel,
    q: OrdIx2,
    container_fn: FC,
    particle_fn: FP,
) -> bool {
    match top_container_m(m.lut, CompModel::Particle(q), m.lut.len()) {
        Some(cm) => exists|c: Container|
            #![auto]
            c@ == cm && call_ensures(container_fn, (&c,), false),
        None => exists|p: Particle|
            #![auto]
            p == m.particle_at(q) && call_ensures(particle_fn, (&p,), false),
    }
}

/// As `probes_refused`, for value-deriving predicates: the applicable one
/// returned `None` at `q`.
pub open spec fn value_probes_refused<
    T,
    FC: Fn(&Container) -> Option<T>,
    FP: Fn(&Particle) -> Option<T>,
>(m: BoardModel, q: OrdIx2, container_fn: FC, particle_fn: FP) -> bool {
    match top_container_m(m.lut, CompModel::Particle(q), m.lut.len()) {
        Some(cm) => exists|c: Container|
            #![auto]
            c@ == cm && call_ensures(container_fn, (&c,), None::<T>),
        None => exists|p: Particle|
            #![auto]
            p == m.particle_at(q) && call_ensures(particle_fn, (&p,), None::<T>),
    }
}

impl Board {
    /// Scans outward from `pos` along `direction`, testing each cell's
    /// outermost container (or lone particle, if unbonded) with the
    /// caller's predicates, and returns the first component satisfying
    /// one: every strictly earlier ray cell refused both predicates.
    pub fn find<T, FC: Fn(&Container) -> bool, FP: Fn(&Particle) -> bool>(
        &self,
        pos: OrdIx2,
        direction: Direction,
        container_fn: FC,
        particle_fn: FP,
    ) -> (r: Option<Component>)
        requires
            self@.wf(),
            self@.in_bounds(pos),
            forall|c: &Container| #[trigger] container_fn.requires((c,)),
            forall|p: &Particle| #[trigger] particle_fn.requires((p,)),
        ensures
            match r {
                Some(comp) => exists|q: OrdIx2|
                    #![auto]
                    on_ray(self@, direction, pos, q) && (match top_container_m(
                        self@.lut,
                        CompModel::Particle(q),
                        self@.lut.len(),
                    ) {
                        Some(cm) => comp@ == CompModel::Container(cm.contents()) && exists|
                            c: Container,
                        |
                            #![auto]
                            c@ == cm && call_ensures(container_fn, (&c,), true),
                        None => comp@ == CompModel::Particle(q) && exists|p: Particle|
                            #![auto]
                            p == self@.particle_at(q) && call_ensures(particle_fn, (&p,), true),
                    }) && (forall|r2: OrdIx2|
                        on_ray_upto(self@, direction, pos, q, r2) && r2 != q
                            ==> #[trigger] probes_refused(self@, r2, container_fn, particle_fn)),
                None => forall|q: OrdIx2|
                    on_ray(self@, direction, pos, q) ==> #[trigger] probes_refused(
                        self@,
                        q,
                        container_fn,
                        particle_fn,
                    ),
            },
    {
        let mut previous = pos;
        loop
            invariant
                self@.wf(),
                self@.in_bounds(previous),
                forall|c: &Container| #[trigger] container_fn.requires((c,)),
                forall|p: &Particle| #[trigger] particle_fn.requires((p,)),
                previous == pos || on_ray(self@, direction, pos, previous),
                forall|q: OrdIx2|
                    on_ray_upto(self@, direction, pos, previous, q) ==> #[trigger] probes_refused(
                        self@,
                        q,
                        container_fn,
                        particle_fn,
                    ),
            decreases self@.ray_len(direction, previous),
        {
            match self.move_direction(direction, previous) {
                None => {
                    proof {
                        assert forall|q: OrdIx2|
                            on_ray(self@, direction, pos, q) implies on_ray_upto(
                            self@,
                            direction,
                            pos,
                            previous,
                            q,
                        ) by {}
                    }
                    return None;
                },
                Some(q) => {
                    let key = Component::Particle(q);
                    let top = self.top_container(&key);
                    match top {
                        Some(c) => {
                            if container_fn(c) {
                                let contents = clone_contents(ContainerTrait::contents(c));
                                let comp = Component::Container(contents);
                                proof {
                                    assert(on_ray(self@, direction, pos, q));
                                    assert(c@ == top_container_m(
                                        self@.lut,
                                        CompModel::Particle(q),
                                        self@.lut.len(),
                                    )->Some_0);
                                    assert(call_ensures(container_fn, (c,), true));
                                    assert forall|r2: OrdIx2|
                                        on_ray_upto(self@, direction, pos, q, r2) && r2 != q
                                        implies #[trigger] probes_refused(
                                        self@,
                                        r2,
                                        container_fn,
                                        particle_fn,
                                    ) by {
                                        assert(on_ray_upto(self@, direction, pos, previous, r2));
                                    }
                                }
                                return Some(comp);
                            }
                            proof {
                                assert(call_ensures(container_fn, (c,), false));
                                assert(exists|c2: Container|
                                    #![auto]
                                    c2@ == top_container_m(
                                        self@.lut,
                                        CompModel::Particle(q),
                                        self@.lut.len(),
                                    )->Some_0 && call_ensures(container_fn, (&c2,), false));
                                assert(probes_refused(self@, q, container_fn, particle_fn));
                            }
                        },
                        None => {
                            let p = self.get_particle(q);
                            if particle_fn(&p) {
                                proof {
                                    assert(on_ray(self@, direction, pos, q));
                                    assert(call_ensures(particle_fn, (&p,), true));
                                    assert forall|r2: OrdIx2|
                                        on_ray_upto(self@, direction, pos, q, r2) && r2 != q
                                        implies #[trigger] probes_refused(
                                        self@,
                                        r2,
                                        container_fn,
                                        particle_fn,
                                    ) by {
                                        assert(on_ray_upto(self@, direction, pos, previous, r2));
                                    }
                                }
                                return Some(Component::Particle(q));
                            }
                            proof {
                                assert(call_ensures(particle_fn, (&p,), false));
                                assert(exists|p2: Particle|
                                    #![auto]
                                    p2 == self@.particle_at(q) && call_ensures(
                                        particle_fn,
                                        (&p2,),
                                        false,
                                    ));
                                assert(probes_refused(self@, q, container_fn, particle_fn));
                            }
                        },
                    }
                    proof {
                        assert forall|r: OrdIx2|
                            on_ray_upto(self@, direction, pos, q, r) implies on_ray_upto(
                            self@,
                            direction,
                            pos,
                            previous,
                            r,
                        ) || r == q by {}
                    }
                    previous = q;
                },
            }
        }
    }

    /// Like `find`, but the predicates derive a value, and the first
    /// derived value is returned with the component it came from.
    pub fn find_value<T, FC: Fn(&Container) -> Option<T>, FP: Fn(&Particle) -> Option<T>>(
        &self,
        pos: OrdIx2,
        direction: Direction,
        container_fn: FC,
        particle_fn: FP,
    ) -> (r: Option<(Component, T)>)
        requires
            self@.wf(),
            self@.in_bounds(pos),
            forall|c: &Container| #[trigger] container_fn.requires((c,)),
            forall|p: &Particle| #[trigger] particle_fn.requires((p,)),
        ensures
            match r {
                Some(found) => exists|q: OrdIx2|
                    #![auto]
                    on_ray(self@, direction, pos, q) && (match top_container_m(
                        self@.lut,
                        CompModel::Particle(q),
                        self@.lut.len(),
                    ) {
                        Some(cm) => found.0@ == CompModel::Container(cm.contents()) && exists|
                            c: Container,
                        |
                            #![auto]
                            c@ == cm && call_ensures(container_fn, (&c,), Some(found.1)),
                        None => found.0@ == CompModel::Particle(q) && exists|p: Particle|
                            #![auto]
                            p == self@.particle_at(q) && call_ensures(
                                particle_fn,
                                (&p,),
                                Some(found.1),
                            ),
                    }) && (forall|r2: OrdIx2|
                        on_ray_upto(self@, direction, pos, q, r2) && r2 != q
                            ==> #[trigger] value_probes_refused(
                            self@,
                            r2,
                            container_fn,
                            particle_fn,
                        )),
                None => forall|q: OrdIx2|
                    on_ray(self@, direction, pos, q) ==> #[trigger] value_probes_refused(
                        self@,
                        q,
                        container_fn,
                        particle_fn,
                    ),
            },
    {
        let mut previous = pos;
        loop
            invariant
                self@.wf(),
                self@.in_bounds(previous),
                forall|c: &Container| #[trigger] container_fn.requires((c,)),
                forall|p: &Particle| #[trigger] particle_fn.requires((p,)),
                previous == pos || on_ray(self@, direction, pos, previous),
                forall|q: OrdIx2|
                    on_ray_upto(self@, direction, pos, previous, q)
                        ==> #[trigger] value_probes_refused(self@, q, container_fn, particle_fn),
            decreases self@.ray_len(direction, previous),
        {
            match self.move_direction(direction, previous) {
                None => {
                    proof {
                        assert forall|q: OrdIx2|
                            on_ray(self@, direction, pos, q) implies on_ray_upto(
                            self@,
                            direction,
                            pos,
                            previous,
                            q,
                        ) by {}
                    }
                    return None;
                },
                Some(q) => {
                    let key = Component::Particle(q);
                    let top = self.top_container(&key);
                    match top {
                        Some(c) => {
                            let derived = container_fn(c);
                            match derived {
                                Some(v) => {
                                    let contents = clone_contents(ContainerTrait::contents(c));
                                    let comp = Component::Container(contents);
                                    proof {
                                        assert(on_ray(self@, direction, pos, q));
                                        assert(call_ensures(container_fn, (c,), Some(v)));
                                        assert(exists|c2: Container|
                                            #![auto]
                                            c2 == *c && call_ensures(
                                                container_fn,
                                                (&c2,),
                                                Some(v),
                                            ));
                                        assert forall|r2: OrdIx2|
                                            on_ray_upto(self@, direction, pos, q, r2) && r2 != q
                                            implies #[trigger] value_probes_refused(
                                            self@,
                                            r2,
                                            container_fn,
                                            particle_fn,
                                        ) by {
                                            assert(on_ray_upto(
                                                self@,
                                                direction,
                                                pos,
                                                previous,
                                                r2,
                                            ));
                                        }
                                    }
                                    return Some((comp, v));
                                },
                                None => {
                                    proof {
                                        assert(call_ensures(container_fn, (c,), None::<T>));
                                        assert(exists|c2: Container|
                                            #![auto]
                                            c2@ == top_container_m(
                                                self@.lut,
                                                CompModel::Particle(q),
                                                self@.lut.len(),
                                            )->Some_0 && call_ensures(
                                                container_fn,
                                                (&c2,),
                                                None::<T>,
                                            ));
                                        assert(value_probes_refused(
                                            self@,
                                            q,
                                            container_fn,
                                            particle_fn,
                                        ));
                                    }
                                },
                            }
                        },
                        None => {
                            let p = self.get_particle(q);
                            let derived = particle_fn(&p);
                            match derived {
                                Some(v) => {
                                    proof {
                                        let ghost fnd: (Component, T) = (
                                            Component::Particle(q),
                                            v,
                                        );
                                        assert(on_ray(self@, direction, pos, q));
                                        assert(call_ensures(particle_fn, (&p,), Some(v)));
                                        assert(fnd.1 == v);
                                        assert(exists|p2: Particle|
                                            #![auto]
                                            p2 == self@.particle_at(q) && call_ensures(
                                                particle_fn,
                                                (&p2,),
                                                Some(fnd.1),
                                            ));
                                        assert(fnd.0@ == CompModel::Particle(q));
                                        assert forall|r2: OrdIx2|
                                            on_ray_upto(self@, direction, pos, q, r2) && r2 != q
                                            implies #[trigger] value_probes_refused(
                                            self@,
                                            r2,
                                            container_fn,
                                            particle_fn,
                                        ) by {
                                            assert(on_ray_upto(
                                                self@,
                                                direction,
                                                pos,
                                                previous,
                                                r2,
                                            ));
                                        }
                                    }
                                    return Some((Component::Particle(q), v));
                                },
                                None => {
                                    proof {
                                        assert(call_ensures(particle_fn, (&p,), None::<T>));
                                        assert(exists|p2: Particle|
                                            #![auto]
                                            p2 == self@.particle_at(q) && call_ensures(
                                                particle_fn,
                                                (&p2,),
                                                None::<T>,
                                            ));
                                        assert(value_probes_refused(
                                            self@,
                                            q,
                                            container_fn,
                                            particle_fn,
                                        ));
                                    }
                                },
                            }
                        },
                    }
                    proof {
                        assert forall|r: OrdIx2|
                            on_ray_upto(self@, direction, pos, q, r) implies on_ray_upto(
                            self@,
                            direction,
                            pos,
                            previous,
                            r,
                        ) || r == q by {}
                    }
                    previous = q;
                },
            }
        }
    }
}

} // verus!
