//! Particles: the typed tokens occupying board cells. The variant set is
//! closed, so movement dispatch is an exhaustive match rather than virtual
//! dispatch.

use vstd::prelude::*;

pub use self::electron::Electron;
pub use self::muon::Muon;
pub use self::neutron::Neutron;
pub use self::tau::Tau;

pub mod electron;
pub mod muon;
pub mod neutron;
pub mod tau;

use crate::board::{Board, BoardModel};
use crate::obstacle::Obstacle;
use crate::ordered::OrdIx2;
use crate::property::{Antiness, Direction, Step};

verus! {

pub trait ParticleTrait {
    /// The electric charge this particle contributes on its own.
    spec fn spec_charge(&self) -> int;

    fn charge(&self) -> (r: i32)
        ensures
            r as int == self.spec_charge(),
    ;
}

#[derive(PartialEq, Eq, Structural, Clone, Copy, Hash, Debug)]
pub enum Particle {
    Empty(Empty),
    Electron(Electron),
    Muon(Muon),
    Tau(Tau),
    Neutron(Neutron),
}

impl Default for Particle {
    fn default() -> (r: Self)
        ensures
            r == Particle::Empty(Empty),
    {
        Particle::Empty(Empty)
    }
}

impl Particle {
    /// The charge carried by the lone particle: `-3` for an ordinary
    /// electron or tau, `+3` for their anti variants, `0` otherwise.
    pub open spec fn spec_charge(self) -> int {
        match self {
            Particle::Electron(e) => e.spec_charge(),
            Particle::Tau(t) => t.spec_charge(),
            _ => 0,
        }
    }

    pub fn charge(&self) -> (r: i32)
        ensures
            r as int == self.spec_charge(),
    {
        match self {
            Particle::Electron(e) => ParticleTrait::charge(e),
            Particle::Tau(t) => ParticleTrait::charge(t),
            _ => 0,
        }
    }

    /// Whether two particles are of the same type, ignoring antiness.
    pub open spec fn same_kind(self, other: Particle) -> bool {
        match (self, other) {
            (Particle::Empty(_), Particle::Empty(_)) => true,
            (Particle::Electron(_), Particle::Electron(_)) => true,
            (Particle::Muon(_), Particle::Muon(_)) => true,
            (Particle::Tau(_), Particle::Tau(_)) => true,
            (Particle::Neutron(_), Particle::Neutron(_)) => true,
            _ => false,
        }
    }

    /// The antiness flag of a non-empty particle.
    pub open spec fn spec_anti(self) -> Antiness {
        match self {
            Particle::Empty(_) => Antiness::Ordinary,
            Particle::Electron(e) => e.anti,
            Particle::Muon(m) => m.anti,
            Particle::Tau(t) => t.anti,
            Particle::Neutron(n) => n.anti,
        }
    }
}

/// The absence marker: every unoccupied cell holds this value.
#[derive(PartialEq, Eq, Structural, Clone, Copy, Hash, Debug, Default)]
pub struct Empty;

impl ParticleTrait for Empty {
    open spec fn spec_charge(&self) -> int {
        0
    }

    fn charge(&self) -> (r: i32) {
        0
    }
}

impl From<Empty> for Particle {
    fn from(value: Empty) -> (r: Particle) {
        Particle::Empty(value)
    }
}

impl vstd::std_specs::convert::FromSpecImpl<Empty> for Particle {
    open spec fn obeys_from_spec() -> bool {
        true
    }

    open spec fn from_spec(v: Empty) -> Particle {
        Particle::Empty(v)
    }
}

impl From<Electron> for Particle {
    fn from(value: Electron) -> (r: Particle) {
        Particle::Electron(value)
    }
}

impl vstd::std_specs::convert::FromSpecImpl<Electron> for Particle {
    open spec fn obeys_from_spec() -> bool {
        true
    }

    open spec fn from_spec(v: Electron) -> Particle {
        Particle::Electron(v)
    }
}

impl From<Muon> for Particle {
    fn from(value: Muon) -> (r: Particle) {
        Particle::Muon(value)
    }
}

impl vstd::std_specs::convert::FromSpecImpl<Muon> for Particle {
    open spec fn obeys_from_spec() -> bool {
        true
    }

    open spec fn from_spec(v: Muon) -> Particle {
        Particle::Muon(v)
    }
}

impl From<Tau> for Particle {
    fn from(value: Tau) -> (r: Particle) {
        Particle::Tau(value)
    }
}

impl vstd::std_specs::convert::FromSpecImpl<Tau> for Particle {
    open spec fn obeys_from_spec() -> bool {
        true
    }

    open spec fn from_spec(v: Tau) -> Particle {
        Particle::Tau(v)
    }
}

impl From<Neutron> for Particle {
    fn from(value: Neutron) -> (r: Particle) {
        Particle::Neutron(value)
    }
}

impl vstd::std_specs::convert::FromSpecImpl<Neutron> for Particle {
    open spec fn obeys_from_spec() -> bool {
        true
    }

    open spec fn from_spec(v: Neutron) -> Particle {
        Particle::Neutron(v)
    }
}

/// How a walking particle reacts to one cell: empty cells are entered or
/// ruled by their obstacle; a same-type particle of opposite antiness
/// annihilates (with shockwave radius 3); anything else blocks.
pub open spec fn classify_step(mover: Particle, cell: Particle, obst: Obstacle) -> Step {
    if cell is Empty {
        match obst {
            Obstacle::Empty(_) => Step::Continue,
            Obstacle::Block(_) => Step::Shift,
            Obstacle::Hole(_) => Step::Remove,
        }
    } else if mover.same_kind(cell) {
        if mover.spec_anti() == cell.spec_anti() {
            Step::Shift
        } else {
            Step::Annihilate(3)
        }
    } else {
        Step::Shift
    }
}

/// The executable cell classification.
pub fn classify_step_exec(mover: Particle, cell: Particle, obst: Obstacle) -> (r: Step)
    ensures
        r == classify_step(mover, cell, obst),
{
    match cell {
        Particle::Empty(_) => match obst {
            Obstacle::Empty(_) => Step::Continue,
            Obstacle::Block(_) => Step::Shift,
            Obstacle::Hole(_) => Step::Remove,
        },
        _ => {
            let same_kind = match (mover, cell) {
                (Particle::Empty(_), Particle::Empty(_)) => true,
                (Particle::Electron(_), Particle::Electron(_)) => true,
                (Particle::Muon(_), Particle::Muon(_)) => true,
                (Particle::Tau(_), Particle::Tau(_)) => true,
                (Particle::Neutron(_), Particle::Neutron(_)) => true,
                _ => false,
            };
            if same_kind {
                let ma = match mover {
                    Particle::Empty(_) => Antiness::Ordinary,
                    Particle::Electron(e) => e.anti,
                    Particle::Muon(m) => m.anti,
                    Particle::Tau(t) => t.anti,
                    Particle::Neutron(n) => n.anti,
                };
                let ca = match cell {
                    Particle::Empty(_) => Antiness::Ordinary,
                    Particle::Electron(e) => e.anti,
                    Particle::Muon(m) => m.anti,
                    Particle::Tau(t) => t.anti,
                    Particle::Neutron(n) => n.anti,
                };
                if ma == ca {
                    Step::Shift
                } else {
                    Step::Annihilate(3)
                }
            } else {
                Step::Shift
            }
        },
    }
}

/// The board after the mover at `pos` annihilates with the occupant of
/// `cell`: both disappear and the shockwave clears nearby obstacles.
pub open spec fn annihilate_outcome(m: BoardModel, pos: OrdIx2, cell: OrdIx2, s: int) -> BoardModel {
    m.remove_particle_m(pos).remove_particle_m(cell).annihilate_m(cell, s)
}

/// The rest of a move traversal: from `prev` (already entered), keep
/// walking along `d` cell by cell until something other than `Continue`
/// happens, settling at the last entered cell at a `Shift` or the edge.
pub open spec fn walk_m(
    m: BoardModel,
    mover: Particle,
    pos: OrdIx2,
    d: Direction,
    prev: OrdIx2,
) -> Option<BoardModel>
    decreases m.ray_len(d, prev),
{
    if !m.in_bounds(prev) {
        None
    } else {
        match m.step_m(d, prev) {
            None => Some(m.move_particle_m(pos, prev)),
            Some(next) => match classify_step(mover, m.particle_at(next), m.obstacle_at(next)) {
                Step::Continue => walk_m(m, mover, pos, d, next),
                Step::Shift => Some(m.move_particle_m(pos, prev)),
                Step::Annihilate(s) => Some(annihilate_outcome(m, pos, next, s as int)),
                Step::Remove => Some(m.remove_particle_m(pos)),
            },
        }
    }
}

/// One move of `mover` from `pos` along `d`: `None` when the very first
/// cell already blocks (or `pos` sits at the edge), otherwise the one
/// resulting board.
pub open spec fn one_move_m(m: BoardModel, mover: Particle, pos: OrdIx2, d: Direction) -> Option<
    BoardModel,
> {
    match m.step_m(d, pos) {
        None => None,
        Some(next) => match classify_step(mover, m.particle_at(next), m.obstacle_at(next)) {
            Step::Continue => walk_m(m, mover, pos, d, next),
            Step::Shift => None,
            Step::Annihilate(s) => Some(annihilate_outcome(m, pos, next, s as int)),
            Step::Remove => Some(m.remove_particle_m(pos)),
        },
    }
}

/// The shared walking engine: one move of `mover` from `pos` along
/// `direction`, on a clone of the board.
pub(crate) fn one_move(mover: Particle, board: &Board, pos: OrdIx2, direction: Direction) -> (r:
    Option<Board>)
    requires
        board@.wf(),
        board@.in_bounds(pos),
    ensures
        match r {
            Some(b) => one_move_m(board@, mover, pos, direction) == Some(b@),
            None => one_move_m(board@, mover, pos, direction) is None,
        },
{
    let next = match board.move_direction(direction, pos) {
        Some(n) => n,
        None => {
            return None;
        },
    };
    let cp = board.get_particle(next);
    let co = board.get_obstacle(next);
    let step = classify_step_exec(mover, cp, co);
    match step {
        Step::Shift => None,
        Step::Remove => {
            let mut ret_board = board.clone();
            ret_board.remove_particle(pos);
            Some(ret_board)
        },
        Step::Annihilate(s) => {
            let mut ret_board = board.clone();
            ret_board.remove_particle(pos);
            proof {
                crate::board::lemma_idx_bounds(board@, pos);
                crate::board::lemma_idx_bounds(board@, next);
                assert(ret_board@ == board@.remove_particle_m(pos));
                assert(ret_board@.grids_wf());
            }
            ret_board.remove_particle(next);
            proof {
                assert(ret_board@.grids_wf());
            }
            ret_board.annihilate(next, s);
            Some(ret_board)
        },
        Step::Continue => {
            let mut previous = next;
            loop
                invariant
                    board@.wf(),
                    board@.in_bounds(pos),
                    board@.in_bounds(previous),
                    one_move_m(board@, mover, pos, direction) == walk_m(
                        board@,
                        mover,
                        pos,
                        direction,
                        previous,
                    ),
                decreases board@.ray_len(direction, previous),
            {
                match board.move_direction(direction, previous) {
                    None => {
                        let mut ret_board = board.clone();
                        ret_board.move_particle(pos, previous);
                        proof {
                            // The walk has left `pos`, so the settle is a
                            // real move.
                            if pos == previous {
                                assert(one_move_m(board@, mover, pos, direction) is None);
                                assert(false);
                            }
                        }
                        return Some(ret_board);
                    },
                    Some(n2) => {
                        let cp2 = board.get_particle(n2);
                        let co2 = board.get_obstacle(n2);
                        let step2 = classify_step_exec(mover, cp2, co2);
                        match step2 {
                            Step::Continue => {
                                previous = n2;
                            },
                            Step::Shift => {
                                let mut ret_board = board.clone();
                                ret_board.move_particle(pos, previous);
                                proof {
                                    // The walk has left `pos`, so the settle
                                    // is a real move.
                                    if pos == previous {
                                        assert(one_move_m(board@, mover, pos, direction)
                                            is None);
                                        assert(false);
                                    }
                                }
                                return Some(ret_board);
                            },
                            Step::Annihilate(s2) => {
                                let mut ret_board = board.clone();
                                ret_board.remove_particle(pos);
                                proof {
                                    crate::board::lemma_idx_bounds(board@, pos);
                                    crate::board::lemma_idx_bounds(board@, n2);
                                    assert(ret_board@ == board@.remove_particle_m(pos));
                                    assert(ret_board@.grids_wf());
                                }
                                ret_board.remove_particle(n2);
                                proof {
                                    assert(ret_board@.grids_wf());
                                }
                                ret_board.annihilate(n2, s2);
                                return Some(ret_board);
                            },
                            Step::Remove => {
                                let mut ret_board = board.clone();
                                ret_board.remove_particle(pos);
                                return Some(ret_board);
                            },
                        }
                    },
                }
            }
        },
    }
}

/// The boards of an optional move.
pub open spec fn opt_to_seq(o: Option<BoardModel>) -> Seq<BoardModel> {
    match o {
        None => Seq::empty(),
        Some(b) => seq![b],
    }
}

/// The successor boards of trying `dirs` in order, keeping those moves
/// that produce one.
pub open spec fn moves_along(
    m: BoardModel,
    mover: Particle,
    pos: OrdIx2,
    dirs: Seq<Direction>,
) -> Seq<BoardModel>
    decreases dirs.len(),
{
    if dirs.len() == 0 {
        Seq::empty()
    } else {
        opt_to_seq(one_move_m(m, mover, pos, dirs[0])) + moves_along(m, mover, pos, dirs.drop_first())
    }
}

/// Trying one more direction appends its boards.
pub proof fn lemma_moves_along_snoc(
    m: BoardModel,
    mover: Particle,
    pos: OrdIx2,
    dirs: Seq<Direction>,
    d: Direction,
)
    ensures
        moves_along(m, mover, pos, dirs.push(d)) == moves_along(m, mover, pos, dirs) + opt_to_seq(
            one_move_m(m, mover, pos, d),
        ),
    decreases dirs.len(),
{
    let t = dirs.push(d);
    if dirs.len() == 0 {
        assert(t[0] == d);
        assert(t.drop_first() =~= Seq::<Direction>::empty());
        assert(moves_along(m, mover, pos, Seq::<Direction>::empty()) == Seq::<
            BoardModel,
        >::empty());
        assert(opt_to_seq(one_move_m(m, mover, pos, d)) + Seq::<BoardModel>::empty() =~= Seq::<
            BoardModel,
        >::empty() + opt_to_seq(one_move_m(m, mover, pos, d)));
    } else {
        assert(t[0] == dirs[0]);
        assert(t.drop_first() =~= dirs.drop_first().push(d));
        lemma_moves_along_snoc(m, mover, pos, dirs.drop_first(), d);
        assert(moves_along(m, mover, pos, t) == opt_to_seq(one_move_m(m, mover, pos, dirs[0]))
            + (moves_along(m, mover, pos, dirs.drop_first()) + opt_to_seq(
            one_move_m(m, mover, pos, d),
        )));
        assert(opt_to_seq(one_move_m(m, mover, pos, dirs[0])) + (moves_along(
            m,
            mover,
            pos,
            dirs.drop_first(),
        ) + opt_to_seq(one_move_m(m, mover, pos, d))) =~= (opt_to_seq(
            one_move_m(m, mover, pos, dirs[0]),
        ) + moves_along(m, mover, pos, dirs.drop_first())) + opt_to_seq(
            one_move_m(m, mover, pos, d),
        ));
    }
}

/// The views of a vector of boards.
pub open spec fn boards_view(s: Seq<Board>) -> Seq<BoardModel> {
    Seq::new(s.len(), |i: int| if 0 <= i < s.len() { s[i]@ } else { arbitrary() })
}

/// What a successor board shares with its parent: well-formedness,
/// muon-freedom, dimensions, goals and containers; and what it cannot
/// share: the mover's cell, which is left empty.
pub open spec fn successor_props(m: BoardModel, pos: OrdIx2, b2: BoardModel) -> bool {
    &&& b2.wf()
    &&& (m.muon_free() ==> b2.muon_free())
    &&& b2.width == m.width
    &&& b2.height == m.height
    &&& b2.goals == m.goals
    &&& b2.lut == m.lut
    &&& b2.particle_at(pos) is Empty
}

proof fn lemma_walk_m_properties(
    m: BoardModel,
    mover: Particle,
    pos: OrdIx2,
    d: Direction,
    prev: OrdIx2,
)
    requires
        m.wf(),
        m.in_bounds(pos),
        m.in_bounds(prev),
    ensures
        walk_m(m, mover, pos, d, prev) matches Some(b2) ==> successor_props(m, pos, b2),
    decreases m.ray_len(d, prev),
{
    crate::board::lemma_idx_bounds(m, pos);
    crate::board::lemma_idx_bounds(m, prev);
    match m.step_m(d, prev) {
        None => {},
        Some(next) => {
            crate::board::lemma_idx_bounds(m, next);
            match classify_step(mover, m.particle_at(next), m.obstacle_at(next)) {
                Step::Continue => {
                    lemma_walk_m_properties(m, mover, pos, d, next);
                },
                Step::Shift => {},
                Step::Annihilate(_) => {},
                Step::Remove => {},
            }
        },
    }
}

/// Whatever board one move produces is a well-formed successor whose
/// origin cell is empty; in particular it differs from its parent
/// whenever the mover was a real particle.
pub proof fn lemma_one_move_m_properties(m: BoardModel, mover: Particle, pos: OrdIx2, d: Direction)
    requires
        m.wf(),
        m.in_bounds(pos),
    ensures
        one_move_m(m, mover, pos, d) matches Some(b2) ==> successor_props(m, pos, b2),
        (one_move_m(m, mover, pos, d) matches Some(b2) && !(m.particle_at(pos) is Empty))
            ==> one_move_m(m, mover, pos, d)->Some_0 != m,
{
    crate::board::lemma_idx_bounds(m, pos);
    match m.step_m(d, pos) {
        None => {},
        Some(next) => {
            crate::board::lemma_idx_bounds(m, next);
            match classify_step(mover, m.particle_at(next), m.obstacle_at(next)) {
                Step::Continue => {
                    lemma_walk_m_properties(m, mover, pos, d, next);
                },
                Step::Shift => {},
                Step::Annihilate(_) => {},
                Step::Remove => {},
            }
        },
    }
    if one_move_m(m, mover, pos, d) matches Some(b2) && !(m.particle_at(pos) is Empty) {
        let b2 = one_move_m(m, mover, pos, d)->Some_0;
        assert(b2.particle_at(pos) != m.particle_at(pos));
        assert(b2.particles != m.particles);
    }
}

/// Every board reached by trying a direction list is such a successor.
pub proof fn lemma_moves_along_properties(
    m: BoardModel,
    mover: Particle,
    pos: OrdIx2,
    dirs: Seq<Direction>,
)
    requires
        m.wf(),
        m.in_bounds(pos),
        !(m.particle_at(pos) is Empty),
    ensures
        forall|i: int|
            0 <= i < moves_along(m, mover, pos, dirs).len() ==> successor_props(
                m,
                pos,
                #[trigger] moves_along(m, mover, pos, dirs)[i],
            ) && moves_along(m, mover, pos, dirs)[i] != m,
    decreases dirs.len(),
{
    if dirs.len() == 0 {
    } else {
        lemma_one_move_m_properties(m, mover, pos, dirs[0]);
        lemma_moves_along_properties(m, mover, pos, dirs.drop_first());
        let r = moves_along(m, mover, pos, dirs);
        let hd = opt_to_seq(one_move_m(m, mover, pos, dirs[0]));
        let tl = moves_along(m, mover, pos, dirs.drop_first());
        assert forall|i: int| 0 <= i < r.len() implies successor_props(m, pos, #[trigger] r[i])
            && r[i] != m by {
            if i < hd.len() {
                assert(r[i] == hd[0]);
            } else {
                assert(r[i] == tl[i - hd.len()]);
            }
        }
    }
}

/// Runs the walking engine along each direction in order, collecting the
/// moves that produce a board.
pub(crate) fn moves_for_dirs(
    mover: Particle,
    board: &Board,
    pos: OrdIx2,
    dirs: &Vec<Direction>,
) -> (r: Vec<Board>)
    requires
        board@.wf(),
        board@.in_bounds(pos),
    ensures
        boards_view(r@) == moves_along(board@, mover, pos, dirs@),
{
    let mut r: Vec<Board> = Vec::new();
    let mut k: usize = 0;
    proof {
        assert(dirs@.subrange(0, 0) =~= Seq::<Direction>::empty());
        assert(boards_view(r@) =~= moves_along(board@, mover, pos, dirs@.subrange(0, 0)));
    }
    while k < dirs.len()
        invariant
            k <= dirs@.len(),
            board@.wf(),
            board@.in_bounds(pos),
            boards_view(r@) == moves_along(board@, mover, pos, dirs@.subrange(0, k as int)),
        decreases dirs@.len() - k,
    {
        let d = dirs[k];
        let ghost pre = r@;
        let mv = one_move(mover, board, pos, d);
        match mv {
            Some(b) => {
                r.push(b);
            },
            None => {},
        }
        proof {
            lemma_moves_along_snoc(board@, mover, pos, dirs@.subrange(0, k as int), d);
            assert(dirs@.subrange(0, k + 1) =~= dirs@.subrange(0, k as int).push(d));
            assert(boards_view(r@) =~= moves_along(board@, mover, pos, dirs@.subrange(0, k + 1)));
        }
        k = k + 1;
    }
    proof {
        assert(dirs@.subrange(0, dirs@.len() as int) =~= dirs@);
    }
    r
}

/// The directions charge sensing admits for a particle of the given
/// charge at `pos`: along each axis, the sign of the particle's own
/// charge times the difference of the nearest charges sensed to either
/// side (container-aware) decides; an exact tie admits both ways. One
/// rule serves every charged particle type.
pub open spec fn charge_directed_dirs(m: BoardModel, charge: int, pos: OrdIx2) -> Seq<Direction> {
    let x = charge * (m.find_charge_single_m(Direction::Right, pos) - m.find_charge_single_m(
        Direction::Left,
        pos,
    ));
    let y = charge * (m.find_charge_single_m(Direction::Down, pos) - m.find_charge_single_m(
        Direction::Up,
        pos,
    ));
    (if x >= 0 {
        seq![Direction::Left]
    } else {
        Seq::empty()
    }) + (if x <= 0 {
        seq![Direction::Right]
    } else {
        Seq::empty()
    }) + (if y >= 0 {
        seq![Direction::Up]
    } else {
        Seq::empty()
    }) + (if y <= 0 {
        seq![Direction::Down]
    } else {
        Seq::empty()
    })
}

/// The successor boards of one particle at `pos`: a neutron tries all
/// four directions; electrons and taus try only the directions their
/// charge sensing admits; empty cells and muons produce none.
pub open spec fn particle_moves(m: BoardModel, p: Particle, pos: OrdIx2) -> Seq<BoardModel> {
    match p {
        Particle::Neutron(_) => moves_along(
            m,
            p,
            pos,
            seq![Direction::Right, Direction::Down, Direction::Left, Direction::Up],
        ),
        Particle::Electron(e) => moves_along(m, p, pos, electron::electron_dirs(m, e, pos)),
        Particle::Tau(t) => moves_along(m, p, pos, tau::tau_dirs(m, t, pos)),
        _ => Seq::empty(),
    }
}

impl Particle {
    /// The exhaustive set of one-move successor boards of this particle
    /// from `pos`, dispatched on the (closed) variant set. Movement is
    /// not defined for empty cells or muons.
    pub fn all_moves(&self, board: &Board, pos: OrdIx2) -> (r: Vec<Board>)
        requires
            board@.wf(),
            board@.in_bounds(pos),
            !(*self is Empty),
            !(*self is Muon),
        ensures
            boards_view(r@) == particle_moves(board@, *self, pos),
    {
        match self {
            Particle::Electron(e) => e.all_moves(board, pos),
            Particle::Tau(t) => t.all_moves(board, pos),
            Particle::Neutron(n) => n.all_moves(board, pos),
            Particle::Empty(_) => Vec::new(),
            Particle::Muon(_) => Vec::new(),
        }
    }
}

// Laws of the movement engine.

/// Whether `r` comes strictly earlier than `q` along `d`.
pub open spec fn strictly_before(d: Direction, r: OrdIx2, q: OrdIx2) -> bool {
    match d {
        Direction::Right => r.x < q.x,
        Direction::Left => r.x > q.x,
        Direction::Down => r.y < q.y,
        Direction::Up => r.y > q.y,
    }
}

/// The cell one step back toward the walk's origin from `q`.
pub open spec fn back_cell(d: Direction, q: OrdIx2) -> OrdIx2 {
    match d {
        Direction::Right => OrdIx2 { x: (q.x - 1) as usize, y: q.y },
        Direction::Left => OrdIx2 { x: (q.x + 1) as usize, y: q.y },
        Direction::Down => OrdIx2 { x: q.x, y: (q.y - 1) as usize },
        Direction::Up => OrdIx2 { x: q.x, y: (q.y + 1) as usize },
    }
}

/// The last board cell of the ray leaving `p` along `d`.
pub open spec fn edge_cell(m: BoardModel, d: Direction, p: OrdIx2) -> OrdIx2 {
    match d {
        Direction::Right => OrdIx2 { x: (m.width - 1) as usize, y: p.y },
        Direction::Left => OrdIx2 { x: 0, y: p.y },
        Direction::Down => OrdIx2 { x: p.x, y: (m.height - 1) as usize },
        Direction::Up => OrdIx2 { x: p.x, y: 0 },
    }
}

/// A cell a walking particle passes freely: no particle, no obstacle.
pub open spec fn clear_cell(m: BoardModel, r: OrdIx2) -> bool {
    m.particle_at(r) is Empty && m.obstacle_at(r) is Empty
}

/// A particle blocked on its very first step produces no board in that
/// direction: whether by a wall or by an incompatible particle, the move
/// is cancelled rather than generated.
pub proof fn lemma_blocked_first_step(m: BoardModel, mover: Particle, pos: OrdIx2, d: Direction)
    requires
        m.step_m(d, pos) matches Some(next) && ((m.particle_at(next) is Empty && m.obstacle_at(
            next,
        ) is Block) || (!(m.particle_at(next) is Empty) && (!mover.same_kind(m.particle_at(next))
            || mover.spec_anti() == m.particle_at(next).spec_anti()))),
    ensures
        one_move_m(m, mover, pos, d) is None,
{
}

/// A particle whose first cell ahead is a hole is removed entirely: the
/// source empties, the hole's cell keeps its (empty) particle, and the
/// hole itself remains.
pub proof fn lemma_hole_first_step(m: BoardModel, mover: Particle, pos: OrdIx2, d: Direction)
    requires
        m.wf(),
        m.in_bounds(pos),
        m.step_m(d, pos) matches Some(next) && m.particle_at(next) is Empty && m.obstacle_at(
            next,
        ) is Hole,
    ensures
        one_move_m(m, mover, pos, d) == Some(m.remove_particle_m(pos)),
        m.remove_particle_m(pos).particle_at(pos) is Empty,
        m.step_m(d, pos) matches Some(next) ==> m.remove_particle_m(pos).particle_at(next)
            is Empty && m.remove_particle_m(pos).obstacle_at(next) == m.obstacle_at(next),
{
    let next = m.step_m(d, pos)->Some_0;
    crate::board::lemma_idx_bounds(m, pos);
    crate::board::lemma_idx_bounds(m, next);
    if m.idx(pos) == m.idx(next) {
        crate::board::lemma_idx_injective(m, pos, next);
    }
}

/// A particle meeting its own antiparticle on the first cell annihilates:
/// both cells end empty and every obstacle within Manhattan distance 3 of
/// the collision cell is removed, the rest untouched.
pub proof fn lemma_annihilate_first_step(m: BoardModel, mover: Particle, pos: OrdIx2, d: Direction)
    requires
        m.wf(),
        m.in_bounds(pos),
        m.step_m(d, pos) matches Some(next) && !(m.particle_at(next) is Empty) && mover.same_kind(
            m.particle_at(next),
        ) && mover.spec_anti() != m.particle_at(next).spec_anti(),
    ensures
        m.step_m(d, pos) matches Some(next) ==> {
            let r = annihilate_outcome(m, pos, next, 3);
            &&& one_move_m(m, mover, pos, d) == Some(r)
            &&& r.particle_at(pos) is Empty
            &&& r.particle_at(next) is Empty
            &&& forall|q: OrdIx2|
                m.in_bounds(q) && crate::board::manhattan(q, next) <= 3 ==> (#[trigger] r.obstacle_at(
                    q,
                )) is Empty
            &&& forall|q: OrdIx2|
                m.in_bounds(q) && crate::board::manhattan(q, next) > 3 ==> #[trigger] r.obstacle_at(
                    q,
                ) == m.obstacle_at(q)
        },
{
    let next = m.step_m(d, pos)->Some_0;
    let r = annihilate_outcome(m, pos, next, 3);
    crate::board::lemma_idx_bounds(m, pos);
    crate::board::lemma_idx_bounds(m, next);
    assert forall|q: OrdIx2| m.in_bounds(q) implies #[trigger] r.obstacle_at(q) == (
    if crate::board::manhattan(q, next) <= 3 {
        Obstacle::Empty(crate::obstacle::Empty)
    } else {
        m.obstacle_at(q)
    }) by {
        crate::board::lemma_idx_bounds(m, q);
        crate::board::lemma_pos_of_index(m, m.idx(q));
        crate::board::lemma_idx_injective(m, m.pos_of_index(m.idx(q)), q);
    }
}

proof fn lemma_walk_clear_to_edge(
    m: BoardModel,
    mover: Particle,
    pos: OrdIx2,
    d: Direction,
    prev: OrdIx2,
)
    requires
        m.wf(),
        m.in_bounds(pos),
        m.in_bounds(prev),
        crate::board::on_ray(m, d, pos, prev),
        forall|r: OrdIx2| crate::board::on_ray(m, d, pos, r) ==> clear_cell(m, r),
    ensures
        walk_m(m, mover, pos, d, prev) == Some(m.move_particle_m(pos, edge_cell(m, d, pos))),
    decreases m.ray_len(d, prev),
{
    match m.step_m(d, prev) {
        None => {
            assert(prev == edge_cell(m, d, pos));
        },
        Some(next) => {
            assert(crate::board::on_ray(m, d, pos, next));
            assert(clear_cell(m, next));
            lemma_walk_clear_to_edge(m, mover, pos, d, next);
        },
    }
}

/// On a fully clear ray, a particle slides all the way to the board
/// edge: the one successor board in that direction moves it from `pos`
/// to the ray's last cell.
pub proof fn lemma_clear_ray_slides_to_edge(
    m: BoardModel,
    mover: Particle,
    pos: OrdIx2,
    d: Direction,
)
    requires
        m.wf(),
        m.in_bounds(pos),
        m.step_m(d, pos) is Some,
        forall|r: OrdIx2| crate::board::on_ray(m, d, pos, r) ==> clear_cell(m, r),
    ensures
        one_move_m(m, mover, pos, d) == Some(m.move_particle_m(pos, edge_cell(m, d, pos))),
{
    let next = m.step_m(d, pos)->Some_0;
    assert(crate::board::on_ray(m, d, pos, next));
    assert(clear_cell(m, next));
    lemma_walk_clear_to_edge(m, mover, pos, d, next);
}

proof fn lemma_walk_settles_before(
    m: BoardModel,
    mover: Particle,
    pos: OrdIx2,
    d: Direction,
    prev: OrdIx2,
    q: OrdIx2,
)
    requires
        m.wf(),
        m.in_bounds(pos),
        m.in_bounds(prev),
        crate::board::on_ray(m, d, pos, prev),
        crate::board::on_ray(m, d, pos, q),
        strictly_before(d, prev, q),
        forall|r: OrdIx2|
            crate::board::on_ray(m, d, pos, r) && strictly_before(d, r, q) ==> clear_cell(m, r),
        classify_step(mover, m.particle_at(q), m.obstacle_at(q)) == Step::Shift,
    ensures
        walk_m(m, mover, pos, d, prev) == Some(m.move_particle_m(pos, back_cell(d, q))),
    decreases m.ray_len(d, prev),
{
    match m.step_m(d, prev) {
        None => {
            assert(false);
        },
        Some(next) => {
            assert(crate::board::on_ray(m, d, pos, next));
            if next == q {
                assert(prev == back_cell(d, q));
            } else {
                assert(strictly_before(d, next, q));
                assert(clear_cell(m, next));
                lemma_walk_settles_before(m, mover, pos, d, next, q);
            }
        },
    }
}

/// A particle walking toward a blocking occupant (a compatible particle,
/// or any wall) over otherwise clear cells settles exactly one cell
/// before it, adjacent and not overlapping.
pub proof fn lemma_settles_before_blocker(
    m: BoardModel,
    mover: Particle,
    pos: OrdIx2,
    d: Direction,
    q: OrdIx2,
)
    requires
        m.wf(),
        m.in_bounds(pos),
        crate::board::on_ray(m, d, pos, q),
        m.step_m(d, pos) != Some(q),
        forall|r: OrdIx2|
            crate::board::on_ray(m, d, pos, r) && strictly_before(d, r, q) ==> clear_cell(m, r),
        classify_step(mover, m.particle_at(q), m.obstacle_at(q)) == Step::Shift,
    ensures
        one_move_m(m, mover, pos, d) == Some(m.move_particle_m(pos, back_cell(d, q))),
{
    match m.step_m(d, pos) {
        None => {
            assert(false);
        },
        Some(next) => {
            assert(crate::board::on_ray(m, d, pos, next));
            assert(next != q);
            assert(strictly_before(d, next, q));
            assert(clear_cell(m, next));
            lemma_walk_settles_before(m, mover, pos, d, next, q);
        },
    }
}

} // verus!
