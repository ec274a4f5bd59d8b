//! The solver: breadth-first expansion over the implicit graph of board
//! states, deduplicated by board value. Every step is specified as a
//! function of the solver's mathematical state, so two solvers started
//! from equal boards evolve identically.

use vstd::prelude::*;

use crate::board::{board_eq, board_moves, Board, BoardModel};
use crate::tree::{NodeModel, Tree, TreeModel};

verus! {

pub struct Solver {
    tree: Tree<Board>,
    next_states: Vec<usize>,
    board_to_key: Vec<(Board, usize)>,
}

/// The mathematical state of a search: the tree of reached boards, the
/// frontier pending expansion, and the board-to-identifier map.
#[verifier::ext_equal]
pub ghost struct SolverModel {
    pub tree: TreeModel<BoardModel>,
    pub next: Seq<usize>,
    pub map: Seq<(BoardModel, usize)>,
}

/// First-match lookup in the deduplication map.
pub open spec fn assoc_get(map: Seq<(BoardModel, usize)>, b: BoardModel) -> Option<usize>
    decreases map.len(),
{
    if map.len() == 0 {
        None
    } else if map[0].0 == b {
        Some(map[0].1)
    } else {
        assoc_get(map.drop_first(), b)
    }
}

proof fn lemma_assoc_get_at(map: Seq<(BoardModel, usize)>, b: BoardModel, i: int)
    requires
        0 <= i < map.len(),
        map[i].0 == b,
        forall|j: int| 0 <= j < i ==> (#[trigger] map[j]).0 != b,
    ensures
        assoc_get(map, b) == Some(map[i].1),
    decreases map.len(),
{
    if i == 0 {
    } else {
        assert(map[0].0 != b);
        assert forall|j: int| 0 <= j < i - 1 implies (#[trigger] map.drop_first()[j]).0 != b by {
            assert(map.drop_first()[j] == map[j + 1]);
        }
        assert(map.drop_first()[i - 1] == map[i]);
        lemma_assoc_get_at(map.drop_first(), b, i - 1);
    }
}

proof fn lemma_assoc_get_absent(map: Seq<(BoardModel, usize)>, b: BoardModel)
    requires
        forall|j: int| 0 <= j < map.len() ==> (#[trigger] map[j]).0 != b,
    ensures
        assoc_get(map, b) is None,
    decreases map.len(),
{
    if map.len() == 0 {
    } else {
        assert forall|j: int| 0 <= j < map.drop_first().len() implies (#[trigger] map.drop_first()[j]).0 != b by {
            assert(map.drop_first()[j] == map[j + 1]);
        }
        lemma_assoc_get_absent(map.drop_first(), b);
    }
}

impl SolverModel {
    /// The solver's invariant. In particular `map_injective`: across one
    /// search, no two distinct map entries ever hold equal board values,
    /// so no state is expanded twice.
    pub open spec fn inv(self) -> bool {
        &&& self.tree.wf()
        &&& self.tree.nodes.len() <= usize::MAX
        &&& forall|i: int|
            0 <= i < self.tree.nodes.len() ==> (#[trigger] self.tree.nodes[i]).value.wf()
                && self.tree.nodes[i].value.muon_free()
        &&& forall|i: int| 0 <= i < self.next.len() ==> (#[trigger] self.next[i]) < self.tree.nodes.len()
        &&& forall|i: int|
            0 <= i < self.map.len() ==> (#[trigger] self.map[i]).1 < self.tree.nodes.len()
                && self.tree.nodes[self.map[i].1 as int].value == self.map[i].0
        &&& self.map_injective()
    }

    /// No two distinct map entries hold equal board values.
    pub open spec fn map_injective(self) -> bool {
        forall|i: int, j: int|
            0 <= i < j < self.map.len() ==> (#[trigger] self.map[i]).0 != (#[trigger] self.map[j]).0
    }
}

/// The fresh search state over one root board.
pub open spec fn new_model(root: BoardModel) -> SolverModel {
    SolverModel {
        tree: TreeModel {
            nodes: seq![NodeModel { value: root, parents: Seq::empty() }],
            root: 0,
        },
        next: seq![0usize],
        map: seq![(root, 0usize)],
    }
}

/// Resolves one successor board against the map: a known board still in
/// the new frontier gains `cur` as an extra parent; an unknown board
/// becomes a new node, frontier entry and map entry, and is recorded as
/// solved if it is.
pub open spec fn step_board(
    s: SolverModel,
    solved: Seq<usize>,
    cur: usize,
    b: BoardModel,
) -> (SolverModel, Seq<usize>) {
    match assoc_get(s.map, b) {
        Some(key) => if s.next.contains(key) {
            (SolverModel { tree: s.tree.connect_model(cur, key), ..s }, solved)
        } else {
            (s, solved)
        },
        None => {
            let new_key = s.tree.nodes.len() as usize;
            (
                SolverModel {
                    tree: s.tree.insert_model(cur, b),
                    next: s.next.push(new_key),
                    map: s.map.push((b, new_key)),
                },
                if b.solved() {
                    solved.push(new_key)
                } else {
                    solved
                },
            )
        },
    }
}

/// Resolves a list of successor boards in order.
pub open spec fn step_boards(
    s: SolverModel,
    solved: Seq<usize>,
    cur: usize,
    bs: Seq<BoardModel>,
) -> (SolverModel, Seq<usize>)
    decreases bs.len(),
{
    if bs.len() == 0 {
        (s, solved)
    } else {
        let (s2, so2) = step_board(s, solved, cur, bs[0]);
        step_boards(s2, so2, cur, bs.drop_first())
    }
}

/// Expands each frontier node in order, resolving all its moves.
pub open spec fn step_frontier(
    s: SolverModel,
    solved: Seq<usize>,
    frontier: Seq<usize>,
) -> (SolverModel, Seq<usize>)
    decreases frontier.len(),
{
    if frontier.len() == 0 {
        (s, solved)
    } else {
        let cur = frontier[0];
        let bs = board_moves(s.tree.nodes[cur as int].value);
        let r = step_boards(s, solved, cur, bs);
        step_frontier(r.0, r.1, frontier.drop_first())
    }
}

/// One breadth layer: the frontier is taken, cleared, and expanded.
pub open spec fn one_step_model(s: SolverModel) -> (SolverModel, Seq<usize>) {
    step_frontier(SolverModel { next: Seq::empty(), ..s }, Seq::empty(), s.next)
}

/// Whether a bounded search run has come to rest: a solution was found
/// or the frontier is exhausted.
pub open spec fn run_done(s: SolverModel, solved: Seq<usize>) -> bool {
    solved.len() > 0 || s.next.len() == 0
}

/// Up to `k` further breadth layers, stopping once the run is done.
pub open spec fn solve_rest(s: SolverModel, solved: Seq<usize>, k: nat) -> (SolverModel, Seq<
    usize,
>)
    decreases k,
{
    if k == 0 || run_done(s, solved) {
        (s, solved)
    } else {
        let r = one_step_model(s);
        solve_rest(r.0, r.1, (k - 1) as nat)
    }
}

/// Exactly what `solve_n_steps(n)` computes: nothing for `n == 0`, else
/// one step followed by up to `n - 1` more, stopping once done.
pub open spec fn solve_n_model(s: SolverModel, n: nat) -> (SolverModel, Seq<usize>)
    decreases n,
{
    if n == 0 {
        (s, Seq::empty())
    } else {
        let r = one_step_model(s);
        solve_rest(r.0, r.1, (n - 1) as nat)
    }
}

/// Once a bounded run has come to rest, running it longer changes
/// nothing.
pub proof fn lemma_solve_rest_stable(s: SolverModel, solved: Seq<usize>, k1: nat, k2: nat)
    requires
        k1 <= k2,
        run_done(solve_rest(s, solved, k1).0, solve_rest(s, solved, k1).1),
    ensures
        solve_rest(s, solved, k2) == solve_rest(s, solved, k1),
    decreases k1,
{
    if k1 == 0 {
        if k2 > 0 {
            assert(run_done(s, solved));
        }
    } else {
        if run_done(s, solved) {
        } else {
            let r = one_step_model(s);
            lemma_solve_rest_stable(r.0, r.1, (k1 - 1) as nat, (k2 - 1) as nat);
        }
    }
}

/// The search is deterministic: two runs from equal states that have
/// both come to rest have computed the same tree, the same map and the
/// same solved nodes, whatever step bounds they used.
pub proof fn lemma_solve_deterministic(s1: SolverModel, s2: SolverModel, n1: nat, n2: nat)
    requires
        s1 == s2,
        n1 >= 1,
        n2 >= 1,
        run_done(solve_n_model(s1, n1).0, solve_n_model(s1, n1).1),
        run_done(solve_n_model(s2, n2).0, solve_n_model(s2, n2).1),
    ensures
        solve_n_model(s1, n1) == solve_n_model(s2, n2),
{
    let r = one_step_model(s1);
    if n1 <= n2 {
        lemma_solve_rest_stable(r.0, r.1, (n1 - 1) as nat, (n2 - 1) as nat);
    } else {
        lemma_solve_rest_stable(r.0, r.1, (n2 - 1) as nat, (n1 - 1) as nat);
    }
}

/// Equal root boards give equal fresh search states, so by
/// `lemma_solve_deterministic` re-running the search on an equal board
/// finds the same solved boards after the same number of moves.
pub proof fn lemma_new_deterministic(b1: BoardModel, b2: BoardModel)
    requires
        b1 == b2,
    ensures
        new_model(b1) == new_model(b2),
{
}

proof fn lemma_assoc_get_some_entry(map: Seq<(BoardModel, usize)>, b: BoardModel)
    requires
        assoc_get(map, b) is Some,
    ensures
        exists|i: int|
            0 <= i < map.len() && #[trigger] map[i] == (b, assoc_get(map, b)->Some_0),
    decreases map.len(),
{
    if map.len() == 0 {
    } else if map[0].0 == b {
        assert(map[0] == (b, assoc_get(map, b)->Some_0));
    } else {
        lemma_assoc_get_some_entry(map.drop_first(), b);
        let i = choose|i: int|
            0 <= i < map.drop_first().len() && #[trigger] map.drop_first()[i] == (
            b,
            assoc_get(map.drop_first(), b)->Some_0,
            );
        assert(map[i + 1] == (b, assoc_get(map, b)->Some_0));
    }
}

proof fn lemma_assoc_get_none_forall(map: Seq<(BoardModel, usize)>, b: BoardModel)
    requires
        assoc_get(map, b) is None,
    ensures
        forall|i: int| 0 <= i < map.len() ==> (#[trigger] map[i]).0 != b,
    decreases map.len(),
{
    if map.len() == 0 {
    } else {
        lemma_assoc_get_none_forall(map.drop_first(), b);
        assert forall|i: int| 0 <= i < map.len() implies (#[trigger] map[i]).0 != b by {
            if i > 0 {
                assert(map.drop_first()[i - 1] == map[i]);
            }
        }
    }
}

/// Resolving one board preserves the invariant and can only grow the
/// tree, the frontier growing no faster.
pub proof fn lemma_step_board_inv(s: SolverModel, solved: Seq<usize>, cur: usize, b: BoardModel)
    requires
        s.inv(),
        cur < s.tree.nodes.len(),
        b.wf(),
        b.muon_free(),
        assoc_get(s.map, b) is None ==> s.tree.nodes.len() < usize::MAX,
    ensures
        step_board(s, solved, cur, b).0.inv(),
        step_board(s, solved, cur, b).0.tree.nodes.len() >= s.tree.nodes.len(),
        step_board(s, solved, cur, b).0.next.len() >= s.next.len(),
        step_board(s, solved, cur, b).0.tree.nodes.len() - s.tree.nodes.len() >= step_board(
            s,
            solved,
            cur,
            b,
        ).0.next.len() - s.next.len(),
        step_board(s, solved, cur, b).0.tree.nodes.len() <= s.tree.nodes.len() + 1,
{
    let s2 = step_board(s, solved, cur, b).0;
    match assoc_get(s.map, b) {
        Some(key) => {
            lemma_assoc_get_some_entry(s.map, b);
            let i = choose|i: int| 0 <= i < s.map.len() && #[trigger] s.map[i] == (b, key);
            assert(s.map[i].1 < s.tree.nodes.len());
            if s.next.contains(key) {
                let t2 = s.tree.connect_model(cur, key);
                assert forall|p: int, q: int|
                    0 <= p < t2.nodes.len() && 0 <= q < (#[trigger] t2.nodes[p]).parents.len()
                    implies (#[trigger] t2.nodes[p].parents[q]) < t2.nodes.len() by {
                    if p == key as int {
                        if q < s.tree.nodes[p].parents.len() {
                            assert(t2.nodes[p].parents[q] == s.tree.nodes[p].parents[q]);
                        } else {
                            assert(t2.nodes[p].parents[q] == cur);
                        }
                    } else {
                        assert(t2.nodes[p] == s.tree.nodes[p]);
                    }
                }
                assert forall|p: int| 0 <= p < t2.nodes.len() implies (#[trigger] t2.nodes[p])
                    .value
                    .wf() && t2.nodes[p].value.muon_free() by {
                    if p != key as int {
                        assert(t2.nodes[p] == s.tree.nodes[p]);
                    }
                }
                assert forall|p: int| 0 <= p < s2.map.len() implies (#[trigger] s2.map[p]).1
                    < s2.tree.nodes.len() && s2.tree.nodes[s2.map[p].1 as int].value
                    == s2.map[p].0 by {
                    if s.map[p].1 as int != key as int {
                        assert(t2.nodes[s.map[p].1 as int] == s.tree.nodes[s.map[p].1 as int]);
                    }
                }
            }
        },
        None => {
            lemma_assoc_get_none_forall(s.map, b);
            let new_key = s.tree.nodes.len() as usize;
            let t2 = s.tree.insert_model(cur, b);
            assert forall|p: int, q: int|
                0 <= p < t2.nodes.len() && 0 <= q < (#[trigger] t2.nodes[p]).parents.len()
                implies (#[trigger] t2.nodes[p].parents[q]) < t2.nodes.len() by {
                if p < s.tree.nodes.len() {
                    assert(t2.nodes[p] == s.tree.nodes[p]);
                } else {
                    assert(t2.nodes[p].parents[q] == cur);
                }
            }
            assert forall|p: int| 0 <= p < t2.nodes.len() implies (#[trigger] t2.nodes[p])
                .value
                .wf() && t2.nodes[p].value.muon_free() by {
                if p < s.tree.nodes.len() {
                    assert(t2.nodes[p] == s.tree.nodes[p]);
                }
            }
            assert forall|p: int| 0 <= p < s2.map.len() implies (#[trigger] s2.map[p]).1
                < s2.tree.nodes.len() && s2.tree.nodes[s2.map[p].1 as int].value == s2.map[p].0 by {
                if p < s.map.len() {
                    assert(s2.map[p] == s.map[p]);
                    assert(t2.nodes[s.map[p].1 as int] == s.tree.nodes[s.map[p].1 as int]);
                } else {
                    assert(s2.map[p] == (b, new_key));
                }
            }
            assert(s2.map_injective()) by {
                assert forall|p: int, q: int| 0 <= p < q < s2.map.len() implies (
                #[trigger] s2.map[p]).0 != (#[trigger] s2.map[q]).0 by {
                    if q < s.map.len() {
                    } else {
                        assert(s2.map[q].0 == b);
                        assert(s2.map[p] == s.map[p]);
                    }
                }
            }
            assert forall|p: int| 0 <= p < s2.next.len() implies (#[trigger] s2.next[p])
                < s2.tree.nodes.len() by {
                if p < s.next.len() {
                    assert(s2.next[p] == s.next[p]);
                } else {
                    assert(s2.next[p] == new_key);
                }
            }
        },
    }
}

} // verus!
// The executable solver, refined against the model above.

verus! {

/// The deep view of a tree of boards: each node's value replaced by its
/// mathematical shape.
pub open spec fn deep_tree(t: TreeModel<Board>) -> TreeModel<BoardModel> {
    TreeModel {
        nodes: Seq::new(
            t.nodes.len(),
            |i: int|
                if 0 <= i < t.nodes.len() {
                    NodeModel { value: t.nodes[i].value@, parents: t.nodes[i].parents }
                } else {
                    arbitrary()
                },
        ),
        root: t.root,
    }
}

proof fn lemma_deep_insert(t: TreeModel<Board>, parent: usize, b: Board)
    ensures
        deep_tree(t.insert_model(parent, b)) == deep_tree(t).insert_model(parent, b@),
{
    assert(deep_tree(t.insert_model(parent, b)).nodes =~= deep_tree(t).insert_model(
        parent,
        b@,
    ).nodes);
    assert(deep_tree(t.insert_model(parent, b)) =~= deep_tree(t).insert_model(parent, b@));
}

proof fn lemma_deep_connect(t: TreeModel<Board>, parent: usize, child: usize)
    requires
        child < t.nodes.len(),
    ensures
        deep_tree(t.connect_model(parent, child)) == deep_tree(t).connect_model(parent, child),
{
    assert(deep_tree(t.connect_model(parent, child)).nodes =~= deep_tree(t).connect_model(
        parent,
        child,
    ).nodes);
    assert(deep_tree(t.connect_model(parent, child)) =~= deep_tree(t).connect_model(
        parent,
        child,
    ));
}

impl View for Solver {
    type V = SolverModel;

    closed spec fn view(&self) -> SolverModel {
        SolverModel {
            tree: deep_tree(self.tree@),
            next: self.next_states@,
            map: Seq::new(
                self.board_to_key@.len(),
                |i: int|
                    if 0 <= i < self.board_to_key@.len() {
                        (self.board_to_key@[i].0@, self.board_to_key@[i].1)
                    } else {
                        arbitrary()
                    },
            ),
        }
    }
}

/// Composing the remaining boards of the current node with the remaining
/// frontier: what one expansion step still has to do.
pub open spec fn step_rest(
    s: SolverModel,
    solved: Seq<usize>,
    cur: usize,
    bs: Seq<BoardModel>,
    frontier: Seq<usize>,
) -> (SolverModel, Seq<usize>) {
    let r = step_boards(s, solved, cur, bs);
    step_frontier(r.0, r.1, frontier)
}

/// Whether `key` occurs in a frontier vector.
fn contains_key(v: &Vec<usize>, key: usize) -> (r: bool)
    ensures
        r == v@.contains(key),
{
    let mut k: usize = 0;
    while k < v.len()
        invariant
            k <= v@.len(),
            forall|i: int| 0 <= i < k ==> v@[i] != key,
        decreases v@.len() - k,
    {
        if v[k] == key {
            assert(v@[k as int] == key);
            return true;
        }
        k = k + 1;
    }
    assert(forall|i: int| 0 <= i < v@.len() ==> v@[i] != key);
    false
}

/// Copies a frontier vector.
fn clone_keys(v: &Vec<usize>) -> (r: Vec<usize>)
    ensures
        r@ == v@,
{
    let mut r: Vec<usize> = Vec::new();
    let mut k: usize = 0;
    while k < v.len()
        invariant
            k <= v@.len(),
            r@ == v@.subrange(0, k as int),
        decreases v@.len() - k,
    {
        r.push(v[k]);
        proof {
            assert(r@ =~= v@.subrange(0, k + 1));
        }
        k = k + 1;
    }
    proof {
        assert(v@.subrange(0, v@.len() as int) =~= v@);
    }
    r
}

impl Solver {
    pub fn tree(&self) -> (r: &Tree<Board>)
        ensures
            deep_tree(r@) == self@.tree,
    {
        &self.tree
    }

    pub fn next_states(&self) -> (r: &Vec<usize>)
        ensures
            r@ == self@.next,
    {
        &self.next_states
    }

    pub fn board_to_key(&self) -> (r: &Vec<(Board, usize)>)
        ensures
            r@.len() == self@.map.len(),
            forall|i: int|
                0 <= i < r@.len() ==> (#[trigger] r@[i]).0@ == self@.map[i].0 && r@[i].1
                    == self@.map[i].1,
    {
        &self.board_to_key
    }

    /// A fresh search rooted at `root`: one tree node, a frontier of just
    /// the root, and the root's map entry.
    pub fn new(root: Board) -> (r: Self)
        requires
            root@.wf(),
            root@.muon_free(),
        ensures
            r@ == new_model(root@),
            r@.inv(),
    {
        let tree = Tree::new(root.clone());
        let root_key = tree.root();
        let mut next_states: Vec<usize> = Vec::new();
        next_states.push(root_key);
        let mut board_to_key: Vec<(Board, usize)> = Vec::new();
        board_to_key.push((root, root_key));
        let r = Solver { tree, next_states, board_to_key };
        proof {
            assert(r@.tree.nodes =~= new_model(root@).tree.nodes);
            assert(r@.next =~= new_model(root@).next);
            assert(r@.map =~= new_model(root@).map);
            assert(r@ =~= new_model(root@));
        }
        r
    }

    /// The identifier mapped to a board equal to `b`, if one is recorded.
    fn map_lookup(&self, b: &Board) -> (r: Option<usize>)
        ensures
            r == assoc_get(self@.map, b@),
    {
        let mut k: usize = 0;
        while k < self.board_to_key.len()
            invariant
                k <= self@.map.len(),
                self@.map.len() == self.board_to_key@.len(),
                forall|j: int|
                    0 <= j < self.board_to_key@.len() ==> #[trigger] self@.map[j] == (
                    self.board_to_key@[j].0@,
                    self.board_to_key@[j].1,
                    ),
                forall|j: int| 0 <= j < k ==> (#[trigger] self@.map[j]).0 != b@,
            decreases self.board_to_key@.len() - k,
        {
            let same = board_eq(&self.board_to_key[k].0, b);
            if same {
                proof {
                    lemma_assoc_get_at(self@.map, b@, k as int);
                }
                return Some(self.board_to_key[k].1);
            }
            k = k + 1;
        }
        proof {
            lemma_assoc_get_absent(self@.map, b@);
        }
        None
    }

    /// Expands every frontier node once: each successor board is resolved
    /// against the map, and the identifiers of newly reached solved
    /// boards are returned. The tree never shrinks, and only grows when
    /// the new frontier is non-empty.
    pub fn one_step(&mut self) -> (r: Vec<usize>)
        requires
            old(self)@.inv(),
        ensures
            final(self)@.inv(),
            final(self)@ == one_step_model(old(self)@).0,
            r@ == one_step_model(old(self)@).1,
            final(self)@.tree.nodes.len() >= old(self)@.tree.nodes.len(),
            final(self)@.next.len() > 0 ==> final(self)@.tree.nodes.len() > old(
                self,
            )@.tree.nodes.len(),
            forall|i: int|
                0 <= i < r@.len() ==> (#[trigger] r@[i]) < final(self)@.tree.nodes.len()
                    && final(self)@.tree.nodes[r@[i] as int].value.solved(),
    {
        let mut solved_boards: Vec<usize> = Vec::new();
        let current_states = clone_keys(&self.next_states);
        self.next_states = Vec::new();
        let ghost s0 = old(self)@;
        let ghost base = SolverModel { next: Seq::empty(), ..s0 };
        proof {
            assert(self@ =~= base);
            assert(current_states@.subrange(0, current_states@.len() as int) =~= s0.next);
        }
        let mut k: usize = 0;
        while k < current_states.len()
            invariant
                k <= current_states@.len(),
                current_states@ == s0.next,
                s0.inv(),
                self@.inv(),
                one_step_model(s0) == step_frontier(
                    self@,
                    solved_boards@,
                    current_states@.subrange(k as int, current_states@.len() as int),
                ),
                self@.tree.nodes.len() >= s0.tree.nodes.len(),
                self@.next.len() <= self@.tree.nodes.len() - s0.tree.nodes.len(),
                forall|i: int|
                    0 <= i < self@.tree.nodes.len() ==> i < s0.tree.nodes.len() ==> (
                    #[trigger] self@.tree.nodes[i]).value == s0.tree.nodes[i].value,
                forall|i: int|
                    0 <= i < solved_boards@.len() ==> (#[trigger] solved_boards@[i])
                        < self@.tree.nodes.len() && self@.tree.nodes[solved_boards@[i] as int].value.solved(),
            decreases current_states@.len() - k,
        {
            let cur = current_states[k];
            proof {
                assert(s0.next[k as int] == cur);
                assert(cur < s0.tree.nodes.len());
            }
            let next_boards = {
                let value = self.tree.get_value(cur);
                match value {
                    Ok(b) => {
                        proof {
                            assert(b@ == self@.tree.nodes[cur as int].value);
                        }
                        b.all_moves()
                    },
                    Err(_) => {
                        proof {
                            assert(false);
                        }
                        Vec::new()
                    },
                }
            };
            let ghost bs = crate::particle::boards_view(next_boards@);
            let ghost frontier_rest = current_states@.subrange(
                k + 1,
                current_states@.len() as int,
            );
            proof {
                let fr = current_states@.subrange(k as int, current_states@.len() as int);
                assert(fr[0] == cur);
                assert(fr.drop_first() =~= frontier_rest);
                assert(bs == board_moves(self@.tree.nodes[cur as int].value));
                assert(one_step_model(s0) == step_rest(
                    self@,
                    solved_boards@,
                    cur,
                    bs,
                    frontier_rest,
                ));
                assert(bs.subrange(0, bs.len() as int) =~= bs);
            }
            let mut j: usize = 0;
            while j < next_boards.len()
                invariant
                    j <= next_boards@.len(),
                    bs == crate::particle::boards_view(next_boards@),
                    bs.len() == next_boards@.len(),
                    s0.inv(),
                    self@.inv(),
                    cur < self@.tree.nodes.len(),
                    one_step_model(s0) == step_rest(
                        self@,
                        solved_boards@,
                        cur,
                        bs.subrange(j as int, bs.len() as int),
                        frontier_rest,
                    ),
                    forall|i: int|
                        0 <= i < next_boards@.len() ==> (#[trigger] next_boards@[i])@.wf()
                            && next_boards@[i]@.muon_free(),
                    self@.tree.nodes.len() >= s0.tree.nodes.len(),
                    self@.next.len() <= self@.tree.nodes.len() - s0.tree.nodes.len(),
                    forall|i: int|
                        0 <= i < self@.tree.nodes.len() ==> i < s0.tree.nodes.len() ==> (
                        #[trigger] self@.tree.nodes[i]).value == s0.tree.nodes[i].value,
                    forall|i: int|
                        0 <= i < solved_boards@.len() ==> (#[trigger] solved_boards@[i])
                            < self@.tree.nodes.len() && self@.tree.nodes[solved_boards@[i] as int].value.solved(),
                decreases next_boards@.len() - j,
            {
                let ghost pre = self@;
                let ghost pre_solved = solved_boards@;
                let next_board = &next_boards[j];
                proof {
                    assert(next_board@ == bs[j as int]);
                }
                let found = self.map_lookup(next_board);
                match found {
                    Some(next_key) => {
                        let in_next = contains_key(&self.next_states, next_key);
                        if in_next {
                            let ghost pre_tree = self.tree@;
                            proof {
                                lemma_assoc_get_some_entry(pre.map, next_board@);
                            }
                            let res = self.tree.connect(cur, next_key);
                            proof {
                                assert(res is Ok);
                                lemma_deep_connect(pre_tree, cur, next_key);
                            }
                        }
                    },
                    None => {
                        let ghost pre_tree = self.tree@;
                        let cloned = next_board.clone();
                        let ghost gb = cloned;
                        let res = self.tree.insert_child_of(cur, cloned);
                        let new_key = match res {
                            Ok(nk) => nk,
                            Err(_) => {
                                proof {
                                    assert(false);
                                }
                                0
                            },
                        };
                        proof {
                            lemma_deep_insert(pre_tree, cur, gb);
                        }
                        if next_board.is_solved() {
                            solved_boards.push(new_key);
                        }
                        self.next_states.push(new_key);
                        self.board_to_key.push((next_board.clone(), new_key));
                    },
                }
                proof {
                    lemma_step_board_inv(pre, pre_solved, cur, next_board@);
                    let sb = step_board(pre, pre_solved, cur, next_board@);
                    assert(self@ =~= sb.0);
                    assert(solved_boards@ =~= sb.1);
                    assert(bs.subrange(j as int, bs.len() as int)[0] == bs[j as int]);
                    assert(bs.subrange(j as int, bs.len() as int).drop_first() =~= bs.subrange(
                        j + 1,
                        bs.len() as int,
                    ));
                }
                j = j + 1;
            }
            proof {
                assert(bs.subrange(bs.len() as int, bs.len() as int) =~= Seq::<
                    BoardModel,
                >::empty());
                assert(step_boards(self@, solved_boards@, cur, Seq::empty()) == (
                self@,
                solved_boards@,
                ));
            }
            k = k + 1;
        }
        proof {
            assert(current_states@.subrange(
                current_states@.len() as int,
                current_states@.len() as int,
            ) =~= Seq::<usize>::empty());
        }
        solved_boards
    }

    /// Runs breadth layers until a solution appears or the frontier is
    /// exhausted, returning the solved nodes of the final layer (empty
    /// exactly when the puzzle is unsolvable from the root).
    pub fn solve(&mut self) -> (r: Vec<usize>)
        requires
            old(self)@.inv(),
        ensures
            final(self)@.inv(),
            exists|n: nat|
                n >= 1 && #[trigger] solve_n_model(old(self)@, n) == (final(self)@, r@),
            run_done(final(self)@, r@),
            forall|i: int|
                0 <= i < r@.len() ==> (#[trigger] r@[i]) < final(self)@.tree.nodes.len()
                    && final(self)@.tree.nodes[r@[i] as int].value.solved(),
    {
        let ghost s0 = old(self)@;
        let mut solved = self.one_step();
        let ghost n: nat = 1;
        proof {
            assert(solve_rest(self@, solved@, 0) == (self@, solved@));
            assert(solve_n_model(s0, 1) == (self@, solved@));
        }
        while !(self.next_states.len() == 0) && solved.len() == 0
            invariant
                self@.inv(),
                n >= 1,
                solve_n_model(s0, n) == (self@, solved@),
                self@.next == self.next_states@,
                forall|i: int|
                    0 <= i < solved@.len() ==> (#[trigger] solved@[i])
                        < self@.tree.nodes.len() && self@.tree.nodes[solved@[i] as int].value.solved(),
            decreases usize::MAX - self@.tree.nodes.len(), self@.next.len(),
        {
            let ghost prev = self@;
            let ghost prev_n = n;
            proof {
                assert(!run_done(prev, solved@));
            }
            solved = self.one_step();
            proof {
                n = prev_n + 1;
                lemma_solve_n_unfold(s0, prev_n);
                assert(solve_n_model(s0, prev_n + 1) == (self@, solved@));
            }
        }
        proof {
            assert(run_done(self@, solved@));
        }
        solved
    }

    /// Runs at most `steps` breadth layers, stopping early once a
    /// solution appears or the frontier empties.
    pub fn solve_n_steps(&mut self, steps: u32) -> (r: Vec<usize>)
        requires
            old(self)@.inv(),
        ensures
            final(self)@.inv(),
            solve_n_model(old(self)@, steps as nat) == (final(self)@, r@),
    {
        let ghost s0 = old(self)@;
        if steps == 0 {
            return Vec::new();
        }
        let mut solved = self.one_step();
        proof {
            assert(solve_rest(self@, solved@, 0) == (self@, solved@));
        }
        let mut i: u32 = 0;
        while i < steps - 1
            invariant
                steps >= 1,
                i <= steps - 1,
                self@.inv(),
                solve_n_model(s0, steps as nat) == solve_rest(
                    self@,
                    solved@,
                    ((steps - 1) - i) as nat,
                ),
            ensures
                solve_n_model(s0, steps as nat) == (self@, solved@),
            decreases steps - i,
        {
            if self.next_states.len() == 0 || solved.len() > 0 {
                proof {
                    assert(run_done(self@, solved@));
                    assert(solve_rest(self@, solved@, ((steps - 1) - i) as nat) == (
                    self@,
                    solved@,
                    ));
                }
                break;
            }
            let ghost prev = self@;
            let ghost prev_solved = solved@;
            solved = self.one_step();
            proof {
                assert(!run_done(prev, prev_solved));
                assert(solve_rest(prev, prev_solved, ((steps - 1) - i) as nat) == solve_rest(
                    self@,
                    solved@,
                    ((steps - 1) - (i + 1)) as nat,
                ));
            }
            i = i + 1;
        }
        solved
    }
}

/// One more allowed layer after an unfinished run is one more step.
proof fn lemma_solve_n_unfold(s: SolverModel, n: nat)
    requires
        n >= 1,
        !run_done(solve_n_model(s, n).0, solve_n_model(s, n).1),
    ensures
        solve_n_model(s, (n + 1) as nat) == (
            one_step_model(solve_n_model(s, n).0).0,
            one_step_model(solve_n_model(s, n).0).1,
        ),
    decreases n,
{
    let r = one_step_model(s);
    if n == 1 {
        assert(solve_rest(r.0, r.1, 0) == (r.0, r.1));
        assert(solve_n_model(s, 1) == (r.0, r.1));
        assert(!run_done(r.0, r.1));
        let r2 = one_step_model(r.0);
        assert(solve_rest(r2.0, r2.1, 0) == (r2.0, r2.1));
        assert(solve_rest(r.0, r.1, 1) == (r2.0, r2.1));
        assert(solve_n_model(s, 2) == solve_rest(r.0, r.1, 1));
    } else {
        if run_done(r.0, r.1) {
            lemma_solve_rest_stable_zero(r.0, r.1, (n - 1) as nat, n as nat);
            assert(solve_rest(r.0, r.1, (n - 1) as nat) == (r.0, r.1));
            assert(false);
        } else {
            assert(solve_n_model(s, n) == solve_rest(r.0, r.1, (n - 1) as nat));
            lemma_solve_rest_unfold(r.0, r.1, (n - 1) as nat);
            assert(solve_n_model(s, (n + 1) as nat) == solve_rest(r.0, r.1, n));
        }
    }
}

/// `solve_rest` on a finished pair is constant in its bound.
proof fn lemma_solve_rest_stable_zero(s: SolverModel, solved: Seq<usize>, k1: nat, k2: nat)
    requires
        run_done(s, solved),
    ensures
        solve_rest(s, solved, k1) == (s, solved),
        solve_rest(s, solved, k2) == (s, solved),
{
}

/// Allowing one more layer to an unfinished bounded run appends a step.
proof fn lemma_solve_rest_unfold(s: SolverModel, solved: Seq<usize>, k: nat)
    requires
        k >= 1,
        !run_done(solve_rest(s, solved, k).0, solve_rest(s, solved, k).1),
    ensures
        solve_rest(s, solved, (k + 1) as nat) == (
            one_step_model(solve_rest(s, solved, k).0).0,
            one_step_model(solve_rest(s, solved, k).0).1,
        ),
    decreases k,
{
    if run_done(s, solved) {
        assert(solve_rest(s, solved, k) == (s, solved));
        assert(false);
    } else {
        let r = one_step_model(s);
        if k == 1 {
            assert(solve_rest(r.0, r.1, 0) == (r.0, r.1));
            assert(solve_rest(s, solved, 1) == (r.0, r.1));
            assert(!run_done(r.0, r.1));
            let r2 = one_step_model(r.0);
            assert(solve_rest(r2.0, r2.1, 0) == (r2.0, r2.1));
            assert(solve_rest(r.0, r.1, 1) == (r2.0, r2.1));
            assert(solve_rest(s, solved, 2) == solve_rest(r.0, r.1, 1));
        } else {
            assert(solve_rest(s, solved, k) == solve_rest(r.0, r.1, (k - 1) as nat));
            lemma_solve_rest_unfold(r.0, r.1, (k - 1) as nat);
            assert(solve_rest(s, solved, (k + 1) as nat) == solve_rest(r.0, r.1, k));
        }
    }
}

} // verus!
