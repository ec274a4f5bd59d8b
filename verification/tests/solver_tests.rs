use higgs::board::{board_eq, Board};
use higgs::ordered::OrdIx2;
use higgs::particle::Neutron;
use higgs::solver::Solver;
use higgs::tree::{KeyError, Tree};

fn one_move_puzzle() -> Board {
    let mut board = Board::new(2, 1, vec![OrdIx2::new(1, 0)]);
    board.add_particle(Neutron::default(), OrdIx2::new(0, 0));
    board
}

#[test]
fn solve_one_move_puzzle() {
    let mut solver = Solver::new(one_move_puzzle());
    let solved = solver.solve();
    assert_eq!(solved.len(), 1);
    let key = solved[0];
    let solved_board = solver.tree().get_value(key).unwrap();
    assert!(solved_board.is_solved());
    assert_eq!(solver.tree().parents_of(key).unwrap(), &vec![0]);
}

#[test]
fn solve_unsolvable_puzzle() {
    // A lone neutron can never reach the goal in the middle of a clear
    // row: it always slides to an edge.
    let mut board = Board::new(3, 1, vec![OrdIx2::new(1, 0)]);
    board.add_particle(Neutron::default(), OrdIx2::new(0, 0));
    let mut solver = Solver::new(board);
    let solved = solver.solve();
    assert_eq!(solved.len(), 0);
    assert_eq!(solver.next_states().len(), 0);
}

#[test]
fn solve_n_steps_zero_does_nothing() {
    let mut solver = Solver::new(one_move_puzzle());
    let solved = solver.solve_n_steps(0);
    assert_eq!(solved.len(), 0);
    assert_eq!(solver.next_states(), &vec![0]);
}

#[test]
fn solver_runs_identically_twice() {
    let board = one_move_puzzle();
    let mut first = Solver::new(board.clone());
    let mut second = Solver::new(board);
    let solved_first = first.solve();
    let solved_second = second.solve();
    assert_eq!(solved_first, solved_second);
    assert_eq!(first.tree().len(), second.tree().len());
    for key in 0..first.tree().len() {
        assert!(board_eq(
            first.tree().get_value(key).unwrap(),
            second.tree().get_value(key).unwrap()
        ));
        assert_eq!(
            first.tree().parents_of(key).unwrap(),
            second.tree().parents_of(key).unwrap()
        );
    }
}

#[test]
fn duplicate_states_collapse_to_one_node() {
    // Two neutrons in one 4x1 row: distinct orders of the same two moves
    // meet in the same state, which must occupy a single tree node.
    let mut board = Board::new(4, 1, vec![]);
    board.add_particle(Neutron::default(), OrdIx2::new(1, 0));
    board.add_particle(Neutron::default(), OrdIx2::new(2, 0));
    let mut solver = Solver::new(board);
    solver.solve_n_steps(3);
    let map = solver.board_to_key();
    for i in 0..map.len() {
        for j in (i + 1)..map.len() {
            assert!(!board_eq(&map[i].0, &map[j].0));
        }
    }
}

#[test]
fn tree_operations() {
    let mut tree: Tree<u32> = Tree::new(7);
    assert_eq!(tree.root(), 0);
    assert_eq!(tree.get_value(0).unwrap(), &7);
    assert_eq!(tree.parents_of(0).unwrap(), &Vec::<usize>::new());

    let child = tree.insert_child_of(0, 8).unwrap();
    assert_eq!(child, 1);
    assert_eq!(tree.get_value(1).unwrap(), &8);
    assert_eq!(tree.parents_of(1).unwrap(), &vec![0]);

    let grandchild = tree.insert_child_of(child, 9).unwrap();
    tree.connect(0, grandchild).unwrap();
    assert_eq!(tree.parents_of(grandchild).unwrap(), &vec![1, 0]);

    assert_eq!(tree.get_value(99), Err(KeyError(99)));
    assert_eq!(tree.insert_child_of(42, 1), Err(KeyError(42)));
    assert_eq!(tree.connect(0, 42), Err(KeyError(42)));

    let copy = tree.clone();
    assert_eq!(copy.len(), tree.len());
    assert_eq!(copy.get_value(2).unwrap(), &9);
}
