use higgs::board::{board_eq, Board};
use higgs::obstacle::{block::Block, hole::Hole, Obstacle};
use higgs::ordered::OrdIx2;
use higgs::particle::{Electron, Empty, Particle};

#[test]
fn it_works() {
    let result = higgs::add(2, 2);
    assert_eq!(result, 4);
}

#[test]
fn board_move_particle() {
    let mut board = Board::new(5, 7, vec![OrdIx2::new(1, 0)]);
    board.add_particle(Electron::default(), OrdIx2::new(3, 2));
    assert_eq!(
        board.get_particle(OrdIx2::new(3, 2)),
        Electron::default().into()
    );
    assert!(!board.is_solved());

    board.move_particle(OrdIx2::new(3, 2), OrdIx2::new(1, 0));
    assert_eq!(board.get_particle(OrdIx2::new(3, 2)), Empty.into());
    assert_eq!(
        board.get_particle(OrdIx2::new(1, 0)),
        Electron::default().into()
    );
    assert!(board.is_solved());

    board.remove_particle(OrdIx2::new(1, 0));
    assert_eq!(board.get_particle(OrdIx2::new(1, 0)), Empty.into());
}

#[test]
fn move_and_move_back_restores_grid() {
    let mut board = Board::new(4, 4, vec![]);
    board.add_particle(Electron::default(), OrdIx2::new(2, 1));
    let original = board.clone();

    let taken = board.move_particle(OrdIx2::new(2, 1), OrdIx2::new(0, 3));
    assert_eq!(taken, Some(Particle::Electron(Electron::default())));
    assert!(!board_eq(&board, &original));
    board.move_particle(OrdIx2::new(0, 3), OrdIx2::new(2, 1));
    assert!(board_eq(&board, &original));
}

#[test]
fn goal_order_does_not_matter() {
    let a = Board::new(3, 3, vec![OrdIx2::new(2, 2), OrdIx2::new(0, 1), OrdIx2::new(2, 2)]);
    let b = Board::new(3, 3, vec![OrdIx2::new(0, 1), OrdIx2::new(2, 2)]);
    assert!(board_eq(&a, &b));
}

#[test]
fn move_particle_same_cell_is_noop() {
    let mut board = Board::new(3, 3, vec![]);
    board.add_particle(Electron::default(), OrdIx2::new(1, 1));
    let before = board.clone();
    let r = board.move_particle(OrdIx2::new(1, 1), OrdIx2::new(1, 1));
    assert_eq!(r, None);
    assert!(board_eq(&board, &before));
}

#[test]
fn annihilate_clears_obstacles_within_radius() {
    let mut board = Board::new(7, 7, vec![]);
    board.add_obstacle(Block, OrdIx2::new(3, 5));
    board.add_obstacle(Hole, OrdIx2::new(0, 3));
    board.add_obstacle(Block, OrdIx2::new(6, 6));
    board.annihilate(OrdIx2::new(3, 3), 2);
    // Manhattan distance 2: cleared; distance 3 and more: untouched.
    assert_eq!(board.get_obstacle(OrdIx2::new(3, 5)), Obstacle::Empty(higgs::obstacle::Empty));
    assert_eq!(board.get_obstacle(OrdIx2::new(0, 3)), Obstacle::Hole(Hole));
    assert_eq!(board.get_obstacle(OrdIx2::new(6, 6)), Obstacle::Block(Block));
}

#[test]
fn directional_queries() {
    let board = Board::new(3, 2, vec![]);
    assert_eq!(board.left(OrdIx2::new(0, 0)), None);
    assert_eq!(board.left(OrdIx2::new(2, 1)), Some(OrdIx2::new(1, 1)));
    assert_eq!(board.right(OrdIx2::new(2, 0)), None);
    assert_eq!(board.right(OrdIx2::new(0, 0)), Some(OrdIx2::new(1, 0)));
    assert_eq!(board.up(OrdIx2::new(1, 0)), None);
    assert_eq!(board.down(OrdIx2::new(1, 1)), None);
    assert_eq!(board.down(OrdIx2::new(1, 0)), Some(OrdIx2::new(1, 1)));

    let left = board.left_axis_indices(OrdIx2::new(2, 1));
    assert_eq!(left, vec![OrdIx2::new(1, 1), OrdIx2::new(0, 1)]);
    let right = board.right_axis_indices(OrdIx2::new(0, 0));
    assert_eq!(right, vec![OrdIx2::new(1, 0), OrdIx2::new(2, 0)]);
    let up = board.up_axis_indices(OrdIx2::new(1, 1));
    assert_eq!(up, vec![OrdIx2::new(1, 0)]);
    let down = board.down_axis_indices(OrdIx2::new(1, 0));
    assert_eq!(down, vec![OrdIx2::new(1, 1)]);
}

#[test]
fn empty_board_is_trivially_solved() {
    let board = Board::new(0, 0, vec![]);
    assert!(board.is_solved());
    assert_eq!(board.all_moves().len(), 0);
    assert_eq!(board.left(OrdIx2::new(0, 0)), None);
    assert_eq!(board.right(OrdIx2::new(0, 0)), None);
    assert_eq!(board.up(OrdIx2::new(0, 0)), None);
    assert_eq!(board.down(OrdIx2::new(0, 0)), None);
}

#[test]
fn board_with_goals_but_no_particles_is_unsolved() {
    let board = Board::new(2, 2, vec![OrdIx2::new(0, 0)]);
    assert!(!board.is_solved());
    assert_eq!(board.all_moves().len(), 0);
}

#[test]
fn position_order_is_lexicographic() {
    assert!(OrdIx2::new(1, 9) < OrdIx2::new(2, 0));
    assert!(OrdIx2::new(1, 2) < OrdIx2::new(1, 3));
    assert!(OrdIx2::new(2, 0) > OrdIx2::new(1, 9));
    assert!(OrdIx2::new(3, 3) == OrdIx2::new(3, 3));
}
