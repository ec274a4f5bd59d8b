use higgs::board::Board;
use higgs::obstacle::{block::Block, hole::Hole, Obstacle};
use higgs::ordered::OrdIx2;
use higgs::particle::{Empty, Neutron};
use higgs::property::Antiness;

#[test]
fn move_neutron_edge() {
    let width = 5;
    let height = 7;
    let mut board = Board::new(width, height, vec![]);

    let x = 3;
    let y = 2;

    let start_index = OrdIx2::new(x, y);

    board.add_particle(Neutron::default(), start_index);

    let new_boards = board
        .get_particle(start_index)
        .all_moves(&board, start_index);
    for new_b in &new_boards {
        assert_eq!(new_b.get_particle(start_index), Empty.into());
    }

    let right = &new_boards[0];
    let down = &new_boards[1];
    let left = &new_boards[2];
    let up = &new_boards[3];

    assert_eq!(
        right.get_particle(OrdIx2::new(width - 1, y)),
        Neutron::default().into()
    );
    assert_eq!(
        down.get_particle(OrdIx2::new(x, height - 1)),
        Neutron::default().into()
    );
    assert_eq!(
        left.get_particle(OrdIx2::new(0, y)),
        Neutron::default().into()
    );
    assert_eq!(
        up.get_particle(OrdIx2::new(x, 0)),
        Neutron::default().into()
    );
}

#[test]
fn move_neutron_edge_flatten() {
    let width = 5;
    let height = 7;
    let mut board = Board::new(width, height, vec![]);

    let top_left_index = OrdIx2::new(0, 0);
    let bottom_right_index = OrdIx2::new(width - 1, height - 1);

    board.add_particle(Neutron::default(), top_left_index);
    board.add_particle(Neutron::default(), bottom_right_index);

    assert_eq!(
        board
            .get_particle(top_left_index)
            .all_moves(&board, top_left_index)
            .len(),
        2
    );
    assert_eq!(
        board
            .get_particle(bottom_right_index)
            .all_moves(&board, bottom_right_index)
            .len(),
        2
    );
}

#[test]
fn move_neutron_collide() {
    let width = 7;
    let height = 9;
    let mut board = Board::new(width, height, vec![]);

    let x = 3;
    let y = 2;

    let start_index = OrdIx2::new(x, y);
    let up_one_index = OrdIx2::new(x, y - 1);
    let left_two_index = OrdIx2::new(x - 2, y);
    let right_three_index = OrdIx2::new(x + 3, y);
    let down_four_index = OrdIx2::new(x, y + 4);

    board.add_particle(Neutron::default(), start_index);
    board.add_particle(Neutron::default(), up_one_index);
    board.add_particle(Neutron::default(), left_two_index);
    board.add_particle(Neutron::default(), right_three_index);
    board.add_particle(Neutron::default(), down_four_index);

    let new_boards = board
        .get_particle(start_index)
        .all_moves(&board, start_index);

    assert_eq!(new_boards.len(), 3);

    let right = &new_boards[0];
    let down = &new_boards[1];
    let left = &new_boards[2];

    assert_eq!(
        right.get_particle(OrdIx2::new(x + 2, y)),
        Neutron::default().into()
    );
    assert_eq!(
        down.get_particle(OrdIx2::new(x, y + 3)),
        Neutron::default().into()
    );
    assert_eq!(
        left.get_particle(OrdIx2::new(x - 1, y)),
        Neutron::default().into()
    );
}

#[test]
fn move_neutron_obstacle() {
    let width = 7;
    let height = 9;
    let mut board = Board::new(width, height, vec![]);

    let x = 3;
    let y = 2;

    let start_index = OrdIx2::new(x, y);
    let up_one_index = OrdIx2::new(x, y - 1);
    let left_two_index = OrdIx2::new(x - 2, y);
    let right_three_index = OrdIx2::new(x + 3, y);
    let down_four_index = OrdIx2::new(x, y + 4);

    board.add_particle(Neutron::default(), start_index);
    board.add_particle(Neutron::default(), up_one_index);
    board.add_particle(Neutron::default(), left_two_index);
    board.add_particle(Neutron::default(), right_three_index);
    board.add_particle(Neutron::default(), down_four_index);

    let new_boards = board
        .get_particle(start_index)
        .all_moves(&board, start_index);

    assert_eq!(new_boards.len(), 3);

    let right = &new_boards[0];
    let down = &new_boards[1];
    let left = &new_boards[2];

    assert_eq!(
        right.get_particle(OrdIx2::new(x + 2, y)),
        Neutron::default().into()
    );
    assert_eq!(
        down.get_particle(OrdIx2::new(x, y + 3)),
        Neutron::default().into()
    );
    assert_eq!(
        left.get_particle(OrdIx2::new(x - 1, y)),
        Neutron::default().into()
    );
}

#[test]
fn two_neutrons_settle_adjacent() {
    let mut board = Board::new(7, 1, vec![]);
    board.add_particle(Neutron::default(), OrdIx2::new(1, 0));
    board.add_particle(Neutron::default(), OrdIx2::new(4, 0));

    let new_boards = board
        .get_particle(OrdIx2::new(1, 0))
        .all_moves(&board, OrdIx2::new(1, 0));
    // Rightward: settles adjacent to the stationary neutron; leftward:
    // slides to the edge.
    assert_eq!(new_boards.len(), 2);
    let right = &new_boards[0];
    assert_eq!(right.get_particle(OrdIx2::new(3, 0)), Neutron::default().into());
    assert_eq!(right.get_particle(OrdIx2::new(4, 0)), Neutron::default().into());
    assert_eq!(right.get_particle(OrdIx2::new(1, 0)), Empty.into());
}

#[test]
fn neutron_annihilates_antineutron() {
    let mut board = Board::new(6, 1, vec![]);
    board.add_particle(Neutron::default(), OrdIx2::new(0, 0));
    board.add_particle(Neutron::new(Antiness::Anti), OrdIx2::new(3, 0));
    board.add_obstacle(Block, OrdIx2::new(5, 0));

    let new_boards = board
        .get_particle(OrdIx2::new(0, 0))
        .all_moves(&board, OrdIx2::new(0, 0));
    // Only the rightward walk produces a board: the collision removes
    // both neutrons and the shockwave clears the block within radius 3.
    assert_eq!(new_boards.len(), 1);
    let collided = &new_boards[0];
    assert_eq!(collided.get_particle(OrdIx2::new(0, 0)), Empty.into());
    assert_eq!(collided.get_particle(OrdIx2::new(3, 0)), Empty.into());
    assert_eq!(
        collided.get_obstacle(OrdIx2::new(5, 0)),
        Obstacle::Empty(higgs::obstacle::Empty)
    );
}

#[test]
fn hole_removes_particle() {
    let mut board = Board::new(3, 3, vec![]);
    board.add_particle(Neutron::default(), OrdIx2::new(1, 1));
    board.add_obstacle(Hole, OrdIx2::new(2, 1));
    board.add_obstacle(Block, OrdIx2::new(0, 1));

    let new_boards = board
        .get_particle(OrdIx2::new(1, 1))
        .all_moves(&board, OrdIx2::new(1, 1));
    // Right: swallowed by the hole; down and up: slide; left: blocked on
    // the first step, so no board at all in that direction.
    assert_eq!(new_boards.len(), 3);
    let swallowed = &new_boards[0];
    assert_eq!(swallowed.get_particle(OrdIx2::new(1, 1)), Empty.into());
    assert_eq!(swallowed.get_particle(OrdIx2::new(2, 1)), Empty.into());
    assert_eq!(swallowed.get_obstacle(OrdIx2::new(2, 1)), Obstacle::Hole(Hole));
}
