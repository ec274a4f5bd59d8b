use higgs::board::Board;
use higgs::container::nucleus::NucleusParticle;
use higgs::container::Container;
use higgs::obstacle::{block::Block, hole::Hole, Obstacle};
use higgs::ordered::OrdIx2;
use higgs::particle::{Electron, Empty, Tau};
use higgs::property::Antiness;

#[test]
fn electron_annihilates_adjacent_antielectron() {
    let mut board = Board::new(5, 5, vec![]);
    board.add_particle(Electron::new(Antiness::Ordinary), OrdIx2::new(1, 0));
    board.add_particle(Electron::new(Antiness::Anti), OrdIx2::new(2, 0));
    board.add_obstacle(Block, OrdIx2::new(4, 0));
    board.add_obstacle(Hole, OrdIx2::new(0, 3));

    let new_boards = board
        .get_particle(OrdIx2::new(1, 0))
        .all_moves(&board, OrdIx2::new(1, 0));
    // The opposite charge to the right attracts: the collision empties
    // both cells and clears every obstacle within Manhattan distance 3
    // of the collision cell.
    let collided = &new_boards[0];
    assert_eq!(collided.get_particle(OrdIx2::new(1, 0)), Empty.into());
    assert_eq!(collided.get_particle(OrdIx2::new(2, 0)), Empty.into());
    assert_eq!(
        collided.get_obstacle(OrdIx2::new(4, 0)),
        Obstacle::Empty(higgs::obstacle::Empty)
    );
    // Distance 5 from the collision: out of the shockwave.
    assert_eq!(collided.get_obstacle(OrdIx2::new(0, 3)), Obstacle::Hole(Hole));
}

#[test]
fn electrons_of_equal_charge_repel_nothing_sideways() {
    // Two ordinary electrons see equal charge on both axes ends: the tie
    // admits both directions on the vertical axis.
    let mut board = Board::new(3, 3, vec![]);
    board.add_particle(Electron::default(), OrdIx2::new(0, 1));
    board.add_particle(Electron::default(), OrdIx2::new(2, 1));

    let new_boards = board
        .get_particle(OrdIx2::new(0, 1))
        .all_moves(&board, OrdIx2::new(0, 1));
    // Sensing -3 to the right and nothing left gives x = 9 > 0: only
    // leftward is admitted on that axis, and the left edge is immediate,
    // so only the vertical tie produces boards.
    assert_eq!(new_boards.len(), 2);
    let up = &new_boards[0];
    let down = &new_boards[1];
    assert_eq!(up.get_particle(OrdIx2::new(0, 0)), Electron::default().into());
    assert_eq!(down.get_particle(OrdIx2::new(0, 2)), Electron::default().into());
}

#[test]
fn tau_moves_toward_opposite_charge() {
    let mut board = Board::new(5, 1, vec![]);
    board.add_particle(Tau::new(Antiness::Ordinary), OrdIx2::new(0, 0));
    board.add_particle(Tau::new(Antiness::Anti), OrdIx2::new(4, 0));

    let new_boards = board
        .get_particle(OrdIx2::new(0, 0))
        .all_moves(&board, OrdIx2::new(0, 0));
    // x = -3 * (3 - 0) < 0: rightward only on that axis; the vertical
    // tie admits both ways, but both sit at the edge of this one-row
    // board, so the only board comes from the walk that annihilates on
    // the anti-tau.
    assert_eq!(new_boards.len(), 1);
    let collided = &new_boards[0];
    assert_eq!(collided.get_particle(OrdIx2::new(0, 0)), Empty.into());
    assert_eq!(collided.get_particle(OrdIx2::new(4, 0)), Empty.into());
}

#[test]
fn tau_tie_moves_both_ways() {
    // Equal opposite charges on both sides: the exact tie admits both
    // directions, as for the electron, so both annihilations happen.
    let mut board = Board::new(5, 1, vec![]);
    board.add_particle(Tau::new(Antiness::Anti), OrdIx2::new(0, 0));
    board.add_particle(Tau::new(Antiness::Ordinary), OrdIx2::new(2, 0));
    board.add_particle(Tau::new(Antiness::Anti), OrdIx2::new(4, 0));

    let new_boards = board
        .get_particle(OrdIx2::new(2, 0))
        .all_moves(&board, OrdIx2::new(2, 0));
    assert_eq!(new_boards.len(), 2);
    let left = &new_boards[0];
    assert_eq!(left.get_particle(OrdIx2::new(0, 0)), Empty.into());
    assert_eq!(left.get_particle(OrdIx2::new(2, 0)), Empty.into());
    assert_eq!(
        left.get_particle(OrdIx2::new(4, 0)),
        Tau::new(Antiness::Anti).into()
    );
    let right = &new_boards[1];
    assert_eq!(right.get_particle(OrdIx2::new(2, 0)), Empty.into());
    assert_eq!(right.get_particle(OrdIx2::new(4, 0)), Empty.into());
    assert_eq!(
        right.get_particle(OrdIx2::new(0, 0)),
        Tau::new(Antiness::Anti).into()
    );
}

#[test]
fn tau_senses_container_charge() {
    let mut board = Board::new(5, 1, vec![]);
    board.add_particle(Tau::new(Antiness::Ordinary), OrdIx2::new(0, 0));
    let nucleus = NucleusParticle::new(Antiness::Ordinary, vec![OrdIx2::new(4, 0)], vec![]);
    board.add_container(Container::NucleusParticle(nucleus));

    let new_boards = board
        .get_particle(OrdIx2::new(0, 0))
        .all_moves(&board, OrdIx2::new(0, 0));
    // The bonded cell's aggregate charge (+3) attracts the tau rightward
    // across the otherwise chargeless row; the cell itself is empty, so
    // the tau slides onto it at the edge.
    assert_eq!(new_boards.len(), 1);
    let slid = &new_boards[0];
    assert_eq!(slid.get_particle(OrdIx2::new(0, 0)), Empty.into());
    assert_eq!(
        slid.get_particle(OrdIx2::new(4, 0)),
        Tau::new(Antiness::Ordinary).into()
    );
}
