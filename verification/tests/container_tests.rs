use higgs::board::{board_eq, Board};
use higgs::container::nucleus::NucleusParticle;
use higgs::container::{
    comp_eq, contents_positions, Component, Container, ContainerTrait,
};
use higgs::ordered::OrdIx2;
use higgs::particle::{Electron, Neutron, Particle, Tau};
use higgs::property::{Antiness, Colour, Direction};

#[test]
fn nucleus_charge_and_contents() {
    let nucleus = NucleusParticle::new(
        Antiness::Ordinary,
        vec![OrdIx2::new(1, 1), OrdIx2::new(0, 0), OrdIx2::new(1, 1)],
        vec![OrdIx2::new(2, 2)],
    );
    // Duplicate protons collapse; two protons give charge +6.
    assert_eq!(ContainerTrait::charge(&nucleus), 6);
    assert_eq!(ContainerTrait::colour(&nucleus), Colour::White);
    let positions = contents_positions(ContainerTrait::contents(&nucleus));
    assert_eq!(
        positions,
        vec![OrdIx2::new(0, 0), OrdIx2::new(1, 1), OrdIx2::new(2, 2)]
    );

    let anti = NucleusParticle::new(
        Antiness::Anti,
        vec![OrdIx2::new(3, 3)],
        vec![],
    );
    assert_eq!(ContainerTrait::charge(&anti), -3);
}

#[test]
fn nucleus_construction_order_does_not_matter() {
    let a = NucleusParticle::new(
        Antiness::Ordinary,
        vec![OrdIx2::new(1, 1), OrdIx2::new(0, 0)],
        vec![OrdIx2::new(2, 2)],
    );
    let b = NucleusParticle::new(
        Antiness::Ordinary,
        vec![OrdIx2::new(0, 0), OrdIx2::new(1, 1)],
        vec![OrdIx2::new(2, 2)],
    );
    assert_eq!(a, b);
}

#[test]
fn container_insertion_order_does_not_matter() {
    let first = NucleusParticle::new(
        Antiness::Ordinary,
        vec![OrdIx2::new(1, 1)],
        vec![OrdIx2::new(1, 2)],
    );
    let second = NucleusParticle::new(Antiness::Anti, vec![OrdIx2::new(3, 3)], vec![]);

    let mut a = Board::new(5, 5, vec![]);
    a.add_container(Container::NucleusParticle(first.clone()));
    a.add_container(Container::NucleusParticle(second.clone()));

    let mut b = Board::new(5, 5, vec![]);
    b.add_container(Container::NucleusParticle(second));
    b.add_container(Container::NucleusParticle(first));

    assert!(board_eq(&a, &b));
    assert!(a == b);
}

#[test]
fn board_charge_sees_containers() {
    let mut board = Board::new(5, 5, vec![]);
    let nucleus = NucleusParticle::new(
        Antiness::Ordinary,
        vec![OrdIx2::new(1, 1), OrdIx2::new(2, 1)],
        vec![OrdIx2::new(1, 2)],
    );
    board.add_container(Container::NucleusParticle(nucleus.clone()));

    // A bonded cell reports the aggregate charge, an unbonded one its
    // lone particle's.
    assert_eq!(board.charge(OrdIx2::new(1, 1)), 6);
    assert_eq!(board.charge(OrdIx2::new(1, 2)), 6);
    assert_eq!(board.charge(OrdIx2::new(4, 4)), 0);
    assert_eq!(
        board.find_charge_single(OrdIx2::new(4, 1), Direction::Left),
        6
    );
    assert_eq!(
        board.find_charge_single(OrdIx2::new(4, 4), Direction::Up),
        0
    );

    let member = Component::Particle(OrdIx2::new(2, 1));
    let top = board.top_container(&member).unwrap();
    assert_eq!(ContainerTrait::charge(top), 6);
    assert!(board.top_container(&Component::Particle(OrdIx2::new(0, 0))).is_none());

    board.remove_container(&Container::NucleusParticle(nucleus));
    assert_eq!(board.charge(OrdIx2::new(1, 1)), 0);
}

#[test]
fn find_charge_many_counts_each_source_once() {
    let mut board = Board::new(5, 3, vec![]);
    // One shared source to the right of both scanned rows would be
    // counted once per row if it were not deduplicated; place one source
    // per row instead and one shared container.
    board.add_particle(Electron::new(Antiness::Anti), OrdIx2::new(4, 0));
    board.add_particle(Electron::new(Antiness::Anti), OrdIx2::new(4, 1));
    let scanned = vec![
        Component::Particle(OrdIx2::new(0, 0)),
        Component::Particle(OrdIx2::new(0, 1)),
        Component::Particle(OrdIx2::new(0, 2)),
    ];
    assert_eq!(board.find_charge_many(&scanned, Direction::Right), 6);

    // Both rays end on the same bonded pair: one source, counted once.
    let mut bonded = Board::new(5, 3, vec![]);
    let nucleus = NucleusParticle::new(
        Antiness::Ordinary,
        vec![OrdIx2::new(4, 0), OrdIx2::new(4, 1)],
        vec![],
    );
    bonded.add_container(Container::NucleusParticle(nucleus));
    let scanned = vec![
        Component::Particle(OrdIx2::new(0, 0)),
        Component::Particle(OrdIx2::new(0, 1)),
    ];
    assert_eq!(bonded.find_charge_many(&scanned, Direction::Right), 6);
}

#[test]
fn find_locates_first_matching_cell() {
    let mut board = Board::new(5, 1, vec![]);
    board.add_particle(Neutron::default(), OrdIx2::new(3, 0));
    let found = board.find::<(), _, _>(
        OrdIx2::new(0, 0),
        Direction::Right,
        |_c: &Container| false,
        |p: &Particle| matches!(p, Particle::Neutron(_)),
    );
    assert!(comp_eq(
        &found.unwrap(),
        &Component::Particle(OrdIx2::new(3, 0))
    ));

    let missing = board.find::<(), _, _>(
        OrdIx2::new(0, 0),
        Direction::Down,
        |_c: &Container| false,
        |p: &Particle| matches!(p, Particle::Neutron(_)),
    );
    assert!(missing.is_none());
}

#[test]
fn find_value_derives_from_first_match() {
    let mut board = Board::new(4, 1, vec![]);
    board.add_particle(Tau::new(Antiness::Anti), OrdIx2::new(2, 0));
    let found = board.find_value(
        OrdIx2::new(0, 0),
        Direction::Right,
        |_c: &Container| None,
        |p: &Particle| {
            let charge = p.charge();
            if charge != 0 {
                Some(charge)
            } else {
                None
            }
        },
    );
    let (component, charge) = found.unwrap();
    assert!(comp_eq(&component, &Component::Particle(OrdIx2::new(2, 0))));
    assert_eq!(charge, 3);
}

#[test]
fn component_positions_flatten_nested_groups() {
    let nested = Component::Container(vec![
        Component::Particle(OrdIx2::new(1, 0)),
        Component::Container(vec![Component::Particle(OrdIx2::new(2, 0))]),
    ]);
    assert_eq!(
        nested.all_positions(),
        vec![OrdIx2::new(1, 0), OrdIx2::new(2, 0)]
    );
    assert!(comp_eq(&nested, &nested.clone()));
}
