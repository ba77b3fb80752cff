use santorini::game::prelude::{Position, PositionSet};

fn set_of(positions: &[Position]) -> PositionSet {
    let mut set = PositionSet::new();
    for p in positions {
        set.add(*p);
    }
    set
}

#[test]
fn get_neighbord() {
    assert_eq!(
        Position::new(0, 0).get_neighbors(),
        set_of(&[
            Position::new(0, 1),
            Position::new(1, 0),
            Position::new(1, 1)
        ])
    );

    assert_eq!(
        Position::new(0, 1).get_neighbors(),
        set_of(&[
            Position::new(0, 0),
            Position::new(1, 0),
            Position::new(1, 1),
            Position::new(0, 2),
            Position::new(1, 2)
        ])
    );

    assert_eq!(
        Position::new(1, 1).get_neighbors(),
        set_of(&[
            Position::new(0, 0),
            Position::new(1, 0),
            Position::new(2, 0),
            Position::new(0, 1),
            Position::new(2, 1),
            Position::new(0, 2),
            Position::new(1, 2),
            Position::new(2, 2)
        ])
    );
}

#[test]
fn prelude_are_neighbors() {
    assert!(Position::are_neighbors(
        Position::new(1, 1),
        Position::new(1, 2)
    ));

    assert!(Position::are_neighbors(
        Position::new(1, 1),
        Position::new(2, 2)
    ));

    assert!(!Position::are_neighbors(
        Position::new(2, 2),
        Position::new(2, 2)
    ));
    assert!(!Position::are_neighbors(
        Position::new(2, 2),
        Position::new(4, 2)
    ));
}

#[test]
fn neighbors() {
    for r1 in 0..5 {
        for c1 in 0..5 {
            let pos1 = Position::new(r1, c1);
            let n = pos1.get_neighbors();
            for r2 in 0..5 {
                for c2 in 0..5 {
                    let pos2 = Position::new(r2, c2);
                    let is_neigh = Position::are_neighbors(pos1, pos2);
                    assert_eq!(is_neigh, Position::are_neighbors(pos2, pos1));
                    assert_eq!(is_neigh, n.contains(pos2));
                }
            }
        }
    }
}

#[test]
fn moves() {
    for r1 in 0..5 {
        for c1 in 0..5 {
            let pos1 = Position::new(r1, c1);
            let mut p = pos1;
            p.up();
            p.down();
            assert_eq!(pos1, p);
            p.left();
            p.right();
            assert_eq!(pos1, p);
            p.up();
            p.left();
            p.down();
            p.right();
            assert_eq!(pos1, p);
        }
    }
}
