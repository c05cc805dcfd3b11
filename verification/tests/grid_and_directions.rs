//! The cardinal directions and the rectangular grid coordinate system.

use tiles::directions::CardinalDirections;
use tiles::grid::CoordinateSystemGrid;
use tiles::tiler::{CoordinateSystem, Directions};

const DIRS: [CardinalDirections; 4] = [
    CardinalDirections::North,
    CardinalDirections::East,
    CardinalDirections::South,
    CardinalDirections::West,
];

#[test]
fn direction_ids_and_opposites() {
    assert_eq!(<CardinalDirections as Directions>::len(), 4);
    for (i, d) in DIRS.iter().enumerate() {
        assert_eq!(d.id(), i);
        assert_eq!(CardinalDirections::direction(i), *d);
        assert_eq!(d.opposite().opposite(), *d);
        assert_eq!(d.opposite().id(), (d.id() + 2) % 4);
    }
    assert_eq!(CardinalDirections::North.opposite(), CardinalDirections::South);
    assert_eq!(CardinalDirections::East.opposite(), CardinalDirections::West);
}

#[test]
fn grid_moves_and_boundaries() {
    // a 3-wide, 2-high grid: cells 0 1 2 / 3 4 5
    let g: CoordinateSystemGrid<CardinalDirections> = CoordinateSystemGrid::new(3, 2);
    assert_eq!(g.len(), 6);
    assert_eq!(g.move_direction(0, CardinalDirections::North), None);
    assert_eq!(g.move_direction(0, CardinalDirections::West), None);
    assert_eq!(g.move_direction(0, CardinalDirections::East), Some(1));
    assert_eq!(g.move_direction(0, CardinalDirections::South), Some(3));
    assert_eq!(g.move_direction(4, CardinalDirections::North), Some(1));
    assert_eq!(g.move_direction(4, CardinalDirections::East), Some(5));
    assert_eq!(g.move_direction(4, CardinalDirections::West), Some(3));
    assert_eq!(g.move_direction(4, CardinalDirections::South), None);
    assert_eq!(g.move_direction(5, CardinalDirections::East), None);
}

#[test]
fn grid_moves_are_symmetric() {
    let g: CoordinateSystemGrid<CardinalDirections> = CoordinateSystemGrid::new(4, 3);
    for pos in 0..g.len() {
        for d in DIRS {
            if let Some(q) = g.move_direction(pos, d) {
                assert_eq!(g.move_direction(q, d.opposite()), Some(pos));
                assert_ne!(q, pos);
            }
        }
    }
}
