//! The two tile compatibility oracles: rule storage, symmetry, weights.

use tiles::directions::CardinalDirections;
use tiles::tiler::{Directions, TileSet};
use tiles::tilesets::{TileSetBits, TileSetKeys};

const DIRS: [CardinalDirections; 4] = [
    CardinalDirections::North,
    CardinalDirections::East,
    CardinalDirections::South,
    CardinalDirections::West,
];

#[test]
fn bits_set_allow_and_read_back() {
    let mut ts: TileSetBits<CardinalDirections> = TileSetBits::new(4);
    assert_eq!(ts.len(), 4);
    assert!(!ts.allows(0, 1, CardinalDirections::East));
    ts.set_allow(0, 1, CardinalDirections::East, true);
    assert!(ts.allows(0, 1, CardinalDirections::East));
    assert!(ts.allows(1, 0, CardinalDirections::West));
    assert!(!ts.allows(1, 0, CardinalDirections::East));
    assert!(!ts.allows(0, 1, CardinalDirections::West));
    assert!(!ts.allows(0, 1, CardinalDirections::North));
    ts.set_allow(0, 1, CardinalDirections::East, false);
    assert!(!ts.allows(0, 1, CardinalDirections::East));
    assert!(!ts.allows(1, 0, CardinalDirections::West));
}

#[test]
fn bits_symmetry_over_all_rules() {
    let mut ts: TileSetBits<CardinalDirections> = TileSetBits::new(5);
    ts.set_allow(0, 1, CardinalDirections::East, true);
    ts.set_allow(2, 2, CardinalDirections::North, true);
    ts.set_allow(3, 4, CardinalDirections::South, true);
    ts.set_allow(4, 0, CardinalDirections::West, true);
    for x in 0..5 {
        for y in 0..5 {
            for d in DIRS {
                assert_eq!(ts.allows(x, y, d), ts.allows(y, x, d.opposite()));
            }
        }
    }
}

#[test]
fn keys_matching_semantics() {
    let mut ts: TileSetKeys<CardinalDirections> = TileSetKeys::new(3, 0);
    assert_eq!(ts.len(), 3);
    // everything starts with the same key on every side, so everything fits
    assert!(ts.allows(0, 1, CardinalDirections::East));
    // tile 0's east edge gets key 2: it now fits only a west edge with key 2
    ts.set_key(0, CardinalDirections::East, 2);
    assert!(!ts.allows(0, 1, CardinalDirections::East));
    ts.set_key(1, CardinalDirections::West, 2);
    assert!(ts.allows(0, 1, CardinalDirections::East));
    assert!(ts.allows(1, 0, CardinalDirections::West));
    // the north/south sides were never touched
    assert!(ts.allows(0, 1, CardinalDirections::North));
}

#[test]
fn keys_symmetry_over_all_rules() {
    let mut ts: TileSetKeys<CardinalDirections> = TileSetKeys::new(4, 0);
    ts.set_key(0, CardinalDirections::East, 1);
    ts.set_key(1, CardinalDirections::West, 1);
    ts.set_key(2, CardinalDirections::North, 3);
    ts.set_key(3, CardinalDirections::South, 2);
    for x in 0..4 {
        for y in 0..4 {
            for d in DIRS {
                assert_eq!(ts.allows(x, y, d), ts.allows(y, x, d.opposite()));
            }
        }
    }
}

#[test]
fn weights_read_back() {
    let mut bits: TileSetBits<CardinalDirections> = TileSetBits::new(3);
    assert_eq!(bits.probabilty_weight(0), 1);
    bits.set_probability_weight(1, 250);
    assert_eq!(bits.probabilty_weight(1), 250);
    assert_eq!(bits.probabilty_weight(2), 1);
    let mut keys: TileSetKeys<CardinalDirections> = TileSetKeys::new(2, 0);
    assert_eq!(keys.probabilty_weight(1), 1);
    keys.set_probability_weight(0, 7);
    assert_eq!(keys.probabilty_weight(0), 7);
}
