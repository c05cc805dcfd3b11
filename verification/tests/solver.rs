//! The propagation/selection engine, end to end.

use tiles::demo::main2;
use tiles::directions::CardinalDirections;
use tiles::engine::TilerPossibilities;
use tiles::grid::CoordinateSystemGrid;
use tiles::tiler::{CoordinateSystem, TileSet, Tiler, TilingError};
use tiles::tilesets::TileSetBits;

fn two_cell_grid() -> CoordinateSystemGrid<CardinalDirections> {
    CoordinateSystemGrid::new(2, 1)
}

#[test]
fn forced_pair_or_failure() {
    // tile 0 only permits tile 1 to its east; tile 1 permits nothing to its
    // east: a successful run must yield [0, 1], never [0, 0] or [1, 1]
    for _ in 0..60 {
        let mut ts: TileSetBits<CardinalDirections> = TileSetBits::new(2);
        ts.set_allow(0, 1, CardinalDirections::East, true);
        let mut tiler = TilerPossibilities::new(two_cell_grid(), ts);
        match tiler.tile() {
            Ok(()) => {
                let out = tiler.tiling(255, 254);
                assert_eq!(out, vec![0, 1]);
            },
            Err(e) => {
                assert_eq!(e, TilingError::Failed);
            },
        }
    }
}

#[test]
fn single_cell_three_tiles_covers_all() {
    // one cell, three equally weighted tiles: the run always succeeds, and
    // over many runs each of the three tiles is eventually drawn
    let mut seen = [false; 3];
    for _ in 0..300 {
        let ts: TileSetBits<CardinalDirections> = TileSetBits::new(3);
        let grid: CoordinateSystemGrid<CardinalDirections> = CoordinateSystemGrid::new(1, 1);
        let mut tiler = TilerPossibilities::new(grid, ts);
        assert_eq!(tiler.tile(), Ok(()));
        let out = tiler.tiling(9, 9);
        assert_eq!(out.len(), 1);
        assert!(out[0] < 3);
        seen[out[0] as usize] = true;
    }
    assert!(seen[0] && seen[1] && seen[2]);
}

#[test]
fn mutual_exclusion_always_fails() {
    // two tiles that disallow each other and themselves in every direction on
    // two adjacent cells: a contradiction whatever the random draws
    for _ in 0..30 {
        let ts: TileSetBits<CardinalDirections> = TileSetBits::new(2);
        let mut tiler = TilerPossibilities::new(two_cell_grid(), ts);
        assert_eq!(tiler.tile(), Err(TilingError::Failed));
    }
}

#[test]
fn possibilities_shrink_and_priorities_rise_on_update() {
    // cell 1 is collapsed to tile 0 by hand; updating cell 0 eliminates its
    // unsupported tile 1, keeps tile 0, and raises cell 0's queue priority
    let mut ts: TileSetBits<CardinalDirections> = TileSetBits::new(2);
    ts.set_allow(0, 0, CardinalDirections::East, true);
    let mut tiler = TilerPossibilities::new(two_cell_grid(), ts);
    tiler.possible_tile_set(1, 1, false);
    assert_eq!(tiler.queue.get_priority(&0), Some(&0));
    assert_eq!(tiler.update(0), Ok(true));
    assert!(tiler.possible_tile(0, 0));
    assert!(!tiler.possible_tile(0, 1));
    assert_eq!(tiler.queue.get_priority(&0), Some(&1));
    // a second update changes nothing further
    assert_eq!(tiler.update(0), Ok(false));
    assert_eq!(tiler.queue.get_priority(&0), Some(&1));
}

#[test]
fn update_fails_on_emptied_cell() {
    // cell 1 is collapsed to tile 1 by hand, which supports nothing at cell 0
    let mut ts: TileSetBits<CardinalDirections> = TileSetBits::new(2);
    ts.set_allow(0, 0, CardinalDirections::East, true);
    let mut tiler = TilerPossibilities::new(two_cell_grid(), ts);
    tiler.possible_tile_set(1, 0, false);
    assert_eq!(tiler.update(0), Err(TilingError::Failed));
}

#[test]
fn boundary_never_blocks() {
    // no rule allows anything, yet across the grid edge everything is allowed
    let ts: TileSetBits<CardinalDirections> = TileSetBits::new(2);
    let grid: CoordinateSystemGrid<CardinalDirections> = CoordinateSystemGrid::new(1, 1);
    let tiler = TilerPossibilities::new(grid, ts);
    assert!(tiler.allowed_tile(0, 0, CardinalDirections::North));
    assert!(tiler.allowed_tile(0, 1, CardinalDirections::East));
    assert!(tiler.allowed_tile(0, 0, CardinalDirections::South));
    assert!(tiler.allowed_tile(0, 1, CardinalDirections::West));
}

#[test]
fn allowed_tile_consults_the_neighbor() {
    let mut ts: TileSetBits<CardinalDirections> = TileSetBits::new(2);
    ts.set_allow(0, 1, CardinalDirections::East, true);
    let tiler = TilerPossibilities::new(two_cell_grid(), ts);
    assert!(tiler.allowed_tile(0, 0, CardinalDirections::East));
    assert!(!tiler.allowed_tile(0, 1, CardinalDirections::East));
    assert!(tiler.allowed_tile(1, 1, CardinalDirections::West));
    assert!(!tiler.allowed_tile(1, 0, CardinalDirections::West));
}

#[test]
fn extraction_sentinels() {
    let ts: TileSetBits<CardinalDirections> = TileSetBits::new(2);
    let grid: CoordinateSystemGrid<CardinalDirections> = CoordinateSystemGrid::new(1, 1);
    let mut tiler = TilerPossibilities::new(grid, ts);
    // both tiles possible: the ambiguous sentinel
    assert_eq!(tiler.tiling(8, 9), vec![9]);
    // exactly one possible: that tile
    tiler.possible_tile_set(0, 0, false);
    assert_eq!(tiler.tiling(8, 9), vec![1]);
    // none possible: the undetermined sentinel
    tiler.possible_tile_set(0, 1, false);
    assert_eq!(tiler.tiling(8, 9), vec![8]);
}

#[test]
fn fresh_run_has_everything_possible() {
    let ts: TileSetBits<CardinalDirections> = TileSetBits::new(3);
    let mut tiler = TilerPossibilities::new(two_cell_grid(), ts);
    for c in 0..2 {
        for t in 0..3 {
            assert!(tiler.possible_tile(c, t));
        }
    }
    tiler.possible_tile_set(1, 2, false);
    assert!(!tiler.possible_tile(1, 2));
    assert!(tiler.possible_tile(0, 2));
}

#[test]
fn demo_run_succeeds_with_concrete_tiles() {
    let out = main2().expect("the open/closed edge catalog always tiles");
    assert_eq!(out.len(), 400);
    assert!(out.iter().all(|&t| t < 16));
}

#[test]
fn error_messages() {
    assert_eq!(TilingError::Failed.message(), "This tiling attempt failed.");
    assert_eq!(TilingError::Untileable.message(), "There is no possible tiling.");
}

#[test]
fn collapse_never_picks_an_excluded_tile() {
    // with tile 0 struck out by hand, the weighted draw must land on tile 1
    for _ in 0..50 {
        let ts: TileSetBits<CardinalDirections> = TileSetBits::new(2);
        let grid: CoordinateSystemGrid<CardinalDirections> = CoordinateSystemGrid::new(1, 1);
        let mut tiler = TilerPossibilities::new(grid, ts);
        tiler.possible_tile_set(0, 0, false);
        assert_eq!(tiler.tile(), Ok(()));
        assert_eq!(tiler.tiling(8, 9), vec![1]);
    }
}

#[test]
fn successful_runs_respect_the_rules() {
    // on success, every adjacent pair of the extracted tiling satisfies the
    // oracle; with two tiles that only tolerate themselves, rows come striped
    for _ in 0..40 {
        let mut ts: TileSetBits<CardinalDirections> = TileSetBits::new(2);
        for d in [
            CardinalDirections::North,
            CardinalDirections::East,
            CardinalDirections::South,
            CardinalDirections::West,
        ] {
            ts.set_allow(0, 0, d, true);
            ts.set_allow(1, 1, d, true);
        }
        let grid: CoordinateSystemGrid<CardinalDirections> = CoordinateSystemGrid::new(3, 3);
        let mut tiler = TilerPossibilities::new(grid, ts);
        if tiler.tile() == Ok(()) {
            let out = tiler.tiling(9, 9);
            assert_eq!(out.len(), 9);
            for pos in 0..9usize {
                for d in [
                    CardinalDirections::North,
                    CardinalDirections::East,
                    CardinalDirections::South,
                    CardinalDirections::West,
                ] {
                    if let Some(q) = tiler.coordinate_system.move_direction(pos, d) {
                        assert!(tiler.tile_set.allows(out[pos], out[q], d));
                    }
                }
            }
        }
    }
}
