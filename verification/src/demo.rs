//! A small worked example: sixteen edge-keyed tiles on a square grid.

use vstd::prelude::*;
use crate::tiler::{Tiler, TileSet, TileType, TilingError};
use crate::directions::CardinalDirections;
use crate::grid::CoordinateSystemGrid;
use crate::tilesets::TileSetKeys;
use crate::engine::TilerPossibilities;

verus! {

/// Tiles a 20 by 20 grid with a universe of 16 tiles whose four edge keys
/// encode, per side, whether the side is open (key 1) or closed (key 0), so
/// open sides face open sides. Returns the extracted tiling — on success a
/// concrete tile id below 16 for each of the 400 cells, the sentinels (18 for
/// undetermined, 17 for ambiguous) never appearing — or the run's error.
pub fn main2() -> (r: Result<Vec<TileType>, TilingError>)
    ensures
        r matches Ok(v) ==> v@.len() == 400 && (forall|i: int|
            0 <= i < 400 ==> #[trigger] v@[i] < 16),
        r is Err ==> r == Err::<Vec<TileType>, TilingError>(TilingError::Failed),
{
    let mut tile_set: TileSetKeys<CardinalDirections> = TileSetKeys::new(16, 0);
    for i in 0..16u8
        invariant
            tile_set.wf(),
            tile_set.spec_len() == 16,
    {
        if i % 2 == 0 {
            tile_set.set_key(i, CardinalDirections::North, 1);
        }
        if (i / 2) % 2 == 0 {
            tile_set.set_key(i, CardinalDirections::East, 1);
        }
        if (i / 4) % 2 == 0 {
            tile_set.set_key(i, CardinalDirections::South, 1);
        }
        if (i / 8) % 2 == 0 {
            tile_set.set_key(i, CardinalDirections::West, 1);
        }
    }
    let width: usize = 20;
    let height: usize = 20;
    let coordinate_system = CoordinateSystemGrid::new(width, height);
    let mut tiler = TilerPossibilities::new(coordinate_system, tile_set);
    match tiler.tile() {
        Ok(()) => {},
        Err(e) => {
            return Err(e);
        },
    }
    let tiles = tiler.tiling(18, 17);
    proof {
        tiler.lemma_output_consistency(tiles@);
    }
    Ok(tiles)
}

} // verus!
