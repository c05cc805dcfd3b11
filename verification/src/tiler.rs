//! The solver's vocabulary: tile ids, directions, coordinate systems, tile
//! compatibility oracles, and the tiler interface itself.

use vstd::prelude::*;

verus! {

/// Each value represents a type of tile.
pub type TileType = u8;

/// Relative selection weight of a tile. Weights only set the rate at which an
/// undetermined cell is collapsed to each tile; they never decide feasibility,
/// and they are always at least 1.
pub type Probability = u16;

/// How a tiling run can fail.
#[derive(Debug, Clone, Copy, PartialEq, Eq, Structural)]
pub enum TilingError {
    /// Some cell's possibility set became empty: this attempt failed.
    Failed,
    /// No tiling exists at all. Reserved: the present engine reports every
    /// contradiction as `Failed` and never raises this.
    Untileable,
}

impl TilingError {
    /// A human-readable description of the error.
    pub fn message(self) -> (r: &'static str)
        ensures
            self is Failed ==> r@ == "This tiling attempt failed."@,
            self is Untileable ==> r@ == "There is no possible tiling."@,
    {
        match self {
            TilingError::Failed => "This tiling attempt failed.",
            TilingError::Untileable => "There is no possible tiling.",
        }
    }
}

/// Represents all ways two tiles can interact: a finite catalog of directions,
/// each with a stable id and an opposite.
///
/// The ids enumerate the directions from 0. Since taking the opposite is an
/// involution and distinct directions have distinct ids, the catalog
/// partitions into opposite pairs — except for self-opposite directions,
/// which the contract allows.
pub trait Directions: Sized + Copy {
    /// The number of directions.
    spec fn spec_count() -> int;

    /// The stable id of this direction.
    spec fn spec_id(self) -> int;

    /// The opposite direction: if x is `dir` of y, then y is `opposite(dir)` of x.
    spec fn spec_opposite(self) -> Self;

    /// The direction with the given id.
    spec fn spec_nth(i: int) -> Self;

    /// Every direction has an id below the count, is recovered from its id,
    /// and is the opposite of its opposite.
    proof fn lemma_direction(self)
        ensures
            0 <= self.spec_id() < Self::spec_count(),
            Self::spec_nth(self.spec_id()) == self,
            self.spec_opposite().spec_opposite() == self,
    ;

    /// Enumerating by id yields the ids in order.
    proof fn lemma_nth(i: int)
        requires
            0 <= i < Self::spec_count(),
        ensures
            #[trigger] Self::spec_nth(i).spec_id() == i,
    ;

    /// Returns the number of directions.
    fn len() -> (r: usize)
        ensures
            r == Self::spec_count(),
    ;

    /// Returns the direction's id.
    fn id(self) -> (r: usize)
        ensures
            r == self.spec_id(),
    ;

    /// Returns the opposite direction, such that if x is dir of y, then y is
    /// dir of x.
    fn opposite(self) -> (r: Self)
        ensures
            r == self.spec_opposite(),
    ;

    /// Returns the direction with the given id.
    fn direction(i: usize) -> (r: Self)
        requires
            i < Self::spec_count(),
        ensures
            r == Self::spec_nth(i as int),
    ;
}

/// Whether a direction catalog lays its ids out in the dense adjacency
/// table's order: every direction's opposite sits half a turn away, the lower
/// half of the ids pairing with the upper half. The dense table needs this
/// layout to share one bit per opposite pair; a catalog with a self-opposite
/// direction does not have it.
pub open spec fn opposites_half_turn<Dir: Directions>() -> bool {
    forall|d: Dir|
        #![trigger d.spec_opposite()]
        d.spec_opposite().spec_id() == if d.spec_id() < Dir::spec_count() / 2 {
            d.spec_id() + Dir::spec_count() / 2
        } else {
            d.spec_id() - Dir::spec_count() / 2
        }
}

/// Represents the coordinate system in which the tiling occurs, as well as its
/// dimensions. Each cell is represented by a single usize, enumerated from 0.
pub trait CoordinateSystem<Dir> where Dir: Directions {
    /// The instance describes a coherent space.
    spec fn wf(&self) -> bool;

    /// The total amount of cells.
    spec fn spec_len(&self) -> int;

    /// Where one step from `pos` along `dir` lands, or `None` at a boundary.
    spec fn spec_move(&self, pos: int, dir: Dir) -> Option<int>;

    /// A neighbor is a different cell inside the space.
    proof fn lemma_move_in_range(&self, pos: int, dir: Dir)
        requires
            self.wf(),
            0 <= pos < self.spec_len(),
        ensures
            match self.spec_move(pos, dir) {
                Some(q) => 0 <= q < self.spec_len() && q != pos,
                None => true,
            },
    ;

    /// Moving is consistent: stepping back along the opposite direction
    /// returns to the starting cell.
    proof fn lemma_move_symmetric(&self, pos: int, dir: Dir)
        requires
            self.wf(),
            0 <= pos < self.spec_len(),
        ensures
            match self.spec_move(pos, dir) {
                Some(q) => self.spec_move(q, dir.spec_opposite()) == Some(pos),
                None => true,
            },
    ;

    /// Moves pos once by dir. Returns None if this would take it out of the
    /// coordinate system.
    fn move_direction(&self, pos: usize, dir: Dir) -> (r: Option<usize>)
        requires
            self.wf(),
            (pos as int) < self.spec_len(),
        ensures
            match r {
                Some(q) => self.spec_move(pos as int, dir) == Some(q as int),
                None => self.spec_move(pos as int, dir) is None,
            },
    ;

    /// The total amount of cells.
    fn len(&self) -> (r: usize)
        requires
            self.wf(),
        ensures
            r as int == self.spec_len(),
    ;
}

/// Represents a set of tiles (represented as TileType) and how they interact.
pub trait TileSet<Dir> where Dir: Directions {
    /// The instance's tables are internally consistent.
    spec fn wf(&self) -> bool;

    /// The number of tile types.
    spec fn spec_len(&self) -> int;

    /// Whether tile `x` allows tile `y` to stand in direction `dir` of it.
    spec fn spec_allows(&self, x: int, y: int, dir: Dir) -> bool;

    /// The selection weight of a tile.
    spec fn spec_weight(&self, tile: int) -> int;

    /// The oracle is symmetric across direction reversal:
    /// `allows(x, y, d) == allows(y, x, opposite(d))`.
    proof fn lemma_allows_symmetric(&self, x: int, y: int, dir: Dir)
        requires
            self.wf(),
            0 <= x < self.spec_len(),
            0 <= y < self.spec_len(),
        ensures
            self.spec_allows(x, y, dir) == self.spec_allows(y, x, dir.spec_opposite()),
    ;

    /// Weights are positive and bounded by the weight type's range.
    proof fn lemma_weight_bounds(&self, tile: int)
        requires
            self.wf(),
            0 <= tile < self.spec_len(),
        ensures
            1 <= self.spec_weight(tile) <= Probability::MAX,
    ;

    /// The tile universe fits the tile id type.
    proof fn lemma_len_bounds(&self)
        requires
            self.wf(),
        ensures
            0 <= self.spec_len() <= TileType::MAX,
    ;

    /// Returns whether x allows y to be dir of it. The result is equal to
    /// whether y allows x to be dir.opposite() of it.
    fn allows(&self, x: TileType, y: TileType, dir: Dir) -> (r: bool)
        requires
            self.wf(),
            (x as int) < self.spec_len(),
            (y as int) < self.spec_len(),
        ensures
            r == self.spec_allows(x as int, y as int, dir),
    ;

    /// Returns the amount of tile types represented in the TileSet.
    fn len(&self) -> (r: TileType)
        requires
            self.wf(),
        ensures
            r as int == self.spec_len(),
    ;

    /// When deciding the tile type of an undetermined cell, the weights decide
    /// at which rate each tile is drawn. They do not necessarily correspond to
    /// the actual frequency in the result.
    fn probabilty_weight(&self, tile: TileType) -> (r: Probability)
        requires
            self.wf(),
            (tile as int) < self.spec_len(),
        ensures
            r as int == self.spec_weight(tile as int),
    ;
}

/// Represents a way to tile the tiles from the tile set into a tiling.
pub trait Tiler<CS, TS, Dir> where
    CS: CoordinateSystem<Dir>,
    TS: TileSet<Dir>,
    Dir: Directions,
 {
    /// The tiler's tables are sized to its coordinate system and tile set.
    spec fn wf(&self) -> bool;

    /// The running solver's bookkeeping is consistent: queue priorities equal
    /// the cells' disallowed-tile counts, and cells already taken out of the
    /// queue are collapsed to exactly one tile.
    spec fn inv(&self) -> bool;

    /// The number of cells.
    spec fn spec_cells(&self) -> int;

    /// The number of tile types.
    spec fn spec_tiles(&self) -> int;

    /// Whether `tile` is still possible at `cell`.
    spec fn spec_possible(&self, cell: int, tile: int) -> bool;

    /// How many tiles are still possible at `cell`.
    spec fn spec_possible_count(&self, cell: int) -> nat;

    /// Every cell that propagation has finished with for now — taken out of
    /// the selection queue, or left in it at a raised priority — holds no
    /// tile that some direction fails to support.
    spec fn settled(&self) -> bool;

    /// The count is the count: it counts exactly the possible tiles of the cell.
    proof fn lemma_possible_count(&self, cell: int)
        ensures
            self.spec_possible_count(cell) == crate::counting::count_true(
                Seq::new(self.spec_tiles() as nat, |t: int| self.spec_possible(cell, t)),
            ),
    ;

    /// Finishes the tiling process.
    ///
    /// On success every cell has exactly one possible tile left; on failure
    /// some cell has none. Possibility sets only ever shrink. Success also
    /// leaves the store settled — every surviving tile supported in every
    /// direction — except in a one-tile universe, where each cell already
    /// holds its sole possibility and the engine never propagates, so an
    /// incompatible pair can stand.
    fn tile(&mut self) -> (r: Result<(), TilingError>)
        requires
            old(self).wf(),
            old(self).inv(),
            old(self).settled(),
        ensures
            final(self).wf(),
            final(self).spec_cells() == old(self).spec_cells(),
            final(self).spec_tiles() == old(self).spec_tiles(),
            forall|c: int, t: int|
                0 <= c < old(self).spec_cells() && 0 <= t < old(self).spec_tiles()
                    && final(self).spec_possible(c, t) ==> old(self).spec_possible(c, t),
            r is Ok ==> final(self).inv(),
            r is Ok && old(self).spec_tiles() != 1 ==> final(self).settled(),
            r is Ok ==> forall|c: int|
                0 <= c < old(self).spec_cells() ==> #[trigger] final(self).spec_possible_count(c)
                    == 1,
            r is Err ==> r == Err::<(), TilingError>(TilingError::Failed),
            r is Err ==> exists|c: int|
                0 <= c < old(self).spec_cells() && #[trigger] final(self).spec_possible_count(c)
                    == 0,
    ;

    /// Creates a vector with the tiling: per cell, the caller-supplied
    /// `undetermined` sentinel when no tile is possible, the sole possible
    /// tile when exactly one is, and the caller-supplied `impossible`
    /// (ambiguous) sentinel when several still are.
    fn tiling(&self, undetermined: TileType, impossible: TileType) -> (r: Vec<TileType>)
        requires
            self.wf(),
        ensures
            r@.len() == self.spec_cells(),
            forall|c: int|
                #![trigger r@[c]]
                0 <= c < self.spec_cells() && (forall|t: int|
                    0 <= t < self.spec_tiles() ==> !#[trigger] self.spec_possible(c, t)) ==> r@[c]
                    == undetermined,
            forall|c: int, t: int|
                #![trigger r@[c], self.spec_possible(c, t)]
                0 <= c < self.spec_cells() && 0 <= t < self.spec_tiles() && self.spec_possible(c, t)
                    && (forall|t2: int|
                    0 <= t2 < self.spec_tiles() && #[trigger] self.spec_possible(c, t2) ==> t2 == t)
                    ==> r@[c] == t,
            forall|c: int, t1: int, t2: int|
                0 <= c < self.spec_cells() && 0 <= t1 < self.spec_tiles() && 0 <= t2
                    < self.spec_tiles() && t1 != t2 && self.spec_possible(c, t1)
                    && self.spec_possible(c, t2) ==> r@[c] == impossible,
    ;
}

} // verus!
