//! The propagation/selection engine: per-cell possibility tracking, an
//! entropy-ordered selection queue, randomized collapse, and worklist
//! propagation.

use vstd::prelude::*;
use vstd::arithmetic::div_mod::lemma_fundamental_div_mod_converse;
use core::marker::PhantomData;
use crate::tiler::{Tiler, TileSet, CoordinateSystem, Directions, TileType, TilingError};
use crate::bits::{Bits, bits_of, bits_repeat, bits_get, bits_set};
use crate::pqueue::{CellQueue, queue_map, queue_from_range, queue_len, queue_pop,
    queue_set_priority};
use crate::sampling::sample_weighted;
use crate::counting::{count_true, sum_u32, lemma_sum_push, lemma_count_true_constant,
    lemma_count_true_update, lemma_count_true_pos, lemma_count_true_zero, lemma_count_true_one,
    lemma_count_true_pointwise, lemma_count_true_le_len};

verus! {

/// A tiler that keeps, for every cell, the set of tiles still possible there,
/// and collapses cells in order of fewest remaining possibilities.
pub struct TilerPossibilities<CS, TS, Dir> where
    TS: TileSet<Dir>,
    CS: CoordinateSystem<Dir>,
    Dir: Directions,
 {
    pub possible_tiles: Bits,
    pub queue: CellQueue,
    pub coordinate_system: CS,
    pub tile_set: TS,
    pub directions: PhantomData<Dir>,
}

/// A cell/tile pair's slot in the flat possibility store.
proof fn lemma_cell_index(cells: int, tiles: int, c: int, t: int)
    requires
        0 <= c < cells,
        0 <= t < tiles,
    ensures
        0 <= c * tiles + t < cells * tiles,
{
    assert(0 <= c * tiles + t < cells * tiles) by (nonlinear_arith)
        requires
            0 <= c < cells,
            0 <= t < tiles,
    ;
}

/// Distinct cell/tile pairs use distinct slots.
proof fn lemma_cell_index_injective(tiles: int, c1: int, t1: int, c2: int, t2: int)
    requires
        0 <= t1 < tiles,
        0 <= t2 < tiles,
        0 <= c1,
        0 <= c2,
        c1 * tiles + t1 == c2 * tiles + t2,
    ensures
        c1 == c2,
        t1 == t2,
{
    lemma_fundamental_div_mod_converse(c1 * tiles + t1, tiles, c1, t1);
    lemma_fundamental_div_mod_converse(c2 * tiles + t2, tiles, c2, t2);
}

/// The set of cell indices below `n` is finite and has `n` elements.
proof fn lemma_usize_range_set(n: usize)
    ensures
        Set::new(|k: usize| (k as int) < n).finite(),
        Set::new(|k: usize| (k as int) < n).len() == n,
    decreases n,
{
    if n == 0 {
        assert(Set::new(|k: usize| (k as int) < 0) =~= Set::<usize>::empty());
    } else {
        lemma_usize_range_set((n - 1) as usize);
        assert(Set::new(|k: usize| (k as int) < n) =~= Set::new(
            |k: usize| (k as int) < n - 1,
        ).insert((n - 1) as usize));
    }
}

/// Pushing keeps every present element present.
proof fn lemma_seq_push_contains(l: Seq<usize>, x: usize, k: usize)
    requires
        l.contains(k),
    ensures
        l.push(x).contains(k),
{
    let ix = choose|i: int| 0 <= i < l.len() && l[i] == k;
    assert(l.push(x)[ix] == k);
}

/// Dropping the last element keeps every other element present.
proof fn lemma_seq_drop_last_contains(l: Seq<usize>, k: usize)
    requires
        l.len() > 0,
        l.contains(k),
        k != l.last(),
    ensures
        l.drop_last().contains(k),
{
    let ix = choose|i: int| 0 <= i < l.len() && l[i] == k;
    assert(l.drop_last()[ix] == k);
}

impl<CS, TS, Dir> TilerPossibilities<CS, TS, Dir> where
    TS: TileSet<Dir>,
    CS: CoordinateSystem<Dir>,
    Dir: Directions,
 {
    /// Whether `tile` is still possible at `cell`.
    pub open spec fn possible(&self, cell: int, tile: int) -> bool {
        bits_of(self.possible_tiles)[cell * self.tile_set.spec_len() + tile]
    }

    /// One cell's row of possibility flags.
    pub open spec fn row(&self, cell: int) -> Seq<bool> {
        Seq::new(self.tile_set.spec_len() as nat, |t: int| self.possible(cell, t))
    }

    /// How many tiles are still possible at `cell`.
    pub open spec fn possible_count(&self, cell: int) -> nat {
        count_true(self.row(cell))
    }

    /// Whether the cell `q` still has some possible tile that the oracle
    /// allows next to `tile` across direction `dir`.
    pub open spec fn neighbor_supports(&self, q: int, tile: int, dir: Dir) -> bool {
        exists|ty: int|
            0 <= ty < self.tile_set.spec_len() && #[trigger] self.possible(q, ty)
                && self.tile_set.spec_allows(tile, ty, dir)
    }

    /// Whether `tile` at `cell` is supported in direction `dir`: the neighbor
    /// there, if there is one, still has some possible tile that the oracle
    /// allows next to `tile`. A boundary supports everything.
    pub open spec fn supported(&self, cell: int, tile: int, dir: Dir) -> bool {
        match self.coordinate_system.spec_move(cell, dir) {
            None => true,
            Some(q) => self.neighbor_supports(q, tile, dir),
        }
    }

    /// Rows other than `cell`'s decide support at `cell` alone: two states
    /// that agree on them and on the collaborators agree on support.
    proof fn lemma_supported_frame(&self, other: &Self, cell: int, tile: int, dir: Dir)
        requires
            self.wf(),
            self.coordinate_system == other.coordinate_system,
            self.tile_set == other.tile_set,
            0 <= cell < self.spec_cells(),
            forall|c: int|
                0 <= c < self.spec_cells() && c != cell ==> #[trigger] self.row(c) == other.row(c),
        ensures
            self.supported(cell, tile, dir) == other.supported(cell, tile, dir),
    {
        self.coordinate_system.lemma_move_in_range(cell, dir);
        match self.coordinate_system.spec_move(cell, dir) {
            None => {},
            Some(q) => {
                assert(self.row(q) == other.row(q));
                assert forall|ty: int| 0 <= ty < self.tile_set.spec_len() implies (
                #[trigger] self.possible(q, ty)) == other.possible(q, ty) by {
                    assert(self.row(q)[ty] == other.row(q)[ty]);
                }
                if self.supported(cell, tile, dir) {
                    let w = choose|ty: int|
                        0 <= ty < self.tile_set.spec_len() && #[trigger] self.possible(q, ty)
                            && self.tile_set.spec_allows(tile, ty, dir);
                    assert(other.possible(q, w) && other.tile_set.spec_allows(tile, w, dir));
                }
                if other.supported(cell, tile, dir) {
                    let w = choose|ty: int|
                        0 <= ty < other.tile_set.spec_len() && #[trigger] other.possible(q, ty)
                            && other.tile_set.spec_allows(tile, ty, dir);
                    assert(self.possible(q, w) && self.tile_set.spec_allows(tile, w, dir));
                }
            },
        }
    }

    /// Support at `cell` in direction `dir` reads only the row of the cell's
    /// neighbor there: a change confined to any other cell's row cannot move it.
    proof fn lemma_supported_unchanged(
        &self,
        other: &Self,
        cell: int,
        tile: int,
        dir: Dir,
        touched: int,
    )
        requires
            self.wf(),
            self.coordinate_system == other.coordinate_system,
            self.tile_set == other.tile_set,
            0 <= cell < self.spec_cells(),
            forall|c: int|
                0 <= c < self.spec_cells() && c != touched ==> #[trigger] self.row(c) == other.row(
                    c,
                ),
            self.coordinate_system.spec_move(cell, dir) != Some(touched),
        ensures
            self.supported(cell, tile, dir) == other.supported(cell, tile, dir),
    {
        self.coordinate_system.lemma_move_in_range(cell, dir);
        match self.coordinate_system.spec_move(cell, dir) {
            None => {},
            Some(q) => {
                assert(self.row(q) == other.row(q));
                assert forall|ty: int| 0 <= ty < self.tile_set.spec_len() implies (
                #[trigger] self.possible(q, ty)) == other.possible(q, ty) by {
                    assert(self.row(q)[ty] == other.row(q)[ty]);
                }
                if self.supported(cell, tile, dir) {
                    let w = choose|ty: int|
                        0 <= ty < self.tile_set.spec_len() && #[trigger] self.possible(q, ty)
                            && self.tile_set.spec_allows(tile, ty, dir);
                    assert(other.possible(q, w) && other.tile_set.spec_allows(tile, w, dir));
                }
                if other.supported(cell, tile, dir) {
                    let w = choose|ty: int|
                        0 <= ty < other.tile_set.spec_len() && #[trigger] other.possible(q, ty)
                            && other.tile_set.spec_allows(tile, ty, dir);
                    assert(self.possible(q, w) && self.tile_set.spec_allows(tile, w, dir));
                }
            },
        }
    }

    /// Every tile still possible at `cell` is supported in every direction.
    pub open spec fn cell_consistent(&self, cell: int) -> bool {
        forall|t: int, d: Dir|
            0 <= t < self.tile_set.spec_len() && self.possible(cell, t)
                ==> #[trigger] self.supported(cell, t, d)
    }

    /// A collapsed cell is supported toward a neighbor whose remaining tiles
    /// are all themselves supported: by the oracle's symmetry, any one of them
    /// witnesses the support back.
    proof fn lemma_neighbor_supports_back(&self, pos: int, chosen: int, x: int, d: Dir)
        requires
            self.wf(),
            0 <= pos < self.spec_cells(),
            0 <= x < self.spec_cells(),
            0 <= chosen < self.spec_tiles(),
            self.coordinate_system.spec_move(pos, d) == Some(x),
            self.possible_count(x) >= 1,
            forall|t: int, dd: Dir|
                0 <= t < self.spec_tiles() && self.possible(x, t) ==> #[trigger] self.supported(
                    x,
                    t,
                    dd,
                ),
            forall|t: int|
                0 <= t < self.spec_tiles() ==> (#[trigger] self.possible(pos, t) <==> t == chosen),
        ensures
            self.supported(pos, chosen, d),
    {
        self.coordinate_system.lemma_move_symmetric(pos, d);
        d.lemma_direction();
        lemma_count_true_pos(self.row(x));
        let w = choose|i: int| 0 <= i < self.row(x).len() && self.row(x)[i];
        assert(self.possible(x, w));
        assert(self.supported(x, w, d.spec_opposite()));
        let tc = choose|ty: int|
            0 <= ty < self.tile_set.spec_len() && #[trigger] self.possible(pos, ty)
                && self.tile_set.spec_allows(w, ty, d.spec_opposite());
        assert(tc == chosen);
        self.tile_set.lemma_allows_symmetric(w, chosen, d.spec_opposite());
        assert(self.tile_set.spec_allows(chosen, w, d));
        assert(self.neighbor_supports(x, chosen, d));
    }

    /// Two states with the same possibility store, tile set and coordinate
    /// system agree on everything the store decides.
    proof fn lemma_same_bits(&self, other: &Self)
        requires
            self.possible_tiles == other.possible_tiles,
            self.tile_set == other.tile_set,
            self.coordinate_system == other.coordinate_system,
        ensures
            forall|c: int| #[trigger] self.row(c) == other.row(c),
            forall|c: int, t: int| #[trigger] self.possible(c, t) == other.possible(c, t),
            forall|c: int| #[trigger] self.possible_count(c) == other.possible_count(c),
            forall|c: int, t: int, d: Dir|
                #[trigger] self.supported(c, t, d) == other.supported(c, t, d),
            forall|c: int| #[trigger] self.cell_consistent(c) == other.cell_consistent(c),
    {
        assert forall|c: int| #[trigger] self.row(c) == other.row(c) by {
            assert(self.row(c) =~= other.row(c));
        }
            assert forall|c: int, t: int, d: Dir|
            #[trigger] self.supported(c, t, d) == other.supported(c, t, d) by {
            match self.coordinate_system.spec_move(c, d) {
                None => {},
                Some(q) => {
                    if self.supported(c, t, d) {
                        let w = choose|ty: int|
                            0 <= ty < self.tile_set.spec_len() && #[trigger] self.possible(q, ty)
                                && self.tile_set.spec_allows(t, ty, d);
                        assert(other.possible(q, w) && other.tile_set.spec_allows(t, w, d));
                    }
                    if other.supported(c, t, d) {
                        let w = choose|ty: int|
                            0 <= ty < other.tile_set.spec_len() && #[trigger] other.possible(
                                q,
                                ty,
                            ) && other.tile_set.spec_allows(t, ty, d);
                        assert(self.possible(q, w) && self.tile_set.spec_allows(t, w, d));
                    }
                },
            }
        }
        assert forall|c: int| #[trigger] self.cell_consistent(c) == other.cell_consistent(c) by {
            if self.cell_consistent(c) {
                assert forall|t: int, d: Dir|
                    0 <= t < other.tile_set.spec_len() && other.possible(c, t)
                        implies #[trigger] other.supported(c, t, d) by {
                    assert(self.possible(c, t) && self.supported(c, t, d));
                }
            }
            if other.cell_consistent(c) {
                assert forall|t: int, d: Dir|
                    0 <= t < self.tile_set.spec_len() && self.possible(c, t)
                        implies #[trigger] self.supported(c, t, d) by {
                    assert(other.possible(c, t) && other.supported(c, t, d));
                }
            }
        }
    }

    /// Boundary permissiveness: an edge of the coordinate system — no
    /// neighbor in the given direction — never blocks a tile on that
    /// direction's account.
    pub proof fn lemma_boundary_permissive(&self, cell: int, tile: int, dir: Dir)
        requires
            self.coordinate_system.spec_move(cell, dir) is None,
        ensures
            self.supported(cell, tile, dir),
    {
    }

    /// A cell holding exactly one possible tile holds it uniquely.
    pub proof fn lemma_collapsed_cell(&self, cell: int)
        requires
            self.wf(),
            self.possible_count(cell) == 1,
        ensures
            exists|t: int|
                0 <= t < self.tile_set.spec_len() && #[trigger] self.possible(cell, t),
            forall|t1: int, t2: int|
                0 <= t1 < self.tile_set.spec_len() && 0 <= t2 < self.tile_set.spec_len()
                    && self.possible(cell, t1) && self.possible(cell, t2) ==> t1 == t2,
    {
        self.tile_set.lemma_len_bounds();
        lemma_count_true_one(self.row(cell));
        lemma_count_true_le_len(self.row(cell));
        assert(self.row(cell).len() >= 1);
        assert(self.tile_set.spec_len() >= 1);
        let w = choose|i: int| 0 <= i < self.row(cell).len() && self.row(cell)[i];
        assert(self.possible(cell, w));
        assert(0 <= w < self.tile_set.spec_len());
        assert forall|t1: int, t2: int|
            0 <= t1 < self.tile_set.spec_len() && 0 <= t2 < self.tile_set.spec_len()
                && self.possible(cell, t1) && self.possible(cell, t2) implies t1 == t2 by {
            assert(self.row(cell)[t1] && self.row(cell)[t2]);
        }
    }

    /// Output consistency: in a state where every cell has exactly one
    /// possible tile — as `tile` leaves it after success — any extraction
    /// that meets `tiling`'s contract returns that sole tile for every cell;
    /// the ambiguous branch is never taken.
    pub proof fn lemma_output_consistency(&self, out: Seq<TileType>)
        requires
            self.wf(),
            forall|c: int|
                0 <= c < self.spec_cells() ==> #[trigger] self.spec_possible_count(c) == 1,
            out.len() == self.spec_cells(),
            forall|c: int, t: int|
                #![trigger out[c], self.spec_possible(c, t)]
                0 <= c < self.spec_cells() && 0 <= t < self.spec_tiles() && self.spec_possible(
                    c,
                    t,
                ) && (forall|t2: int|
                    0 <= t2 < self.spec_tiles() && #[trigger] self.spec_possible(c, t2) ==> t2
                        == t) ==> out[c] == t,
        ensures
            forall|c: int|
                #![trigger out[c]]
                0 <= c < self.spec_cells() ==> 0 <= out[c] < self.spec_tiles()
                    && self.possible(c, out[c] as int),
    {
        assert forall|c: int|
            #![trigger out[c]]
            0 <= c < self.spec_cells() implies 0 <= out[c] < self.spec_tiles() && self.possible(
            c,
            out[c] as int,
        ) by {
            assert(self.spec_possible_count(c) == 1);
            assert(self.possible_count(c) == 1);
            self.lemma_collapsed_cell(c);
            let w = choose|t: int|
                0 <= t < self.tile_set.spec_len() && #[trigger] self.possible(c, t);
            assert(self.spec_possible(c, w));
            assert forall|t2: int|
                0 <= t2 < self.spec_tiles() && #[trigger] self.spec_possible(c, t2) implies t2
                == w by {
                assert(self.possible(c, t2) && self.possible(c, w));
            }
            assert(out[c] == w);
            assert(0 <= w < self.spec_tiles());
            assert(out[c] < self.spec_tiles());
            assert(out[c] as int == w);
            assert(self.possible(c, out[c] as int));
        }
    }
}

impl<CS, TS, Dir> Tiler<CS, TS, Dir> for TilerPossibilities<CS, TS, Dir> where
    TS: TileSet<Dir>,
    CS: CoordinateSystem<Dir>,
    Dir: Directions,
 {
    open spec fn wf(&self) -> bool {
        &&& self.coordinate_system.wf()
        &&& self.tile_set.wf()
        &&& bits_of(self.possible_tiles).len() == self.coordinate_system.spec_len()
            * self.tile_set.spec_len()
        &&& self.coordinate_system.spec_len() * self.tile_set.spec_len() <= usize::MAX / 8
        &&& 0 <= self.coordinate_system.spec_len() <= usize::MAX / 8
    }

    open spec fn inv(&self) -> bool {
        &&& queue_map(self.queue).dom().finite()
        &&& forall|k: usize|
            #[trigger] queue_map(self.queue).dom().contains(k) ==> (k as int) < self.spec_cells()
                && queue_map(self.queue)[k] as int == self.spec_tiles() - self.possible_count(
                k as int,
            )
        &&& forall|c: int|
            0 <= c < self.spec_cells() && !queue_map(self.queue).dom().contains(c as usize)
                ==> #[trigger] self.possible_count(c) == 1
    }

    open spec fn spec_cells(&self) -> int {
        self.coordinate_system.spec_len()
    }

    open spec fn spec_tiles(&self) -> int {
        self.tile_set.spec_len()
    }

    open spec fn spec_possible(&self, cell: int, tile: int) -> bool {
        self.possible(cell, tile)
    }

    open spec fn spec_possible_count(&self, cell: int) -> nat {
        self.possible_count(cell)
    }

    open spec fn settled(&self) -> bool {
        &&& forall|c: int|
            0 <= c < self.spec_cells() && !queue_map(self.queue).dom().contains(c as usize)
                ==> #[trigger] self.cell_consistent(c)
        &&& forall|k: usize|
            #[trigger] queue_map(self.queue).dom().contains(k) && queue_map(self.queue)[k] >= 1
                ==> self.cell_consistent(k as int)
    }

    proof fn lemma_possible_count(&self, cell: int) {
        assert(Seq::new(self.spec_tiles() as nat, |t: int| self.spec_possible(cell, t)) =~= self.row(
            cell,
        ));
    }

    // Beyond the trait's contract: the collaborators are left untouched, the
    // queue is drained on success, success is owed where no random draw can
    // fail (a fully collapsed space, or a single nonempty cell), and — except
    // in a one-tile universe, whose cells are skipped without propagation —
    // every surviving tile is supported in every direction afterwards.
    #[verifier::rlimit(100)]
    #[verifier::loop_isolation(false)]
    fn tile(&mut self) -> (r: Result<(), TilingError>)
        ensures
            final(self).coordinate_system == old(self).coordinate_system,
            final(self).tile_set == old(self).tile_set,
            r is Ok ==> queue_map(final(self).queue).dom() == Set::<usize>::empty(),
            (forall|c: int|
                0 <= c < old(self).spec_cells() ==> #[trigger] old(self).spec_possible_count(c)
                    == 1) ==> r is Ok,
            old(self).spec_cells() == 1 && old(self).spec_possible_count(0) >= 1 ==> r is Ok,
            r is Ok && old(self).spec_tiles() != 1 ==> (forall|c: int, t: int, d: Dir|
                0 <= c < old(self).spec_cells() && 0 <= t < old(self).spec_tiles()
                    && final(self).possible(c, t) ==> #[trigger] final(self).supported(c, t, d)),
    {
        let ghost self0 = *old(self);
        let cells = self.coordinate_system.len();
        let tiles = self.tile_set.len();
        let dirs_n = Dir::len();
        let n = queue_len(&self.queue);
        proof {
            assert(self0.spec_cells() == 1 ==> n <= 1) by {
                if self0.spec_cells() == 1 {
                    if queue_map(self.queue).dom().contains(0usize) {
                        assert(queue_map(self.queue).dom().remove(0usize) =~= Set::<
                            usize,
                        >::empty());
                    } else {
                        assert(queue_map(self.queue).dom() =~= Set::<usize>::empty());
                    }
                }
            }
        }
        let mut update_queue: Vec<usize> = Vec::new();
        let mut update_queue_contains = bits_repeat(false, cells);
        for it in 0..n
            invariant
                self.wf(),
                self.inv(),
                self.coordinate_system == self0.coordinate_system,
                self.tile_set == self0.tile_set,
                forall|c: int, t: int|
                    0 <= c < self0.spec_cells() && 0 <= t < self0.spec_tiles()
                        && #[trigger] self.possible(c, t) ==> self0.possible(c, t),
                queue_map(self.queue).dom().len() == n - it,
                update_queue@.len() == 0,
                bits_of(update_queue_contains).len() == cells,
                (forall|c: int|
                    0 <= c < self0.spec_cells() ==> #[trigger] self0.spec_possible_count(c) == 1)
                    ==> (forall|c: int, t: int|
                    0 <= c < self0.spec_cells() && 0 <= t < self0.spec_tiles()
                        ==> #[trigger] self.possible(c, t) == self0.possible(c, t)),
                it == 0 ==> (forall|c: int, t: int|
                    0 <= c < self0.spec_cells() && 0 <= t < self0.spec_tiles()
                        ==> #[trigger] self.possible(c, t) == self0.possible(c, t)),
                self0.spec_tiles() != 1 ==> self.settled(),
                forall|i: int|
                    0 <= i < cells && #[trigger] bits_of(update_queue_contains)[i]
                        ==> update_queue@.contains(i as usize),
        {
            let ghost head = *self;
            let popped = queue_pop(&mut self.queue);
            proof {
                if popped is None {
                    assert(Map::<usize, u8>::empty().dom() =~= Set::<usize>::empty());
                    assert(false);
                }
            }
            let (pos, disallowed) = popped.unwrap();
            proof {
                self.lemma_same_bits(&head);
                lemma_count_true_le_len(self.row(pos as int));
                assert(queue_map(head.queue).dom().contains(pos));
                assert((pos as int) < self.spec_cells());
                assert(disallowed as int == self.spec_tiles() - self.possible_count(pos as int));
                assert(queue_map(self.queue).dom() =~= queue_map(head.queue).dom().remove(pos));
                assert(queue_map(self.queue).dom().len() == n - it - 1);
            }
            if disallowed == tiles {
                proof {
                    assert(self.possible_count(pos as int) == 0);
                    assert(self.spec_possible_count(pos as int) == 0);
                    if forall|c: int|
                        0 <= c < self0.spec_cells() ==> #[trigger] self0.spec_possible_count(c)
                            == 1 {
                        assert forall|t: int|
                            0 <= t < self0.spec_tiles() implies self.possible(pos as int, t)
                            == self0.possible(pos as int, t) by {}
                        assert(self.row(pos as int) =~= self0.row(pos as int));
                        assert(self0.spec_possible_count(pos as int) == 1);
                        assert(false);
                    }
                    if self0.spec_cells() == 1 && self0.spec_possible_count(0) >= 1 {
                        assert(it == 0 && pos == 0);
                        assert forall|t: int|
                            0 <= t < self0.spec_tiles() implies self.possible(0, t)
                            == self0.possible(0, t) by {}
                        assert(self.row(0) =~= self0.row(0));
                        assert(false);
                    }
                }
                return Err(TilingError::Failed);
            }
            if disallowed != tiles - 1 {
                proof {
                    assert(!(forall|c: int|
                        0 <= c < self0.spec_cells() ==> #[trigger] self0.spec_possible_count(c)
                            == 1)) by {
                        if forall|c: int|
                            0 <= c < self0.spec_cells() ==> #[trigger] self0.spec_possible_count(
                                c,
                            ) == 1 {
                            assert forall|t: int|
                                0 <= t < self0.spec_tiles() implies self.possible(pos as int, t)
                                == self0.possible(pos as int, t) by {}
                            assert(self.row(pos as int) =~= self0.row(pos as int));
                            assert(self0.spec_possible_count(pos as int) == 1);
                            assert(false);
                        }
                    }
                }
                let ghost pre = *self;
                let mut weights: Vec<u32> = Vec::new();
                for t in 0..tiles
                    invariant
                        weights@.len() == t,
                        forall|j: int|
                            0 <= j < t ==> #[trigger] weights@[j] as int == (if pre.row(pos as int)[j] {
                                self.tile_set.spec_weight(j)
                            } else {
                                0
                            }),
                        sum_u32(weights@) <= (t as int) * (u16::MAX as int),
                        forall|j: int|
                            0 <= j < tiles ==> #[trigger] self.possible(pos as int, j) == (if j < t {
                                false
                            } else {
                                pre.row(pos as int)[j]
                            }),
                        forall|c: int|
                            0 <= c < self0.spec_cells() && c != pos ==> #[trigger] self.row(c)
                                == pre.row(c),
                        self.wf(),
                        self.queue == pre.queue,
                        self.coordinate_system == pre.coordinate_system,
                        self.tile_set == pre.tile_set,
                {
                    let ghost w_pre = weights@;
                    if !self.possible_tile(pos, t) {
                        weights.push(0u32);
                        proof {
                            lemma_sum_push(w_pre, 0u32);
                        }
                    } else {
                        let ghost s0 = *self;
                        self.possible_tile_set(pos, t, false);
                        let w = self.tile_set.probabilty_weight(t);
                        weights.push(w as u32);
                        proof {
                            self.tile_set.lemma_weight_bounds(t as int);
                            lemma_sum_push(w_pre, w as u32);
                            assert forall|j: int|
                                0 <= j < tiles implies #[trigger] self.possible(pos as int, j)
                                == (if j < (t as int) + 1 {
                                false
                            } else {
                                pre.row(pos as int)[j]
                            }) by {
                                if j == t as int {
                                    assert(self.possible(pos as int, j) == self.row(
                                        pos as int,
                                    )[j]);
                                } else {
                                    assert(self.row(pos as int)[j] == s0.row(pos as int)[j]);
                                    assert(s0.possible(pos as int, j) == s0.row(pos as int)[j]);
                                    assert(self.possible(pos as int, j) == self.row(
                                        pos as int,
                                    )[j]);
                                }
                            }
                            assert forall|c: int|
                                0 <= c < self0.spec_cells() && c != pos
                                    implies #[trigger] self.row(c) == pre.row(c) by {
                                assert(self.row(c) == s0.row(c));
                            }
                        }
                    }
                }
                proof {
                    self.tile_set.lemma_len_bounds();
                    assert(pre.possible_count(pos as int) > 0);
                    lemma_count_true_pos(pre.row(pos as int));
                    let j = choose|j: int| 0 <= j < pre.row(pos as int).len() && pre.row(pos as int)[j];
                    self.tile_set.lemma_weight_bounds(j);
                    assert(weights@[j] > 0);
                }
                let chosen = sample_weighted(&weights);
                let ghost blank = *self;
                self.possible_tile_set(pos, chosen as u8, true);
                proof {
                    pre.lemma_same_bits(&head);
                    assert(blank.row(pos as int) =~= Seq::new(tiles as nat, |j: int| false));
                    lemma_count_true_constant(tiles as nat, false);
                    lemma_count_true_update(blank.row(pos as int), chosen as int, true);
                    assert(self.possible_count(pos as int) == 1);
                    assert forall|c: int, t: int|
                        0 <= c < self0.spec_cells() && 0 <= t < self0.spec_tiles()
                            && #[trigger] self.possible(c, t) implies self0.possible(c, t) by {
                        if c == pos as int {
                            assert(self.row(c)[t]);
                            assert(t == chosen as int);
                            assert(pre.possible(c, t));
                            assert(head.possible(c, t));
                        } else {
                            assert(self.row(c) == blank.row(c) && blank.row(c) == pre.row(c));
                            assert(pre.possible(c, t) == self.row(c)[t]);
                            assert(head.possible(c, t) == pre.possible(c, t));
                        }
                    }
                    assert(queue_map(self.queue).dom() =~= queue_map(head.queue).dom().remove(
                        pos,
                    ));
                    assert forall|k: usize|
                        #[trigger] queue_map(self.queue).dom().contains(k) implies (k as int)
                        < self.spec_cells() && queue_map(self.queue)[k] as int == self.spec_tiles()
                        - self.possible_count(k as int) by {
                        assert(queue_map(head.queue).dom().contains(k) && k != pos);
                        assert(queue_map(head.queue)[k] as int == self.spec_tiles()
                            - head.possible_count(k as int));
                        assert(self.row(k as int) == blank.row(k as int) && blank.row(k as int)
                            == pre.row(k as int) && pre.row(k as int) == head.row(k as int));
                    }
                    assert forall|c: int|
                        0 <= c < self.spec_cells() && !queue_map(self.queue).dom().contains(
                            c as usize,
                        ) implies #[trigger] self.possible_count(c) == 1 by {
                        if c != pos as int {
                            assert(!queue_map(head.queue).dom().contains(c as usize));
                            assert(head.possible_count(c) == 1);
                            assert(self.row(c) == blank.row(c) && blank.row(c) == pre.row(c)
                                && pre.row(c) == head.row(c));
                        }
                    }
                    assert forall|t: int|
                        0 <= t < self.spec_tiles() implies (#[trigger] self.possible(pos as int, t)
                        <==> t == chosen as int) by {
                        assert(self.row(pos as int)[t] == self.possible(pos as int, t));
                        assert(blank.row(pos as int)[t] == false);
                    }
                    assert(!queue_map(self.queue).dom().contains(pos));
                    assert forall|k: usize|
                        #[trigger] queue_map(self.queue).dom().contains(k) implies (queue_map(
                        self.queue,
                    )[k] as int) < self.spec_tiles() by {
                        assert(queue_map(head.queue).dom().contains(k));
                        assert(queue_map(head.queue)[k] <= disallowed);
                    }
                    assert forall|cc: int|
                        0 <= cc < self0.spec_cells() && cc != pos as int
                            implies #[trigger] self.row(cc) == head.row(cc) by {
                        assert(self.row(cc) == blank.row(cc) && blank.row(cc) == pre.row(cc)
                            && pre.row(cc) == head.row(cc));
                    }
                    if self0.spec_tiles() != 1 {
                        assert forall|c: int, t: int, dd: Dir|
                            0 <= c < self0.spec_cells() && c != pos as int && 0 <= t
                                < self0.spec_tiles() && (!queue_map(self.queue).dom().contains(
                                c as usize,
                            ) || queue_map(self.queue)[c as usize] >= 1) && self.possible(c, t)
                                implies #[trigger] self.supported(c, t, dd)
                                || (self.coordinate_system.spec_move(c, dd) == Some(pos as int)
                                && 0 <= dd.spec_opposite().spec_id()) by {
                            (dd.spec_opposite()).lemma_direction();
                            if self.coordinate_system.spec_move(c, dd) != Some(pos as int) {
                                assert(head.possible(c, t)) by {
                                    assert(self.row(c)[t] == head.row(c)[t]);
                                }
                                if !queue_map(self.queue).dom().contains(c as usize) {
                                    assert(!queue_map(head.queue).dom().contains(c as usize));
                                } else {
                                    assert(queue_map(head.queue).dom().contains(c as usize)
                                        && queue_map(head.queue)[c as usize] >= 1);
                                }
                                assert(head.cell_consistent(c));
                                assert(head.supported(c, t, dd));
                                self.lemma_supported_unchanged(&head, c, t, dd, pos as int);
                            }
                        }
                    }
                }
                for di in 0..dirs_n
                    invariant
                        forall|ix: int|
                            0 <= ix < update_queue@.len() ==> (#[trigger] update_queue@[ix] as int)
                                < cells,
                        bits_of(update_queue_contains).len() == cells,
                        self0.spec_cells() == 1 ==> update_queue@.len() == 0,
                        forall|i: int|
                            0 <= i < cells && #[trigger] bits_of(update_queue_contains)[i]
                                ==> update_queue@.contains(i as usize),
                        forall|j: int|
                            0 <= j < di ==> match self.coordinate_system.spec_move(
                                pos as int,
                                #[trigger] Dir::spec_nth(j),
                            ) {
                                Some(q) => update_queue@.contains(q as usize),
                                None => true,
                            },
                        self0.spec_tiles() != 1 ==> (forall|c: int, t: int, dd: Dir|
                            0 <= c < self0.spec_cells() && c != pos as int && 0 <= t
                                < self0.spec_tiles() && (!queue_map(self.queue).dom().contains(
                                c as usize,
                            ) || queue_map(self.queue)[c as usize] >= 1) && self.possible(c, t)
                                ==> #[trigger] self.supported(c, t, dd)
                                || update_queue@.contains(c as usize)
                                || (self.coordinate_system.spec_move(c, dd) == Some(pos as int)
                                && di <= dd.spec_opposite().spec_id())),
                {
                    let dir = Dir::direction(di);
                    let moved = self.coordinate_system.move_direction(pos, dir);
                    proof {
                        if self0.spec_tiles() != 1 {
                            assert forall|c: int, t: int, dd: Dir|
                                #![trigger self.supported(c, t, dd)]
                                0 <= c < self0.spec_cells() && c != pos as int && 0 <= t
                                    < self0.spec_tiles() && (!queue_map(
                                    self.queue,
                                ).dom().contains(c as usize) || queue_map(self.queue)[c as usize]
                                    >= 1) && self.possible(c, t) && !self.supported(c, t, dd)
                                    && !update_queue@.contains(c as usize)
                                    && self.coordinate_system.spec_move(c, dd) == Some(pos as int)
                                    && dd.spec_opposite().spec_id() == di implies (
                                match moved {
                                    Some(v) => c == v as int,
                                    None => false,
                                }) by {
                                self.coordinate_system.lemma_move_symmetric(c, dd);
                                (dd.spec_opposite()).lemma_direction();
                                Dir::lemma_nth(di as int);
                                assert(dd.spec_opposite() == dir);
                                assert(self.coordinate_system.spec_move(pos as int, dir) == Some(
                                    c,
                                ));
                            }
                        }
                    }
                    if let Some(to_up) = moved {
                        proof {
                            self.coordinate_system.lemma_move_in_range(pos as int, dir);
                            assert(self0.spec_cells() != 1);
                        }
                        let ghost l0 = update_queue@;
                        if !bits_get(&update_queue_contains, to_up) {
                            update_queue.push(to_up);
                            bits_set(&mut update_queue_contains, to_up, true);
                            proof {
                                assert(update_queue@ == l0.push(to_up));
                                assert(update_queue@[l0.len() as int] == to_up);
                                assert(update_queue@.contains(to_up));
                                assert forall|i: int|
                                    0 <= i < cells && #[trigger] bits_of(update_queue_contains)[i]
                                        implies update_queue@.contains(i as usize) by {
                                    if i != to_up as int {
                                        lemma_seq_push_contains(l0, to_up, i as usize);
                                    }
                                }
                                assert forall|k: usize| l0.contains(k)
                                    implies update_queue@.contains(k) by {
                                    lemma_seq_push_contains(l0, to_up, k);
                                }
                            }
                        } else {
                            proof {
                                assert(update_queue@.contains(to_up));
                            }
                        }
                    }
                }
                proof {
                    if self0.spec_tiles() != 1 {
                        assert forall|d: Dir|
                            match #[trigger] self.coordinate_system.spec_move(pos as int, d) {
                                Some(q) => self.supported(pos as int, chosen as int, d)
                                    || update_queue@.contains(q as usize),
                                None => true,
                            } by {
                            d.lemma_direction();
                            assert(Dir::spec_nth(d.spec_id()) == d);
                        }
                        assert forall|c: int, t: int, dd: Dir|
                            0 <= c < self0.spec_cells() && c != pos as int && 0 <= t
                                < self0.spec_tiles() && (!queue_map(self.queue).dom().contains(
                                c as usize,
                            ) || queue_map(self.queue)[c as usize] >= 1) && self.possible(c, t)
                                implies #[trigger] self.supported(c, t, dd)
                                || update_queue@.contains(c as usize) by {
                            (dd.spec_opposite()).lemma_direction();
                        }
                    }
                }
                while update_queue.len() > 0
                    invariant
                        self.wf(),
                        self.inv(),
                        self.coordinate_system == self0.coordinate_system,
                        self.tile_set == self0.tile_set,
                        forall|c: int, t: int|
                            0 <= c < self0.spec_cells() && 0 <= t < self0.spec_tiles()
                                && #[trigger] self.possible(c, t) ==> self0.possible(c, t),
                        queue_map(self.queue).dom().len() == n - it - 1,
                        forall|ix: int|
                            0 <= ix < update_queue@.len() ==> (#[trigger] update_queue@[ix] as int)
                                < cells,
                        bits_of(update_queue_contains).len() == cells,
                        self0.spec_cells() == 1 ==> update_queue@.len() == 0,
                        forall|i: int|
                            0 <= i < cells && #[trigger] bits_of(update_queue_contains)[i]
                                ==> update_queue@.contains(i as usize),
                        !queue_map(self.queue).dom().contains(pos),
                        forall|k: usize|
                            #[trigger] queue_map(self.queue).dom().contains(k) ==> (queue_map(
                                self.queue,
                            )[k] as int) < self.spec_tiles(),
                        forall|t: int|
                            0 <= t < self.spec_tiles() ==> (#[trigger] self.possible(pos as int, t)
                                <==> t == chosen as int),
                        self.possible_count(pos as int) == 1,
                        self0.spec_tiles() != 1 ==> (forall|d: Dir|
                            match #[trigger] self.coordinate_system.spec_move(pos as int, d) {
                                Some(q) => self.supported(pos as int, chosen as int, d)
                                    || update_queue@.contains(q as usize),
                                None => true,
                            }),
                        self0.spec_tiles() != 1 ==> (forall|c: int, t: int, dd: Dir|
                            0 <= c < self0.spec_cells() && c != pos as int && 0 <= t
                                < self0.spec_tiles() && (!queue_map(self.queue).dom().contains(
                                c as usize,
                            ) || queue_map(self.queue)[c as usize] >= 1) && self.possible(c, t)
                                ==> #[trigger] self.supported(c, t, dd)
                                || update_queue@.contains(c as usize)),
                    decreases count_true(bits_of(self.possible_tiles)), update_queue@.len(),
                {
                    let ghost l0 = update_queue@;
                    let to_update = update_queue.pop().unwrap();
                    bits_set(&mut update_queue_contains, to_update, false);
                    proof {
                        assert(to_update == l0.last() && update_queue@ == l0.drop_last());
                        assert forall|i: int|
                            0 <= i < cells && #[trigger] bits_of(update_queue_contains)[i]
                                implies update_queue@.contains(i as usize) by {
                            lemma_seq_drop_last_contains(l0, i as usize);
                        }
                    }
                    let ghost before_update = *self;
                    let res = self.update(to_update);
                    proof {
                        assert forall|c: int, t: int|
                            0 <= c < self0.spec_cells() && 0 <= t < self0.spec_tiles()
                                && #[trigger] self.possible(c, t) implies self0.possible(c, t) by {
                            if c == to_update as int {
                                assert(self.possible(c, t));
                            } else {
                                assert(self.row(c) == before_update.row(c));
                                assert(before_update.possible(c, t) == self.row(c)[t]);
                            }
                        }
                        if res is Ok {
                            // the collapsed cell's singleton row survives: a change
                            // there would have emptied it instead
                            if to_update == pos && res == Ok::<bool, TilingError>(true) {
                                assert(false);
                            }
                            assert forall|t: int|
                                0 <= t < self.spec_tiles() implies (#[trigger] self.possible(
                                pos as int,
                                t,
                            ) <==> t == chosen as int) by {
                                if to_update != pos {
                                    assert(self.row(pos as int) == before_update.row(pos as int));
                                    assert(before_update.possible(pos as int, t) == self.row(
                                        pos as int,
                                    )[t]);
                                }
                            }
                            assert(self.row(pos as int) == before_update.row(pos as int));
                            if self0.spec_tiles() != 1 {
                                // the re-checked cell is now consistent
                                assert forall|t: int, dd: Dir|
                                    0 <= t < self.spec_tiles() && self.possible(
                                        to_update as int,
                                        t,
                                    ) implies #[trigger] self.supported(to_update as int, t, dd) by {
                                    assert(before_update.supported(to_update as int, t, dd));
                                    self.lemma_supported_frame(
                                        &before_update,
                                        to_update as int,
                                        t,
                                        dd,
                                    );
                                }
                            }
                        }
                    }
                    match res {
                        Ok(true) => {
                            let ghost drained = update_queue@;
                            for di in 0..dirs_n
                                invariant
                                    forall|ix: int|
                                        0 <= ix < update_queue@.len() ==> (
                                        #[trigger] update_queue@[ix] as int) < cells,
                                    bits_of(update_queue_contains).len() == cells,
                                    forall|i: int|
                                        0 <= i < cells && #[trigger] bits_of(
                                            update_queue_contains,
                                        )[i] ==> update_queue@.contains(i as usize),
                                    forall|k: usize|
                                        drained.contains(k) ==> #[trigger] update_queue@.contains(
                                            k,
                                        ),
                                    forall|j: int|
                                        0 <= j < di ==> match self.coordinate_system.spec_move(
                                            to_update as int,
                                            #[trigger] Dir::spec_nth(j),
                                        ) {
                                            Some(q) => update_queue@.contains(q as usize),
                                            None => true,
                                        },
                            {
                                let dir = Dir::direction(di);
                                if let Some(nb) = self.coordinate_system.move_direction(
                                    to_update,
                                    dir,
                                ) {
                                    proof {
                                        self.coordinate_system.lemma_move_in_range(
                                            to_update as int,
                                            dir,
                                        );
                                    }
                                    let ghost lp = update_queue@;
                                    if !bits_get(&update_queue_contains, nb) {
                                        update_queue.push(nb);
                                        bits_set(&mut update_queue_contains, nb, true);
                                        proof {
                                            assert(update_queue@ == lp.push(nb));
                                            assert(update_queue@[lp.len() as int] == nb);
                                            assert(update_queue@.contains(nb));
                                            assert forall|i: int|
                                                0 <= i < cells && #[trigger] bits_of(
                                                    update_queue_contains,
                                                )[i] implies update_queue@.contains(i as usize) by {
                                                if i != nb as int {
                                                    lemma_seq_push_contains(lp, nb, i as usize);
                                                }
                                            }
                                            assert forall|k: usize| lp.contains(k)
                                                implies update_queue@.contains(k) by {
                                                lemma_seq_push_contains(lp, nb, k);
                                            }
                                            assert forall|k: usize| drained.contains(k)
                                                implies update_queue@.contains(k) by {
                                                assert(lp.contains(k));
                                                lemma_seq_push_contains(lp, nb, k);
                                            }
                                        }
                                    } else {
                                        proof {
                                            assert(update_queue@.contains(nb));
                                        }
                                    }
                                }
                            }
                            proof {
                                if self0.spec_tiles() != 1 {
                                    assert forall|c: int, t: int, dd: Dir|
                                        0 <= c < self0.spec_cells() && c != pos as int && 0 <= t
                                            < self0.spec_tiles() && (!queue_map(
                                            self.queue,
                                        ).dom().contains(c as usize) || queue_map(
                                            self.queue,
                                        )[c as usize] >= 1) && self.possible(c, t)
                                            implies #[trigger] self.supported(c, t, dd)
                                            || update_queue@.contains(c as usize) by {
                                        if c == to_update as int {
                                            assert(self.supported(c, t, dd));
                                        } else {
                                            assert(self.row(c) == before_update.row(c));
                                            assert(before_update.possible(c, t) == self.row(
                                                c,
                                            )[t]);
                                            assert(queue_map(before_update.queue).dom().contains(
                                                c as usize,
                                            ) ==> queue_map(self.queue)[c as usize] == queue_map(
                                                before_update.queue,
                                            )[c as usize]);
                                            if before_update.supported(c, t, dd)
                                                || l0.contains(c as usize) {
                                            }
                                            if l0.contains(c as usize) {
                                                lemma_seq_drop_last_contains(l0, c as usize);
                                                assert(update_queue@.contains(c as usize));
                                            } else {
                                                assert(before_update.supported(c, t, dd));
                                                match self.coordinate_system.spec_move(c, dd) {
                                                    None => {
                                                        assert(self.supported(c, t, dd));
                                                    },
                                                    Some(q) => {
                                                        if q == to_update as int {
                                                            self.coordinate_system.lemma_move_symmetric(
                                                                c,
                                                                dd,
                                                            );
                                                            (dd.spec_opposite()).lemma_direction();
                                                            assert(update_queue@.contains(
                                                                c as usize,
                                                            ));
                                                        } else {
                                                            self.lemma_supported_unchanged(
                                                                &before_update,
                                                                c,
                                                                t,
                                                                dd,
                                                                to_update as int,
                                                            );
                                                        }
                                                    },
                                                }
                                            }
                                        }
                                    }
                                    assert forall|d: Dir|
                                        match #[trigger] self.coordinate_system.spec_move(
                                            pos as int,
                                            d,
                                        ) {
                                            Some(q) => self.supported(pos as int, chosen as int, d)
                                                || update_queue@.contains(q as usize),
                                            None => true,
                                        } by {
                                        match self.coordinate_system.spec_move(pos as int, d) {
                                            None => {},
                                            Some(q) => {
                                                self.coordinate_system.lemma_move_in_range(
                                                    pos as int,
                                                    d,
                                                );
                                                if q == to_update as int {
                                                    self.lemma_neighbor_supports_back(
                                                        pos as int,
                                                        chosen as int,
                                                        q,
                                                        d,
                                                    );
                                                } else {
                                                    if l0.contains(q as usize) {
                                                        lemma_seq_drop_last_contains(
                                                            l0,
                                                            q as usize,
                                                        );
                                                        assert(update_queue@.contains(q as usize));
                                                    } else {
                                                        assert(before_update.supported(
                                                            pos as int,
                                                            chosen as int,
                                                            d,
                                                        ));
                                                        self.lemma_supported_unchanged(
                                                            &before_update,
                                                            pos as int,
                                                            chosen as int,
                                                            d,
                                                            to_update as int,
                                                        );
                                                    }
                                                }
                                            },
                                        }
                                    }
                                }
                            }
                        },
                        Ok(false) => {
                            proof {
                                if self0.spec_tiles() != 1 {
                                    assert(*self == before_update);
                                    assert forall|c: int, t: int, dd: Dir|
                                        0 <= c < self0.spec_cells() && c != pos as int && 0 <= t
                                            < self0.spec_tiles() && (!queue_map(
                                            self.queue,
                                        ).dom().contains(c as usize) || queue_map(
                                            self.queue,
                                        )[c as usize] >= 1) && self.possible(c, t)
                                            implies #[trigger] self.supported(c, t, dd)
                                            || update_queue@.contains(c as usize) by {
                                        if c == to_update as int {
                                            assert(self.supported(c, t, dd));
                                        } else {
                                            if before_update.supported(c, t, dd)
                                                || l0.contains(c as usize) {
                                            }
                                            if l0.contains(c as usize) {
                                                lemma_seq_drop_last_contains(l0, c as usize);
                                            } else {
                                                assert(self.supported(c, t, dd));
                                            }
                                        }
                                    }
                                    assert forall|d: Dir|
                                        match #[trigger] self.coordinate_system.spec_move(
                                            pos as int,
                                            d,
                                        ) {
                                            Some(q) => self.supported(pos as int, chosen as int, d)
                                                || update_queue@.contains(q as usize),
                                            None => true,
                                        } by {
                                        match self.coordinate_system.spec_move(pos as int, d) {
                                            None => {},
                                            Some(q) => {
                                                self.coordinate_system.lemma_move_in_range(
                                                    pos as int,
                                                    d,
                                                );
                                                if q == to_update as int {
                                                    if queue_map(self.queue).dom().contains(
                                                        to_update,
                                                    ) {
                                                        assert(self.possible_count(q) >= 1);
                                                    }
                                                    self.lemma_neighbor_supports_back(
                                                        pos as int,
                                                        chosen as int,
                                                        q,
                                                        d,
                                                    );
                                                } else {
                                                    if l0.contains(q as usize) {
                                                        lemma_seq_drop_last_contains(
                                                            l0,
                                                            q as usize,
                                                        );
                                                    } else {
                                                        assert(self.supported(
                                                            pos as int,
                                                            chosen as int,
                                                            d,
                                                        ));
                                                    }
                                                }
                                            },
                                        }
                                    }
                                }
                            }
                        },
                        Err(_) => {
                            proof {
                                assert(self.possible_count(to_update as int) == 0);
                                assert(self.spec_possible_count(to_update as int) == 0);
                            }
                            return Err(TilingError::Failed);
                        },
                    }
                }
                proof {
                    if self0.spec_tiles() != 1 {
                        assert forall|c: int|
                            0 <= c < self.spec_cells() && !queue_map(self.queue).dom().contains(
                                c as usize,
                            ) implies #[trigger] self.cell_consistent(c) by {
                            if c == pos as int {
                                assert forall|t: int, d: Dir|
                                    0 <= t < self.tile_set.spec_len() && self.possible(c, t)
                                        implies #[trigger] self.supported(c, t, d) by {
                                    assert(t == chosen as int);
                                    match self.coordinate_system.spec_move(pos as int, d) {
                                        None => {},
                                        Some(q) => {
                                            assert(!update_queue@.contains(q as usize));
                                        },
                                    }
                                }
                            } else {
                                assert forall|t: int, d: Dir|
                                    0 <= t < self.tile_set.spec_len() && self.possible(c, t)
                                        implies #[trigger] self.supported(c, t, d) by {
                                    assert(!update_queue@.contains(c as usize));
                                }
                            }
                        }
                        assert forall|k: usize|
                            #[trigger] queue_map(self.queue).dom().contains(k) && queue_map(
                                self.queue,
                            )[k] >= 1 implies self.cell_consistent(k as int) by {
                            assert(k != pos);
                            assert forall|t: int, d: Dir|
                                0 <= t < self.tile_set.spec_len() && self.possible(k as int, t)
                                    implies #[trigger] self.supported(k as int, t, d) by {
                                assert(!update_queue@.contains(k));
                            }
                        }
                        assert(self.settled());
                    }
                }
            } else {
                proof {
                    assert(self.possible_count(pos as int) == 1);
                    if self0.spec_tiles() != 1 {
                        assert(queue_map(head.queue)[pos] >= 1);
                        assert(head.cell_consistent(pos as int));
                        assert forall|c: int|
                            0 <= c < self.spec_cells() && !queue_map(self.queue).dom().contains(
                                c as usize,
                            ) implies #[trigger] self.cell_consistent(c) by {
                            if c != pos as int {
                                assert(!queue_map(head.queue).dom().contains(c as usize));
                            }
                            assert(head.cell_consistent(c));
                        }
                        assert forall|k: usize|
                            #[trigger] queue_map(self.queue).dom().contains(k) && queue_map(
                                self.queue,
                            )[k] >= 1 implies self.cell_consistent(k as int) by {
                            assert(queue_map(head.queue).dom().contains(k));
                            assert(head.cell_consistent(k as int));
                        }
                        assert(self.settled());
                    }
                    assert forall|k: usize|
                        #[trigger] queue_map(self.queue).dom().contains(k) implies (k as int)
                        < self.spec_cells() && queue_map(self.queue)[k] as int == self.spec_tiles()
                        - self.possible_count(k as int) by {
                        assert(queue_map(head.queue).dom().contains(k));
                        assert(queue_map(head.queue)[k] as int == self.spec_tiles()
                            - head.possible_count(k as int));
                    }
                    assert forall|c: int|
                        0 <= c < self.spec_cells() && !queue_map(self.queue).dom().contains(
                            c as usize,
                        ) implies #[trigger] self.possible_count(c) == 1 by {
                        if c != pos as int {
                            assert(!queue_map(head.queue).dom().contains(c as usize));
                            assert(head.possible_count(c) == 1);
                        }
                    }
                }
            }
        }
        proof {
            assert forall|k: usize| !(#[trigger] queue_map(self.queue).dom().contains(k)) by {
                if queue_map(self.queue).dom().contains(k) {
                    assert(queue_map(self.queue).dom().remove(k).len() == queue_map(
                        self.queue,
                    ).dom().len() - 1);
                }
            }
            assert(queue_map(self.queue).dom() =~= Set::<usize>::empty());
            assert forall|c: int|
                0 <= c < self0.spec_cells() implies #[trigger] self.possible_count(c) == 1 by {
                assert(!queue_map(self.queue).dom().contains(c as usize));
            }
            if self0.spec_tiles() != 1 {
                assert forall|c: int, t: int, d: Dir|
                    0 <= c < self0.spec_cells() && 0 <= t < self0.spec_tiles() && self.possible(
                        c,
                        t,
                    ) implies #[trigger] self.supported(c, t, d) by {
                    assert(!queue_map(self.queue).dom().contains(c as usize));
                    assert(self.cell_consistent(c));
                }
            }
        }
        Ok(())
    }

    #[verifier::loop_isolation(false)]
    fn tiling(&self, undetermined: TileType, impossible: TileType) -> (r: Vec<TileType>) {
        let cells = self.coordinate_system.len();
        let tiles = self.tile_set.len();
        let mut grid: Vec<TileType> = Vec::new();
        for i in 0..cells
            invariant
                grid@.len() == i,
                forall|c: int|
                    #![trigger grid@[c]]
                    0 <= c < i && (forall|t: int|
                        0 <= t < self.spec_tiles() ==> !#[trigger] self.spec_possible(c, t))
                        ==> grid@[c] == undetermined,
                forall|c: int, t: int|
                    #![trigger grid@[c], self.spec_possible(c, t)]
                    0 <= c < i && 0 <= t < self.spec_tiles() && self.spec_possible(c, t) && (forall|
                        t2: int,
                    |
                        0 <= t2 < self.spec_tiles() && #[trigger] self.spec_possible(c, t2) ==> t2
                            == t) ==> grid@[c] == t,
                forall|c: int, t1: int, t2: int|
                    0 <= c < i && 0 <= t1 < self.spec_tiles() && 0 <= t2 < self.spec_tiles() && t1
                        != t2 && self.spec_possible(c, t1) && self.spec_possible(c, t2)
                        ==> grid@[c] == impossible,
        {
            let mut tile = undetermined;
            let mut found = false;
            let mut multiple = false;
            for pt in 0..tiles
                invariant
                    multiple ==> found,
                    !found ==> tile == undetermined && (forall|j: int|
                        0 <= j < pt ==> !#[trigger] self.spec_possible(i as int, j)),
                    found && !multiple ==> 0 <= (tile as int) < pt && self.spec_possible(
                        i as int,
                        tile as int,
                    ) && (forall|j: int|
                        0 <= j < pt && j != tile ==> !#[trigger] self.spec_possible(i as int, j)),
                    multiple ==> exists|t1: int, t2: int|
                        0 <= t1 < pt && 0 <= t2 < pt && t1 != t2 && #[trigger] self.spec_possible(
                            i as int,
                            t1,
                        ) && #[trigger] self.spec_possible(i as int, t2),
            {
                if self.possible_tile(i, pt) {
                    if !found {
                        found = true;
                        tile = pt;
                    } else {
                        proof {
                            if !multiple {
                                assert(self.spec_possible(i as int, tile as int)
                                    && self.spec_possible(i as int, pt as int));
                            }
                        }
                        multiple = true;
                    }
                }
            }
            if multiple {
                grid.push(impossible);
            } else {
                grid.push(tile);
            }
        }
        grid
    }
}

impl<CS, TS, Dir> TilerPossibilities<CS, TS, Dir> where
    TS: TileSet<Dir>,
    CS: CoordinateSystem<Dir>,
    Dir: Directions,
 {
    /// A fresh run: every tile possible at every cell, every cell queued at
    /// priority 0.
    pub fn new(coordinate_system: CS, tile_set: TS) -> (r: Self)
        requires
            coordinate_system.wf(),
            tile_set.wf(),
            0 <= coordinate_system.spec_len() <= usize::MAX / 8,
            coordinate_system.spec_len() * tile_set.spec_len() <= usize::MAX / 8,
        ensures
            r.wf(),
            r.inv(),
            r.coordinate_system == coordinate_system,
            r.tile_set == tile_set,
            forall|c: int, t: int|
                0 <= c < r.spec_cells() && 0 <= t < r.spec_tiles() ==> #[trigger] r.possible(c, t),
            queue_map(r.queue).dom().len() == r.spec_cells(),
            r.settled(),
    {
        let cells = coordinate_system.len();
        let tiles = tile_set.len();
        proof {
            assert(cells * (tiles as usize) == coordinate_system.spec_len()
                * tile_set.spec_len());
        }
        let possible_tiles = bits_repeat(true, cells * (tiles as usize));
        let queue = queue_from_range(cells);
        let r = TilerPossibilities {
            possible_tiles,
            queue,
            coordinate_system,
            tile_set,
            directions: PhantomData,
        };
        proof {
            lemma_usize_range_set(cells);
            assert(queue_map(r.queue).dom() =~= Set::new(|k: usize| (k as int) < cells));
            assert forall|c: int, t: int|
                0 <= c < r.spec_cells() && 0 <= t < r.spec_tiles() implies #[trigger] r.possible(
                c,
                t,
            ) by {
                lemma_cell_index(r.spec_cells(), r.spec_tiles(), c, t);
            }
            assert forall|c: int| 0 <= c < r.spec_cells() implies r.possible_count(c)
                == r.spec_tiles() by {
                assert(r.row(c) =~= Seq::new(r.spec_tiles() as nat, |t: int| true));
                lemma_count_true_constant(r.spec_tiles() as nat, true);
            }
        }
        r
    }

    /// Whether `tile` is still possible at `pos`.
    pub fn possible_tile(&self, pos: usize, tile: TileType) -> (r: bool)
        requires
            self.wf(),
            (pos as int) < self.spec_cells(),
            (tile as int) < self.spec_tiles(),
        ensures
            r == self.possible(pos as int, tile as int),
    {
        let tiles = self.tile_set.len();
        proof {
            lemma_cell_index(self.spec_cells(), self.spec_tiles(), pos as int, tile as int);
        }
        bits_get(&self.possible_tiles, pos * (tiles as usize) + tile as usize)
    }

    /// Marks `tile` possible or impossible at `pos`. Only that flag moves:
    /// every other cell's row stays as it was.
    pub fn possible_tile_set(&mut self, pos: usize, tile: TileType, value: bool)
        requires
            old(self).wf(),
            (pos as int) < old(self).spec_cells(),
            (tile as int) < old(self).spec_tiles(),
        ensures
            final(self).wf(),
            final(self).coordinate_system == old(self).coordinate_system,
            final(self).tile_set == old(self).tile_set,
            final(self).queue == old(self).queue,
            final(self).possible(pos as int, tile as int) == value,
            final(self).row(pos as int) == old(self).row(pos as int).update(tile as int, value),
            forall|c: int|
                0 <= c < old(self).spec_cells() && c != pos ==> #[trigger] final(self).row(c)
                    == old(self).row(c),
            bits_of(final(self).possible_tiles) == bits_of(old(self).possible_tiles).update(
                (pos as int) * old(self).spec_tiles() + tile as int,
                value,
            ),
    {
        let tiles = self.tile_set.len();
        proof {
            lemma_cell_index(self.spec_cells(), self.spec_tiles(), pos as int, tile as int);
            assert((tiles as usize) * pos + tile as usize == (pos as int) * (tiles as int)
                + tile as int) by (nonlinear_arith);
        }
        bits_set(&mut self.possible_tiles, (tiles as usize) * pos + tile as usize, value);
        proof {
            let pi = pos as int;
            let ti = tile as int;
            let n = old(self).spec_tiles();
            assert forall|c: int|
                0 <= c < old(self).spec_cells() && c != pi implies #[trigger] self.row(c) == old(
                self,
            ).row(c) by {
                assert forall|t: int| 0 <= t < n implies self.possible(c, t) == old(self).possible(
                    c,
                    t,
                ) by {
                    lemma_cell_index(old(self).spec_cells(), n, c, t);
                    if c * n + t == pi * n + ti {
                        lemma_cell_index_injective(n, c, t, pi, ti);
                    }
                }
                assert(self.row(c) =~= old(self).row(c));
            }
            assert forall|t: int| 0 <= t < n implies self.possible(pi, t) == old(self).row(pi).update(
                ti,
                value,
            )[t] by {
                lemma_cell_index(old(self).spec_cells(), n, pi, t);
                if t != ti {
                    if pi * n + t == pi * n + ti {
                        lemma_cell_index_injective(n, pi, t, pi, ti);
                    }
                }
            }
            assert(self.row(pi) =~= old(self).row(pi).update(ti, value));
            assert(self.possible(pi, ti) == self.row(pi)[ti]);
        }
    }

    /// Whether `tile_x` at `pos_x` is compatible with the cell in direction
    /// `dir`: true outright at a boundary (an edge never blocks a tile), else
    /// true when the neighbor still has some possible tile the oracle allows.
    pub fn allowed_tile(&self, pos_x: usize, tile_x: TileType, dir: Dir) -> (r: bool)
        requires
            self.wf(),
            (pos_x as int) < self.spec_cells(),
            (tile_x as int) < self.spec_tiles(),
        ensures
            r == self.supported(pos_x as int, tile_x as int, dir),
    {
        let pos_y = match self.coordinate_system.move_direction(pos_x, dir) {
            Some(val) => val,
            None => {
                return true;
            },
        };
        proof {
            self.coordinate_system.lemma_move_in_range(pos_x as int, dir);
        }
        let tiles = self.tile_set.len();
        for ty in 0..tiles
            invariant
                forall|j: int|
                    0 <= j < ty ==> !(#[trigger] self.possible(pos_y as int, j)
                        && self.tile_set.spec_allows(tile_x as int, j, dir)),
                self.coordinate_system.spec_move(pos_x as int, dir) == Some(pos_y as int),
                0 <= (pos_y as int) < self.spec_cells(),
                self.wf(),
                (pos_x as int) < self.spec_cells(),
                (tile_x as int) < self.spec_tiles(),
                tiles as int == self.spec_tiles(),
        {
            if self.possible_tile(pos_y, ty) && self.tile_set.allows(tile_x, ty, dir) {
                proof {
                    assert(self.possible(pos_y as int, ty as int) && self.tile_set.spec_allows(
                        tile_x as int,
                        ty as int,
                        dir,
                    ));
                    assert(self.coordinate_system.spec_move(pos_x as int, dir) == Some(
                        pos_y as int,
                    ));
                    assert(self.neighbor_supports(pos_y as int, tile_x as int, dir));
                    assert(self.supported(pos_x as int, tile_x as int, dir));
                }
                return true;
            }
        }
        false
    }

    /// Recomputes feasibility at `pos`: every tile still possible there but no
    /// longer supported in some direction is eliminated. Returns `Ok(true)`
    /// when something was eliminated (the cell's queue priority is then raised
    /// to its new disallowed count — it never drops), `Ok(false)` when nothing
    /// changed at all, and `Err(Failed)` when the cell's last possibility
    /// fell. Possibility sets only shrink, and only this cell's row moves.
    #[verifier::loop_isolation(false)]
    pub fn update(&mut self, pos: usize) -> (r: Result<bool, TilingError>)
        requires
            old(self).wf(),
            old(self).inv(),
            (pos as int) < old(self).spec_cells(),
        ensures
            final(self).wf(),
            final(self).coordinate_system == old(self).coordinate_system,
            final(self).tile_set == old(self).tile_set,
            forall|c: int|
                0 <= c < old(self).spec_cells() && c != pos ==> #[trigger] final(self).row(c)
                    == old(self).row(c),
            forall|t: int|
                0 <= t < old(self).spec_tiles() && #[trigger] final(self).possible(pos as int, t)
                    ==> old(self).possible(pos as int, t),
            queue_map(final(self).queue).dom() == queue_map(old(self).queue).dom(),
            forall|k: usize|
                #[trigger] queue_map(old(self).queue).dom().contains(k) && k != pos ==> queue_map(
                    final(self).queue,
                )[k] == queue_map(old(self).queue)[k],
            queue_map(old(self).queue).dom().contains(pos) ==> queue_map(old(self).queue)[pos]
                <= queue_map(final(self).queue)[pos],
            !queue_map(old(self).queue).dom().contains(pos) ==> queue_map(final(self).queue)
                == queue_map(old(self).queue),
            r is Ok ==> final(self).inv(),
            r is Ok ==> forall|t: int|
                0 <= t < old(self).spec_tiles() ==> #[trigger] final(self).possible(pos as int, t)
                    == (old(self).possible(pos as int, t) && (forall|d: Dir|
                    old(self).supported(pos as int, t, d))),
            r == Ok::<bool, TilingError>(false) ==> *final(self) == *old(self),
            r == Ok::<bool, TilingError>(true) ==> count_true(bits_of(final(self).possible_tiles))
                < count_true(bits_of(old(self).possible_tiles)),
            r == Ok::<bool, TilingError>(true) ==> final(self).possible_count(pos as int) >= 1,
            r is Err ==> r == Err::<bool, TilingError>(TilingError::Failed)
                && final(self).possible_count(pos as int) == 0,
            r is Err ==> queue_map(final(self).queue) == queue_map(old(self).queue),
            r is Err <==> old(self).possible_count(pos as int) > 0 && (forall|t: int|
                0 <= t < old(self).spec_tiles() && #[trigger] old(self).possible(pos as int, t)
                    ==> !(forall|d: Dir| old(self).supported(pos as int, t, d))),
            r == Ok::<bool, TilingError>(false) <==> (forall|t: int|
                0 <= t < old(self).spec_tiles() && #[trigger] old(self).possible(pos as int, t)
                    ==> (forall|d: Dir| old(self).supported(pos as int, t, d))),
    {
        let mut changed = false;
        let mut disallowed: u8 = 0;
        let tiles = self.tile_set.len();
        let pi: Ghost<int> = Ghost(pos as int);
        for tile in 0..tiles
            invariant
                self.wf(),
                self.coordinate_system == old(self).coordinate_system,
                self.tile_set == old(self).tile_set,
                self.queue == old(self).queue,
                forall|c: int|
                    0 <= c < old(self).spec_cells() && c != pos ==> #[trigger] self.row(c) == old(
                        self,
                    ).row(c),
                forall|t: int|
                    0 <= t < tile ==> #[trigger] self.possible(pi@, t) == (old(self).possible(
                        pi@,
                        t,
                    ) && (forall|d: Dir| old(self).supported(pi@, t, d))),
                forall|t: int|
                    tile <= t < tiles ==> #[trigger] self.possible(pi@, t) == old(self).possible(
                        pi@,
                        t,
                    ),
                disallowed as int == tile - count_true(self.row(pi@).take(tile as int)),
                changed == exists|t: int|
                    0 <= t < tile && #[trigger] old(self).possible(pi@, t) && !self.possible(
                        pi@,
                        t,
                    ),
                !changed ==> self.possible_tiles == old(self).possible_tiles,
                changed ==> count_true(bits_of(self.possible_tiles)) < count_true(
                    bits_of(old(self).possible_tiles),
                ),
        {
            proof {
                assert(self.row(pi@).take(tile as int + 1).drop_last() =~= self.row(pi@).take(
                    tile as int,
                ));
                lemma_count_true_le_len(self.row(pi@).take(tile as int));
            }
            if !self.possible_tile(pos, tile) {
                disallowed += 1;
            } else {
                if !self.tile_supported(pos, tile) {
                    let ghost pre = *self;
                    self.possible_tile_set(pos, tile, false);
                    disallowed += 1;
                    changed = true;
                    proof {
                        lemma_cell_index(self.spec_cells(), self.spec_tiles(), pi@, tile as int);
                        lemma_count_true_update(
                            bits_of(pre.possible_tiles),
                            pi@ * self.spec_tiles() + tile as int,
                            false,
                        );
                        lemma_count_true_le_len(bits_of(self.possible_tiles));
                        assert(count_true(bits_of(self.possible_tiles)) < count_true(
                            bits_of(pre.possible_tiles),
                        ));
                        assert(self.row(pi@).take(tile as int) =~= pre.row(pi@).take(tile as int));
                        assert(self.row(pi@).take(tile as int + 1).drop_last() =~= self.row(
                            pi@,
                        ).take(tile as int));
                        assert forall|t2: int| 0 <= t2 < (tiles as int) && t2 != tile as int implies self.possible(
                            pi@,
                            t2,
                        ) == pre.possible(pi@, t2) by {
                            assert(self.row(pi@)[t2] == pre.row(pi@)[t2]);
                        }
                        // support is decided by the other rows, which have not moved
                        assert forall|d: Dir| pre.supported(pi@, tile as int, d) == old(
                            self,
                        ).supported(pi@, tile as int, d) by {
                            pre.lemma_supported_frame(old(self), pi@, tile as int, d);
                        }
                        assert forall|t2: int|
                            0 <= t2 < (tile as int) + 1 implies #[trigger] self.possible(pi@, t2)
                            == (old(self).possible(pi@, t2) && (forall|d: Dir|
                            old(self).supported(pi@, t2, d))) by {
                            if t2 == tile as int {
                                assert(!self.possible(pi@, t2));
                                assert(!(forall|d: Dir| pre.supported(pi@, t2, d)));
                            } else {
                                assert(self.possible(pi@, t2) == pre.possible(pi@, t2));
                            }
                        }
                        assert forall|t2: int|
                            (tile as int) + 1 <= t2 < (tiles as int)
                                implies #[trigger] self.possible(pi@, t2) == old(self).possible(
                                pi@,
                                t2,
                            ) by {
                            assert(self.possible(pi@, t2) == pre.possible(pi@, t2));
                        }
                    }
                } else {
                    proof {
                        assert forall|d: Dir| old(self).supported(pi@, tile as int, d) by {
                            self.lemma_supported_frame(old(self), pi@, tile as int, d);
                        }
                    }
                }
            }
        }
        proof {
            assert(self.row(pi@).take(tiles as int) =~= self.row(pi@));
        }
        if !changed {
            proof {
                assert(*self == *old(self));
                assert forall|t: int|
                    0 <= t < old(self).spec_tiles() && #[trigger] old(self).possible(pi@, t)
                        implies (forall|d: Dir| old(self).supported(pi@, t, d)) by {
                    assert(self.possible(pi@, t));
                }
                if old(self).possible_count(pi@) > 0 {
                    lemma_count_true_pos(old(self).row(pi@));
                    let w = choose|i: int|
                        0 <= i < old(self).row(pi@).len() && old(self).row(pi@)[i];
                    assert(old(self).possible(pi@, w));
                    assert(forall|d: Dir| old(self).supported(pi@, w, d));
                }
            }
            return Ok(false);
        }
        if disallowed == tiles {
            proof {
                lemma_count_true_le_len(self.row(pi@));
                lemma_count_true_zero(self.row(pi@));
                assert forall|t: int|
                    0 <= t < old(self).spec_tiles() && #[trigger] old(self).possible(pi@, t)
                        implies !(forall|d: Dir| old(self).supported(pi@, t, d)) by {
                    assert(self.row(pi@)[t] == self.possible(pi@, t));
                    assert(!self.row(pi@)[t]);
                }
                let w = choose|t: int|
                    0 <= t < tiles && #[trigger] old(self).possible(pi@, t) && !self.possible(
                        pi@,
                        t,
                    );
                assert(old(self).row(pi@)[w]);
                if old(self).possible_count(pi@) == 0 {
                    lemma_count_true_zero(old(self).row(pi@));
                    assert(false);
                }
            }
            return Err(TilingError::Failed);
        }
        proof {
            assert forall|i: int|
                0 <= i < self.row(pi@).len() && self.row(pi@)[i] implies old(self).row(pi@)[i] by {
                assert(self.possible(pi@, i));
            }
            let wt = choose|t: int|
                0 <= t < tiles && #[trigger] old(self).possible(pi@, t) && !self.possible(pi@, t);
            assert(old(self).row(pi@)[wt] && !self.row(pi@)[wt]);
            lemma_count_true_pointwise(self.row(pi@), old(self).row(pi@));
            if !queue_map(self.queue).dom().contains(pos) {
                assert(old(self).possible_count(pi@) == 1);
                assert(self.possible_count(pi@) < 1);
                assert(false);
            }
        }
        let ghost mid = *self;
        let res = queue_set_priority(&mut self.queue, pos, disallowed);
        proof {
            self.lemma_same_bits(&mid);
            assert(queue_map(self.queue).dom() =~= queue_map(old(self).queue).dom());
            assert(self.possible_count(pi@) == mid.possible_count(pi@));
            assert(disallowed as int == self.spec_tiles() - self.possible_count(pi@));
            assert forall|k: usize|
                #[trigger] queue_map(self.queue).dom().contains(k) implies (k as int)
                < self.spec_cells() && queue_map(self.queue)[k] as int == self.spec_tiles()
                - self.possible_count(k as int) by {
                if k != pos {
                    assert(queue_map(self.queue)[k] == queue_map(old(self).queue)[k]);
                    assert(queue_map(old(self).queue)[k] as int == old(self).spec_tiles() - old(
                        self,
                    ).possible_count(k as int));
                    assert(self.row(k as int) == mid.row(k as int) && mid.row(k as int) == old(
                        self,
                    ).row(k as int));
                }
            }
            assert forall|c: int|
                0 <= c < self.spec_cells() && !queue_map(self.queue).dom().contains(c as usize)
                    implies #[trigger] self.possible_count(c) == 1 by {
                if c != pos as int {
                    assert(!queue_map(old(self).queue).dom().contains(c as usize));
                    assert(old(self).possible_count(c) == 1);
                    assert(self.row(c) == mid.row(c) && mid.row(c) == old(self).row(c));
                }
            }
            assert forall|c: int|
                0 <= c < old(self).spec_cells() && c != pos implies #[trigger] self.row(c) == old(
                self,
            ).row(c) by {
                assert(self.row(c) == mid.row(c));
            }
            assert forall|t: int|
                0 <= t < old(self).spec_tiles() implies #[trigger] self.possible(pi@, t) == (old(
                self,
            ).possible(pi@, t) && (forall|d: Dir| old(self).supported(pi@, t, d))) by {
                assert(self.possible(pi@, t) == mid.possible(pi@, t));
            }
            assert(count_true(bits_of(self.possible_tiles)) < count_true(
                bits_of(old(self).possible_tiles),
            ));
            // neither iff's right-hand side holds: something survived and
            // something was eliminated
            lemma_count_true_pos(mid.row(pi@));
            let w2 = choose|i: int| 0 <= i < mid.row(pi@).len() && mid.row(pi@)[i];
            assert(mid.possible(pi@, w2));
            assert(old(self).possible(pi@, w2) && (forall|d: Dir|
                old(self).supported(pi@, w2, d)));
            let w3 = choose|t: int|
                0 <= t < tiles && #[trigger] old(self).possible(pi@, t) && !mid.possible(pi@, t);
            assert(old(self).possible(pi@, w3) && !(forall|d: Dir|
                old(self).supported(pi@, w3, d)));
        }
        Ok(true)
    }

    /// Whether `tile` at `pos` is supported in every direction.
    fn tile_supported(&self, pos: usize, tile: TileType) -> (r: bool)
        requires
            self.wf(),
            (pos as int) < self.spec_cells(),
            (tile as int) < self.spec_tiles(),
        ensures
            r == (forall|d: Dir| self.supported(pos as int, tile as int, d)),
    {
        let dirs_n = Dir::len();
        for di in 0..dirs_n
            invariant
                forall|j: int|
                    0 <= j < di ==> #[trigger] self.supported(
                        pos as int,
                        tile as int,
                        Dir::spec_nth(j),
                    ),
                self.wf(),
                (pos as int) < self.spec_cells(),
                (tile as int) < self.spec_tiles(),
                dirs_n as int == Dir::spec_count(),
        {
            let dir = Dir::direction(di);
            if !self.allowed_tile(pos, tile, dir) {
                assert(!self.supported(pos as int, tile as int, dir));
                return false;
            }
        }
        proof {
            assert forall|d: Dir| self.supported(pos as int, tile as int, d) by {
                d.lemma_direction();
                assert(self.supported(pos as int, tile as int, Dir::spec_nth(d.spec_id())));
            }
        }
        true
    }
}

} // verus!
