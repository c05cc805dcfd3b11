//! The two tile compatibility oracles: a dense bit table canonicalized over
//! opposite direction pairs, and a per-tile per-direction key scheme.

use vstd::prelude::*;
use vstd::arithmetic::div_mod::lemma_fundamental_div_mod_converse;
use core::marker::PhantomData;
use crate::tiler::{TileSet, Directions, TileType, Probability, opposites_half_turn};
use crate::bits::{Bits, bits_of, bits_repeat, bits_get, bits_set};

verus! {

/// In a catalog laid out for the dense table, a direction's id and its
/// opposite's id differ by half the count, so exactly one of the two sits in
/// the lower half.
proof fn lemma_dir_ids<Dir: Directions>(d: Dir)
    requires
        Dir::spec_count() >= 2,
        Dir::spec_count() % 2 == 0,
        opposites_half_turn::<Dir>(),
    ensures
        0 <= d.spec_id() < Dir::spec_count(),
        d.spec_opposite().spec_opposite() == d,
        d.spec_id() != d.spec_opposite().spec_id(),
        d.spec_id() < Dir::spec_count() / 2 ==> d.spec_opposite().spec_id() == d.spec_id()
            + Dir::spec_count() / 2,
        d.spec_id() >= Dir::spec_count() / 2 ==> d.spec_opposite().spec_id() == d.spec_id()
            - Dir::spec_count() / 2,
{
    d.lemma_direction();
    assert(Dir::spec_count() / 2 >= 1);
    assert(d.spec_opposite().spec_id() == if d.spec_id() < Dir::spec_count() / 2 {
        d.spec_id() + Dir::spec_count() / 2
    } else {
        d.spec_id() - Dir::spec_count() / 2
    });
}

/// A dense adjacency table: one bit per unordered tile pair per direction
/// class, with `(x, y, dir)` and `(y, x, opposite(dir))` canonicalized onto
/// the same bit, so the oracle's symmetry holds structurally.
pub struct TileSetBits<Dir> where Dir: Directions {
    pub rules: Bits,
    pub len: TileType,
    pub probability_weights: Vec<Probability>,
    pub directions: PhantomData<Dir>,
}

impl<Dir> TileSetBits<Dir> where Dir: Directions {
    /// Where the rule bit for `(x, y, dir)` sits: the pair is flipped onto the
    /// direction of the lower id, so opposite queries share one bit.
    pub open spec fn spec_rule_index(&self, x: int, y: int, dir: Dir) -> int {
        let h = Dir::spec_count() / 2;
        if dir.spec_id() > dir.spec_opposite().spec_id() {
            (y * (self.len as int) + x) * h + dir.spec_opposite().spec_id()
        } else {
            (x * (self.len as int) + y) * h + dir.spec_id()
        }
    }

    /// The canonical rule index is in range and shared with the flipped query.
    proof fn lemma_rule_index(&self, x: int, y: int, dir: Dir)
        requires
            self.wf(),
            0 <= x < self.spec_len(),
            0 <= y < self.spec_len(),
        ensures
            0 <= self.spec_rule_index(x, y, dir) < bits_of(self.rules).len(),
            self.spec_rule_index(x, y, dir) == self.spec_rule_index(y, x, dir.spec_opposite()),
    {
        lemma_dir_ids(dir);
        lemma_dir_ids(dir.spec_opposite());
        let l = self.len as int;
        let h = Dir::spec_count() / 2;
        let cid = if dir.spec_id() > dir.spec_opposite().spec_id() {
            dir.spec_opposite().spec_id()
        } else {
            dir.spec_id()
        };
        let a = if dir.spec_id() > dir.spec_opposite().spec_id() {
            y
        } else {
            x
        };
        let b = if dir.spec_id() > dir.spec_opposite().spec_id() {
            x
        } else {
            y
        };
        assert(0 <= cid < h);
        assert(0 <= (a * l + b) * h + cid < l * l * h) by (nonlinear_arith)
            requires
                0 <= a < l,
                0 <= b < l,
                0 <= cid < h,
                1 <= h,
    }

    /// Two queries share a rule bit only when one is the flip of the other.
    proof fn lemma_rule_index_injective(&self, x: int, y: int, dir: Dir, a: int, b: int, e: Dir)
        requires
            self.wf(),
            0 <= x < self.spec_len(),
            0 <= y < self.spec_len(),
            0 <= a < self.spec_len(),
            0 <= b < self.spec_len(),
            self.spec_rule_index(a, b, e) == self.spec_rule_index(x, y, dir),
        ensures
            (a == x && b == y && e == dir) || (a == y && b == x && e == dir.spec_opposite()),
    {
        lemma_dir_ids(dir);
        lemma_dir_ids(dir.spec_opposite());
        lemma_dir_ids(e);
        lemma_dir_ids(e.spec_opposite());
        let l = self.len as int;
        let h = Dir::spec_count() / 2;
        let cid_d = if dir.spec_id() > dir.spec_opposite().spec_id() {
            dir.spec_opposite().spec_id()
        } else {
            dir.spec_id()
        };
        let pair_d = if dir.spec_id() > dir.spec_opposite().spec_id() {
            y * l + x
        } else {
            x * l + y
        };
        let cid_e = if e.spec_id() > e.spec_opposite().spec_id() {
            e.spec_opposite().spec_id()
        } else {
            e.spec_id()
        };
        let pair_e = if e.spec_id() > e.spec_opposite().spec_id() {
            b * l + a
        } else {
            a * l + b
        };
        assert(pair_e * h + cid_e == pair_d * h + cid_d);
        assert(0 <= cid_d < h && 0 <= cid_e < h);
        lemma_fundamental_div_mod_converse(pair_d * h + cid_d, h, pair_d, cid_d);
        lemma_fundamental_div_mod_converse(pair_e * h + cid_e, h, pair_e, cid_e);
        assert(pair_d == pair_e && cid_d == cid_e);
        lemma_fundamental_div_mod_converse(y * l + x, l, y, x);
        lemma_fundamental_div_mod_converse(x * l + y, l, x, y);
        lemma_fundamental_div_mod_converse(b * l + a, l, b, a);
        lemma_fundamental_div_mod_converse(a * l + b, l, a, b);
        // the canonical direction is recovered from the shared id
        let cd = if dir.spec_id() > dir.spec_opposite().spec_id() {
            dir.spec_opposite()
        } else {
            dir
        };
        let ce = if e.spec_id() > e.spec_opposite().spec_id() {
            e.spec_opposite()
        } else {
            e
        };
        assert(cd.spec_id() == cid_d && ce.spec_id() == cid_e);
        cd.lemma_direction();
        ce.lemma_direction();
        assert(cd == ce);
    }
}

impl<Dir> TileSet<Dir> for TileSetBits<Dir> where Dir: Directions {
    open spec fn wf(&self) -> bool {
        &&& Dir::spec_count() >= 2
        &&& Dir::spec_count() % 2 == 0
        &&& opposites_half_turn::<Dir>()
        &&& bits_of(self.rules).len() == (self.len as int) * (self.len as int) * (
        Dir::spec_count() / 2)
        &&& bits_of(self.rules).len() <= usize::MAX
        &&& self.probability_weights@.len() == self.len as int
        &&& forall|i: int|
            0 <= i < self.probability_weights@.len() ==> #[trigger] self.probability_weights@[i]
                >= 1
    }

    open spec fn spec_len(&self) -> int {
        self.len as int
    }

    open spec fn spec_allows(&self, x: int, y: int, dir: Dir) -> bool {
        bits_of(self.rules)[self.spec_rule_index(x, y, dir)]
    }

    open spec fn spec_weight(&self, tile: int) -> int {
        self.probability_weights@[tile] as int
    }

    proof fn lemma_allows_symmetric(&self, x: int, y: int, dir: Dir) {
        self.lemma_rule_index(x, y, dir);
    }

    proof fn lemma_weight_bounds(&self, tile: int) {
    }

    proof fn lemma_len_bounds(&self) {
    }

    fn allows(&self, x: TileType, y: TileType, dir: Dir) -> (r: bool) {
        let mut cx = x;
        let mut cy = y;
        let mut cid = dir.id();
        let opp_id = dir.opposite().id();
        if cid > opp_id {
            let t = cx;
            cx = cy;
            cy = t;
            cid = opp_id;
        }
        let half = Dir::len() / 2;
        let l = self.len as usize;
        proof {
            self.lemma_rule_index(x as int, y as int, dir);
            lemma_dir_ids(dir);
            assert((cx as int) * (l as int) + (cy as int) < (l as int) * (l as int))
                by (nonlinear_arith)
                requires
                    0 <= (cx as int) < (l as int),
                    0 <= (cy as int) < (l as int),
            ;
            assert(((cx as int) * (l as int) + (cy as int)) * (half as int) + (cid as int) < (
            l as int) * (l as int) * (half as int)) by (nonlinear_arith)
                requires
                    0 <= (cx as int) * (l as int) + (cy as int) < (l as int) * (l as int),
                    0 <= (cid as int) < (half as int),
            ;
            assert((l as int) * (l as int) <= (l as int) * (l as int) * (half as int))
                by (nonlinear_arith)
                requires
                    1 <= (half as int),
                    0 <= (l as int),
            ;
        }
        let idx = ((cx as usize) * l + (cy as usize)) * half + cid;
        bits_get(&self.rules, idx)
    }

    fn len(&self) -> (r: TileType) {
        self.len
    }

    fn probabilty_weight(&self, tile: TileType) -> (r: Probability) {
        self.probability_weights[tile as usize]
    }
}

impl<Dir> TileSetBits<Dir> where Dir: Directions {
    /// A tile set of `len` tiles in which, to begin with, no tile allows any
    /// other next to it and every weight is 1.
    pub fn new(len: TileType) -> (r: Self)
        requires
            Dir::spec_count() >= 2,
            Dir::spec_count() % 2 == 0,
            opposites_half_turn::<Dir>(),
            (len as int) * (len as int) * (Dir::spec_count() / 2) <= usize::MAX / 8,
        ensures
            r.wf(),
            r.spec_len() == len as int,
            forall|x: int, y: int, e: Dir|
                0 <= x < len && 0 <= y < len ==> !#[trigger] r.spec_allows(x, y, e),
            forall|t: int| 0 <= t < len ==> #[trigger] r.spec_weight(t) == 1,
    {
        let l = len as usize;
        let half = Dir::len() / 2;
        proof {
            assert(l * l <= l * l * half && l * l * half == (len as int) * (len as int) * (
            Dir::spec_count() / 2)) by (nonlinear_arith)
                requires
                    l == len as int,
                    1 <= half == Dir::spec_count() / 2,
            ;
        }
        let rules = bits_repeat(false, l * l * half);
        let mut probability_weights: Vec<Probability> = Vec::new();
        for i in 0..l
            invariant
                probability_weights@.len() == i,
                forall|j: int| 0 <= j < i ==> #[trigger] probability_weights@[j] == 1u16,
        {
            probability_weights.push(1);
        }
        let r = TileSetBits { rules, len, probability_weights, directions: PhantomData };
        proof {
            assert forall|x: int, y: int, e: Dir|
                0 <= x < len && 0 <= y < len implies !#[trigger] r.spec_allows(x, y, e) by {
                r.lemma_rule_index(x, y, e);
            }
        }
        r
    }

    /// Changes one tile's selection weight.
    pub fn set_probability_weight(&mut self, tile: TileType, weight: Probability)
        requires
            old(self).wf(),
            (tile as int) < old(self).spec_len(),
            weight >= 1,
        ensures
            final(self).wf(),
            final(self).len == old(self).len,
            final(self).rules == old(self).rules,
            final(self).probability_weights@ == old(self).probability_weights@.update(
                tile as int,
                weight,
            ),
    {
        self.probability_weights.set(tile as usize, weight);
    }

    /// Sets whether `x` allows `y` in direction `dir` of it; by the shared
    /// storage this is the same rule as `y` allowing `x` in the opposite
    /// direction, and no other rule moves.
    pub fn set_allow(&mut self, x: TileType, y: TileType, dir: Dir, val: bool)
        requires
            old(self).wf(),
            (x as int) < old(self).spec_len(),
            (y as int) < old(self).spec_len(),
        ensures
            final(self).wf(),
            final(self).len == old(self).len,
            final(self).probability_weights == old(self).probability_weights,
            final(self).spec_allows(x as int, y as int, dir) == val,
            final(self).spec_allows(y as int, x as int, dir.spec_opposite()) == val,
            forall|a: int, b: int, e: Dir|
                0 <= a < old(self).spec_len() && 0 <= b < old(self).spec_len()
                    ==> #[trigger] final(self).spec_allows(a, b, e) == if (a == x && b == y && e
                    == dir) || (a == y && b == x && e == dir.spec_opposite()) {
                    val
                } else {
                    old(self).spec_allows(a, b, e)
                },
    {
        let mut cx = x;
        let mut cy = y;
        let mut cid = dir.id();
        let opp_id = dir.opposite().id();
        if cid > opp_id {
            let t = cx;
            cx = cy;
            cy = t;
            cid = opp_id;
        }
        let half = Dir::len() / 2;
        let l = self.len as usize;
        proof {
            self.lemma_rule_index(x as int, y as int, dir);
            lemma_dir_ids(dir);
            assert((cx as int) * (l as int) + (cy as int) < (l as int) * (l as int))
                by (nonlinear_arith)
                requires
                    0 <= (cx as int) < (l as int),
                    0 <= (cy as int) < (l as int),
            ;
            assert(((cx as int) * (l as int) + (cy as int)) * (half as int) + (cid as int) < (
            l as int) * (l as int) * (half as int)) by (nonlinear_arith)
                requires
                    0 <= (cx as int) * (l as int) + (cy as int) < (l as int) * (l as int),
                    0 <= (cid as int) < (half as int),
            ;
            assert((l as int) * (l as int) <= (l as int) * (l as int) * (half as int))
                by (nonlinear_arith)
                requires
                    1 <= (half as int),
                    0 <= (l as int),
            ;
        }
        let idx = ((cx as usize) * l + (cy as usize)) * half + cid;
        bits_set(&mut self.rules, idx, val);
        proof {
            lemma_dir_ids(dir.spec_opposite());
            old(self).lemma_rule_index(x as int, y as int, dir);
            assert forall|a: int, b: int, e: Dir|
                0 <= a < old(self).spec_len() && 0 <= b < old(self).spec_len()
                    implies #[trigger] final(self).spec_allows(a, b, e) == if (a == x && b == y && e
                == dir) || (a == y && b == x && e == dir.spec_opposite()) {
                val
            } else {
                old(self).spec_allows(a, b, e)
            } by {
                old(self).lemma_rule_index(a, b, e);
                if (a == x && b == y && e == dir) || (a == y && b == x && e
                    == dir.spec_opposite()) {
                } else {
                    if self.spec_rule_index(a, b, e) == self.spec_rule_index(
                        x as int,
                        y as int,
                        dir,
                    ) {
                        old(self).lemma_rule_index_injective(x as int, y as int, dir, a, b, e);
                    }
                }
            }
        }
    }
}

/// An edge-keyed tile set: each tile carries one key per direction, and two
/// tiles fit across a direction exactly when the facing keys match.
pub struct TileSetKeys<Dir> where Dir: Directions {
    pub keys: Vec<TileType>,
    pub probability_weights: Vec<Probability>,
    pub directions: PhantomData<Dir>,
}

impl<Dir> TileSet<Dir> for TileSetKeys<Dir> where Dir: Directions {
    open spec fn wf(&self) -> bool {
        &&& Dir::spec_count() >= 1
        &&& self.keys@.len() == self.probability_weights@.len() * Dir::spec_count()
        &&& self.probability_weights@.len() <= TileType::MAX
        &&& forall|i: int|
            0 <= i < self.probability_weights@.len() ==> #[trigger] self.probability_weights@[i]
                >= 1
    }

    open spec fn spec_len(&self) -> int {
        self.probability_weights@.len() as int
    }

    open spec fn spec_allows(&self, x: int, y: int, dir: Dir) -> bool {
        self.keys@[Dir::spec_count() * x + dir.spec_id()] == self.keys@[Dir::spec_count() * y
            + dir.spec_opposite().spec_id()]
    }

    open spec fn spec_weight(&self, tile: int) -> int {
        self.probability_weights@[tile] as int
    }

    proof fn lemma_allows_symmetric(&self, x: int, y: int, dir: Dir) {
        dir.lemma_direction();
    }

    proof fn lemma_weight_bounds(&self, tile: int) {
    }

    proof fn lemma_len_bounds(&self) {
    }

    fn allows(&self, x: TileType, y: TileType, dir: Dir) -> (r: bool) {
        proof {
            dir.lemma_direction();
            (dir.spec_opposite()).lemma_direction();
            assert(Dir::spec_count() * (x as int) + Dir::spec_count() <= Dir::spec_count()
                * self.spec_len() && Dir::spec_count() * (y as int) + Dir::spec_count()
                <= Dir::spec_count() * self.spec_len()) by (nonlinear_arith)
                requires
                    (x as int) < self.spec_len(),
                    (y as int) < self.spec_len(),
                    Dir::spec_count() >= 1,
            ;
            assert(self.probability_weights@.len() * Dir::spec_count() == Dir::spec_count()
                * self.spec_len()) by (nonlinear_arith)
                requires
                    self.spec_len() == self.probability_weights@.len(),
            ;
        }
        let c = Dir::len();
        let n = self.keys.len();
        let ix = c * (x as usize) + dir.id();
        let iy = c * (y as usize) + dir.opposite().id();
        assert(ix < n && iy < n);
        self.keys[ix] == self.keys[iy]
    }

    fn len(&self) -> (r: TileType) {
        proof {
            lemma_fundamental_div_mod_converse(
                self.keys@.len() as int,
                Dir::spec_count(),
                self.spec_len(),
                0,
            );
        }
        (self.keys.len() / Dir::len()) as TileType
    }

    fn probabilty_weight(&self, tile: TileType) -> (r: Probability) {
        self.probability_weights[tile as usize]
    }
}

impl<Dir> TileSetKeys<Dir> where Dir: Directions {
    /// A tile set of `len` tiles whose every edge carries `standard_key` and
    /// whose every weight is 1: to begin with, everything fits everything.
    pub fn new(len: usize, standard_key: TileType) -> (r: Self)
        requires
            Dir::spec_count() >= 1,
            len <= TileType::MAX,
            len * Dir::spec_count() <= usize::MAX,
        ensures
            r.wf(),
            r.spec_len() == len as int,
            r.keys@ == Seq::new((len * Dir::spec_count()) as nat, |i: int| standard_key),
            forall|t: int| 0 <= t < len ==> #[trigger] r.spec_weight(t) == 1,
    {
        let c = Dir::len();
        let n = len * c;
        let mut keys: Vec<TileType> = Vec::new();
        for i in 0..n
            invariant
                keys@.len() == i,
                forall|j: int| 0 <= j < i ==> #[trigger] keys@[j] == standard_key,
        {
            keys.push(standard_key);
        }
        let mut probability_weights: Vec<Probability> = Vec::new();
        for i in 0..len
            invariant
                probability_weights@.len() == i,
                forall|j: int| 0 <= j < i ==> #[trigger] probability_weights@[j] == 1u16,
        {
            probability_weights.push(1);
        }
        let r = TileSetKeys { keys, probability_weights, directions: PhantomData };
        proof {
            assert(r.keys@ =~= Seq::new((len * Dir::spec_count()) as nat, |i: int| standard_key));
        }
        r
    }

    /// Sets one tile's key on one side.
    pub fn set_key(&mut self, tile: TileType, dir: Dir, key: TileType)
        requires
            old(self).wf(),
            (tile as int) < old(self).spec_len(),
        ensures
            final(self).wf(),
            final(self).spec_len() == old(self).spec_len(),
            final(self).probability_weights == old(self).probability_weights,
            final(self).keys@ == old(self).keys@.update(
                Dir::spec_count() * (tile as int) + dir.spec_id(),
                key,
            ),
    {
        proof {
            dir.lemma_direction();
            assert(Dir::spec_count() * (tile as int) + Dir::spec_count() <= Dir::spec_count()
                * self.spec_len() && self.probability_weights@.len() * Dir::spec_count()
                == Dir::spec_count() * self.spec_len()) by (nonlinear_arith)
                requires
                    (tile as int) < self.spec_len(),
                    Dir::spec_count() >= 1,
                    self.spec_len() == self.probability_weights@.len(),
            ;
        }
        let c = Dir::len();
        let n = self.keys.len();
        let i = c * (tile as usize) + dir.id();
        assert(i < n);
        self.keys.set(i, key);
    }

    /// Changes one tile's selection weight.
    pub fn set_probability_weight(&mut self, tile: TileType, weight: Probability)
        requires
            old(self).wf(),
            (tile as int) < old(self).spec_len(),
            weight >= 1,
        ensures
            final(self).wf(),
            final(self).spec_len() == old(self).spec_len(),
            final(self).keys == old(self).keys,
            final(self).probability_weights@ == old(self).probability_weights@.update(
                tile as int,
                weight,
            ),
    {
        self.probability_weights.set(tile as usize, weight);
    }
}

} // verus!
