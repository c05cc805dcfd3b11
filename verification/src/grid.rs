//! A rectangular grid of `width * height` cells, addressed row by row, as a
//! coordinate system over the cardinal directions.

use vstd::prelude::*;
use vstd::arithmetic::div_mod::{
    lemma_fundamental_div_mod, lemma_fundamental_div_mod_converse, lemma_mod_bound,
    lemma_div_pos_is_pos,
};
use core::marker::PhantomData;
use crate::tiler::{CoordinateSystem, Directions};
use crate::directions::CardinalDirections;

verus! {

pub struct CoordinateSystemGrid<Dir> where Dir: Directions {
    pub width: usize,
    pub height: usize,
    pub directions: PhantomData<Dir>,
}

impl<Dir> CoordinateSystemGrid<Dir> where Dir: Directions {
    pub fn new(width: usize, height: usize) -> (r: Self)
        requires
            width * height <= usize::MAX,
        ensures
            r.width == width,
            r.height == height,
    {
        Self { width, height, directions: PhantomData }
    }
}

/// Sides of `pos` inside a `w`-cells-wide grid: its row, its column, and the
/// fact that they determine it.
proof fn lemma_grid_pos(w: int, h: int, pos: int)
    requires
        0 <= w,
        0 <= h,
        0 <= pos < w * h,
    ensures
        1 <= w && 1 <= h,
        0 <= pos / w < h,
        0 <= pos % w < w,
        pos == (pos / w) * w + pos % w,
{
    assert(1 <= w && 1 <= h) by (nonlinear_arith)
        requires
            0 <= w,
            0 <= h,
            0 <= pos < w * h,
    ;
    lemma_fundamental_div_mod(pos, w);
    lemma_mod_bound(pos, w);
    lemma_div_pos_is_pos(pos, w);
    assert((pos / w) * w == w * (pos / w)) by (nonlinear_arith);
    assert(pos / w < h) by (nonlinear_arith)
        requires
            1 <= w,
            pos < w * h,
            pos == w * (pos / w) + pos % w,
            0 <= pos % w,
    ;
}

/// A cell's index from its row and column.
proof fn lemma_grid_index(w: int, h: int, r: int, c: int)
    requires
        1 <= w,
        0 <= r < h,
        0 <= c < w,
    ensures
        0 <= r * w + c < w * h,
        (r * w + c) / w == r,
        (r * w + c) % w == c,
{
    assert(0 <= r * w + c < w * h) by (nonlinear_arith)
        requires
            1 <= w,
            0 <= r < h,
            0 <= c < w,
    ;
    lemma_fundamental_div_mod_converse(r * w + c, w, r, c);
}

impl CoordinateSystem<CardinalDirections> for CoordinateSystemGrid<CardinalDirections> {
    open spec fn wf(&self) -> bool {
        self.width * self.height <= usize::MAX
    }

    open spec fn spec_len(&self) -> int {
        self.width * self.height
    }

    open spec fn spec_move(&self, pos: int, dir: CardinalDirections) -> Option<int> {
        let w = self.width as int;
        let h = self.height as int;
        let r = pos / w;
        let c = pos % w;
        match dir {
            CardinalDirections::North => if r == 0 {
                None
            } else {
                Some((r - 1) * w + c)
            },
            CardinalDirections::South => if r == h - 1 {
                None
            } else {
                Some((r + 1) * w + c)
            },
            CardinalDirections::West => if c == 0 {
                None
            } else {
                Some(r * w + (c - 1))
            },
            CardinalDirections::East => if c == w - 1 {
                None
            } else {
                Some(r * w + (c + 1))
            },
        }
    }

    proof fn lemma_move_in_range(&self, pos: int, dir: CardinalDirections) {
        let w = self.width as int;
        let h = self.height as int;
        lemma_grid_pos(w, h, pos);
        let r = pos / w;
        let c = pos % w;
        match dir {
            CardinalDirections::North => {
                if r != 0 {
                    lemma_grid_index(w, h, r - 1, c);
                }
            },
            CardinalDirections::South => {
                if r != h - 1 {
                    lemma_grid_index(w, h, r + 1, c);
                }
            },
            CardinalDirections::West => {
                if c != 0 {
                    lemma_grid_index(w, h, r, c - 1);
                }
            },
            CardinalDirections::East => {
                if c != w - 1 {
                    lemma_grid_index(w, h, r, c + 1);
                }
            },
        }
    }

    proof fn lemma_move_symmetric(&self, pos: int, dir: CardinalDirections) {
        let w = self.width as int;
        let h = self.height as int;
        lemma_grid_pos(w, h, pos);
        let r = pos / w;
        let c = pos % w;
        match dir {
            CardinalDirections::North => {
                if r != 0 {
                    lemma_grid_index(w, h, r - 1, c);
                }
            },
            CardinalDirections::South => {
                if r != h - 1 {
                    lemma_grid_index(w, h, r + 1, c);
                }
            },
            CardinalDirections::West => {
                if c != 0 {
                    lemma_grid_index(w, h, r, c - 1);
                }
            },
            CardinalDirections::East => {
                if c != w - 1 {
                    lemma_grid_index(w, h, r, c + 1);
                }
            },
        }
    }

    fn move_direction(&self, pos: usize, dir: CardinalDirections) -> (res: Option<usize>) {
        proof {
            lemma_grid_pos(self.width as int, self.height as int, pos as int);
        }
        let mut r = pos / self.width;
        let mut c = pos % self.width;

        match dir {
            CardinalDirections::North => {
                if r == 0 {
                    return None;
                }
                r -= 1;
            },
            CardinalDirections::South => {
                if r == self.height - 1 {
                    return None;
                }
                r += 1;
            },
            CardinalDirections::West => {
                if c == 0 {
                    return None;
                }
                c -= 1;
            },
            CardinalDirections::East => {
                if c == self.width - 1 {
                    return None;
                }
                c += 1;
            },
        };
        proof {
            lemma_grid_index(self.width as int, self.height as int, r as int, c as int);
        }
        Some(r * self.width + c)
    }

    fn len(&self) -> (r: usize) {
        proof {
            assert(self.height * self.width == self.width * self.height) by (nonlinear_arith);
        }
        self.height * self.width
    }
}

} // verus!
