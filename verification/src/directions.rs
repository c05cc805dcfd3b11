//! The four cardinal directions of a rectangular grid.

use vstd::prelude::*;
use crate::tiler::{Directions, opposites_half_turn};

verus! {

#[derive(Debug, Clone, Copy, PartialEq, Eq, PartialOrd, Ord)]
pub enum CardinalDirections {
    North,
    East,
    South,
    West,
}

impl Directions for CardinalDirections {
    open spec fn spec_count() -> int {
        4
    }

    open spec fn spec_id(self) -> int {
        match self {
            CardinalDirections::North => 0,
            CardinalDirections::East => 1,
            CardinalDirections::South => 2,
            CardinalDirections::West => 3,
        }
    }

    open spec fn spec_opposite(self) -> Self {
        match self {
            CardinalDirections::North => CardinalDirections::South,
            CardinalDirections::East => CardinalDirections::West,
            CardinalDirections::South => CardinalDirections::North,
            CardinalDirections::West => CardinalDirections::East,
        }
    }

    open spec fn spec_nth(i: int) -> Self {
        if i == 0 {
            CardinalDirections::North
        } else if i == 1 {
            CardinalDirections::East
        } else if i == 2 {
            CardinalDirections::South
        } else {
            CardinalDirections::West
        }
    }

    proof fn lemma_direction(self) {
    }

    proof fn lemma_nth(i: int) {
    }

    fn len() -> (r: usize) {
        4
    }

    fn id(self) -> (r: usize) {
        match self {
            CardinalDirections::North => 0,
            CardinalDirections::East => 1,
            CardinalDirections::South => 2,
            CardinalDirections::West => 3,
        }
    }

    fn opposite(self) -> (r: Self) {
        match self {
            CardinalDirections::North => CardinalDirections::South,
            CardinalDirections::East => CardinalDirections::West,
            CardinalDirections::South => CardinalDirections::North,
            CardinalDirections::West => CardinalDirections::East,
        }
    }

    fn direction(i: usize) -> (r: Self) {
        if i == 0 {
            CardinalDirections::North
        } else if i == 1 {
            CardinalDirections::East
        } else if i == 2 {
            CardinalDirections::South
        } else {
            CardinalDirections::West
        }
    }
}

/// The cardinal catalog pairs north with south and east with west half a
/// turn apart in the id order, as the dense adjacency table requires.
pub proof fn lemma_cardinal_half_turn()
    ensures
        opposites_half_turn::<CardinalDirections>(),
{
}

} // verus!
