use vstd::prelude::*;
use crate::tile::Tile;

verus! {

/// Who plays a side: a person at the console, or the random mover.
#[derive(Copy, Clone, PartialEq, Eq, Structural, Debug)]
pub enum Player {
    Human(Tile),
    RandomAi(Tile),
}

impl Player {
    /// The side this player plays.
    pub fn tile(&self) -> (r: Tile)
        ensures
            r == match *self {
                Player::Human(t) => t,
                Player::RandomAi(t) => t,
            },
    {
        match self {
            Player::Human(tile) => *tile,
            Player::RandomAi(tile) => *tile,
        }
    }
}

} // verus!
