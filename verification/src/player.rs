use vstd::prelude::*;

verus! {

/// The players of a match, in the order in which they take their turns.
#[derive(Clone, Copy, Hash, PartialEq, Eq, Debug, PartialOrd, Ord, Structural)]
pub enum Player {
    White,
    Black,
}

/// How many players there are.
pub const PLAYER_COUNT: usize = 2;

impl Player {
    /// The player's place in the fixed order of all players.
    pub open spec fn spec_index(self) -> int {
        match self {
            Player::White => 0,
            Player::Black => 1,
        }
    }

    /// The player at a place of that order.
    pub open spec fn spec_from_index(i: int) -> Player {
        if i == 0 {
            Player::White
        } else {
            Player::Black
        }
    }

    pub fn index(&self) -> (i: usize)
        ensures
            i == self.spec_index(),
            i < PLAYER_COUNT,
    {
        match self {
            Player::White => 0,
            Player::Black => 1,
        }
    }

    pub fn from_index(i: usize) -> (p: Player)
        requires
            i < PLAYER_COUNT,
        ensures
            p == Player::spec_from_index(i as int),
            p.spec_index() == i,
    {
        if i == 0 {
            Player::White
        } else {
            Player::Black
        }
    }

    /// The player's name.
    pub fn name(&self) -> (text: &'static str)
        ensures
            text@ == (match *self {
                Player::White => "White"@,
                Player::Black => "Black"@,
            }),
    {
        match self {
            Player::White => "White",
            Player::Black => "Black",
        }
    }
}

/// Every player has an index below the player count, and the index names the player.
pub proof fn lemma_player_index_roundtrip(p: Player)
    ensures
        0 <= p.spec_index() < PLAYER_COUNT,
        Player::spec_from_index(p.spec_index()) == p,
{
}

} // verus!
