use vstd::prelude::*;

verus! {

/// Why a placement, a meeple or a draw was turned down. Every variant is
/// recoverable: the game stays as it was and the same player may try again.
#[derive(Clone, Copy, Debug, PartialEq, Eq, Structural)]
pub enum GameError {
    /// The coordinate touches no tile that is already on the board.
    NoConnectingTile,
    /// An edge of the tile differs from the facing edge of a neighbour.
    FeaturesDontMatch,
    /// The slot, or the feature it belongs to, already carries a meeple.
    FeatureNonEmpty,
    /// Grass and junctions never score, and a road or city is not claimed
    /// through the centre of a tile.
    NonScoringFeature,
    /// The player's reserve is empty.
    OutOfMeeples,
    /// There is no tile at the coordinate.
    NoTilePresent,
    /// The draw source has run out.
    EmptyBag,
}

pub type MessageResult<T> = Result<T, GameError>;

impl GameError {
    /// The reason in words.
    pub fn message(&self) -> (text: &'static str)
        ensures
            text@ == self.spec_message(),
    {
        match self {
            GameError::NoConnectingTile => "Illegal tile placement: No connecting tile",
            GameError::FeaturesDontMatch => "Illegal tile placement: features dont match",
            GameError::FeatureNonEmpty => "Illegal meeple: Feature is non empty",
            GameError::NonScoringFeature => "Illegal meeple: Non scoring feature",
            GameError::OutOfMeeples => "out of meeples",
            GameError::NoTilePresent => "Illegal meeple: No tile present",
            GameError::EmptyBag => "Empty bag",
        }
    }

    pub open spec fn spec_message(self) -> Seq<char> {
        match self {
            GameError::NoConnectingTile => "Illegal tile placement: No connecting tile"@,
            GameError::FeaturesDontMatch => "Illegal tile placement: features dont match"@,
            GameError::FeatureNonEmpty => "Illegal meeple: Feature is non empty"@,
            GameError::NonScoringFeature => "Illegal meeple: Non scoring feature"@,
            GameError::OutOfMeeples => "out of meeples"@,
            GameError::NoTilePresent => "Illegal meeple: No tile present"@,
            GameError::EmptyBag => "Empty bag"@,
        }
    }
}

} // verus!
