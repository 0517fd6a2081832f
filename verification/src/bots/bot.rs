use crate::keys::Coordinate;
use crate::legality::{spec_is_legal_move, spec_legal_move_exists};
use crate::player::Player;
use crate::referee::RefereeState;
use crate::tile::{Rotation, TileClickTarget};
use vstd::prelude::*;

verus! {

/// What a player asks for in a turn: where the drawn tile goes, how it is
/// turned, and on which of its slots a meeple is put, if on any.
#[derive(Clone, Copy, Eq, Hash, Debug)]
pub struct MoveRequest {
    pub coord: Coordinate,
    pub rotation: Rotation,
    pub meeple: Option<TileClickTarget>,
}

impl PartialEq for MoveRequest {
    fn eq(&self, other: &MoveRequest) -> (same: bool) {
        let same_meeple = match (self.meeple, other.meeple) {
            (Some(mine), Some(theirs)) => mine == theirs,
            (None, None) => true,
            _ => false,
        };
        self.coord.0 == other.coord.0 && self.coord.1 == other.coord.1 && self.rotation
            == other.rotation && same_meeple
    }
}

impl vstd::std_specs::cmp::PartialEqSpecImpl for MoveRequest {
    open spec fn obeys_eq_spec() -> bool {
        true
    }

    open spec fn eq_spec(&self, other: &MoveRequest) -> bool {
        self.coord == other.coord && self.rotation == other.rotation && self.meeple
            == other.meeple
    }
}

impl Default for MoveRequest {
    fn default() -> (request: MoveRequest)
        ensures
            request == (MoveRequest {
                coord: (0i8, 0i8),
                rotation: Rotation::Upright,
                meeple: None,
            }),
    {
        MoveRequest { coord: (0, 0), rotation: Rotation::Upright, meeple: None }
    }
}

/// Whether a state waits for a move that can be made: a tile is to be
/// placed, one is drawn, and it can go somewhere.
pub open spec fn awaits_move(state: &RefereeState) -> bool {
    &&& state.wf()
    &&& !state.is_placing_meeple
    &&& state@.drawn() is Some
    &&& spec_legal_move_exists(state@.board, state@.drawn().unwrap())
}

/// A player of the game: anything that answers a state with a move.
///
/// Nothing is promised of the move of a bot as such; the referee takes it or
/// turns it down. A bot may bind itself to the rules, and is then held to
/// them move by move.
pub trait Bot {
    /// Whether the bot binds itself to make legal moves only. A bot that
    /// says nothing of it promises nothing.
    open spec fn keeps_to_rules(&self) -> bool {
        false
    }

    /// The player for whom the bot plays.
    fn get_own_player(&self) -> Player;

    /// What the bot calls itself.
    fn get_name(&self) -> String;

    /// The move of the bot in a state that waits for one. A bot that keeps to
    /// the rules goes on doing so, and its move is legal for the player whose
    /// turn it is.
    fn get_move(&mut self, state: &RefereeState) -> (request: MoveRequest)
        requires
            awaits_move(state),
        ensures
            final(self).keeps_to_rules() == old(self).keeps_to_rules(),
            old(self).keeps_to_rules() ==> spec_is_legal_move(
                state@.board,
                state@.drawn().unwrap(),
                state@.meeples[state@.player()] > 0,
                request,
            ),
    ;
}

} // verus!
