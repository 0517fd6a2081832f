use crate::bots::bot::{Bot, MoveRequest};
use crate::player::Player;
use crate::referee::RefereeState;
use std::collections::VecDeque;
use vstd::prelude::*;

verus! {

/// A bot that plays the moves it was given, in the order in which it got them.
pub struct ReplayBot {
    pub own_player: Player,
    pub moves: VecDeque<MoveRequest>,
}

/// The move that a bot with the given moves makes next: the first of them,
/// or, where none is left, the move that puts the tile at the origin as it
/// is drawn.
pub open spec fn spec_next_move(moves: Seq<MoveRequest>) -> MoveRequest {
    if moves.len() > 0 {
        moves[0]
    } else {
        MoveRequest { coord: (0i8, 0i8), rotation: crate::tile::Rotation::Upright, meeple: None }
    }
}

/// The moves that a bot with the given moves has left after its next move.
pub open spec fn spec_moves_left(moves: Seq<MoveRequest>) -> Seq<MoveRequest> {
    if moves.len() > 0 {
        moves.subrange(1, moves.len() as int)
    } else {
        moves
    }
}

impl ReplayBot {
    /// A bot for a player with no moves yet.
    pub fn unitialized(player: Player) -> (bot: Self)
        ensures
            bot.own_player == player,
            bot.moves@ == Seq::<MoveRequest>::empty(),
    {
        ReplayBot { own_player: player, moves: VecDeque::new() }
    }

    /// Adds a move after those that the bot has.
    pub fn add_move(&mut self, the_move: MoveRequest)
        ensures
            final(self).own_player == old(self).own_player,
            final(self).moves@ == old(self).moves@.push(the_move),
    {
        self.moves.push_back(the_move);
    }

    /// The next move, which leaves the bot. A bot that has run out of moves
    /// answers with the move that puts the tile at the origin as it is drawn.
    pub fn next_move(&mut self) -> (request: MoveRequest)
        ensures
            final(self).own_player == old(self).own_player,
            request == spec_next_move(old(self).moves@),
            final(self).moves@ == spec_moves_left(old(self).moves@),
    {
        match self.moves.pop_front() {
            Some(request) => request,
            None => MoveRequest::default(),
        }
    }
}

impl Bot for ReplayBot {
    /// The bot plays what it was given, legal or not.
    open spec fn keeps_to_rules(&self) -> bool {
        false
    }

    fn get_own_player(&self) -> (player: Player)
        ensures
            player == self.own_player,
    {
        self.own_player
    }

    fn get_name(&self) -> (name: String)
        ensures
            name@ == "replay bot"@,
    {
        "replay bot".to_string()
    }

    /// The next of the moves that the bot was given, whatever the state.
    fn get_move(&mut self, state: &RefereeState) -> (request: MoveRequest)
        ensures
            final(self).own_player == old(self).own_player,
            request == spec_next_move(old(self).moves@),
            final(self).moves@ == spec_moves_left(old(self).moves@),
    {
        self.next_move()
    }
}

} // verus!
