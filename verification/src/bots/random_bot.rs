use crate::bots::bot::{Bot, MoveRequest};
use crate::legality::{placement_fits, spec_is_legal_move};
use crate::player::Player;
use crate::referee::RefereeState;
use crate::rng::{random_below, random_seed, seeded_rng};
use crate::tile::Rotation;
use rand::rngs::StdRng;
use vstd::prelude::*;

verus! {

/// A bot that plays any legal move, each as likely as the others.
pub struct RandomBot {
    pub own_player: Player,
    rng: StdRng,
}

impl RandomBot {
    /// The player for whom the bot plays.
    pub closed spec fn spec_own_player(&self) -> Player {
        self.own_player
    }

    pub fn new(player: Player) -> (bot: Self)
        ensures
            bot.spec_own_player() == player,
    {
        RandomBot { own_player: player, rng: seeded_rng(random_seed()) }
    }
}

impl Bot for RandomBot {
    /// Every move of the bot is taken from the list of the legal moves.
    open spec fn keeps_to_rules(&self) -> bool {
        true
    }

    fn get_own_player(&self) -> (player: Player)
        ensures
            player == self.spec_own_player(),
    {
        self.own_player
    }

    fn get_name(&self) -> (name: String)
        ensures
            name@ == "random bot"@,
    {
        "random bot".to_string()
    }

    fn get_move(&mut self, state: &RefereeState) -> (request: MoveRequest)
        ensures
            spec_is_legal_move(
                state@.board,
                state@.drawn().unwrap(),
                state@.meeples[state@.player()] > 0,
                request,
            ),
    {
        let out = state.get_legal_moves();
        proof {
            let found = choose|coord: crate::keys::Coordinate, rotation: Rotation| #[trigger]
                placement_fits(state@.board, state@.drawn().unwrap(), coord, rotation);
            let plain = MoveRequest { coord: found.0, rotation: found.1, meeple: None };
            assert(out@.contains(plain));
        }
        let idx = random_below(&mut self.rng, out.len());
        assert(out@.contains(out@[idx as int]));
        out[idx]
    }
}

} // verus!
