//! Matches: who plays, how a match runs to its end, and what comes out.

use crate::bots::bot::{Bot, MoveRequest};
use crate::bots::random_bot::RandomBot;
use crate::bots::replay_bot::{spec_moves_left, spec_next_move, ReplayBot};
use crate::error::GameError;
pub use crate::error::MessageResult;
use crate::keys::{Coordinate, KeyMap, KeySet};
use crate::player::{lemma_player_index_roundtrip, Player, PLAYER_COUNT};
use crate::referee::{lemma_legal_move_is_taken, RefereeState, RefereeView};
use crate::scoring::{players_part, spec_points_table, spec_standing, table_is};
use crate::tile::{Rotation, TileClickTarget, TileData};
use crate::tilebag::{
    all_from, last_of, lemma_discarded_is_less, lemma_rest_is_from, none_fits, spec_discarded,
    BagView, LegalTileBag, ReplayTileBag, TileBag, TileBagEnum,
};
use vstd::prelude::*;

verus! {

/// The scores at the end of a match.
pub struct GameResult {
    pub player_scores: KeyMap<Player, u64>,
}

/// The players with the highest score: all of them where several have it.
pub open spec fn spec_winners(scores: Map<Player, u64>) -> Set<Player> {
    Set::new(
        |owner: Player|
            scores.contains_key(owner) && forall|other: Player|
                scores.contains_key(other) ==> scores[other] <= scores[owner],
    )
}

/// The score of a player in a table, nothing for a player without one.
pub open spec fn spec_score_of(scores: Map<Player, u64>, player: Player) -> int {
    if scores.contains_key(player) {
        scores[player] as int
    } else {
        0
    }
}

/// By how much a player is ahead of the others, counting the first `n`
/// players: the score of the player less the scores of the others.
pub open spec fn spec_advantage(scores: Map<Player, u64>, player: Player, n: int) -> int
    decreases n,
{
    if n <= 0 || n > PLAYER_COUNT {
        0
    } else {
        let other = Player::spec_from_index(n - 1);
        spec_advantage(scores, player, n - 1) + if other == player {
            spec_score_of(scores, other)
        } else {
            -spec_score_of(scores, other)
        }
    }
}

impl GameResult {
    /// The players with the highest score.
    pub fn get_winners(&self) -> (winners: KeySet<Player>)
        ensures
            winners@ == spec_winners(self.player_scores@),
    {
        let ghost scores = self.player_scores@;
        let mut best: u64 = 0;
        for i in 0..PLAYER_COUNT
            invariant
                scores == self.player_scores@,
                forall|owner: Player|
                    owner.spec_index() < i && #[trigger] scores.contains_key(owner)
                        ==> scores[owner] <= best,
                best > 0 ==> exists|owner: Player| #[trigger]
                    scores.contains_key(owner) && scores[owner] == best,
        {
            let owner = Player::from_index(i);
            proof {
                assert forall|other: Player| other.spec_index() == i implies other == owner by {
                    lemma_player_index_roundtrip(other);
                }
            }
            if let Some(score) = self.player_scores.get(&owner) {
                if *score > best {
                    best = *score;
                }
            }
        }
        let mut winners: KeySet<Player> = KeySet::new();
        proof {
            assert forall|owner: Player| #[trigger] scores.contains_key(owner) implies scores[owner]
                <= best by {
                lemma_player_index_roundtrip(owner);
            }
        }
        for i in 0..PLAYER_COUNT
            invariant
                scores == self.player_scores@,
                forall|owner: Player| #[trigger]
                    scores.contains_key(owner) ==> scores[owner] <= best,
                forall|owner: Player| #[trigger]
                    winners@.contains(owner) <==> owner.spec_index() < i && scores.contains_key(
                        owner,
                    ) && scores[owner] == best,
        {
            let owner = Player::from_index(i);
            proof {
                assert forall|other: Player| other.spec_index() == i implies other == owner by {
                    lemma_player_index_roundtrip(other);
                }
            }
            if let Some(score) = self.player_scores.get(&owner) {
                if *score == best {
                    winners.insert(owner);
                }
            }
        }
        proof {
            assert forall|owner: Player|
                winners@.contains(owner) == spec_winners(scores).contains(owner) by {
                lemma_player_index_roundtrip(owner);
                if spec_winners(scores).contains(owner) && scores[owner] < best {
                    let top = choose|top: Player| #[trigger]
                        scores.contains_key(top) && scores[top] == best;
                    assert(scores[top] <= scores[owner]);
                }
            }
            assert(winners@ =~= spec_winners(scores));
        }
        winners
    }

    /// By how much a player is ahead: the score of the player less the
    /// scores of all the others.
    pub fn advantage_of(&self, player: &Player) -> (lead: i128)
        ensures
            lead == spec_advantage(self.player_scores@, *player, PLAYER_COUNT as int),
    {
        let mut lead: i128 = 0;
        for i in 0..PLAYER_COUNT
            invariant
                lead == spec_advantage(self.player_scores@, *player, i as int),
                -(i * 0x1_0000_0000_0000_0000) <= lead <= i * 0x1_0000_0000_0000_0000,
        {
            let other = Player::from_index(i);
            let score: i128 = self.score_of(&other) as i128;
            if other == *player {
                lead += score;
            } else {
                lead -= score;
            }
        }
        lead
    }

    /// The score of a player, nothing for a player without one.
    pub fn score_of(&self, player: &Player) -> (score: u64)
        ensures
            score == if self.player_scores@.contains_key(*player) {
                self.player_scores@[*player]
            } else {
                0
            },
    {
        match self.player_scores.get(player) {
            Some(score) => *score,
            None => 0,
        }
    }
}

/// One move of a match as it was made: the tile that was drawn, where it
/// went, how it was turned, and the slot that took a meeple, if one did.
#[derive(Clone, Copy, Debug)]
pub struct ConcreteMove {
    pub tile_data: TileData,
    pub coord: Coordinate,
    pub rotation: Rotation,
    pub location: Option<TileClickTarget>,
}

impl ConcreteMove {
    /// The request that led to the move.
    pub open spec fn spec_request(self) -> MoveRequest {
        MoveRequest { coord: self.coord, rotation: self.rotation, meeple: self.location }
    }
}

impl From<&ConcreteMove> for MoveRequest {
    fn from(val: &ConcreteMove) -> (request: MoveRequest) {
        MoveRequest { coord: val.coord, rotation: val.rotation, meeple: val.location }
    }
}

impl vstd::std_specs::convert::FromSpecImpl<&ConcreteMove> for MoveRequest {
    open spec fn obeys_from_spec() -> bool {
        true
    }

    open spec fn from_spec(val: &ConcreteMove) -> MoveRequest {
        val.spec_request()
    }
}

/// The record of a match: who played, in the order of the turns, and the
/// moves in the order in which they were made.
pub struct Replay {
    pub turn_order: Vec<Player>,
    pub moves: Vec<ConcreteMove>,
}

impl Default for Replay {
    fn default() -> (replay: Replay)
        ensures
            replay.turn_order@ == Seq::<Player>::empty(),
            replay.moves@ == Seq::<ConcreteMove>::empty(),
    {
        Replay { turn_order: Vec::new(), moves: Vec::new() }
    }
}

/// The scores of a match that has ended: what each player of the match
/// scored while it ran, and what the player gets for the features that
/// still stand on the board.
pub open spec fn spec_final_scores(state: RefereeView, standing: Map<Player, nat>) -> Map<
    Player,
    nat,
> {
    Map::new(
        |owner: Player| standing.contains_key(owner) || state.turn_order.contains(owner),
        |owner: Player|
            (if standing.contains_key(owner) {
                standing[owner]
            } else {
                0nat
            }) + (if state.turn_order.contains(owner) && state.scores.contains_key(owner) {
                state.scores[owner] as nat
            } else {
                0nat
            }),
    )
}

/// Whether a result is the final result of a state: the scores of the match
/// together with what stands on the board.
pub open spec fn is_final_result(result: Map<Player, u64>, state: RefereeView) -> bool {
    table_is(
        result,
        spec_final_scores(state, players_part(spec_points_table(spec_standing(state.board)))),
    )
}

/// A turn of a match as it went: the state was made ready by throwing away
/// the tiles that could go nowhere, the move was accepted, and the state
/// went on from there.
pub open spec fn is_turn(before: RefereeView, made: ConcreteMove, after: RefereeView) -> bool {
    exists|ready: RefereeView|
        ready.same_but_bag(before) && #[trigger] all_from(ready.bag.data, before.bag.data)
            && ready.bag.top() == Some(made.tile_data) && ready.check_move(made.spec_request())
            is Ok && after.same_but_bag(ready.after_move(made.spec_request()))
}

/// Whether a list of moves leads through a list of states, turn by turn.
pub open spec fn is_play(states: Seq<RefereeView>, moves: Seq<ConcreteMove>) -> bool {
    &&& states.len() == moves.len() + 1
    &&& forall|i: int| 0 <= i < moves.len() ==> is_turn(states[i], #[trigger] moves[i], states[i + 1])
}

/// Whether a list of moves is a whole match from `start` to `end`: the moves
/// lead from the start, turn by turn, to a state in which no tile that is
/// left can be placed, and `end` is that state with those tiles thrown away.
pub open spec fn is_match(start: RefereeView, moves: Seq<ConcreteMove>, end: RefereeView) -> bool {
    exists|states: Seq<RefereeView>| #[trigger]
        is_play(states, moves) && states[0] == start && end.same_but_bag(states.last())
            && all_from(end.bag.data, states.last().bag.data) && end.bag.top() is None
}

/// Whether a match of some players with some bag has come out with a result
/// and a record: the record is a whole match from the start to some state, and
/// the result is the final result of that state.
pub open spec fn is_outcome(
    players: Seq<Player>,
    bag: BagView,
    result: Map<Player, u64>,
    moves: Seq<ConcreteMove>,
) -> bool {
    exists|end: RefereeView| #[trigger]
        is_match(RefereeState::spec_initial(players, bag), moves, end) && end.wf()
            && is_final_result(result, end)
}

/// Whether the referee turns some move down in a state with an error.
pub open spec fn turns_down(state: RefereeView, error: GameError) -> bool {
    exists|request: MoveRequest| #[trigger] state.check_move(request) == Err::<(), GameError>(error)
}

/// Whether a match from `start` may have broken off in `end` with `error`:
/// moves that the referee took led from `start` to a state in which a tile
/// that can be placed is drawn, `end` is that state, and the referee turns a
/// move down there with that error.
pub open spec fn is_refusal(start: RefereeView, end: RefereeView, error: GameError) -> bool {
    exists|states: Seq<RefereeView>, moves: Seq<ConcreteMove>| #[trigger]
        is_play(states, moves) && states[0] == start && end.same_but_bag(states.last())
            && all_from(end.bag.data, states.last().bag.data) && end.bag.top() is Some
            && turns_down(end, error)
}

/// Whether a match of some players with a draw source may have broken off
/// with `error`.
pub open spec fn is_broken_off(bag: BagView, error: GameError) -> bool {
    exists|players: Seq<Player>, end: RefereeView|
        players.len() > 0 && #[trigger] is_refusal(
            RefereeState::spec_initial(players, bag),
            end,
            error,
        )
}

/// Whether every bot of a list binds itself to the rules.
pub open spec fn all_keep_to_rules<B: Bot>(bots: Seq<B>) -> bool {
    forall|i: int| 0 <= i < bots.len() ==> (#[trigger] bots[i]).keeps_to_rules()
}

/// A turn leads to the same state from states that differ at most in their
/// bags, where it draws the same tile and makes the same move.
pub proof fn lemma_turn_decides(
    first: RefereeView,
    second: RefereeView,
    made: ConcreteMove,
    after_first: RefereeView,
    after_second: RefereeView,
)
    requires
        first.same_but_bag(second),
        is_turn(first, made, after_first),
        is_turn(second, made, after_second),
    ensures
        after_first.same_but_bag(after_second),
{
    let request = made.spec_request();
    let ready_first = choose|ready: RefereeView|
        ready.same_but_bag(first) && #[trigger] all_from(ready.bag.data, first.bag.data)
            && ready.bag.top() == Some(made.tile_data) && ready.check_move(request) is Ok
            && after_first.same_but_bag(ready.after_move(request));
    let ready_second = choose|ready: RefereeView|
        ready.same_but_bag(second) && #[trigger] all_from(ready.bag.data, second.bag.data)
            && ready.bag.top() == Some(made.tile_data) && ready.check_move(request) is Ok
            && after_second.same_but_bag(ready.after_move(request));
    assert(ready_first.same_but_bag(ready_second));
    assert(ready_first.drawn() == ready_second.drawn());
    let placed_first = ready_first.with_tile(request.coord, request.rotation);
    let placed_second = ready_second.with_tile(request.coord, request.rotation);
    assert(placed_first.same_but_bag(placed_second));
    match request.meeple {
        None => {
            assert(placed_first.finish_turn().same_but_bag(placed_second.finish_turn()));
        },
        Some(location) => {
            let with_first = placed_first.with_meeple(request.coord, location);
            let with_second = placed_second.with_meeple(request.coord, location);
            assert(with_first.same_but_bag(with_second));
            assert(with_first.finish_turn().same_but_bag(with_second.finish_turn()));
        },
    }
}

/// The same moves lead through the same states, but for the bags, from
/// states that differ at most in their bags.
pub proof fn lemma_play_decides(
    first: Seq<RefereeView>,
    second: Seq<RefereeView>,
    moves: Seq<ConcreteMove>,
    upto: int,
)
    requires
        is_play(first, moves),
        is_play(second, moves),
        first[0].same_but_bag(second[0]),
        0 <= upto <= moves.len(),
    ensures
        first[upto].same_but_bag(second[upto]),
    decreases upto,
{
    if upto > 0 {
        lemma_play_decides(first, second, moves, upto - 1);
        assert(is_turn(first[upto - 1], moves[upto - 1], first[upto - 1 + 1]));
        assert(is_turn(second[upto - 1], moves[upto - 1], second[upto - 1 + 1]));
        lemma_turn_decides(
            first[upto - 1],
            second[upto - 1],
            moves[upto - 1],
            first[upto],
            second[upto],
        );
    }
}

/// The draws and the moves decide a match: two matches that start with the
/// same players, draw the same tiles and make the same moves end with the
/// same board, the same scores and the same reserves, and so with the same
/// result, whatever else their bags held.
pub proof fn lemma_moves_decide_the_result(
    first: RefereeView,
    second: RefereeView,
    moves: Seq<ConcreteMove>,
    end_first: RefereeView,
    end_second: RefereeView,
    result_first: Map<Player, u64>,
    result_second: Map<Player, u64>,
)
    requires
        first.same_but_bag(second),
        is_match(first, moves, end_first),
        is_match(second, moves, end_second),
        is_final_result(result_first, end_first),
        is_final_result(result_second, end_second),
    ensures
        end_first.same_but_bag(end_second),
        result_first == result_second,
{
    let states_first = choose|states: Seq<RefereeView>| #[trigger]
        is_play(states, moves) && states[0] == first && end_first.same_but_bag(states.last())
            && all_from(end_first.bag.data, states.last().bag.data) && end_first.bag.top()
            is None;
    let states_second = choose|states: Seq<RefereeView>| #[trigger]
        is_play(states, moves) && states[0] == second && end_second.same_but_bag(states.last())
            && all_from(end_second.bag.data, states.last().bag.data) && end_second.bag.top()
            is None;
    lemma_play_decides(states_first, states_second, moves, moves.len() as int);
    assert(end_first.same_but_bag(end_second));
    assert(result_first =~= result_second);
}

/// The players of a list of owners, each once, in the order of the players.
pub open spec fn spec_players_of(owners: Seq<Player>, n: int) -> Seq<Player>
    decreases n,
{
    if n <= 0 || n > PLAYER_COUNT {
        Seq::empty()
    } else if owners.contains(Player::spec_from_index(n - 1)) {
        spec_players_of(owners, n - 1).push(Player::spec_from_index(n - 1))
    } else {
        spec_players_of(owners, n - 1)
    }
}

/// A match.
pub struct Match {}

impl Match {
    /// The players for whom a list of bots plays, each once, in the order of the players.
    pub fn players_of(owners: &Vec<Player>) -> (players: Vec<Player>)
        ensures
            players@ == spec_players_of(owners@, PLAYER_COUNT as int),
            forall|owner: Player| players@.contains(owner) <==> owners@.contains(owner),
    {
        let mut players: Vec<Player> = Vec::new();
        for i in 0..PLAYER_COUNT
            invariant
                players@ == spec_players_of(owners@, i as int),
                forall|owner: Player| #[trigger]
                    players@.contains(owner) <==> owners@.contains(owner) && owner.spec_index()
                        < i,
        {
            let candidate = Player::from_index(i);
            let ghost before = players@;
            let mut found = false;
            for j in 0..owners.len()
                invariant
                    found <==> exists|k: int| 0 <= k < j && owners@[k] == candidate,
            {
                if owners[j] == candidate {
                    found = true;
                }
            }
            if found {
                players.push(candidate);
            }
            proof {
                assert forall|owner: Player| #[trigger]
                    players@.contains(owner) <==> owners@.contains(owner) && owner.spec_index() < i
                        + 1 by {
                    lemma_player_index_roundtrip(owner);
                    vstd::seq_lib::lemma_seq_contains_after_push(before, candidate, owner);
                }
            }
        }
        proof {
            assert forall|owner: Player| players@.contains(owner) <==> owners@.contains(owner) by {
                lemma_player_index_roundtrip(owner);
            }
        }
        players
    }

    /// The last bot of a list that plays for a player.
    pub fn bot_for(owners: &Vec<Player>, player: Player) -> (found: Option<usize>)
        ensures
            match found {
                Some(idx) => idx < owners@.len() && owners@[idx as int] == player && forall|
                    later: int,
                | idx < later < owners@.len() ==> owners@[later] != player,
                None => !owners@.contains(player),
            },
    {
        let mut i: usize = owners.len();
        while i > 0
            invariant
                i <= owners@.len(),
                forall|later: int| i <= later < owners@.len() ==> owners@[later] != player,
            decreases i,
        {
            i -= 1;
            if owners[i] == player {
                return Some(i);
            }
        }
        None
    }

    /// One turn of a match: tiles that can go nowhere are thrown away, the
    /// bot is asked for its move, and the referee takes the move.
    ///
    /// The result is the move as it was made, or nothing if no tile is left:
    /// that is so exactly if no tile of the bag can go anywhere. A move that
    /// the referee turns down ends the turn with its error; the tiles that
    /// were thrown away stay thrown away. The move of a bot that keeps to the
    /// rules is never turned down.
    pub fn play_turn<B: Bot>(state: &mut RefereeState, bot: &mut B) -> (turn: MessageResult<
        Option<ConcreteMove>,
    >)
        requires
            old(state).wf(),
            !old(state).is_placing_meeple,
        ensures
            final(state).wf(),
            !final(state).is_placing_meeple,
            final(state)@.bag.data.len() <= old(state)@.bag.data.len(),
            all_from(final(state)@.bag.data, old(state)@.bag.data),
            match turn {
                Ok(Some(made)) => final(state)@.bag.data.len() < old(state)@.bag.data.len()
                    && is_turn(old(state)@, made, final(state)@),
                Ok(None) => final(state)@.bag.top() is None && final(state)@.same_but_bag(
                    old(state)@,
                ),
                Err(error) => final(state)@.same_but_bag(old(state)@)
                    && final(state)@.bag.top() is Some && turns_down(final(state)@, error),
            },
            turn == Ok::<Option<ConcreteMove>, GameError>(None) <==> none_fits(
                old(state)@.bag.data,
                old(state)@.board,
            ),
            none_fits(old(state)@.bag.data, old(state)@.board) ==> *final(bot) == *old(bot),
            final(bot).keeps_to_rules() == old(bot).keeps_to_rules(),
            old(bot).keeps_to_rules() ==> turn is Ok,
    {
        let ghost before = state@;
        let legal = state.ensure_legal_draw();
        if !legal {
            return Ok(None);
        }
        let ghost ready = state@;
        let tile = match state.tilebag.peek() {
            Ok(tile) => *tile,
            Err(error) => {
                proof {
                    assert(false);
                }
                return Err(error);
            },
        };
        proof {
            lemma_bare_fits_too(ready, tile);
        }
        let ghost bound = bot.keeps_to_rules();
        let move_request = bot.get_move(state);
        proof {
            if bound {
                lemma_legal_move_is_taken(state@, move_request);
            }
        }
        match state.process_move(move_request) {
            Ok(_) => {},
            Err(error) => {
                proof {
                    assert(state@.check_move(move_request) == Err::<(), GameError>(error));
                }
                return Err(error);
            },
        }
        let made = ConcreteMove {
            tile_data: tile,
            coord: move_request.coord,
            rotation: move_request.rotation,
            location: move_request.meeple,
        };
        proof {
            lemma_rest_is_from(ready.bag);
            assert forall|i: int| 0 <= i < state@.bag.data.len() implies before.bag.data.contains(
                #[trigger] state@.bag.data[i],
            ) by {
                assert(ready.bag.data.contains(state@.bag.data[i]));
                let j = choose|j: int| 0 <= j < ready.bag.data.len() && ready.bag.data[j]
                    == state@.bag.data[i];
                assert(before.bag.data.contains(ready.bag.data[j]));
            }
            assert(made.spec_request() == move_request);
            assert(ready.same_but_bag(before) && all_from(ready.bag.data, before.bag.data)
                && ready.bag.top() == Some(made.tile_data) && ready.check_move(made.spec_request())
                is Ok && state@.same_but_bag(ready.after_move(made.spec_request())));
        }
        Ok(Some(made))
    }

    /// Plays a match that has been set up to its end: turn by turn, each
    /// player's bot in its turn, until no tile is left. The moves are handed
    /// back in the order in which they were made.
    ///
    /// The match breaks off with the referee's error at the first move that
    /// is turned down, and the state stays as it was when that move was asked
    /// for. That never happens where every bot keeps to the rules, nor where
    /// no tile of the bag can go anywhere: then no bot is asked and nothing
    /// but the bag changes.
    pub fn run<B: Bot>(state: &mut RefereeState, bots: &mut Vec<B>, owners: &Vec<Player>) -> (moves:
        MessageResult<Vec<ConcreteMove>>)
        requires
            old(state).wf(),
            !old(state).is_placing_meeple,
            old(bots)@.len() == owners@.len(),
            forall|i: int|
                0 <= i < old(state)@.turn_order.len() ==> owners@.contains(
                    #[trigger] old(state)@.turn_order[i],
                ),
        ensures
            final(state).wf(),
            !final(state).is_placing_meeple,
            final(bots)@.len() == old(bots)@.len(),
            final(state)@.turn_order == old(state)@.turn_order,
            all_from(final(state)@.bag.data, old(state)@.bag.data),
            moves is Ok ==> final(state)@.bag.top() is None,
            moves matches Ok(made) ==> made@.len() <= old(state)@.bag.data.len() && is_match(
                old(state)@,
                made@,
                final(state)@,
            ),
            moves matches Ok(made) ==> (made@.len() == 0 <==> none_fits(
                old(state)@.bag.data,
                old(state)@.board,
            )),
            none_fits(old(state)@.bag.data, old(state)@.board) ==> moves is Ok
                && final(state)@.same_but_bag(old(state)@) && final(bots)@ == old(bots)@,
            moves matches Err(error) ==> is_refusal(old(state)@, final(state)@, error),
            forall|i: int|
                0 <= i < old(bots)@.len() ==> (#[trigger] final(bots)@[i]).keeps_to_rules()
                    == old(bots)@[i].keeps_to_rules(),
            all_keep_to_rules(old(bots)@) ==> moves is Ok,
    {
        let mut moves: Vec<ConcreteMove> = Vec::new();
        let ghost start = state@;
        let ghost mut states: Seq<RefereeView> = seq![start];
        proof {
            assert forall|i: int| 0 <= i < start.bag.data.len() implies start.bag.data.contains(
                #[trigger] start.bag.data[i],
            ) by {}
        }
        loop
            invariant
                state.wf(),
                !state.is_placing_meeple,
                start == old(state)@,
                bots@.len() == owners@.len(),
                old(bots)@.len() == owners@.len(),
                state@.turn_order == start.turn_order,
                forall|i: int|
                    0 <= i < start.turn_order.len() ==> owners@.contains(
                        #[trigger] start.turn_order[i],
                    ),
                all_from(state@.bag.data, start.bag.data),
                moves@.len() + state@.bag.data.len() <= start.bag.data.len(),
                is_play(states, moves@),
                states[0] == start,
                states.last() == state@,
                moves@.len() == 0 ==> state@ == start && bots@ == old(bots)@,
                moves@.len() > 0 ==> !none_fits(start.bag.data, start.board),
                forall|i: int|
                    0 <= i < bots@.len() ==> (#[trigger] bots@[i]).keeps_to_rules()
                        == old(bots)@[i].keeps_to_rules(),
            decreases state@.bag.data.len(),
        {
            let player = state.get_player();
            let ghost before = state@;
            let idx = match Self::bot_for(owners, player) {
                Some(idx) => idx,
                None => {
                    proof {
                        assert(owners@.contains(start.turn_order[state.turn_idx as int]));
                        assert(false);
                    }
                    return Err(crate::error::GameError::EmptyBag);
                },
            };
            let ghost asked = bots@;
            let turn = Self::play_turn(state, &mut bots[idx]);
            proof {
                assert(bots@ =~= asked.update(idx as int, bots@[idx as int]));
                if turn == Ok::<Option<ConcreteMove>, GameError>(None) {
                    assert(bots@ =~= asked);
                }
                assert forall|i: int| 0 <= i < state@.bag.data.len() implies start.bag.data.contains(
                    #[trigger] state@.bag.data[i],
                ) by {
                    assert(before.bag.data.contains(state@.bag.data[i]));
                    let j = choose|j: int| 0 <= j < before.bag.data.len() && before.bag.data[j]
                        == state@.bag.data[i];
                    assert(start.bag.data.contains(before.bag.data[j]));
                }
            }
            match turn {
                Ok(Some(made)) => {
                    let ghost played = moves@;
                    let ghost passed = states;
                    moves.push(made);
                    proof {
                        states = states.push(state@);
                        assert forall|i: int| 0 <= i < moves@.len() implies is_turn(
                            states[i],
                            #[trigger] moves@[i],
                            states[i + 1],
                        ) by {
                            if i < played.len() {
                                assert(is_turn(passed[i], played[i], passed[i + 1]));
                            }
                        }
                    }
                },
                Ok(None) => {
                    proof {
                        assert(is_play(states, moves@) && states[0] == start
                            && state@.same_but_bag(states.last()) && all_from(
                            state@.bag.data,
                            states.last().bag.data,
                        ) && state@.bag.top() is None);
                    }
                    return Ok(moves);
                },
                Err(error) => {
                    proof {
                        assert(is_play(states, moves@) && states[0] == start
                            && state@.same_but_bag(states.last()) && all_from(
                            state@.bag.data,
                            states.last().bag.data,
                        ) && state@.bag.top() is Some && turns_down(state@, error));
                    }
                    return Err(error);
                },
            }
        }
    }

    /// The result of a match that has ended: for each player, what the
    /// player scored while the match ran together with what the player gets
    /// for the features that still stand on the board.
    pub fn final_result(state: &RefereeState) -> (result: GameResult)
        requires
            state.wf(),
        ensures
            is_final_result(result.player_scores@, state@),
    {
        let mut scores = state.board.as_user().get_standing_points();
        let ghost standing = scores@;
        let ghost wanted = spec_final_scores(
            state@,
            players_part(spec_points_table(spec_standing(state.board@))),
        );
        proof {
            state.board.lemma_finite();
        }
        for i in 0..PLAYER_COUNT
            invariant
                state.wf(),
                            forall|owner: Player| #[trigger]
                    standing.contains_key(owner) ==> standing[owner] <= 327680 * 262144,
                table_is(standing, players_part(spec_points_table(spec_standing(state.board@)))),
                wanted == spec_final_scores(
                    state@,
                    players_part(spec_points_table(spec_standing(state.board@))),
                ),
                forall|owner: Player| #[trigger]
                    scores@.contains_key(owner) <==> if owner.spec_index() < i {
                        wanted.contains_key(owner)
                    } else {
                        standing.contains_key(owner)
                    },
                forall|owner: Player| #[trigger]
                    scores@.contains_key(owner) ==> scores@[owner] as nat == if owner.spec_index()
                        < i {
                        wanted[owner]
                    } else {
                        standing[owner] as nat
                    },
        {
            let player = Player::from_index(i);
            proof {
                assert forall|other: Player| other.spec_index() == i implies other == player by {
                    lemma_player_index_roundtrip(other);
                }
                state.board.lemma_finite();
                assert(state@.scored_tiles() * crate::referee::MAX_POINTS_PER_TURN <= 65536
                    * crate::referee::MAX_POINTS_PER_TURN) by (nonlinear_arith)
                    requires
                        state@.scored_tiles() <= 65536,
                ;
            }
            let mut plays = false;
            for j in 0..state.turn_order.len()
                invariant
                    plays <==> exists|k: int| 0 <= k < j && state.turn_order@[k] == player,
            {
                if state.turn_order[j] == player {
                    plays = true;
                }
            }
            if plays {
                let delta: u64 = match state.player_scores.get(&player) {
                    Some(delta) => *delta,
                    None => 0,
                };
                let standing_points: u64 = match scores.get(&player) {
                    Some(points) => *points,
                    None => 0,
                };
                scores.insert(player, standing_points + delta);
            }
        }
        proof {
            assert forall|owner: Player|
                scores@.contains_key(owner) <==> wanted.contains_key(owner) by {
                lemma_player_index_roundtrip(owner);
            }
            assert forall|owner: Player| scores@.contains_key(owner) implies scores@[owner] as nat
                == wanted[owner] by {
                lemma_player_index_roundtrip(owner);
            }
            assert(table_is(scores@, wanted));
        }
        GameResult { player_scores: scores }
    }

    /// Plays a match of the given bots with the given draw source, and hands
    /// back its result and its record.
    ///
    /// The players are those for whom a bot plays, in the order of the
    /// players; where several bots play for one player, the last of them does.
    /// The record holds the players so, each once.
    ///
    /// The match comes to its end where every bot keeps to the rules, and
    /// where the draw source holds no tile: then no move is made. Otherwise
    /// it breaks off with the referee's error at the first move that is
    /// turned down.
    pub fn play_custom<B: Bot>(bots: Vec<B>, bag: TileBagEnum) -> (outcome: MessageResult<
        (GameResult, Replay),
    >)
        requires
            bots@.len() > 0,
            bag.wf(),
        ensures
            outcome matches Ok(ended) ==> ended.1.turn_order@.len() > 0 && is_outcome(
                ended.1.turn_order@,
                bag@,
                ended.0.player_scores@,
                ended.1.moves@,
            ),
            outcome matches Ok(ended) ==> ended.1.turn_order@ == spec_players_of(
                ended.1.turn_order@,
                PLAYER_COUNT as int,
            ),
            outcome matches Ok(ended) ==> (ended.1.moves@.len() == 0 <==> bag@.data.len() == 0),
            bag@.data.len() == 0 ==> outcome is Ok,
            all_keep_to_rules(bots@) ==> outcome is Ok,
            outcome matches Err(error) ==> is_broken_off(bag@, error),
    {
        let mut bots = bots;
        let mut owners: Vec<Player> = Vec::new();
        for i in 0..bots.len()
            invariant
                owners@.len() == i,
        {
            owners.push(bots[i].get_own_player());
        }
        let players = Self::players_of(&owners);
        proof {
            assert(owners@.contains(owners@[0]));
            assert(players@.contains(owners@[0]));
        }
        let turn_order = players.clone();
        let mut state = RefereeState::from_players(players, bag);
        let ghost start = state@;
        proof {
            assert forall|i: int| 0 <= i < state@.turn_order.len() implies owners@.contains(
                #[trigger] state@.turn_order[i],
            ) by {
                assert(state@.turn_order.contains(state@.turn_order[i]));
            }
        }
        proof {
            lemma_first_tile_fits(bag@.data);
        }
        let moves = match Self::run(&mut state, &mut bots, &owners) {
            Ok(moves) => moves,
            Err(error) => {
                proof {
                    assert(start == RefereeState::spec_initial(start.turn_order, bag@));
                    assert(start.turn_order.len() > 0 && is_refusal(
                        RefereeState::spec_initial(start.turn_order, bag@),
                        state@,
                        error,
                    ));
                }
                return Err(error);
            },
        };
        let result = Self::final_result(&state);
        let ended = (result, Replay { turn_order, moves });
        proof {
            lemma_players_come_once(owners@);
            assert(ended.1.turn_order@ =~= start.turn_order);
            assert(start == RefereeState::spec_initial(ended.1.turn_order@, bag@));
            assert(is_match(start, ended.1.moves@, state@) && state@.wf() && is_final_result(
                ended.0.player_scores@,
                state@,
            ));
        }
        Ok(ended)
    }

    /// Plays a match on from a state to its end, with a bot for every player
    /// that plays any legal move, and hands back the result.
    ///
    /// Such a match always comes to its end: the referee takes every legal
    /// move.
    pub fn play_random_from_state(state: RefereeState) -> (outcome: MessageResult<GameResult>)
        requires
            state.wf(),
            !state.is_placing_meeple,
        ensures
            outcome is Ok,
            outcome matches Ok(result) ==> exists|moves: Seq<ConcreteMove>, end: RefereeView| #[trigger]
                is_match(state@, moves, end) && end.wf() && is_final_result(
                    result.player_scores@,
                    end,
                ),
    {
        let mut state = state;
        let ghost start = state@;
        let mut owners: Vec<Player> = Vec::new();
        let mut bots: Vec<RandomBot> = Vec::new();
        for i in 0..state.turn_order.len()
            invariant
                state@ == start,
                owners@ == state.turn_order@.take(i as int),
                bots@.len() == i,
        {
            owners.push(state.turn_order[i]);
            bots.push(RandomBot::new(state.turn_order[i]));
            proof {
                assert(state.turn_order@.take(i + 1) =~= state.turn_order@.take(i as int).push(
                    state.turn_order@[i as int],
                ));
            }
        }
        proof {
            assert(state.turn_order@.take(state.turn_order@.len() as int) =~= state.turn_order@);
            assert forall|i: int| 0 <= i < state@.turn_order.len() implies owners@.contains(
                #[trigger] state@.turn_order[i],
            ) by {
                assert(owners@[i] == state@.turn_order[i]);
            }
        }
        let moves = match Self::run(&mut state, &mut bots, &owners) {
            Ok(moves) => moves,
            Err(error) => {
                return Err(error);
            },
        };
        let result = Self::final_result(&state);
        proof {
            assert(is_match(start, moves@, state@) && state@.wf() && is_final_result(
                result.player_scores@,
                state@,
            ));
        }
        Ok(result)
    }

    /// Plays a match of the given bots with all the tiles of the game.
    ///
    /// The match comes to its end, after one move at least, where every bot
    /// keeps to the rules. Otherwise it breaks off with the referee's error
    /// at the first move that is turned down.
    pub fn play<B: Bot>(bots: Vec<B>) -> (outcome: MessageResult<(GameResult, Replay)>)
        requires
            bots@.len() > 0,
        ensures
            outcome matches Ok(ended) ==> ended.1.turn_order@.len() > 0 && ended.1.moves@.len() > 0
                && is_outcome(
                ended.1.turn_order@,
                crate::tilebag::spec_standard_bag(),
                ended.0.player_scores@,
                ended.1.moves@,
            ),
            outcome matches Ok(ended) ==> ended.1.turn_order@ == spec_players_of(
                ended.1.turn_order@,
                PLAYER_COUNT as int,
            ),
            all_keep_to_rules(bots@) ==> outcome is Ok,
            outcome matches Err(error) ==> is_broken_off(crate::tilebag::spec_standard_bag(), error),
    {
        let bag = TileBagEnum::LegalTileBag(LegalTileBag::default());
        let ghost start = bag@;
        let outcome = Self::play_custom(bots, bag);
        proof {
            assert(start == crate::tilebag::spec_standard_bag());
        }
        outcome
    }
}

/// Every tile can go on an empty board, so of a bag that holds a tile not
/// every tile is thrown away before the first move.
pub proof fn lemma_first_tile_fits(data: Seq<TileData>)
    ensures
        none_fits(data, Map::<Coordinate, TileData>::empty()) <==> data.len() == 0,
{
    let board = Map::<Coordinate, TileData>::empty();
    if data.len() > 0 {
        assert(crate::legality::placement_fits(board, data[0], (0i8, 0i8), Rotation::Upright));
        assert(crate::legality::spec_legal_move_exists(board, data[0]));
    }
}

/// A tile that can go somewhere with its meeples can go there without them.
pub proof fn lemma_bare_fits_too(state: RefereeView, tile: TileData)
    requires
        state.bag.top() == Some(tile),
        crate::legality::spec_legal_move_exists(state.board, tile),
    ensures
        crate::legality::spec_legal_move_exists(state.board, state.drawn().unwrap()),
{
    let found = choose|coord: Coordinate, rotation: Rotation| #[trigger]
        crate::legality::placement_fits(state.board, tile, coord, rotation);
    let bare = state.drawn().unwrap();
    assert(crate::legality::placement_fits(state.board, bare, found.0, found.1)) by {
        let turned = tile.spec_with_rotation(found.1);
        let bare_turned = bare.spec_with_rotation(found.1);
        assert forall|slot: TileClickTarget| turned.spec_at(slot) == bare_turned.spec_at(slot) by {}
    }
}

/// Whether `seat` is the place, in a list of bots, of the last bot that
/// plays for a player.
pub open spec fn is_seat_of(owners: Seq<Player>, player: Player, seat: int) -> bool {
    &&& 0 <= seat < owners.len()
    &&& owners[seat] == player
    &&& forall|later: int| seat < later < owners.len() ==> owners[later] != player
}

/// The place of the last bot that plays for a player.
pub open spec fn spec_seat_of(owners: Seq<Player>, player: Player) -> int {
    choose|seat: int| is_seat_of(owners, player, seat)
}

/// Only one bot is the last that plays for a player.
pub proof fn lemma_one_seat(owners: Seq<Player>, player: Player, seat: int)
    requires
        is_seat_of(owners, player, seat),
    ensures
        spec_seat_of(owners, player) == seat,
{
    let other = spec_seat_of(owners, player);
    assert(is_seat_of(owners, player, other));
    if other < seat {
        assert(owners[seat] != player);
    }
    if seat < other {
        assert(owners[other] != player);
    }
}

/// The state in which the next move is asked for when the tiles come in
/// order: the tiles on top of the bag that can go nowhere are gone.
pub open spec fn spec_ready(state: RefereeView) -> RefereeView {
    RefereeView { bag: spec_discarded(state.bag, state.board), ..state }
}

/// The state after a move that the referee takes, when the tiles come in
/// order.
pub open spec fn spec_after_turn(ready: RefereeView, request: MoveRequest) -> RefereeView {
    RefereeView {
        bag: BagView { data: ready.bag.rest(), next: last_of(ready.bag.rest()) },
        ..ready.after_move(request)
    }
}

/// How a match goes on from a state when the tiles come in order and every
/// bot makes the moves that it holds, one after the other: `moves[seat]` are
/// the moves of the bot at `seat`, and `owners[seat]` is the player for whom
/// it plays. The match ends in a state with no tile left, or breaks off with
/// the error of the first move that the referee turns down.
pub open spec fn spec_replay_from(
    state: RefereeView,
    moves: Seq<Seq<MoveRequest>>,
    owners: Seq<Player>,
) -> MessageResult<RefereeView>
    decreases state.bag.data.len(),
{
    let ready = spec_ready(state);
    if !state.bag.wf() || ready.bag.top() is None {
        Ok(ready)
    } else {
        let seat = spec_seat_of(owners, ready.player());
        let request = spec_next_move(moves[seat]);
        match ready.check_move(request) {
            Err(error) => Err(error),
            Ok(_) => {
                proof {
                    lemma_discarded_is_less(state.bag, state.board);
                    lemma_rest_is_from(ready.bag);
                }
                spec_replay_from(
                    spec_after_turn(ready, request),
                    moves.update(seat, spec_moves_left(moves[seat])),
                    owners,
                )
            },
        }
    }
}

/// The moves of a list of bots, bot by bot.
pub open spec fn spec_moves_of(bots: Seq<ReplayBot>) -> Seq<Seq<MoveRequest>> {
    Seq::new(bots.len(), |seat: int| bots[seat].moves@)
}

/// The first `count` moves of a record dealt out to `seats` bots in turn:
/// the first move to the first bot, the next to the next, and after the last
/// bot the first again.
pub open spec fn spec_dealt(moves: Seq<ConcreteMove>, seats: int, count: int) -> Seq<
    Seq<MoveRequest>,
>
    decreases count,
{
    if count <= 0 || seats <= 0 {
        Seq::new(seats as nat, |seat: int| Seq::<MoveRequest>::empty())
    } else {
        let before = spec_dealt(moves, seats, count - 1);
        let seat = (count - 1) % seats;
        before.update(seat, before[seat].push(moves[count - 1].spec_request()))
    }
}

impl Replay {
    /// The tiles of the record in the order in which they were drawn.
    pub open spec fn spec_tiles(&self) -> Seq<TileData> {
        Seq::new(self.moves@.len(), |i: int| self.moves@[i].tile_data)
    }

    /// The bag that hands out the tiles of the record in that order.
    pub open spec fn spec_bag(&self) -> BagView {
        BagView {
            data: self.spec_tiles().reverse(),
            next: last_of(self.spec_tiles()),
        }
    }

    /// How the record is played again: a bot for every entry of the turn
    /// order, the moves dealt out to the bots in turn, the tiles in the order
    /// of the record, and the players those of the turn order, each once.
    pub open spec fn spec_replayed(&self) -> MessageResult<RefereeView> {
        spec_replay_from(
            RefereeState::spec_initial(
                spec_players_of(self.turn_order@, PLAYER_COUNT as int),
                self.spec_bag(),
            ),
            spec_dealt(self.moves@, self.turn_order@.len() as int, self.moves@.len() as int),
            self.turn_order@,
        )
    }

    /// Plays the record again: the tiles come in the order in which they were
    /// drawn, and every bot makes the moves that the record holds for it.
    ///
    /// The result is that of the state in which the match ends; where the
    /// referee turns a move of the record down, its error comes back instead.
    pub fn replay(&self) -> (outcome: MessageResult<GameResult>)
        requires
            self.turn_order@.len() > 0,
        ensures
            match self.spec_replayed() {
                Ok(end) => outcome matches Ok(result) && end.wf() && is_final_result(
                    result.player_scores@,
                    end,
                ),
                Err(error) => outcome matches Err(refused) && refused == error,
            },
            outcome matches Ok(result) ==> exists|players: Seq<Player>, moves: Seq<ConcreteMove>| #[trigger]
                is_outcome(players, self.spec_bag(), result.player_scores@, moves),
            self.moves@.len() == 0 ==> outcome is Ok,
    {
        let n = self.turn_order.len();
        let mut bots: Vec<ReplayBot> = Vec::new();
        let mut owners: Vec<Player> = Vec::new();
        for i in 0..n
            invariant
                n == self.turn_order@.len(),
                bots@.len() == i,
                owners@ == self.turn_order@.take(i as int),
                forall|k: int| 0 <= k < i ==> (#[trigger] bots@[k]).moves@ == Seq::<MoveRequest>::empty(),
        {
            let bot = ReplayBot::unitialized(self.turn_order[i]);
            owners.push(bot.get_own_player());
            bots.push(bot);
            proof {
                assert(self.turn_order@.take(i + 1) =~= self.turn_order@.take(i as int).push(
                    self.turn_order@[i as int],
                ));
            }
        }
        assert(self.turn_order@.take(n as int) =~= self.turn_order@);
        assert(spec_moves_of(bots@) =~= spec_dealt(self.moves@, n as int, 0));
        let mut bag_data: Vec<TileData> = Vec::new();
        for i in 0..self.moves.len()
            invariant
                n == self.turn_order@.len(),
                n > 0,
                bots@.len() == n,
                bag_data@.len() == i,
                forall|k: int| 0 <= k < i ==> #[trigger] bag_data@[k] == self.moves@[k].tile_data,
                spec_moves_of(bots@) == spec_dealt(self.moves@, n as int, i as int),
        {
            let one_move = &self.moves[i];
            bag_data.push(one_move.tile_data);
            let request = MoveRequest::from(one_move);
            let ghost dealt = bots@;
            let bot = &mut bots[i % n];
            bot.add_move(request);
            proof {
                assert(spec_moves_of(bots@) =~= spec_moves_of(dealt).update(
                    (i % n) as int,
                    dealt[(i % n) as int].moves@.push(request),
                ));
            }
        }
        assert(bag_data@ =~= self.spec_tiles());
        let bag = TileBagEnum::ReplayTileBag(ReplayTileBag::new(bag_data));
        let players = Match::players_of(&owners);
        proof {
            assert(owners@.contains(owners@[0]));
            assert(players@.contains(owners@[0]));
        }
        let mut state = RefereeState::from_players(players, bag);
        let ghost start = state@;
        proof {
            assert(bag@ == self.spec_bag());
            assert forall|i: int| 0 <= i < state@.turn_order.len() implies owners@.contains(
                #[trigger] state@.turn_order[i],
            ) by {
                assert(state@.turn_order.contains(state@.turn_order[i]));
            }
        }
        let moves = match run_record(&mut state, &mut bots, &owners) {
            Ok(moves) => moves,
            Err(error) => {
                return Err(error);
            },
        };
        let result = Match::final_result(&state);
        proof {
            assert(is_match(start, moves@, state@) && state@.wf() && is_final_result(
                result.player_scores@,
                state@,
            ));
        }
        let outcome: MessageResult<GameResult> = Ok(result);
        proof {
            assert(is_outcome(
                start.turn_order,
                self.spec_bag(),
                outcome->Ok_0.player_scores@,
                moves@,
            ));
        }
        outcome
    }
}

/// One turn of a match that is played again: as any turn of a match, with a
/// bot that makes the moves it holds.
fn replay_turn(state: &mut RefereeState, bot: &mut ReplayBot) -> (turn: MessageResult<
    Option<ConcreteMove>,
>)
    requires
        old(state).wf(),
        !old(state).is_placing_meeple,
        old(state).tilebag.draws_in_order(),
    ensures
        final(state).wf(),
        !final(state).is_placing_meeple,
        final(state).tilebag.draws_in_order(),
        final(state)@.bag.data.len() <= old(state)@.bag.data.len(),
        all_from(final(state)@.bag.data, old(state)@.bag.data),
        turn matches Ok(Some(made)) ==> final(state)@.bag.data.len() < old(state)@.bag.data.len()
            && is_turn(old(state)@, made, final(state)@),
        final(bot).own_player == old(bot).own_player,
        spec_ready(old(state)@).bag.top() is None ==> turn == Ok::<Option<ConcreteMove>, GameError>(
            None,
        ) && final(state)@ == spec_ready(old(state)@) && final(bot).moves@ == old(bot).moves@,
        spec_ready(old(state)@).bag.top() is Some ==> final(bot).moves@ == spec_moves_left(
            old(bot).moves@,
        ) && match spec_ready(old(state)@).check_move(spec_next_move(old(bot).moves@)) {
            Ok(_) => turn matches Ok(Some(_)) && final(state)@ == spec_after_turn(
                spec_ready(old(state)@),
                spec_next_move(old(bot).moves@),
            ),
            Err(error) => turn == Err::<Option<ConcreteMove>, GameError>(error) && final(state)@
                == spec_ready(old(state)@),
        },
{
    let ghost before = state@;
    let legal = state.ensure_legal_draw();
    if !legal {
        return Ok(None);
    }
    let ghost ready = state@;
    let tile = match state.tilebag.peek() {
        Ok(tile) => *tile,
        Err(error) => {
            proof {
                assert(false);
            }
            return Err(error);
        },
    };
    proof {
        lemma_bare_fits_too(ready, tile);
    }
    let move_request = bot.get_move(state);
    match state.process_move(move_request) {
        Ok(_) => {},
        Err(error) => {
            return Err(error);
        },
    }
    let made = ConcreteMove {
        tile_data: tile,
        coord: move_request.coord,
        rotation: move_request.rotation,
        location: move_request.meeple,
    };
    proof {
        lemma_rest_is_from(ready.bag);
        assert forall|i: int| 0 <= i < state@.bag.data.len() implies before.bag.data.contains(
            #[trigger] state@.bag.data[i],
        ) by {
            assert(ready.bag.data.contains(state@.bag.data[i]));
            let j = choose|j: int| 0 <= j < ready.bag.data.len() && ready.bag.data[j]
                == state@.bag.data[i];
            assert(before.bag.data.contains(ready.bag.data[j]));
        }
        assert(made.spec_request() == move_request);
        assert(ready.same_but_bag(before) && all_from(ready.bag.data, before.bag.data)
            && ready.bag.top() == Some(made.tile_data) && ready.check_move(made.spec_request())
            is Ok && state@.same_but_bag(ready.after_move(made.spec_request())));
    }
    Ok(Some(made))
}

/// Plays a match again to its end: turn by turn, each player's bot in its
/// turn, until no tile is left or the referee turns a move down.
fn run_record(state: &mut RefereeState, bots: &mut Vec<ReplayBot>, owners: &Vec<Player>) -> (moves:
    MessageResult<Vec<ConcreteMove>>)
    requires
        old(state).wf(),
        !old(state).is_placing_meeple,
        old(state).tilebag.draws_in_order(),
        old(bots)@.len() == owners@.len(),
        forall|i: int|
            0 <= i < old(state)@.turn_order.len() ==> owners@.contains(
                #[trigger] old(state)@.turn_order[i],
            ),
    ensures
        final(state).wf(),
        match spec_replay_from(old(state)@, spec_moves_of(old(bots)@), owners@) {
            Ok(end) => moves is Ok && final(state)@ == end,
            Err(error) => moves matches Err(refused) && refused == error,
        },
        moves matches Ok(made) ==> is_match(old(state)@, made@, final(state)@),
{
    let mut moves: Vec<ConcreteMove> = Vec::new();
    let ghost start = state@;
    let ghost given = spec_moves_of(bots@);
    let ghost mut states: Seq<RefereeView> = seq![start];
    loop
        invariant
            state.wf(),
            !state.is_placing_meeple,
            state.tilebag.draws_in_order(),
            start == old(state)@,
            given == spec_moves_of(old(bots)@),
            bots@.len() == owners@.len(),
            state@.turn_order == start.turn_order,
            forall|i: int|
                0 <= i < start.turn_order.len() ==> owners@.contains(
                    #[trigger] start.turn_order[i],
                ),
            is_play(states, moves@),
            states[0] == start,
            states.last() == state@,
            spec_replay_from(state@, spec_moves_of(bots@), owners@) == spec_replay_from(
                start,
                given,
                owners@,
            ),
        decreases state@.bag.data.len(),
    {
        let player = state.get_player();
        let ghost before = state@;
        let idx = match Match::bot_for(owners, player) {
            Some(idx) => idx,
            None => {
                proof {
                    assert(owners@.contains(start.turn_order[state.turn_idx as int]));
                    assert(false);
                }
                return Err(GameError::EmptyBag);
            },
        };
        let ghost asked = bots@;
        proof {
            lemma_one_seat(owners@, player, idx as int);
            state.tilebag.lemma_wf();
        }
        let turn = replay_turn(state, &mut bots[idx]);
        proof {
            assert(bots@ =~= asked.update(idx as int, bots@[idx as int]));
            if spec_ready(before).bag.top() is None {
                assert(spec_moves_of(bots@) =~= spec_moves_of(asked));
            } else {
                assert(spec_moves_of(bots@) =~= spec_moves_of(asked).update(
                    idx as int,
                    spec_moves_left(spec_moves_of(asked)[idx as int]),
                ));
            }
        }
        match turn {
            Ok(Some(made)) => {
                let ghost played = moves@;
                let ghost passed = states;
                moves.push(made);
                proof {
                    states = states.push(state@);
                    assert forall|i: int| 0 <= i < moves@.len() implies is_turn(
                        states[i],
                        #[trigger] moves@[i],
                        states[i + 1],
                    ) by {
                        if i < played.len() {
                            assert(is_turn(passed[i], played[i], passed[i + 1]));
                        }
                    }
                }
            },
            Ok(None) => {
                proof {
                    assert(is_play(states, moves@) && states[0] == start
                        && state@.same_but_bag(states.last()) && all_from(
                        state@.bag.data,
                        states.last().bag.data,
                    ) && state@.bag.top() is None);
                }
                return Ok(moves);
            },
            Err(error) => {
                return Err(error);
            },
        }
    }
}

/// The bag that holds the tiles of a list from the `from`-th on and draws
/// them in the order of the list.
pub open spec fn spec_bag_from(tiles: Seq<TileData>, from: int) -> BagView {
    BagView {
        data: tiles.subrange(from, tiles.len() as int).reverse(),
        next: last_of(tiles.subrange(from, tiles.len() as int)),
    }
}

/// The moves of a record from the `from`-th on that go to the bot at `seat`
/// when the moves are dealt out to `seats` bots in turn.
pub open spec fn spec_dealt_from(moves: Seq<ConcreteMove>, seats: int, seat: int, from: int) -> Seq<
    MoveRequest,
>
    decreases moves.len() - from,
{
    if from < 0 || from >= moves.len() {
        Seq::empty()
    } else if from % seats == seat {
        seq![moves[from].spec_request()] + spec_dealt_from(moves, seats, seat, from + 1)
    } else {
        spec_dealt_from(moves, seats, seat, from + 1)
    }
}

/// What a bot has been dealt of the first moves of a record, and what it is
/// dealt of the others, are together what it is dealt of them all.
pub proof fn lemma_dealt_in_order(moves: Seq<ConcreteMove>, seats: int, seat: int, count: int)
    requires
        0 <= seat < seats,
        0 <= count <= moves.len(),
    ensures
        spec_dealt(moves, seats, count).len() == seats,
        spec_dealt(moves, seats, count)[seat] + spec_dealt_from(moves, seats, seat, count)
            == spec_dealt_from(moves, seats, seat, 0),
    decreases count,
{
    if count > 0 {
        lemma_dealt_in_order(moves, seats, seat, count - 1);
        let before = spec_dealt(moves, seats, count - 1);
        let request = moves[count - 1].spec_request();
        let left = spec_dealt_from(moves, seats, seat, count);
        if (count - 1) % seats == seat {
            assert(before[seat].push(request) + left =~= before[seat] + (seq![request] + left));
        }
    } else {
        assert(Seq::<MoveRequest>::empty() + spec_dealt_from(moves, seats, seat, 0)
            =~= spec_dealt_from(moves, seats, seat, 0));
    }
}

/// Whether a move is taken depends on the bag only by the tile that is drawn.
pub proof fn lemma_check_goes_by_the_tile(
    first: RefereeView,
    second: RefereeView,
    request: MoveRequest,
)
    requires
        first.same_but_bag(second),
        first.bag.top() == second.bag.top(),
    ensures
        first.check_move(request) == second.check_move(request),
{
    assert(first.drawn() == second.drawn());
    let placed_first = first.with_tile(request.coord, request.rotation);
    let placed_second = second.with_tile(request.coord, request.rotation);
    assert(placed_first.same_but_bag(placed_second));
}

/// A tile with which a move is taken can go somewhere, so it is not thrown
/// away before the move.
pub proof fn lemma_taken_tile_fits(state: RefereeView, request: MoveRequest)
    requires
        state.bag.top() is Some,
        state.check_move(request) is Ok,
    ensures
        crate::legality::spec_legal_move_exists(state.board, state.bag.top().unwrap()),
{
    let tile = state.bag.top().unwrap();
    let bare = state.drawn().unwrap();
    if state.board.dom() == Set::<Coordinate>::empty() {
        assert forall|coord: Coordinate| !state.board.contains_key(coord) by {
            assert(!state.board.dom().contains(coord));
        }
        assert(crate::legality::placement_fits(state.board, tile, (0i8, 0i8), Rotation::Upright));
    } else {
        let turned = tile.spec_with_rotation(request.rotation);
        let bare_turned = bare.spec_with_rotation(request.rotation);
        assert forall|slot: TileClickTarget| turned.spec_at(slot) == bare_turned.spec_at(slot) by {}
        assert(crate::legality::placement_fits(
            state.board,
            tile,
            request.coord,
            request.rotation,
        ));
    }
}

/// The bag of the tiles from the `at`-th on draws that tile first, and the
/// tiles after it are then left in their order.
pub proof fn lemma_bag_from(tiles: Seq<TileData>, at: int)
    requires
        0 <= at <= tiles.len() <= usize::MAX,
    ensures
        spec_bag_from(tiles, at).wf(),
        at == tiles.len() ==> spec_bag_from(tiles, at).top() is None,
        at < tiles.len() ==> spec_bag_from(tiles, at).top() == Some(tiles[at]) && (BagView {
            data: spec_bag_from(tiles, at).rest(),
            next: last_of(spec_bag_from(tiles, at).rest()),
        }) == spec_bag_from(tiles, at + 1),
{
    let left = tiles.subrange(at, tiles.len() as int);
    let bag = spec_bag_from(tiles, at);
    if at < tiles.len() {
        let fewer = tiles.subrange(at + 1, tiles.len() as int);
        let last = left.len() - 1;
        assert(bag.data.len() == left.len());
        assert(bag.next == crate::tilebag::NextTileType::BagTile(last as usize));
        assert(bag.data[last] == left[0]);
        assert(left[0] == tiles[at]);
        let rest = bag.rest();
        assert(rest.len() == fewer.len());
        assert forall|i: int| 0 <= i < rest.len() implies rest[i] == fewer.reverse()[i] by {
            assert(rest[i] == bag.data[i]);
            assert(bag.data[i] == left[left.len() - 1 - i]);
            assert(fewer.reverse()[i] == fewer[fewer.len() - 1 - i]);
        }
        assert(rest =~= fewer.reverse());
    }
}

/// A move that is taken leaves the players as they are and hands the turn
/// to the next of them.
pub proof fn lemma_turn_goes_round(state: RefereeView, request: MoveRequest)
    ensures
        state.after_move(request).turn_order == state.turn_order,
        state.after_move(request).bag == state.bag,
        state.after_move(request).turn_idx == ((state.turn_idx + 1) % (
        state.turn_order.len() as int)) as usize,
{
}

/// One turn of a match that is played again, where the tile on top can be
/// placed and the referee takes the move of the bot whose turn it is.
pub proof fn lemma_replay_step(
    now: RefereeView,
    queues: Seq<Seq<MoveRequest>>,
    owners: Seq<Player>,
    seat: int,
    request: MoveRequest,
)
    requires
        now.bag.wf(),
        now.bag.top() is Some,
        crate::legality::spec_legal_move_exists(now.board, now.bag.top().unwrap()),
        is_seat_of(owners, now.player(), seat),
        spec_next_move(queues[seat]) == request,
        now.check_move(request) is Ok,
    ensures
        spec_replay_from(now, queues, owners) == spec_replay_from(
            spec_after_turn(now, request),
            queues.update(seat, spec_moves_left(queues[seat])),
            owners,
        ),
{
    assert(spec_ready(now) == now);
    lemma_one_seat(owners, now.player(), seat);
}

/// A turn can be made again in a state that differs at most in its bag from
/// the state in which it was made, where the same tile is on top: the
/// referee takes the move, and the states after it differ at most in their
/// bags again.
pub proof fn lemma_same_turn(
    before: RefereeView,
    now: RefereeView,
    made: ConcreteMove,
    after: RefereeView,
)
    requires
        is_turn(before, made, after),
        now.same_but_bag(before),
        now.bag.top() == Some(made.tile_data),
    ensures
        now.check_move(made.spec_request()) is Ok,
        spec_after_turn(now, made.spec_request()).same_but_bag(after),
{
    let request = made.spec_request();
    let next = spec_after_turn(now, request);
    let ready = choose|ready: RefereeView|
        ready.same_but_bag(before) && #[trigger] all_from(ready.bag.data, before.bag.data)
            && ready.bag.top() == Some(made.tile_data) && ready.check_move(request) is Ok
            && after.same_but_bag(ready.after_move(request));
    lemma_check_goes_by_the_tile(now, ready, request);
    assert(now.same_but_bag(now) && all_from(now.bag.data, now.bag.data) && now.bag.top() == Some(
        made.tile_data,
    ) && now.check_move(request) is Ok && next.same_but_bag(now.after_move(request))) by {
        lemma_turn_goes_round(now, request);
        assert forall|i: int| 0 <= i < now.bag.data.len() implies now.bag.data.contains(
            #[trigger] now.bag.data[i],
        ) by {}
    }
    assert(is_turn(now, made, next));
    lemma_turn_decides(before, now, made, after, next);
}

/// The bot whose turn it is after `at` moves holds the next move of the
/// record as its next move, and after it the moves that it is dealt of the
/// others.
pub proof fn lemma_next_of_the_dealt(moves: Seq<ConcreteMove>, seats: int, seat: int, at: int)
    requires
        0 <= at < moves.len(),
        seat == at % seats,
    ensures
        spec_next_move(spec_dealt_from(moves, seats, seat, at)) == moves[at].spec_request(),
        spec_moves_left(spec_dealt_from(moves, seats, seat, at)) == spec_dealt_from(
            moves,
            seats,
            seat,
            at + 1,
        ),
{
    let rest = spec_dealt_from(moves, seats, seat, at + 1);
    let all = spec_dealt_from(moves, seats, seat, at);
    assert(all == seq![moves[at].spec_request()] + rest);
    assert(spec_moves_left(all) =~= rest);
}

/// A match that is played again follows the match that was played: from the
/// state after `at` moves, with the tiles and the moves that are left, it
/// runs to the end of that match.
pub proof fn lemma_replay_follows(
    states: Seq<RefereeView>,
    moves: Seq<ConcreteMove>,
    tiles: Seq<TileData>,
    owners: Seq<Player>,
    at: int,
    now: RefereeView,
    queues: Seq<Seq<MoveRequest>>,
)
    requires
        is_play(states, moves),
        tiles.len() == moves.len() <= usize::MAX,
        forall|i: int| 0 <= i < moves.len() ==> #[trigger] tiles[i] == moves[i].tile_data,
        0 < owners.len() <= PLAYER_COUNT,
        owners.no_duplicates(),
        0 <= at <= moves.len(),
        now.same_but_bag(states[at]),
        now.bag == spec_bag_from(tiles, at),
        now.turn_order == owners,
        now.turn_idx == at % (owners.len() as int),
        queues.len() == owners.len(),
        forall|seat: int|
            0 <= seat < owners.len() ==> #[trigger] queues[seat] == spec_dealt_from(
                moves,
                owners.len() as int,
                seat,
                at,
            ),
    ensures
        spec_replay_from(now, queues, owners) matches Ok(end) && end.same_but_bag(states.last())
            && end.bag.top() is None,
    decreases moves.len() - at,
{
    let seats = owners.len() as int;
    lemma_bag_from(tiles, at);
    if at == moves.len() {
        assert(spec_ready(now) == now);
    } else {
        let made = moves[at];
        let request = made.spec_request();
        let seat = at % seats;
        let next = spec_after_turn(now, request);
        let dealt = queues.update(seat, spec_moves_left(queues[seat]));
        assert(tiles[at] == made.tile_data);
        assert(is_turn(states[at], made, states[at + 1]));
        lemma_same_turn(states[at], now, made, states[at + 1]);
        lemma_taken_tile_fits(now, request);
        assert(is_seat_of(owners, now.player(), seat));
        lemma_next_of_the_dealt(moves, seats, seat, at);
        lemma_replay_step(now, queues, owners, seat, request);
        lemma_turn_goes_round(now, request);
        assert(next.turn_idx == (at + 1) % seats) by {
            if seats != 1 {
                vstd::arithmetic::div_mod::lemma_add_mod_noop(at, 1, seats);
                vstd::arithmetic::div_mod::lemma_small_mod(1, seats as nat);
            }
        }
        assert forall|other: int| 0 <= other < owners.len() implies #[trigger] dealt[other]
            == spec_dealt_from(moves, seats, other, at + 1) by {
            if other != seat {
                assert(queues[other] == spec_dealt_from(moves, seats, other, at));
            }
        }
        lemma_replay_follows(states, moves, tiles, owners, at + 1, next, dealt);
    }
}

/// The players of a list of owners come each once, and they are their own
/// players: to take the players of the players changes nothing.
pub proof fn lemma_players_come_once(owners: Seq<Player>)
    ensures
        spec_players_of(owners, PLAYER_COUNT as int).no_duplicates(),
        spec_players_of(owners, PLAYER_COUNT as int).len() <= PLAYER_COUNT,
        spec_players_of(spec_players_of(owners, PLAYER_COUNT as int), PLAYER_COUNT as int)
            == spec_players_of(owners, PLAYER_COUNT as int),
{
    reveal_with_fuel(spec_players_of, 3);
    let players = spec_players_of(owners, PLAYER_COUNT as int);
    let white = Player::spec_from_index(0);
    let black = Player::spec_from_index(1);
    if owners.contains(white) {
        if owners.contains(black) {
            assert(players =~= seq![white, black]);
            assert(players[0] == white && players[1] == black);
        } else {
            assert(players =~= seq![white]);
            assert(players[0] == white);
            assert(!players.contains(black));
        }
    } else {
        if owners.contains(black) {
            assert(players =~= seq![black]);
            assert(players[0] == black);
            assert(!players.contains(white));
        } else {
            assert(players =~= Seq::<Player>::empty());
            assert(!players.contains(white));
            assert(!players.contains(black));
        }
    }
    assert(spec_players_of(players, PLAYER_COUNT as int) =~= players);
}

/// A match that was played to its end and recorded ends with the same
/// result when it is played again from its record: the tiles of the record
/// are drawn one by one, none is thrown away, the referee takes every move of
/// the record, and the scores at the end are those of the match.
///
/// The record has to hold the players as a match records them: each once, in
/// the order of the players.
pub proof fn lemma_replay_reproduces(record: Replay, bag: BagView, result: Map<Player, u64>)
    requires
        record.turn_order@.len() > 0,
        record.turn_order@ == spec_players_of(record.turn_order@, PLAYER_COUNT as int),
        is_outcome(record.turn_order@, bag, result, record.moves@),
    ensures
        record.spec_replayed() matches Ok(end) && is_final_result(result, end),
{
    let owners = record.turn_order@;
    let moves = record.moves@;
    let seats = owners.len() as int;
    let first = RefereeState::spec_initial(owners, bag);
    let ended = choose|end: RefereeView| #[trigger]
        is_match(first, moves, end) && end.wf() && is_final_result(result, end);
    let states = choose|states: Seq<RefereeView>| #[trigger]
        is_play(states, moves) && states[0] == first && ended.same_but_bag(states.last())
            && all_from(ended.bag.data, states.last().bag.data) && ended.bag.top() is None;
    let now = RefereeState::spec_initial(owners, record.spec_bag());
    let dealt = spec_dealt(moves, seats, moves.len() as int);
    lemma_players_come_once(owners);
    assert(record.spec_tiles().subrange(0, record.spec_tiles().len() as int)
        =~= record.spec_tiles());
    assert(now.bag == spec_bag_from(record.spec_tiles(), 0));
    assert forall|seat: int| 0 <= seat < seats implies #[trigger] dealt[seat] == spec_dealt_from(
        moves,
        seats,
        seat,
        0,
    ) by {
        lemma_dealt_in_order(moves, seats, seat, moves.len() as int);
        assert(dealt[seat] + Seq::<MoveRequest>::empty() =~= dealt[seat]);
    }
    lemma_dealt_in_order(moves, seats, 0, moves.len() as int);
    assert(record.moves.len() == moves.len());
    lemma_replay_follows(states, moves, record.spec_tiles(), owners, 0, now, dealt);
    let end = record.spec_replayed()->Ok_0;
    assert(end.same_but_bag(ended));
    assert(spec_final_scores(
        end,
        players_part(spec_points_table(spec_standing(end.board))),
    ) == spec_final_scores(
        ended,
        players_part(spec_points_table(spec_standing(ended.board))),
    ));
}

/// Plays a number of matches between two bots that play any legal move, and
/// says how many came to their end: all of them, as the referee takes every
/// legal move.
pub fn random_match(n: u64) -> (played: u64)
    ensures
        played == n,
{
    let mut played: u64 = 0;
    for _i in 0..n
        invariant
            played == _i,
    {
        let mut bots: Vec<RandomBot> = Vec::new();
        bots.push(RandomBot::new(Player::White));
        bots.push(RandomBot::new(Player::Black));
        match Match::play(bots) {
            Ok(ended) => {
                let _winners = ended.0.get_winners();
                played += 1;
            },
            Err(_) => {},
        }
    }
    played
}

} // verus!
