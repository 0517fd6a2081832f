use crate::board::Coordinate;
use crate::bots::bot::{Bot, MoveRequest};
use crate::legality::{placement_fits, spec_is_legal_move};
use crate::player::{Player, PLAYER_COUNT};
use crate::referee::RefereeState;
use crate::rng::{coin_flip, random_seed, seeded_rng};
use crate::scoring::{spec_feature_score_data, spec_points_table, table_is};
use crate::tile::{Rotation, TileData};
use rand::rngs::StdRng;
use vstd::prelude::*;

verus! {

/// The tile of a move as it would lie on the board: turned, and with the
/// meeple of the player on it if the move asks for one.
pub open spec fn spec_placed(tile: TileData, request: MoveRequest, owner: Player) -> TileData {
    let turned = tile.spec_with_rotation(request.rotation);
    match request.meeple {
        Some(location) => turned.spec_with_meeple(location, Some(owner)),
        None => turned,
    }
}

/// What a table of points gives to a player, nothing where it has no entry.
pub open spec fn points_for(table: Map<Option<Player>, nat>, owner: Player) -> int {
    if table.contains_key(Some(owner)) {
        table[Some(owner)] as int
    } else {
        0
    }
}

/// What a table of points is worth to a player, counting the first `n`
/// players: the points of the player, less the points of every other.
pub open spec fn worth_to(table: Map<Option<Player>, nat>, owner: Player, n: int) -> int
    decreases n,
{
    if n <= 0 || n > PLAYER_COUNT {
        0
    } else {
        let other = Player::spec_from_index(n - 1);
        worth_to(table, owner, n - 1) + if other == owner {
            points_for(table, other)
        } else {
            -points_for(table, other)
        }
    }
}

/// What a move is worth to a player at once: what it would score for the
/// player, less what it would score for the others.
pub open spec fn spec_move_value(
    tiles: Map<Coordinate, TileData>,
    tile: TileData,
    request: MoveRequest,
    owner: Player,
) -> int {
    worth_to(
        spec_points_table(
            spec_feature_score_data(tiles, request.coord, spec_placed(tile, request, owner)),
        ),
        owner,
        PLAYER_COUNT as int,
    )
}

/// One of the moves of a list that are worth the most, where the worth of
/// each move stands at the same place of a second list. Among several such
/// moves, chance decides.
pub fn choose_best(moves: &Vec<MoveRequest>, values: &Vec<i64>, rng: &mut StdRng) -> (best: usize)
    requires
        moves@.len() > 0,
        values@.len() == moves@.len(),
    ensures
        best < moves@.len(),
        forall|k: int| 0 <= k < values@.len() ==> values@[k] <= values@[best as int],
{
    let mut best: usize = 0;
    let mut i: usize = 1;
    while i < moves.len()
        invariant
            1 <= i <= moves@.len(),
            values@.len() == moves@.len(),
            best < i,
            forall|k: int| 0 <= k < i ==> values@[k] <= values@[best as int],
        decreases moves.len() - i,
    {
        if values[i] > values[best] {
            best = i;
        } else if values[i] == values[best] {
            if coin_flip(rng) {
                best = i;
            }
        }
        i += 1;
    }
    best
}

/// A bot that plays a move that is worth the most at once.
pub struct GreedyBot {
    pub own_player: Player,
    rng: StdRng,
}

impl GreedyBot {
    /// The player for whom the bot plays.
    pub closed spec fn spec_own_player(&self) -> Player {
        self.own_player
    }

    pub fn new(player: Player) -> (bot: Self)
        ensures
            bot.spec_own_player() == player,
    {
        GreedyBot { own_player: player, rng: seeded_rng(random_seed()) }
    }

    /// What a move is worth to the player of the bot at once.
    pub fn value_of(&self, state: &RefereeState, tile: &TileData, request: &MoveRequest) -> (value:
        i64)
        requires
            tile.meeple_locations == crate::tile::MeepleSlots::spec_empty(),
        ensures
            value == spec_move_value(state@.board, *tile, *request, self.spec_own_player()),
    {
        let mut placed = tile.with_rotation(request.rotation);
        if let Some(location) = request.meeple {
            let put = placed.place_meeple(&location, &self.own_player);
            assert(put is Ok);
        }
        let points = state.board.as_user().get_completion_points(&request.coord, &placed);
        let ghost table = spec_points_table(
            spec_feature_score_data(state@.board, request.coord, placed),
        );
        let mut total: i64 = 0;
        for i in 0..PLAYER_COUNT
            invariant
                table_is(points@, table),
                forall|bucket: Option<Player>| #[trigger]
                    points@.contains_key(bucket) ==> points@[bucket] <= 13 * 262144,
                table == spec_points_table(
                    spec_feature_score_data(state@.board, request.coord, placed),
                ),
                total == worth_to(table, self.own_player, i as int),
                -3407872 * i <= total <= 3407872 * i,
        {
            let player = Player::from_index(i);
            let gained: i64 = match points.get(&Some(player)) {
                Some(gained) => *gained as i64,
                None => 0,
            };
            if player == self.own_player {
                total += gained;
            } else {
                total -= gained;
            }
        }
        total
    }
}

impl Bot for GreedyBot {
    /// The bot goes by the reserve of its own player, which need not be the
    /// player whose turn it is.
    open spec fn keeps_to_rules(&self) -> bool {
        false
    }

    fn get_own_player(&self) -> (player: Player)
        ensures
            player == self.spec_own_player(),
    {
        self.own_player
    }

    fn get_name(&self) -> (name: String)
        ensures
            name@ == "greedy bot"@,
    {
        "greedy bot".to_string()
    }

    /// A legal move that is worth no less at once than any other legal move.
    /// Among several such moves, chance decides.
    fn get_move(&mut self, state: &RefereeState) -> (request: MoveRequest)
        ensures
            final(self).spec_own_player() == old(self).spec_own_player(),
            spec_is_legal_move(
                state@.board,
                state@.drawn().unwrap(),
                greedy_can_place(state, old(self).spec_own_player()),
                request,
            ),
            forall|other: MoveRequest|
                spec_is_legal_move(
                    state@.board,
                    state@.drawn().unwrap(),
                    greedy_can_place(state, old(self).spec_own_player()),
                    other,
                ) ==> spec_move_value(
                    state@.board,
                    state@.drawn().unwrap(),
                    other,
                    old(self).spec_own_player(),
                ) <= spec_move_value(
                    state@.board,
                    state@.drawn().unwrap(),
                    request,
                    old(self).spec_own_player(),
                ),
    {
        let tile = match state.drawn() {
            Ok(tile) => tile,
            Err(_) => {
                proof {
                    assert(false);
                }
                return MoveRequest::default();
            },
        };
        let can_place = match state.player_meeples.get(&self.own_player) {
            Some(count) => *count > 0,
            None => false,
        };
        let moves = state.board.as_user().get_legal_moves(&tile, can_place);
        let ghost tiles = state@.board;
        let ghost owner = self.own_player;
        proof {
            let found = choose|coord: Coordinate, rotation: Rotation| #[trigger]
                placement_fits(tiles, tile, coord, rotation);
            let plain = MoveRequest { coord: found.0, rotation: found.1, meeple: None };
            assert(moves@.contains(plain));
        }
        let mut values: Vec<i64> = Vec::new();
        for i in 0..moves.len()
            invariant
                self.own_player == owner,
                tiles == state@.board,
                tile.meeple_locations == crate::tile::MeepleSlots::spec_empty(),
                values@.len() == i,
                forall|k: int|
                    0 <= k < i ==> #[trigger] values@[k] == spec_move_value(
                        tiles,
                        tile,
                        moves@[k],
                        owner,
                    ),
        {
            let value = self.value_of(state, &tile, &moves[i]);
            values.push(value);
        }
        let chosen = choose_best(&moves, &values, &mut self.rng);
        let best = moves[chosen];
        proof {
            assert(moves@.contains(moves@[chosen as int]));
            assert forall|other: MoveRequest|
                spec_is_legal_move(tiles, tile, can_place, other) implies spec_move_value(
                tiles,
                tile,
                other,
                owner,
            ) <= spec_move_value(tiles, tile, best, owner) by {
                assert(moves@.contains(other));
                let k = choose|k: int| 0 <= k < moves@.len() && moves@[k] == other;
                assert(values@[k] <= values@[chosen as int]);
            }
        }
        best
    }
}

/// Whether the player of a greedy bot has a meeple to place.
pub open spec fn greedy_can_place(state: &RefereeState, owner: Player) -> bool {
    state@.meeples.contains_key(owner) && state@.meeples[owner] > 0
}

} // verus!
