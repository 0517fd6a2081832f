//! The referee: whose turn it is, what the turn is waiting for, the scores and
//! the meeples, and what each move does to them.

use crate::board::{
    BoardData,
    ConcreteBoard,
    Coordinate,
    edges_agree,
    lemma_cleared,
    lemma_empty_board_agrees,
    lemma_empty_board_fits,
    lemma_fitting_tile_keeps_fit,
    lemma_meeple_keeps_agreement,
    lemma_placing_keeps_agreement,
    lemma_removal_keeps_agreement,
    lemma_removal_keeps_fit,
    lemma_with_meeple,
    meeples_among,
    meeples_fit,
    Side,
    spec_features_match,
    spec_legal_tiles,
    tile_fits,
    without_meeples,
};
use crate::bots::bot::MoveRequest;
use crate::error::{GameError, MessageResult};
use crate::feature::{meeple_on, owned_by, ScoringView};
use crate::keys::{lemma_all_keys_finite, KeyMap};
use crate::legality::{spec_is_legal_move, spec_legal_meeple};
pub use crate::player::Player;
use crate::player::{lemma_player_index_roundtrip, PLAYER_COUNT};
use crate::scoring::{
    bucket_credited, bucket_points, lemma_bucket_points_bound, lemma_bucket_without_credit,
    spec_feature_score_data, spec_points_table, table_is, views_of,
};
use crate::tile::{MeepleSlots, Rotation, TileClickTarget, TileData};
use crate::tilebag::{is_after_pull, BagView, LegalTileBag, TileBag, TileBagEnum};
use vstd::prelude::*;

verus! {

/// How many meeples a player starts with.
pub const INITIAL_MEEPLES: u8 = 7;

/// The most that one placement can give to one player.
pub const MAX_POINTS_PER_TURN: u64 = 3407872;

/// The slots of a board that carry a meeple of a given player.
pub open spec fn owned_sides(tiles: Map<Coordinate, TileData>, owner: Player) -> Set<Side> {
    Set::new(owned_by(tiles, owner))
}

/// How many meeples of a player stand on a board.
pub open spec fn meeples_on_board(tiles: Map<Coordinate, TileData>, owner: Player) -> nat {
    owned_sides(tiles, owner).len()
}

/// A tile as it enters the board: without meeples.
pub open spec fn spec_bare(tile: TileData) -> TileData {
    TileData { meeple_locations: MeepleSlots::spec_empty(), ..tile }
}

/// Whether the drawn tile may go to a place of a board. On an empty board it
/// may go anywhere; otherwise the place must be empty and touch a tile, and
/// the tile must agree with its neighbours.
pub open spec fn spec_legal_placement(
    tiles: Map<Coordinate, TileData>,
    coord: Coordinate,
    tile: TileData,
) -> MessageResult<()> {
    if tiles.dom() == Set::<Coordinate>::empty() {
        Ok(())
    } else if !spec_legal_tiles(tiles).contains(coord) {
        Err(GameError::NoConnectingTile)
    } else if !spec_features_match(tiles, coord, tile) {
        Err(GameError::FeaturesDontMatch)
    } else {
        Ok(())
    }
}

/// What a referee knows.
pub struct RefereeView {
    pub bag: BagView,
    pub board: Map<Coordinate, TileData>,
    pub turn_order: Seq<Player>,
    pub turn_idx: usize,
    pub is_placing_meeple: bool,
    pub placing_tile: Option<Coordinate>,
    pub scores: Map<Player, u64>,
    pub meeples: Map<Player, u8>,
}

/// The scores after the entries of a placement are credited: every player who
/// scores gets the points of the entries that count for that player.
pub open spec fn credited(scores: Map<Player, u64>, data: Seq<ScoringView>) -> Map<Player, u64> {
    Map::new(
        |owner: Player|
            scores.contains_key(owner) || bucket_credited(data, data.len() as int, Some(owner)),
        |owner: Player|
            ((if scores.contains_key(owner) {
                scores[owner] as nat
            } else {
                0nat
            }) + bucket_points(data, data.len() as int, Some(owner))) as u64,
    )
}

/// The reserves after the meeples on the slots of `sides` have come back from
/// a board: every player with a reserve gets back the meeples of that player.
pub open spec fn returned(
    meeples: Map<Player, u8>,
    tiles: Map<Coordinate, TileData>,
    sides: Set<Side>,
) -> Map<Player, u8> {
    Map::new(
        |owner: Player| meeples.contains_key(owner),
        |owner: Player| (meeples[owner] + meeples_among(tiles, sides, owner)) as u8,
    )
}

/// The board and the reserves after the meeples of the complete features
/// among the first `n` entries have come back, entry by entry.
pub open spec fn after_removals(
    tiles: Map<Coordinate, TileData>,
    meeples: Map<Player, u8>,
    data: Seq<ScoringView>,
    n: int,
) -> (Map<Coordinate, TileData>, Map<Player, u8>)
    decreases n,
{
    if n <= 0 || n > data.len() {
        (tiles, meeples)
    } else {
        let before = after_removals(tiles, meeples, data, n - 1);
        if data[n - 1].completed {
            (
                without_meeples(before.0, data[n - 1].removal_candidate),
                returned(before.1, before.0, data[n - 1].removal_candidate),
            )
        } else {
            before
        }
    }
}

impl RefereeView {
    /// The player whose turn it is.
    pub open spec fn player(self) -> Player {
        self.turn_order[self.turn_idx as int]
    }

    /// The tile that is placed next, as it enters the board.
    pub open spec fn drawn(self) -> Option<TileData> {
        match self.bag.top() {
            Some(tile) => Some(spec_bare(tile)),
            None => None,
        }
    }

    /// What is scored for the tile that was placed last.
    pub open spec fn pending_scores(self) -> Seq<ScoringView> {
        spec_feature_score_data(
            self.board,
            self.placing_tile.unwrap(),
            self.board[self.placing_tile.unwrap()],
        )
    }

    /// The end of a turn: the placement is scored, the meeples of every
    /// feature that it completed come back, and the next player is up.
    pub open spec fn finish_turn(self) -> RefereeView {
        let data = self.pending_scores();
        let cleared = after_removals(self.board, self.meeples, data, data.len() as int);
        RefereeView {
            board: cleared.0,
            meeples: cleared.1,
            scores: credited(self.scores, data),
            turn_idx: ((self.turn_idx + 1) % (self.turn_order.len() as int)) as usize,
            is_placing_meeple: false,
            placing_tile: None,
            ..self
        }
    }

    /// Whether the drawn tile may go to `coord` turned to `rotation`, and why not.
    pub open spec fn check_tile(self, coord: Coordinate, rotation: Rotation) -> MessageResult<()> {
        match self.drawn() {
            None => Err(GameError::EmptyBag),
            Some(tile) => spec_legal_placement(
                self.board,
                coord,
                tile.spec_with_rotation(rotation),
            ),
        }
    }

    /// The state after the drawn tile has gone to `coord`, but for the bag.
    pub open spec fn with_tile(self, coord: Coordinate, rotation: Rotation) -> RefereeView {
        RefereeView {
            board: self.board.insert(coord, self.drawn().unwrap().spec_with_rotation(rotation)),
            is_placing_meeple: true,
            placing_tile: Some(coord),
            ..self
        }
    }

    /// Whether the player may put a meeple on a slot of the tile that was
    /// placed last, and why not.
    pub open spec fn check_meeple(self, coord: Coordinate, location: TileClickTarget) -> MessageResult<
        (),
    > {
        if !self.meeples.contains_key(self.player()) || self.meeples[self.player()] == 0 {
            Err(GameError::OutOfMeeples)
        } else if self.placing_tile != Some(coord) {
            Err(GameError::NoTilePresent)
        } else {
            spec_legal_meeple(self.board, coord, location)
        }
    }

    /// The state after the player has put a meeple on a slot of the tile at `coord`.
    pub open spec fn with_meeple(self, coord: Coordinate, location: TileClickTarget) -> RefereeView {
        RefereeView {
            board: self.board.insert(
                coord,
                self.board[coord].spec_with_meeple(location, Some(self.player())),
            ),
            meeples: self.meeples.insert(
                self.player(),
                (self.meeples[self.player()] - 1) as u8,
            ),
            ..self
        }
    }

    /// Whether a whole move is accepted, and why not: first the tile, then
    /// the meeple if one is asked for.
    pub open spec fn check_move(self, request: MoveRequest) -> MessageResult<()> {
        match self.check_tile(request.coord, request.rotation) {
            Err(error) => Err(error),
            Ok(_) => match request.meeple {
                None => Ok(()),
                Some(location) => self.with_tile(request.coord, request.rotation).check_meeple(
                    request.coord,
                    location,
                ),
            },
        }
    }

    /// The state after a whole move, but for the bag.
    pub open spec fn after_move(self, request: MoveRequest) -> RefereeView {
        let placed = self.with_tile(request.coord, request.rotation);
        match request.meeple {
            None => placed.finish_turn(),
            Some(location) => placed.with_meeple(request.coord, location).finish_turn(),
        }
    }

    /// Whether two states differ at most in their bags.
    pub open spec fn same_but_bag(self, other: RefereeView) -> bool {
        self == (RefereeView { bag: self.bag, ..other })
    }
}

/// The state of a match.
pub struct RefereeState {
    pub tilebag: TileBagEnum,
    pub board: ConcreteBoard,
    pub turn_order: Vec<Player>,
    pub turn_idx: usize,
    pub is_placing_meeple: bool,
    pub player_scores: KeyMap<Player, u64>,
    pub placing_tile: Option<Coordinate>,
    pub player_meeples: KeyMap<Player, u8>,
}

impl View for RefereeState {
    type V = RefereeView;

    open spec fn view(&self) -> RefereeView {
        RefereeView {
            bag: self.tilebag@,
            board: self.board@,
            turn_order: self.turn_order@,
            turn_idx: self.turn_idx,
            is_placing_meeple: self.is_placing_meeple,
            placing_tile: self.placing_tile,
            scores: self.player_scores@,
            meeples: self.player_meeples@,
        }
    }
}

impl RefereeView {
    /// How many tiles on the board have been scored.
    pub open spec fn scored_tiles(self) -> int {
        if self.is_placing_meeple {
            self.board.dom().len() - 1
        } else {
            self.board.dom().len() as int
        }
    }

    /// What holds of the state of a match between any two calls:
    /// there is a player whose turn it is; a tile waits to be scored exactly
    /// while a meeple is awaited, it lies on the board, and it carries no
    /// meeple yet; every tile on the board agrees with its neighbours and
    /// carries at most one meeple, on a slot that takes one; every player of
    /// the match has a reserve; the meeples of a player in the reserve and on the board are
    /// together as many as the player started with; and no score is higher
    /// than the scored tiles can have given.
    pub open spec fn wf(self) -> bool {
        &&& self.settled()
        &&& self.placing_tile is Some ==> self.board[self.placing_tile.unwrap()].meeple_locations
            == MeepleSlots::spec_empty()
    }

    /// What holds of the state of a match at any time, also between the
    /// placing of a meeple and the end of the turn.
    pub open spec fn settled(self) -> bool {
        &&& self.bag.wf()
        &&& edges_agree(self.board)
        &&& meeples_fit(self.board)
        &&& self.turn_order.len() > 0
        &&& self.turn_idx < self.turn_order.len()
        &&& self.is_placing_meeple <==> self.placing_tile is Some
        &&& self.placing_tile is Some ==> self.board.contains_key(self.placing_tile.unwrap())
        &&& forall|i: int|
            0 <= i < self.turn_order.len() ==> self.meeples.contains_key(
                #[trigger] self.turn_order[i],
            )
        &&& forall|owner: Player| #[trigger]
            self.meeples.contains_key(owner) ==> self.meeples[owner] + meeples_on_board(
                self.board,
                owner,
            ) == INITIAL_MEEPLES
        &&& forall|owner: Player| #[trigger]
            self.scores.contains_key(owner) ==> self.scores[owner] <= self.scored_tiles()
                * MAX_POINTS_PER_TURN
    }
}

/// The slots that carry a meeple of a player are finitely many.
pub proof fn lemma_owned_sides_finite(tiles: Map<Coordinate, TileData>, owner: Player)
    ensures
        owned_sides(tiles, owner).finite(),
{
    lemma_all_keys_finite::<Side>();
    vstd::set_lib::lemma_set_subset_finite(Set::<Side>::full(), owned_sides(tiles, owner));
}

/// A tile without meeples that goes to an empty place leaves the meeples on
/// the board as they were.
pub proof fn lemma_meeples_after_tile(
    tiles: Map<Coordinate, TileData>,
    coord: Coordinate,
    tile: TileData,
    owner: Player,
)
    requires
        !tiles.contains_key(coord),
        tile.meeple_locations == MeepleSlots::spec_empty(),
    ensures
        meeples_on_board(tiles.insert(coord, tile), owner) == meeples_on_board(tiles, owner),
{
    assert(owned_sides(tiles.insert(coord, tile), owner) =~= owned_sides(tiles, owner));
}

/// A meeple that goes on a free slot adds one to the meeples of its owner on
/// the board and leaves those of every other player as they were.
pub proof fn lemma_meeples_after_meeple(
    tiles: Map<Coordinate, TileData>,
    coord: Coordinate,
    location: TileClickTarget,
    placed_by: Player,
    owner: Player,
)
    requires
        tiles.contains_key(coord),
        tiles[coord].spec_meeple_at(location) is None,
    ensures
        meeples_on_board(
            tiles.insert(coord, tiles[coord].spec_with_meeple(location, Some(placed_by))),
            owner,
        ) == meeples_on_board(tiles, owner) + if owner == placed_by {
            1nat
        } else {
            0nat
        },
{
    let after = tiles.insert(coord, tiles[coord].spec_with_meeple(location, Some(placed_by)));
    lemma_owned_sides_finite(tiles, owner);
    assert forall|side: Side|
        meeple_on(after, side) == if side == (coord, location) {
            Some(placed_by)
        } else {
            meeple_on(tiles, side)
        } by {
        if side.0 == coord {
            lemma_with_meeple(tiles[coord], location, Some(placed_by), side.1);
        }
    }
    if owner == placed_by {
        assert(owned_sides(after, owner) =~= owned_sides(tiles, owner).insert((coord, location)));
    } else {
        assert(owned_sides(after, owner) =~= owned_sides(tiles, owner));
    }
}

/// Taking the meeples off the slots of a finite set takes from the meeples of
/// a player on the board those that stood on these slots.
pub proof fn lemma_meeples_after_removal(
    tiles: Map<Coordinate, TileData>,
    sides: Set<Side>,
    owner: Player,
)
    requires
        sides.finite(),
    ensures
        meeples_among(tiles, sides, owner) <= meeples_on_board(tiles, owner),
        meeples_on_board(without_meeples(tiles, sides), owner) == meeples_on_board(tiles, owner)
            - meeples_among(tiles, sides, owner),
{
    let after = without_meeples(tiles, sides);
    let owned = owned_sides(tiles, owner);
    lemma_owned_sides_finite(tiles, owner);
    assert forall|side: Side|
        meeple_on(after, side) == if sides.contains(side) {
            None
        } else {
            meeple_on(tiles, side)
        } by {
        if tiles.contains_key(side.0) {
            lemma_cleared(tiles[side.0], side.0, sides);
        }
    }
    assert(owned_sides(after, owner) =~= owned.difference(sides));
    vstd::set_lib::lemma_set_difference_len(owned, sides);
    assert(owned.intersect(sides) =~= sides.filter(owned_by(tiles, owner)));
}

/// What one placement credits to a player is no more than a turn can give.
pub proof fn lemma_turn_points(data: Seq<ScoringView>, owner: Player)
    requires
        data.len() <= 13,
        forall|i: int| 0 <= i < data.len() ==> (#[trigger] data[i]).points <= 262144,
    ensures
        bucket_points(data, data.len() as int, Some(owner)) <= MAX_POINTS_PER_TURN,
{
    lemma_bucket_points_bound(data, data.len() as int, Some(owner), 262144);
    assert(data.len() * 262144 <= 13 * 262144) by (nonlinear_arith)
        requires
            data.len() <= 13,
    ;
}

impl RefereeState {
    /// What holds of the state of a match between any two calls.
    pub open spec fn wf(&self) -> bool {
        self@.wf() && self.tilebag.wf()
    }

    /// What holds of the state of a match at any time.
    pub open spec fn settled(&self) -> bool {
        self@.settled() && self.tilebag.wf()
    }

    /// The state at the start of a match: an empty board, no scores, and
    /// every player with a full reserve.
    pub open spec fn spec_initial(players: Seq<Player>, bag: BagView) -> RefereeView {
        RefereeView {
            bag,
            board: Map::empty(),
            turn_order: players,
            turn_idx: 0,
            is_placing_meeple: false,
            placing_tile: None,
            scores: Map::new(|owner: Player| players.contains(owner), |owner: Player| 0u64),
            meeples: Map::new(
                |owner: Player| players.contains(owner),
                |owner: Player| INITIAL_MEEPLES,
            ),
        }
    }

    /// A match of the given players, in the order of their turns, with the
    /// given draw source.
    pub fn from_players(players: Vec<Player>, bag: TileBagEnum) -> (state: Self)
        requires
            players@.len() > 0,
            bag.wf(),
        ensures
            state.wf(),
            state@ == Self::spec_initial(players@, bag@),
            state.tilebag == bag,
    {
        let mut player_scores: KeyMap<Player, u64> = KeyMap::new();
        let mut player_meeples: KeyMap<Player, u8> = KeyMap::new();
        for i in 0..players.len()
            invariant
                forall|owner: Player| #[trigger]
                    player_scores@.contains_key(owner) <==> crate::seqs::among_first(
                        players@,
                        i as int,
                        owner,
                    ),
                forall|owner: Player| #[trigger]
                    player_scores@.contains_key(owner) ==> player_scores@[owner] == 0,
                forall|owner: Player| #[trigger]
                    player_meeples@.contains_key(owner) <==> crate::seqs::among_first(
                        players@,
                        i as int,
                        owner,
                    ),
                forall|owner: Player| #[trigger]
                    player_meeples@.contains_key(owner) ==> player_meeples@[owner]
                        == INITIAL_MEEPLES,
        {
            player_scores.insert(players[i], 0);
            player_meeples.insert(players[i], INITIAL_MEEPLES);
        }
        let ghost order = players@;
        proof {
            bag.lemma_wf();
        }
        let state = RefereeState {
            tilebag: bag,
            board: ConcreteBoard::default(),
            turn_order: players,
            turn_idx: 0,
            is_placing_meeple: false,
            player_scores,
            player_meeples,
            placing_tile: None,
        };
        proof {
            lemma_empty_board_agrees();
            lemma_empty_board_fits();
            assert forall|owner: Player|
                state@.scores.contains_key(owner) <==> order.contains(owner) by {
                crate::seqs::lemma_among_first(order, order.len() as int, owner);
            }
            assert(state@.scores =~= Self::spec_initial(order, state@.bag).scores);
            assert(state@.meeples =~= Self::spec_initial(order, state@.bag).meeples);
            assert forall|owner: Player| meeples_on_board(state@.board, owner) == 0 by {
                assert(owned_sides(state@.board, owner) =~= Set::<Side>::empty());
            }
            assert forall|i: int| 0 <= i < order.len() implies state@.meeples.contains_key(
                #[trigger] order[i],
            ) by {
                assert(order.contains(order[i]));
            }
        }
        state
    }

    /// The player whose turn it is.
    pub fn get_player(&self) -> (player: Player)
        requires
            self.wf(),
        ensures
            player == self@.player(),
    {
        self.turn_order[self.turn_idx]
    }

    /// The player whose turn comes next.
    pub fn get_next_player(&self) -> (player: Player)
        requires
            self.wf(),
        ensures
            player == self@.turn_order[(self@.turn_idx + 1) % (self@.turn_order.len() as int)],
    {
        let next: usize = if self.turn_idx == self.turn_order.len() - 1 {
            0
        } else {
            self.turn_idx + 1
        };
        proof {
            lemma_next_turn(self.turn_idx as int, self.turn_order@.len() as int);
        }
        self.turn_order[next]
    }

    /// How many meeples the player whose turn it is has in reserve.
    pub fn reserve(&self) -> (count: u8)
        requires
            self.wf(),
        ensures
            self@.meeples.contains_key(self@.player()),
            count == self@.meeples[self@.player()],
            count <= INITIAL_MEEPLES,
    {
        let player = self.get_player();
        assert(self@.meeples.contains_key(self@.turn_order[self.turn_idx as int]));
        match self.player_meeples.get(&player) {
            Some(count) => *count,
            None => 0,
        }
    }

    /// The tile that is placed next, as it enters the board: without meeples.
    pub fn drawn(&self) -> (tile: MessageResult<TileData>)
        requires
            self.wf(),
        ensures
            match tile {
                Ok(tile) => self@.drawn() == Some(tile),
                Err(error) => self@.drawn() is None && error == GameError::EmptyBag,
            },
    {
        match self.tilebag.peek() {
            Ok(tile) => {
                let mut bare = *tile;
                bare.meeple_locations = MeepleSlots::empty();
                Ok(bare)
            },
            Err(error) => Err(error),
        }
    }

    /// Whether a tile may go to a place of the board, and why not.
    pub fn is_legal_placement(&self, coord: Coordinate, tile: &TileData) -> (legal: MessageResult<
        (),
    >)
        ensures
            legal == spec_legal_placement(self.board@, coord, *tile),
    {
        let user = self.board.as_user();
        let placed = user.tiles_placed();
        proof {
            if placed == 0 {
                self.board@.dom().lemma_len0_is_empty();
                assert(self.board@.dom() =~= Set::<Coordinate>::empty());
            } else {
                assert(self.board@.dom() != Set::<Coordinate>::empty());
            }
        }
        if placed == 0 {
            return Ok(());
        }
        let legal_tiles = user.get_legal_tiles();
        if !legal_tiles.contains(&coord) {
            return Err(GameError::NoConnectingTile);
        }
        if !user.is_features_match(&coord, tile) {
            return Err(GameError::FeaturesDontMatch);
        }
        Ok(())
    }

    /// Whether a meeple may be put on a slot of a tile of the board.
    pub fn is_legal_meeple_placement(&self, coord: Coordinate, target: &TileClickTarget) -> (legal:
        bool)
        ensures
            legal == spec_legal_meeple(self.board@, coord, *target) is Ok,
    {
        self.board.as_user().is_legal_meeple(&coord, *target).is_ok()
    }

    /// Every legal move of the player whose turn it is with the tile that is
    /// drawn next.
    pub fn get_legal_moves(&self) -> (moves: Vec<MoveRequest>)
        requires
            self.wf(),
            self@.drawn() is Some,
        ensures
            moves@.no_duplicates(),
            forall|request: MoveRequest|
                moves@.contains(request) <==> spec_is_legal_move(
                    self@.board,
                    self@.drawn().unwrap(),
                    self@.meeples[self@.player()] > 0,
                    request,
                ),
    {
        let board_user = self.board.as_user();
        let can_place = self.reserve() > 0;
        match self.drawn() {
            Ok(tile) => board_user.get_legal_moves(&tile, can_place),
            Err(_) => {
                proof {
                    assert(false);
                }
                Vec::new()
            },
        }
    }

    /// Places the drawn tile. The turn then waits for a meeple or for the
    /// word that none is placed.
    pub fn handle_tile_placement(&mut self, coord: Coordinate, rotation: Rotation) -> (placed:
        MessageResult<()>)
        requires
            old(self).wf(),
            !old(self).is_placing_meeple,
        ensures
            final(self).wf(),
            placed == old(self)@.check_tile(coord, rotation),
            placed is Err ==> final(self)@ == old(self)@,
            placed is Ok ==> final(self)@.same_but_bag(old(self)@.with_tile(coord, rotation))
                && is_after_pull(
                old(self)@.bag,
                final(self)@.bag,
                old(self).tilebag.draws_in_order(),
            ),
            final(self).tilebag.draws_in_order() == old(self).tilebag.draws_in_order(),
    {
        let next = match self.drawn() {
            Ok(tile) => tile.with_rotation(rotation),
            Err(error) => {
                return Err(error);
            },
        };
        match self.is_legal_placement(coord, &next) {
            Ok(_) => {},
            Err(error) => {
                return Err(error);
            },
        }
        let ghost before = self@;
        proof {
            self.board.lemma_finite();
            if before.board.dom() != Set::<Coordinate>::empty() {
                assert(spec_legal_tiles(before.board).contains(coord));
            }
            assert(!before.board.contains_key(coord));
            if before.board.dom() == Set::<Coordinate>::empty() {
                assert(spec_features_match(before.board, coord, next));
            }
            lemma_placing_keeps_agreement(before.board, coord, next);
            assert(tile_fits(next));
            lemma_fitting_tile_keeps_fit(before.board, coord, next);
            assert forall|owner: Player|
                meeples_on_board(before.board.insert(coord, next), owner) == meeples_on_board(
                    before.board,
                    owner,
                ) by {
                lemma_meeples_after_tile(before.board, coord, next, owner);
            }
        }
        self.tilebag.pull();
        self.board.set(coord, next);
        self.is_placing_meeple = true;
        self.placing_tile = Some(coord);
        proof {
            self.tilebag.lemma_wf();
            assert(self@.board.dom() =~= before.board.dom().insert(coord));
        }
        Ok(())
    }

    /// Throws away the tiles that can go nowhere on the board until the next
    /// tile can be placed or no tile is left, and says which of the two it is.
    pub fn ensure_legal_draw(&mut self) -> (legal: bool)
        requires
            old(self).wf(),
        ensures
            final(self).wf(),
            final(self)@.same_but_bag(old(self)@),
            final(self).tilebag.draws_in_order() == old(self).tilebag.draws_in_order(),
            legal <==> final(self)@.bag.top() is Some,
            legal ==> crate::legality::spec_legal_move_exists(
                final(self)@.board,
                final(self)@.bag.top().unwrap(),
            ),
            legal <==> !crate::tilebag::none_fits(old(self)@.bag.data, old(self)@.board),
            crate::tilebag::all_from(final(self)@.bag.data, old(self)@.bag.data),
            final(self)@.bag.data.len() <= old(self)@.bag.data.len(),
            old(self)@.bag.top() is Some && crate::legality::spec_legal_move_exists(
                old(self)@.board,
                old(self)@.bag.top().unwrap(),
            ) ==> final(self)@ == old(self)@,
            old(self).tilebag.draws_in_order() ==> final(self)@.bag
                == crate::tilebag::spec_discarded(old(self)@.bag, old(self)@.board),
    {
        let ghost before = self@;
        let legal = self.tilebag.ensure_legal_draw(&self.board.as_user());
        proof {
            self.tilebag.lemma_wf();
            assert(self@.meeples == before.meeples);
            assert(self@.board == before.board);
            assert(self@.scores == before.scores);
            assert(self@.turn_order == before.turn_order);
            assert forall|owner: Player| #[trigger]
                self@.meeples.contains_key(owner) implies self@.meeples[owner]
                + meeples_on_board(self@.board, owner) == INITIAL_MEEPLES by {
                assert(before.meeples.contains_key(owner));
            }
            assert forall|owner: Player| #[trigger]
                self@.scores.contains_key(owner) implies self@.scores[owner]
                <= self@.scored_tiles() * MAX_POINTS_PER_TURN by {
                assert(before.scores.contains_key(owner));
            }
            assert forall|i: int| 0 <= i < self@.turn_order.len() implies self@.meeples.contains_key(
                #[trigger] self@.turn_order[i],
            ) by {
                assert(before.meeples.contains_key(before.turn_order[i]));
            }
        }
        legal
    }

    /// Credits the placement that waits to be scored and brings back the
    /// meeples of every feature that it completed.
    fn score_placement(&mut self)
        requires
            old(self).settled(),
            old(self).is_placing_meeple,
        ensures
            final(self)@ == (RefereeView {
                turn_idx: old(self)@.turn_idx,
                is_placing_meeple: true,
                placing_tile: old(self)@.placing_tile,
                ..old(self)@.finish_turn()
            }),
            final(self).tilebag == old(self).tilebag,
            final(self)@.board.dom() == old(self)@.board.dom(),
            edges_agree(final(self)@.board),
            meeples_fit(final(self)@.board),
            forall|owner: Player| #[trigger]
                final(self)@.meeples.contains_key(owner) ==> final(self)@.meeples[owner]
                    + meeples_on_board(final(self)@.board, owner) == INITIAL_MEEPLES,
            forall|owner: Player| #[trigger]
                final(self)@.scores.contains_key(owner) ==> final(self)@.scores[owner] <= (old(
                    self,
                )@.scored_tiles() + 1) * MAX_POINTS_PER_TURN,
            forall|owner: Player|
                final(self)@.meeples.contains_key(owner) <==> old(self)@.meeples.contains_key(
                    owner,
                ),
    {
        let coord = match self.placing_tile {
            Some(coord) => coord,
            None => {
                proof {
                    assert(false);
                }
                return ;
            },
        };
        let tile = match self.board.at(&coord) {
            Some(tile) => *tile,
            None => {
                proof {
                    assert(false);
                }
                return ;
            },
        };
        let ghost start = self@;
        let ghost data = start.pending_scores();
        let score_data = self.board.as_user().get_feature_score_data(&coord, &tile);
        let points = self.board.as_user().get_points_from_score_data(&score_data);
        proof {
            assert(start.board.insert(coord, tile) =~= start.board);
            assert(views_of(score_data@) == data);
            assert forall|i: int| 0 <= i < data.len() implies (#[trigger] data[i]).points
                <= 262144 by {
                assert(data[i] == score_data@[i]@);
            }
            self.board.lemma_finite();
            assert(start.scored_tiles() >= 0) by {
                assert(start.board.dom().contains(coord));
                if start.board.dom().len() == 0 {
                    start.board.dom().lemma_len0_is_empty();
                }
            }
        }
        for i in 0..PLAYER_COUNT
            invariant
                self.tilebag == old(self).tilebag,
                self@ == (RefereeView { scores: self@.scores, ..start }),
                start == old(self)@,
                data == start.pending_scores(),
                data.len() <= 13,
                forall|i: int| 0 <= i < data.len() ==> (#[trigger] data[i]).points <= 262144,
                table_is(points@, spec_points_table(data)),
                0 <= start.scored_tiles() <= 65536,
                forall|owner: Player| #[trigger]
                    start.scores.contains_key(owner) ==> start.scores[owner] <= start.scored_tiles()
                        * MAX_POINTS_PER_TURN,
                forall|owner: Player| #[trigger]
                    self@.scores.contains_key(owner) <==> if owner.spec_index() < i {
                        credited(start.scores, data).contains_key(owner)
                    } else {
                        start.scores.contains_key(owner)
                    },
                forall|owner: Player| #[trigger]
                    self@.scores.contains_key(owner) ==> self@.scores[owner] == if owner.spec_index()
                        < i {
                        credited(start.scores, data)[owner]
                    } else {
                        start.scores[owner]
                    },
        {
            let player = Player::from_index(i);
            proof {
                lemma_turn_points(data, player);
                if !bucket_credited(data, data.len() as int, Some(player)) {
                    lemma_bucket_without_credit(data, data.len() as int, Some(player));
                }
                assert(start.scored_tiles() * MAX_POINTS_PER_TURN + MAX_POINTS_PER_TURN
                    <= 65536 * MAX_POINTS_PER_TURN + MAX_POINTS_PER_TURN) by (nonlinear_arith)
                    requires
                        0 <= start.scored_tiles() <= 65536,
                ;
                assert forall|other: Player| other.spec_index() == i implies other == player by {
                    lemma_player_index_roundtrip(other);
                }
            }
            if let Some(addition) = points.get(&Some(player)) {
                let value: u64 = match self.player_scores.get(&player) {
                    Some(value) => *value,
                    None => 0,
                };
                self.player_scores.insert(player, value + *addition);
            }
        }
        proof {
            assert forall|owner: Player|
                self@.scores.contains_key(owner) <==> credited(start.scores, data).contains_key(
                    owner,
                ) by {
                lemma_player_index_roundtrip(owner);
            }
            assert(self@.scores =~= credited(start.scores, data));
            assert forall|owner: Player| #[trigger]
                self@.scores.contains_key(owner) implies self@.scores[owner] <= (
                start.scored_tiles() + 1) * MAX_POINTS_PER_TURN by {
                lemma_turn_points(data, owner);
                assert((start.scored_tiles() + 1) * MAX_POINTS_PER_TURN == start.scored_tiles()
                    * MAX_POINTS_PER_TURN + MAX_POINTS_PER_TURN) by (nonlinear_arith);
            }
        }
        let ghost credited_state = self@;
        for k in 0..score_data.len()
            invariant
                self.tilebag == old(self).tilebag,
                views_of(score_data@) == data,
                self@ == (RefereeView { board: self@.board, meeples: self@.meeples, ..credited_state }),
                (self@.board, self@.meeples) == after_removals(
                    start.board,
                    start.meeples,
                    data,
                    k as int,
                ),
                self@.board.dom() == start.board.dom(),
                edges_agree(self@.board),
                meeples_fit(self@.board),
                forall|owner: Player|
                    self@.meeples.contains_key(owner) <==> start.meeples.contains_key(owner),
                forall|owner: Player| #[trigger]
                    self@.meeples.contains_key(owner) ==> self@.meeples[owner] + meeples_on_board(
                        self@.board,
                        owner,
                    ) == INITIAL_MEEPLES,
        {
            let score = &score_data[k];
            assert(data[k as int] == score@);
            if score.completed {
                let ghost tiles = self@.board;
                let ghost reserves = self@.meeples;
                let ghost sides = score.removal_candidate@;
                let removed = self.board.remove_meeples(score.removal_candidate.clone());
                proof {
                    score.removal_candidate.lemma_finite();
                    lemma_removal_keeps_agreement(tiles, sides);
                    lemma_removal_keeps_fit(tiles, sides);
                    assert(self@.board.dom() =~= tiles.dom());
                    assert forall|owner: Player|
                        meeples_among(tiles, sides, owner) <= meeples_on_board(tiles, owner) by {
                        lemma_meeples_after_removal(tiles, sides, owner);
                    }
                    assert forall|owner: Player|
                        meeples_on_board(self@.board, owner) == meeples_on_board(tiles, owner)
                            - meeples_among(tiles, sides, owner) by {
                        lemma_meeples_after_removal(tiles, sides, owner);
                    }
                }
                for j in 0..PLAYER_COUNT
                    invariant
                        self.tilebag == old(self).tilebag,
                        self@ == (RefereeView {
                            board: self@.board,
                            meeples: self@.meeples,
                            ..credited_state
                        }),
                        self@.board == without_meeples(tiles, sides),
                        forall|owner: Player|
                            removed@.contains_key(owner) <==> meeples_among(tiles, sides, owner)
                                > 0,
                        forall|owner: Player|
                            removed@.contains_key(owner) ==> removed@[owner] == meeples_among(
                                tiles,
                                sides,
                                owner,
                            ),
                        forall|owner: Player| #[trigger]
                            reserves.contains_key(owner) ==> reserves[owner] + meeples_on_board(
                                tiles,
                                owner,
                            ) == INITIAL_MEEPLES,
                        forall|owner: Player|
                            meeples_among(tiles, sides, owner) <= meeples_on_board(tiles, owner),
                        forall|owner: Player| #[trigger]
                            self@.meeples.contains_key(owner) <==> reserves.contains_key(owner),
                        forall|owner: Player| #[trigger]
                            self@.meeples.contains_key(owner) ==> self@.meeples[owner]
                                == if owner.spec_index() < j {
                                returned(reserves, tiles, sides)[owner]
                            } else {
                                reserves[owner]
                            },
                {
                    let player = Player::from_index(j);
                    proof {
                        assert forall|other: Player| other.spec_index() == j implies other
                            == player by {
                            lemma_player_index_roundtrip(other);
                        }
                    }
                    if let Some(count) = removed.get(&player) {
                        let stored: Option<u8> = match self.player_meeples.get(&player) {
                            Some(stored_count) => Some(*stored_count),
                            None => None,
                        };
                        if let Some(stored_count) = stored {
                            self.player_meeples.insert(player, stored_count + (*count as u8));
                        }
                    }
                }
                proof {
                    assert forall|owner: Player|
                        self@.meeples.contains_key(owner) implies #[trigger] self@.meeples[owner]
                        == returned(reserves, tiles, sides)[owner] by {
                        lemma_player_index_roundtrip(owner);
                    }
                    assert(self@.meeples =~= returned(reserves, tiles, sides));
                }
            }
        }
    }

    /// Ends the turn: the placement is scored and the next player is up.
    fn finish(&mut self)
        requires
            old(self).settled(),
            old(self).is_placing_meeple,
        ensures
            final(self).wf(),
            final(self)@ == old(self)@.finish_turn(),
            final(self).tilebag == old(self).tilebag,
    {
        let ghost before = self@;
        proof {
            self.board.lemma_finite();
        }
        self.score_placement();
        let ghost scored = self@;
        proof {
            lemma_next_turn(self.turn_idx as int, self.turn_order@.len() as int);
            assert(scored.board.dom().len() == before.scored_tiles() + 1);
            assert forall|owner: Player| #[trigger]
                scored.meeples.contains_key(owner) implies scored.meeples[owner]
                + meeples_on_board(scored.board, owner) == INITIAL_MEEPLES by {}
            assert forall|owner: Player| #[trigger]
                scored.scores.contains_key(owner) implies scored.scores[owner]
                <= scored.board.dom().len() * MAX_POINTS_PER_TURN by {}
        }
        self.turn_idx = if self.turn_idx == self.turn_order.len() - 1 {
            0
        } else {
            self.turn_idx + 1
        };
        self.is_placing_meeple = false;
        self.placing_tile = None;
        proof {
            assert(self@.meeples == scored.meeples);
            assert(self@.board == scored.board);
            assert(self@.scores == scored.scores);
            assert(self@.scored_tiles() == scored.board.dom().len());
            assert forall|owner: Player| #[trigger]
                self@.meeples.contains_key(owner) implies self@.meeples[owner]
                + meeples_on_board(self@.board, owner) == INITIAL_MEEPLES by {
                assert(scored.meeples.contains_key(owner));
            }
            assert forall|owner: Player| #[trigger]
                self@.scores.contains_key(owner) implies self@.scores[owner]
                <= self@.scored_tiles() * MAX_POINTS_PER_TURN by {
                assert(scored.scores.contains_key(owner));
            }
        }
    }

    /// Ends the turn without a meeple: the placement is scored and the next
    /// player is up. The argument is not looked at.
    pub fn progress_phase(&mut self, placing_tile: Option<Coordinate>)
        requires
            old(self).wf(),
            old(self).is_placing_meeple,
        ensures
            final(self).wf(),
            final(self)@ == old(self)@.finish_turn(),
            final(self).tilebag == old(self).tilebag,
    {
        self.finish();
    }

    /// Puts a meeple of the player whose turn it is on a slot of the tile
    /// that was placed last, and ends the turn.
    pub fn handle_meeple_placement(&mut self, coord: Coordinate, location: TileClickTarget) -> (
        placed: MessageResult<()>)
        requires
            old(self).wf(),
            old(self).is_placing_meeple,
        ensures
            final(self).wf(),
            placed == old(self)@.check_meeple(coord, location),
            placed is Err ==> final(self)@ == old(self)@,
            placed is Ok ==> final(self)@ == old(self)@.with_meeple(coord, location).finish_turn(),
            final(self).tilebag == old(self).tilebag,
    {
        let player = self.get_player();
        let meeples_remaining = self.reserve();
        if meeples_remaining == 0 {
            return Err(GameError::OutOfMeeples);
        }
        match self.placing_tile {
            Some(pending) => {
                if pending.0 != coord.0 || pending.1 != coord.1 {
                    return Err(GameError::NoTilePresent);
                }
            },
            None => {
                return Err(GameError::NoTilePresent);
            },
        }
        match self.board.as_user().is_legal_meeple(&coord, location) {
            Ok(_) => {},
            Err(error) => {
                return Err(error);
            },
        }
        let mut tile = match self.board.at(&coord) {
            Some(tile) => *tile,
            None => {
                proof {
                    assert(false);
                }
                return Err(GameError::NoTilePresent);
            },
        };
        let ghost before = self@;
        proof {
            lemma_legal_meeple_slot_is_free(before.board, coord, location);
            lemma_meeple_keeps_agreement(before.board, coord, location, Some(player));
            assert(tile_fits(before.board[coord].spec_with_meeple(location, Some(player)))) by {
                let bare = before.board[coord];
                let claimed = bare.spec_with_meeple(location, Some(player));
                assert forall|slot: TileClickTarget|
                    claimed.spec_meeple_at(slot) == if slot == location {
                        Some(player)
                    } else {
                        bare.spec_meeple_at(slot)
                    } by {
                    lemma_with_meeple(bare, location, Some(player), slot);
                }
                assert forall|slot: TileClickTarget| bare.spec_meeple_at(slot) is None by {}
            }
            lemma_fitting_tile_keeps_fit(
                before.board,
                coord,
                before.board[coord].spec_with_meeple(location, Some(player)),
            );
            assert forall|owner: Player|
                meeples_on_board(before.with_meeple(coord, location).board, owner)
                    == meeples_on_board(before.board, owner) + if owner == player {
                    1nat
                } else {
                    0nat
                } by {
                lemma_meeples_after_meeple(before.board, coord, location, player, owner);
            }
            self.board.lemma_finite();
        }
        match tile.place_meeple(&location, &player) {
            Ok(_) => {},
            Err(error) => {
                proof {
                    assert(false);
                }
                return Err(error);
            },
        }
        self.board.set(coord, tile);
        self.player_meeples.insert(player, meeples_remaining - 1);
        proof {
            assert(self@.board.dom() =~= before.board.dom());
            assert(self@ == before.with_meeple(coord, location));
        }
        self.finish();
        Ok(())
    }

    /// Takes a whole move: the drawn tile goes to its place, a meeple goes on
    /// it if one is asked for, the placement is scored and the next player is
    /// up. A move that is not accepted changes nothing.
    pub fn process_move(&mut self, move_request: MoveRequest) -> (done: MessageResult<()>)
        requires
            old(self).wf(),
            !old(self).is_placing_meeple,
        ensures
            final(self).wf(),
            !final(self).is_placing_meeple,
            done == old(self)@.check_move(move_request),
            done is Err ==> final(self)@ == old(self)@,
            done is Ok ==> final(self)@.same_but_bag(old(self)@.after_move(move_request))
                && is_after_pull(
                old(self)@.bag,
                final(self)@.bag,
                old(self).tilebag.draws_in_order(),
            ),
            final(self).tilebag.draws_in_order() == old(self).tilebag.draws_in_order(),
    {
        let coord = move_request.coord;
        let rotation = move_request.rotation;
        // the whole move is looked at before anything changes
        let next = match self.drawn() {
            Ok(tile) => tile.with_rotation(rotation),
            Err(error) => {
                return Err(error);
            },
        };
        match self.is_legal_placement(coord, &next) {
            Ok(_) => {},
            Err(error) => {
                return Err(error);
            },
        }
        if let Some(location) = move_request.meeple {
            if self.reserve() == 0 {
                return Err(GameError::OutOfMeeples);
            }
            let laid = self.board.with_overlay(coord, &next);
            match laid.as_user().is_legal_meeple(&coord, location) {
                Ok(_) => {},
                Err(error) => {
                    return Err(error);
                },
            }
        }
        let placed = self.handle_tile_placement(coord, rotation);
        assert(placed is Ok);
        match move_request.meeple {
            Some(location) => {
                let with_meeple = self.handle_meeple_placement(coord, location);
                assert(with_meeple is Ok);
            },
            None => {
                self.progress_phase(None);
            },
        }
        Ok(())
    }
}

/// The referee takes every legal move: what stands in the list of the legal
/// moves of a state is accepted there.
pub proof fn lemma_legal_move_is_taken(state: RefereeView, request: MoveRequest)
    requires
        state.wf(),
        state.drawn() is Some,
        spec_is_legal_move(
            state.board,
            state.drawn().unwrap(),
            state.meeples[state.player()] > 0,
            request,
        ),
    ensures
        state.check_move(request) is Ok,
{
    assert(state.meeples.contains_key(state.turn_order[state.turn_idx as int]));
}

/// The turn after the last is the first again.
pub proof fn lemma_next_turn(turn: int, players: int)
    requires
        0 <= turn < players,
    ensures
        (turn + 1) % players == if turn == players - 1 {
            0
        } else {
            turn + 1
        },
{
    if turn == players - 1 {
        vstd::arithmetic::div_mod::lemma_mod_self_0(players);
    } else {
        vstd::arithmetic::div_mod::lemma_small_mod((turn + 1) as nat, players as nat);
    }
}

/// A slot on which a meeple may be put carries none.
pub proof fn lemma_legal_meeple_slot_is_free(
    tiles: Map<Coordinate, TileData>,
    coord: Coordinate,
    location: TileClickTarget,
)
    requires
        spec_legal_meeple(tiles, coord, location) is Ok,
    ensures
        tiles.contains_key(coord),
        tiles[coord].spec_meeple_at(location) is None,
{
    let kind = tiles[coord].spec_at(location);
    if kind.spec_is_traversable() {
        crate::feature::lemma_connected_self(tiles, (coord, location));
        if tiles[coord].spec_meeple_at(location) is Some {
            assert(crate::feature::connected(tiles, (coord, location), (coord, location))
                && meeple_on(tiles, (coord, location)) is Some);
        }
    }
}

impl Default for RefereeState {
    /// A match of the two players with all the tiles of the game.
    fn default() -> (state: RefereeState)
        ensures
            state.wf(),
            state@.same_but_bag(
                RefereeState::spec_initial(seq![Player::White, Player::Black], state@.bag),
            ),
            state@.bag == crate::tilebag::spec_standard_bag(),
    {
        let mut players: Vec<Player> = Vec::new();
        players.push(Player::White);
        players.push(Player::Black);
        assert(players@ =~= seq![Player::White, Player::Black]);
        RefereeState::from_players(players, TileBagEnum::LegalTileBag(LegalTileBag::default()))
    }
}

impl Clone for RefereeState {
    /// A state of its own that knows the same: a change to one is no change
    /// to the other. The draw source of the copy draws by chance.
    fn clone(&self) -> (copy: RefereeState)
        ensures
            copy@ == self@,
            self.wf() ==> copy.wf(),
    {
        let mut turn_order: Vec<Player> = Vec::new();
        for i in 0..self.turn_order.len()
            invariant
                turn_order@ == self.turn_order@.take(i as int),
        {
            turn_order.push(self.turn_order[i]);
            proof {
                assert(self.turn_order@.take(i + 1) =~= self.turn_order@.take(i as int).push(
                    self.turn_order@[i as int],
                ));
            }
        }
        proof {
            assert(self.turn_order@.take(self.turn_order@.len() as int) =~= self.turn_order@);
        }
        RefereeState {
            tilebag: TileBagEnum::LegalTileBag(self.tilebag.as_new_tile_bag()),
            board: self.board.clone(),
            turn_order,
            turn_idx: self.turn_idx,
            is_placing_meeple: self.is_placing_meeple,
            player_scores: self.player_scores.clone(),
            placing_tile: self.placing_tile,
            player_meeples: self.player_meeples.clone(),
        }
    }
}

} // verus!
