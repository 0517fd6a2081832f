//! Features: the roads and cities that run on from tile to tile, and the
//! monasteries, with what each is worth and to whom.

use crate::board::{
    coupling_of,
    delta_of,
    offset,
    spec_coupling,
    spec_neighbor,
    spec_offset,
    BoardData,
    BoardUser,
    Coordinate,
    Side,
};
use crate::keys::{lemma_key_set_bound, KeySet};
use crate::player::{lemma_player_index_roundtrip, Player, PLAYER_COUNT};
use crate::seqs::{
    among_first,
    count_of,
    count_where,
    lemma_among_first,
    lemma_count_of_push,
    lemma_count_where_all,
    lemma_push_contains,
    lemma_push_fresh,
};
use crate::unique::{lemma_first_occurrences, unique_coordinates};
use crate::tile::{lemma_exit_properties, slots, spec_slots, MiniTile, TileClickTarget, TileData};
use vstd::prelude::*;

verus! {

/// Whether leaving the tile at `coord` through `exit` arrives at `to`: the exit
/// itself, or the facing edge of the place across it.
pub open spec fn lands_on(coord: Coordinate, exit: TileClickTarget, to: Side) -> bool {
    to == (coord, exit) || (spec_neighbor(coord, exit) == Some(to.0) && to.1 == spec_coupling(exit))
}

/// One step along a feature: from a slot of a tile that lies on the board to an
/// exit of that slot, or on across the exit.
pub open spec fn steps_to(tiles: Map<Coordinate, TileData>, from: Side, to: Side) -> bool {
    &&& tiles.contains_key(from.0)
    &&& exists|exit: TileClickTarget| #[trigger]
        tiles[from.0].is_exit(from.1, exit) && lands_on(from.0, exit, to)
}

/// Whether `to` is reached from `from` in exactly `steps` steps.
pub open spec fn connected_in(
    tiles: Map<Coordinate, TileData>,
    from: Side,
    to: Side,
    steps: nat,
) -> bool
    decreases steps,
{
    if steps == 0 {
        from == to
    } else {
        exists|mid: Side|
            connected_in(tiles, from, mid, (steps - 1) as nat) && #[trigger] steps_to(
                tiles,
                mid,
                to,
            )
    }
}

/// Whether `to` is reached from `from` in any number of steps.
pub open spec fn connected(tiles: Map<Coordinate, TileData>, from: Side, to: Side) -> bool {
    exists|steps: nat| #[trigger] connected_in(tiles, from, to, steps)
}

/// The feature that a slot belongs to: everything that is reached from it. A
/// place without a tile may be reached; nothing is reached from it.
pub open spec fn feature_sides(tiles: Map<Coordinate, TileData>, seed: Side) -> Set<Side> {
    Set::new(|side: Side| connected(tiles, seed, side))
}

/// Whether a feature runs off the grid from a slot.
pub open spec fn leaves_grid(tiles: Map<Coordinate, TileData>, side: Side) -> bool {
    &&& tiles.contains_key(side.0)
    &&& exists|exit: TileClickTarget| #[trigger]
        tiles[side.0].is_exit(side.1, exit) && spec_neighbor(side.0, exit) is None
}

/// Whether a feature is shut at a slot: a tile lies there and the feature does
/// not run off the grid from it.
pub open spec fn is_shut(tiles: Map<Coordinate, TileData>, side: Side) -> bool {
    tiles.contains_key(side.0) && !leaves_grid(tiles, side)
}

/// Whether the feature of a slot is complete: shut wherever it reaches.
pub open spec fn feature_complete(tiles: Map<Coordinate, TileData>, seed: Side) -> bool {
    forall|side: Side| #[trigger] connected(tiles, seed, side) ==> is_shut(tiles, side)
}

/// The slots of the tile at `coord` through which a set of sides passes.
pub open spec fn slots_at(sides: Set<Side>, coord: Coordinate) -> Set<TileClickTarget> {
    Set::new(|slot: TileClickTarget| sides.contains((coord, slot)))
}

/// A step on from something that is reached is reached.
pub proof fn lemma_connected_step(
    tiles: Map<Coordinate, TileData>,
    seed: Side,
    mid: Side,
    to: Side,
)
    requires
        connected(tiles, seed, mid),
        steps_to(tiles, mid, to),
    ensures
        connected(tiles, seed, to),
{
    let steps = choose|steps: nat| #[trigger] connected_in(tiles, seed, mid, steps);
    assert(connected_in(tiles, seed, mid, ((steps + 1) - 1) as nat) && steps_to(tiles, mid, to));
    assert(connected_in(tiles, seed, to, steps + 1));
}

/// A slot is reached from itself.
pub proof fn lemma_connected_self(tiles: Map<Coordinate, TileData>, seed: Side)
    ensures
        connected(tiles, seed, seed),
{
    assert(connected_in(tiles, seed, seed, 0));
}

/// A set that holds a slot, and with each of its members everything one step
/// on, holds all that is reached from the slot.
pub proof fn lemma_closed_set_holds_feature(
    tiles: Map<Coordinate, TileData>,
    seed: Side,
    closed: Set<Side>,
    side: Side,
    steps: nat,
)
    requires
        closed.contains(seed),
        forall|a: Side, b: Side| closed.contains(a) && #[trigger] steps_to(tiles, a, b) ==> closed.contains(b),
        connected_in(tiles, seed, side, steps),
    ensures
        closed.contains(side),
    decreases steps,
{
    if steps > 0 {
        let mid = choose|mid: Side|
            connected_in(tiles, seed, mid, (steps - 1) as nat) && #[trigger] steps_to(
                tiles,
                mid,
                side,
            );
        lemma_closed_set_holds_feature(tiles, seed, closed, mid, (steps - 1) as nat);
    }
}

/// The steps to the eight places around a place.
pub open spec fn spec_octal_deltas() -> Seq<Coordinate> {
    seq![
        (0i8, 1i8),
        (1i8, 0i8),
        (-1i8, 0i8),
        (0i8, -1i8),
        (1i8, 1i8),
        (1i8, -1i8),
        (-1i8, 1i8),
        (-1i8, -1i8),
    ]
}

/// The centre at a place together with the centres at the first `n` of the
/// places around it, as far as the grid reaches.
pub open spec fn centres_around(coord: Coordinate, n: int) -> Set<Side>
    decreases n,
{
    if n <= 0 || n > 8 {
        set![(coord, TileClickTarget::Center)]
    } else {
        match spec_offset(coord, spec_octal_deltas()[n - 1]) {
            Some(next) => centres_around(coord, n - 1).insert((next, TileClickTarget::Center)),
            None => centres_around(coord, n - 1),
        }
    }
}

/// Whether a tile lies at each of the first `n` places around a place.
pub open spec fn surrounded_by_first(
    tiles: Map<Coordinate, TileData>,
    coord: Coordinate,
    n: int,
) -> bool
    decreases n,
{
    if n <= 0 || n > 8 {
        true
    } else {
        surrounded_by_first(tiles, coord, n - 1) && match spec_offset(
            coord,
            spec_octal_deltas()[n - 1],
        ) {
            Some(next) => tiles.contains_key(next),
            None => false,
        }
    }
}

/// The owner of the meeple on a slot of the board, if a tile lies there and
/// carries one there.
pub open spec fn meeple_on(tiles: Map<Coordinate, TileData>, side: Side) -> Option<Player> {
    if tiles.contains_key(side.0) {
        tiles[side.0].spec_meeple_at(side.1)
    } else {
        None
    }
}

/// The condition of carrying a meeple of a given player.
pub open spec fn owned_by(tiles: Map<Coordinate, TileData>, owner: Player) -> spec_fn(Side) -> bool {
    |side: Side| meeple_on(tiles, side) == Some(owner)
}

/// How many of the first `n` sides of a list carry a meeple of a given player.
pub open spec fn owned_among(
    tiles: Map<Coordinate, TileData>,
    sides: Seq<Side>,
    n: int,
    owner: Player,
) -> nat
    decreases n,
{
    if n <= 0 || n > sides.len() {
        0
    } else {
        owned_among(tiles, sides, n - 1, owner) + if meeple_on(tiles, sides[n - 1]) == Some(
            owner,
        ) {
            1nat
        } else {
            0nat
        }
    }
}

/// Of a list of sides without repeats, as many carry a meeple of a player as
/// the set of those sides has members that do.
pub proof fn lemma_owned_among(
    tiles: Map<Coordinate, TileData>,
    sides: Seq<Side>,
    n: int,
    owner: Player,
)
    requires
        sides.no_duplicates(),
        0 <= n <= sides.len(),
    ensures
        owned_among(tiles, sides, n, owner) == count_where(sides, n, owned_by(tiles, owner)),
        n == sides.len() ==> owned_among(tiles, sides, n, owner) == sides.to_set().filter(
            owned_by(tiles, owner),
        ).len(),
    decreases n,
{
    if n > 0 {
        lemma_owned_among(tiles, sides, n - 1, owner);
    }
    if n == sides.len() {
        lemma_count_where_all(sides, owned_by(tiles, owner));
    }
}

/// The condition of carrying an emblem.
pub open spec fn bears_emblem(tiles: Map<Coordinate, TileData>) -> spec_fn(Coordinate) -> bool {
    |coord: Coordinate| tiles.contains_key(coord) && tiles[coord].has_emblem
}

/// Whether a set of sides passes through some slot at a place.
pub open spec fn passes_through(sides: Set<Side>, coord: Coordinate) -> bool {
    ||| sides.contains((coord, TileClickTarget::Top))
    ||| sides.contains((coord, TileClickTarget::Left))
    ||| sides.contains((coord, TileClickTarget::Center))
    ||| sides.contains((coord, TileClickTarget::Right))
    ||| sides.contains((coord, TileClickTarget::Bottom))
}

/// What a feature is worth, to whom, and what is taken off the board when it is complete.
pub struct ScoringView {
    pub scoring_players: Set<Player>,
    pub points: nat,
    pub completed: bool,
    pub removal_candidate: Set<Side>,
}

/// A feature as found on a board.
pub struct FeatureView {
    pub tiles: Map<Coordinate, TileData>,
    pub feature: MiniTile,
    pub originator_coord: Coordinate,
    pub originators: Set<TileClickTarget>,
    pub completed: bool,
    pub visited: Set<Side>,
}

impl FeatureView {
    /// The slots whose meeples count for the feature and leave the board when
    /// it is complete: all of a road or city, the centre of a monastery.
    pub open spec fn removal_candidates(self) -> Set<Side> {
        match self.feature {
            MiniTile::Road | MiniTile::City => self.visited,
            MiniTile::Monastery => set![(self.originator_coord, TileClickTarget::Center)],
            MiniTile::Grass | MiniTile::Junction => Set::empty(),
        }
    }

    /// How many meeples a player has on the feature.
    pub open spec fn meeple_total(self, owner: Player) -> nat {
        self.removal_candidates().filter(owned_by(self.tiles, owner)).len()
    }

    /// Whether a player has a meeple on the feature and nobody has more.
    pub open spec fn is_top_owner(self, owner: Player) -> bool {
        self.meeple_total(owner) > 0 && forall|other: Player|
            self.meeple_total(other) <= self.meeple_total(owner)
    }

    /// The players to whom the feature counts: those with the most meeples on
    /// it, all of them where several have as many.
    pub open spec fn scoring_players(self) -> Set<Player> {
        Set::new(|owner: Player| self.is_top_owner(owner))
    }

    /// The places with a tile that the feature passes through.
    pub open spec fn present_coords(self) -> Set<Coordinate> {
        Set::new(
            |coord: Coordinate| self.tiles.contains_key(coord) && passes_through(self.visited, coord),
        )
    }

    /// How many of those tiles carry an emblem.
    pub open spec fn emblem_total(self) -> nat {
        self.present_coords().filter(bears_emblem(self.tiles)).len()
    }

    /// What the feature is worth when it is counted: a road or a monastery one
    /// point for each tile, a city one for each tile and one more for each
    /// emblem, and twice that while the match is on.
    pub open spec fn worth(self, is_endgame: bool) -> nat {
        match self.feature {
            MiniTile::Road => self.present_coords().len(),
            MiniTile::City => if is_endgame {
                self.present_coords().len() + self.emblem_total()
            } else {
                2 * (self.present_coords().len() + self.emblem_total())
            },
            MiniTile::Monastery => self.present_coords().len(),
            MiniTile::Grass | MiniTile::Junction => 0,
        }
    }

    /// Who scores and how much. While the match is on, a feature that is not
    /// complete counts for nobody and nothing.
    pub open spec fn score(self, is_endgame: bool) -> (Set<Player>, nat) {
        if !is_endgame && !self.completed {
            (Set::empty(), 0)
        } else {
            (self.scoring_players(), self.worth(is_endgame))
        }
    }

    pub open spec fn scoring(self, is_endgame: bool) -> ScoringView {
        ScoringView {
            scoring_players: self.score(is_endgame).0,
            points: self.score(is_endgame).1,
            completed: self.completed,
            removal_candidate: self.removal_candidates(),
        }
    }
}

/// The road or city at a slot of a tile on the board, if one shows there.
pub open spec fn spec_connecting_feature(
    tiles: Map<Coordinate, TileData>,
    coord: Coordinate,
    direction: TileClickTarget,
) -> Option<FeatureView> {
    if tiles.contains_key(coord) && tiles[coord].spec_at(direction).spec_is_traversable() {
        Some(
            FeatureView {
                tiles,
                feature: tiles[coord].spec_at(direction),
                originator_coord: coord,
                originators: slots_at(feature_sides(tiles, (coord, direction)), coord),
                completed: feature_complete(tiles, (coord, direction)),
                visited: feature_sides(tiles, (coord, direction)),
            },
        )
    } else {
        None
    }
}

/// The monastery at a slot of a tile on the board, if one shows there. It
/// reaches the eight places around it and is complete when each holds a tile.
pub open spec fn spec_monastery_feature(
    tiles: Map<Coordinate, TileData>,
    coord: Coordinate,
    direction: TileClickTarget,
) -> Option<FeatureView> {
    if tiles.contains_key(coord) && tiles[coord].spec_at(direction) == MiniTile::Monastery {
        Some(
            FeatureView {
                tiles,
                feature: MiniTile::Monastery,
                originator_coord: coord,
                originators: set![TileClickTarget::Center],
                completed: surrounded_by_first(tiles, coord, 8),
                visited: centres_around(coord, 8),
            },
        )
    } else {
        None
    }
}

/// The feature at a slot of a tile on the board. Grass and junctions are no features.
pub open spec fn spec_feature_result(
    tiles: Map<Coordinate, TileData>,
    coord: Coordinate,
    direction: TileClickTarget,
) -> Option<FeatureView> {
    if !tiles.contains_key(coord) {
        None
    } else {
        match tiles[coord].spec_at(direction) {
            MiniTile::City | MiniTile::Road => spec_connecting_feature(tiles, coord, direction),
            MiniTile::Grass | MiniTile::Junction => None,
            MiniTile::Monastery => spec_monastery_feature(tiles, coord, direction),
        }
    }
}

/// What was found, as a feature on a board.
pub open spec fn found_view<'a, B: BoardData>(found: Option<FeatureResult<'a, B>>) -> Option<
    FeatureView,
> {
    match found {
        Some(result) => Some(result@),
        None => None,
    }
}

/// What a traversal has found.
pub struct FeatureResult<'a, B: BoardData> {
    /// The slots of the first tile through which the feature passes.
    pub originators: KeySet<TileClickTarget>,
    pub originator_coord: Coordinate,
    pub completed: bool,
    pub feature: MiniTile,
    /// Every slot that the feature reaches.
    pub visited: KeySet<Side>,
    pub board: &'a B,
}

impl<'a, B: BoardData> View for FeatureResult<'a, B> {
    type V = FeatureView;

    open spec fn view(&self) -> FeatureView {
        FeatureView {
            tiles: self.board@,
            feature: self.feature,
            originator_coord: self.originator_coord,
            originators: self.originators@,
            completed: self.completed,
            visited: self.visited@,
        }
    }
}

/// What a feature is worth, to whom, and what is taken off the board when it is complete.
pub struct ScoringData {
    pub scoring_players: KeySet<Player>,
    pub points: u32,
    pub completed: bool,
    pub removal_candidate: KeySet<Side>,
}

impl View for ScoringData {
    type V = ScoringView;

    open spec fn view(&self) -> ScoringView {
        ScoringView {
            scoring_players: self.scoring_players@,
            points: self.points as nat,
            completed: self.completed,
            removal_candidate: self.removal_candidate@,
        }
    }
}

impl Clone for ScoringData {
    fn clone(&self) -> (copy: ScoringData)
        ensures
            copy@ == self@,
    {
        ScoringData {
            scoring_players: self.scoring_players.clone(),
            points: self.points,
            completed: self.completed,
            removal_candidate: self.removal_candidate.clone(),
        }
    }
}

/// How often a player stands in a list.
pub fn count_in(list: &Vec<Player>, owner: Player) -> (count: usize)
    ensures
        count == count_of(list@, owner),
{
    let mut count: usize = 0;
    for i in 0..list.len()
        invariant
            count == count_of(list@.take(i as int), owner),
            count <= i,
    {
        proof {
            assert(list@.take(i + 1).drop_last() =~= list@.take(i as int));
        }
        if list[i] == owner {
            count += 1;
        }
    }
    proof {
        assert(list@.take(list@.len() as int) =~= list@);
    }
    count
}

impl<'a, B: BoardData> FeatureResult<'a, B> {
    /// The slots whose meeples count for the feature.
    pub fn get_removal_candidates(&self) -> (candidates: KeySet<Side>)
        ensures
            candidates@ == self@.removal_candidates(),
    {
        match self.feature {
            MiniTile::Road | MiniTile::City => self.visited.clone(),
            MiniTile::Monastery => {
                let mut only: KeySet<Side> = KeySet::new();
                only.insert((self.originator_coord, TileClickTarget::Center));
                assert(only@ =~= set![(self.originator_coord, TileClickTarget::Center)]);
                only
            },
            MiniTile::Grass | MiniTile::Junction => KeySet::new(),
        }
    }

    /// The owners of the meeples on the feature, one entry for each meeple, in
    /// an order that is not stated.
    pub fn get_meeples(&self) -> (owners: Vec<Player>)
        ensures
            forall|owner: Player| count_of(owners@, owner) == self@.meeple_total(owner),
            owners@.len() == 0 <==> forall|owner: Player| self@.meeple_total(owner) == 0,
    {
        let candidates = self.get_removal_candidates();
        let sides = candidates.to_vec();
        let ghost tiles = self.board@;
        let mut owners: Vec<Player> = Vec::new();
        for i in 0..sides.len()
            invariant
                tiles == self.board@,
                forall|owner: Player| #[trigger]
                    count_of(owners@, owner) == owned_among(tiles, sides@, i as int, owner),
        {
            let side = sides[i];
            let ghost before = owners@;
            let ghost pushed = meeple_on(tiles, side);
            if let Some(tile) = self.board.at(&side.0) {
                if let Some(owner) = tile.get_meeple_at(&side.1) {
                    owners.push(owner);
                }
            }
            proof {
                assert forall|other: Player| #[trigger]
                    count_of(owners@, other) == owned_among(tiles, sides@, i + 1, other) by {
                    assert(count_of(before, other) == owned_among(tiles, sides@, i as int, other));
                    if pushed is Some {
                        lemma_count_of_push(before, pushed.unwrap(), other);
                    }
                }
            }
        }
        proof {
            assert forall|owner: Player| count_of(owners@, owner) == self@.meeple_total(owner) by {
                lemma_owned_among(tiles, sides@, sides@.len() as int, owner);
                assert(count_of(owners@, owner) == owned_among(
                    tiles,
                    sides@,
                    sides@.len() as int,
                    owner,
                ));
            }
            if owners@.len() > 0 {
                let first = owners@[0];
                crate::seqs::lemma_count_of_contains(owners@, first);
                assert(self@.meeple_total(first) > 0);
            } else {
                assert forall|owner: Player| self@.meeple_total(owner) == 0 by {
                    crate::seqs::lemma_count_of_contains(owners@, owner);
                }
            }
        }
        owners
    }

    /// The players to whom the feature counts: those with the most meeples on
    /// it, all of them where several have as many, nobody where there is none.
    pub fn get_scoring_players(&self) -> (players: KeySet<Player>)
        ensures
            players@ == self@.scoring_players(),
    {
        let owners = self.get_meeples();
        let mut most: usize = 0;
        for i in 0..PLAYER_COUNT
            invariant
                forall|owner: Player| count_of(owners@, owner) == self@.meeple_total(owner),
                forall|j: int|
                    0 <= j < i ==> self@.meeple_total(#[trigger] Player::spec_from_index(j))
                        <= most,
                most > 0 ==> exists|j: int|
                    0 <= j < i && self@.meeple_total(#[trigger] Player::spec_from_index(j))
                        == most,
        {
            let count = count_in(&owners, Player::from_index(i));
            if count > most {
                most = count;
            }
        }
        let mut players: KeySet<Player> = KeySet::new();
        for i in 0..PLAYER_COUNT
            invariant
                forall|owner: Player| count_of(owners@, owner) == self@.meeple_total(owner),
                forall|j: int|
                    0 <= j < PLAYER_COUNT ==> self@.meeple_total(
                        #[trigger] Player::spec_from_index(j),
                    ) <= most,
                forall|owner: Player| #[trigger]
                    players@.contains(owner) <==> owner.spec_index() < i && self@.meeple_total(
                        owner,
                    ) == most && most > 0,
        {
            let owner = Player::from_index(i);
            let count = count_in(&owners, owner);
            if most > 0 && count == most {
                players.insert(owner);
            }
            proof {
                assert forall|other: Player| #[trigger]
                    players@.contains(other) <==> other.spec_index() < i + 1
                        && self@.meeple_total(other) == most && most > 0 by {
                    lemma_player_index_roundtrip(other);
                }
            }
        }
        proof {
            assert forall|owner: Player|
                players@.contains(owner) == self@.scoring_players().contains(owner) by {
                lemma_player_index_roundtrip(owner);
                if players@.contains(owner) {
                    assert forall|other: Player|
                        self@.meeple_total(other) <= self@.meeple_total(owner) by {
                        lemma_player_index_roundtrip(other);
                        assert(self@.meeple_total(Player::spec_from_index(other.spec_index()))
                            <= most);
                    }
                }
                if self@.is_top_owner(owner) {
                    assert(self@.meeple_total(Player::spec_from_index(owner.spec_index()))
                        <= most);
                    if most > 0 {
                        let j = choose|j: int|
                            0 <= j < PLAYER_COUNT && self@.meeple_total(
                                #[trigger] Player::spec_from_index(j),
                            ) == most;
                        assert(self@.meeple_total(Player::spec_from_index(j))
                            <= self@.meeple_total(owner));
                    }
                }
            }
            assert(players@ =~= self@.scoring_players());
        }
        players
    }

    /// The places with a tile that the feature passes through, each once.
    pub fn get_present_tiles(&self) -> (present: Vec<Coordinate>)
        ensures
            present@.no_duplicates(),
            present@.to_set() == self@.present_coords(),
            present@.len() == self@.present_coords().len(),
            present@.len() <= 65536,
    {
        let sides = self.visited.to_vec();
        let mut coords: Vec<Coordinate> = Vec::new();
        for i in 0..sides.len()
            invariant
                coords@.len() == i,
                forall|j: int| 0 <= j < i ==> #[trigger] coords@[j] == sides@[j].0,
        {
            coords.push(sides[i].0);
        }
        let ghost all = coords@;
        let distinct = unique_coordinates(coords);
        proof {
            lemma_first_occurrences(all);
        }
        let mut present: Vec<Coordinate> = Vec::new();
        for i in 0..distinct.len()
            invariant
                distinct@.no_duplicates(),
                present@.no_duplicates(),
                forall|coord: Coordinate| #[trigger]
                    present@.contains(coord) <==> among_first(distinct@, i as int, coord)
                        && self.board@.contains_key(coord),
        {
            let coord = distinct[i];
            let ghost before = present@;
            if self.board.at(&coord).is_some() {
                proof {
                    lemma_among_first(distinct@, i as int, coord);
                    lemma_push_fresh(before, coord);
                }
                present.push(coord);
            }
            proof {
                assert forall|other: Coordinate| #[trigger]
                    present@.contains(other) <==> among_first(distinct@, i + 1, other)
                        && self.board@.contains_key(other) by {
                    lemma_push_contains(before, coord, other);
                    assert(before.contains(other) <==> among_first(distinct@, i as int, other)
                        && self.board@.contains_key(other));
                }
            }
        }
        proof {
            assert forall|coord: Coordinate|
                present@.to_set().contains(coord) == self@.present_coords().contains(coord) by {
                lemma_among_first(distinct@, distinct@.len() as int, coord);
                if all.contains(coord) {
                    let j = choose|j: int| 0 <= j < all.len() && all[j] == coord;
                    assert(sides@.to_set().contains(sides@[j]));
                    assert(self.visited@.contains((coord, sides@[j].1)));
                }
                if passes_through(self.visited@, coord) {
                    let slot = if self.visited@.contains((coord, TileClickTarget::Top)) {
                        TileClickTarget::Top
                    } else if self.visited@.contains((coord, TileClickTarget::Left)) {
                        TileClickTarget::Left
                    } else if self.visited@.contains((coord, TileClickTarget::Center)) {
                        TileClickTarget::Center
                    } else if self.visited@.contains((coord, TileClickTarget::Right)) {
                        TileClickTarget::Right
                    } else {
                        TileClickTarget::Bottom
                    };
                    assert(sides@.to_set().contains((coord, slot)));
                    let j = choose|j: int| 0 <= j < sides@.len() && sides@[j] == (coord, slot);
                    assert(all[j] == coord);
                }
            }
            assert(present@.to_set() =~= self@.present_coords());
            present@.unique_seq_to_set();
            lemma_key_set_bound::<Coordinate>(present@.to_set());
        }
        present
    }

    /// Who scores and how much, in the match or at its end.
    pub fn get_score(&self, is_endgame: bool) -> (score: (KeySet<Player>, u32))
        ensures
            score.0@ == self@.score(is_endgame).0,
            score.1 == self@.score(is_endgame).1,
            score.1 <= 262144,
    {
        if !is_endgame && !self.completed {
            return (KeySet::new(), 0);
        }
        let players = self.get_scoring_players();
        let score: u32 = match self.feature {
            MiniTile::Road | MiniTile::City => {
                let is_city = self.feature == MiniTile::City;
                let multiplier: u32 = if !is_endgame && is_city {
                    2
                } else {
                    1
                };
                let present = self.get_present_tiles();
                let mut unit_count: u32 = present.len() as u32;
                if is_city {
                    let mut emblems: u32 = 0;
                    for i in 0..present.len()
                        invariant
                            present@.len() <= 65536,
                            emblems == count_where(
                                present@,
                                i as int,
                                bears_emblem(self.board@),
                            ),
                            emblems <= i,
                    {
                        if let Some(tile) = self.board.at(&present[i]) {
                            if tile.has_emblem {
                                emblems += 1;
                            }
                        }
                    }
                    proof {
                        lemma_count_where_all(present@, bears_emblem(self.board@));
                    }
                    unit_count += emblems;
                }
                unit_count * multiplier
            },
            MiniTile::Monastery => self.get_present_tiles().len() as u32,
            MiniTile::Grass | MiniTile::Junction => 0,
        };
        (players, score)
    }

    pub fn as_scoring_data(&self, is_endgame: bool) -> (data: ScoringData)
        ensures
            data@ == self@.scoring(is_endgame),
            data.points <= 262144,
    {
        let (scoring_players, points) = self.get_score(is_endgame);
        ScoringData {
            completed: self.completed,
            scoring_players,
            points,
            removal_candidate: self.get_removal_candidates(),
        }
    }
}

/// Whether the first `n` of some exits, and what lies across them, are in a set.
pub open spec fn exits_visited(
    visited: Set<Side>,
    coord: Coordinate,
    exits: Seq<TileClickTarget>,
    n: int,
) -> bool {
    forall|m: int|
        #![trigger exits[m]]
        0 <= m < n ==> visited.contains((coord, exits[m])) && (spec_neighbor(coord, exits[m]) is Some
            ==> visited.contains(
            (spec_neighbor(coord, exits[m]).unwrap(), spec_coupling(exits[m])),
        ))
}

/// Whether one of the first `n` of some exits leads off the grid.
pub open spec fn exits_leave(coord: Coordinate, exits: Seq<TileClickTarget>, n: int) -> bool
    decreases n,
{
    if n <= 0 {
        false
    } else {
        exits_leave(coord, exits, n - 1) || (n <= exits.len() && spec_neighbor(coord, exits[n - 1]) is None)
    }
}

/// One of the first `n` exits leads off the grid exactly if the one at some
/// place before `n` does.
pub proof fn lemma_exits_leave(coord: Coordinate, exits: Seq<TileClickTarget>, n: int)
    requires
        0 <= n <= exits.len(),
    ensures
        exits_leave(coord, exits, n) <==> exists|m: int|
            0 <= m < n && spec_neighbor(coord, #[trigger] exits[m]) is None,
    decreases n,
{
    if n > 0 {
        lemma_exits_leave(coord, exits, n - 1);
        if exits_leave(coord, exits, n - 1) {
            let m = choose|m: int| 0 <= m < n - 1 && spec_neighbor(coord, #[trigger] exits[m]) is None;
            assert(0 <= m < n && spec_neighbor(coord, exits[m]) is None);
        }
        if exists|m: int| 0 <= m < n && spec_neighbor(coord, #[trigger] exits[m]) is None {
            let m = choose|m: int| 0 <= m < n && spec_neighbor(coord, #[trigger] exits[m]) is None;
            if m < n - 1 {
                assert(0 <= m < n - 1 && spec_neighbor(coord, exits[m]) is None);
            }
        }
    }
}

/// What holds between the rounds of a traversal: the seed has been found;
/// all that has been found is reached from the seed; it is either waiting or
/// done; one step on from what is done has been found; and `complete` says
/// whether the feature is shut at all that is done.
pub open spec fn traversal_invariant(
    tiles: Map<Coordinate, TileData>,
    seed: Side,
    visited: Set<Side>,
    queue: Seq<Side>,
    done: Set<Side>,
    complete: bool,
) -> bool {
    &&& visited.finite()
    &&& visited.contains(seed)
    &&& forall|side: Side| #[trigger] visited.contains(side) ==> connected(tiles, seed, side)
    &&& forall|side: Side| #[trigger]
        visited.contains(side) <==> done.contains(side) || queue.contains(side)
    &&& forall|a: Side, b: Side|
        done.contains(a) && #[trigger] steps_to(tiles, a, b) ==> visited.contains(b)
    &&& complete <==> forall|side: Side| #[trigger] done.contains(side) ==> is_shut(tiles, side)
}

/// The slots of one tile that are done with once the tile has been entered at `entrance`.
pub open spec fn group_of(tile: TileData, coord: Coordinate, entrance: TileClickTarget) -> Set<Side> {
    Set::new(|side: Side| side == (coord, entrance) || (side.0 == coord && tile.is_exit(entrance, side.1)))
}

/// A round of a traversal that entered a tile keeps what holds between rounds.
proof fn lemma_round_with_tile(
    tiles: Map<Coordinate, TileData>,
    seed: Side,
    visited_before: Set<Side>,
    queue_before: Seq<Side>,
    done_before: Set<Side>,
    complete_before: bool,
    popped: Side,
    exits: Seq<TileClickTarget>,
    visited: Set<Side>,
    queue: Seq<Side>,
    leaves: bool,
)
    requires
        traversal_invariant(tiles, seed, visited_before, queue_before.push(popped), done_before, complete_before),
        tiles.contains_key(popped.0),
        forall|exit: TileClickTarget| exits.contains(exit) <==> tiles[popped.0].is_exit(popped.1, exit),
        visited.finite(),
        forall|side: Side| visited_before.contains(side) ==> visited.contains(side),
        forall|side: Side| #[trigger] visited.contains(side) && !visited_before.contains(side) ==> connected(tiles, seed, side) && (
            (side.0 == popped.0 && tiles[popped.0].is_exit(popped.1, side.1)) || queue.contains(side)),
        forall|side: Side| queue_before.contains(side) ==> queue.contains(side),
        forall|side: Side| #[trigger] queue.contains(side) ==> visited.contains(side),
        exits_visited(visited, popped.0, exits, exits.len() as int),
        leaves == exits_leave(popped.0, exits, exits.len() as int),
    ensures
        traversal_invariant(
            tiles,
            seed,
            visited,
            queue,
            done_before.union(group_of(tiles[popped.0], popped.0, popped.1)),
            complete_before && !leaves,
        ),
{
    let tile = tiles[popped.0];
    let coord = popped.0;
    let group = group_of(tile, coord, popped.1);
    let done = done_before.union(group);
    let old_queue = queue_before.push(popped);
    assert(old_queue.contains(popped)) by {
        lemma_push_contains(queue_before, popped, popped);
    }
    assert(visited_before.contains(popped));
    lemma_exits_leave(coord, exits, exits.len() as int);
    // every exit of the entrance has been found, with what lies across it
    assert forall|exit: TileClickTarget| tile.is_exit(popped.1, exit) implies visited.contains((coord, exit))
        && (spec_neighbor(coord, exit) is Some ==> visited.contains(
        (spec_neighbor(coord, exit).unwrap(), spec_coupling(exit)),
    )) by {
        assert(exits.contains(exit));
        let m = choose|m: int| 0 <= m < exits.len() && exits[m] == exit;
        assert(exits[m] == exit);
    }
    assert forall|side: Side| #[trigger] visited.contains(side) <==> done.contains(side) || queue.contains(side) by {
        if visited.contains(side) {
            if visited_before.contains(side) {
                if !done_before.contains(side) {
                    assert(old_queue.contains(side));
                    lemma_push_contains(queue_before, popped, side);
                    if side == popped {
                        assert(group.contains(side));
                    }
                }
            } else {
                if !queue.contains(side) {
                    assert(group.contains(side));
                }
            }
        }
        if done.contains(side) {
            if group.contains(side) {
            } else {
                assert(visited_before.contains(side));
            }
        }
    }
    assert forall|a: Side, b: Side| done.contains(a) && #[trigger] steps_to(tiles, a, b) implies visited.contains(b) by {
        if done_before.contains(a) {
            assert(visited_before.contains(b));
        } else {
            assert(group.contains(a));
            let exit = choose|exit: TileClickTarget| #[trigger]
                tiles[a.0].is_exit(a.1, exit) && lands_on(a.0, exit, b);
            if a != popped {
                lemma_exit_properties(tile, popped.1, a.1);
            }
            assert(tile.is_exit(popped.1, exit));
        }
    }
    // all of the group is shut exactly if no exit leaves the grid
    assert forall|side: Side| group.contains(side) implies (is_shut(tiles, side) <==> !leaves) by {
        if side != popped {
            lemma_exit_properties(tile, popped.1, side.1);
        }
        if leaves {
            let m = choose|m: int| 0 <= m < exits.len() && spec_neighbor(coord, #[trigger] exits[m]) is None;
            assert(exits.contains(exits[m]));
            assert(tile.is_exit(side.1, exits[m]));
        }
        if leaves_grid(tiles, side) {
            let exit = choose|exit: TileClickTarget| #[trigger]
                tiles[side.0].is_exit(side.1, exit) && spec_neighbor(side.0, exit) is None;
            assert(tile.is_exit(popped.1, exit));
            assert(exits.contains(exit));
            let m = choose|m: int| 0 <= m < exits.len() && exits[m] == exit;
            assert(spec_neighbor(coord, exits[m]) is None);
        }
    }
    assert(group.contains(popped));
    let complete = complete_before && !leaves;
    if complete {
        assert forall|side: Side| #[trigger] done.contains(side) implies is_shut(tiles, side) by {
            if !done_before.contains(side) {
                assert(group.contains(side));
            }
        }
    } else {
        if !complete_before {
            let side = choose|side: Side| #[trigger] done_before.contains(side) && !is_shut(tiles, side);
            assert(done.contains(side));
        } else {
            assert(done.contains(popped) && !is_shut(tiles, popped));
        }
    }
}

/// A round of a traversal that found no tile keeps what holds between rounds.
proof fn lemma_round_without_tile(
    tiles: Map<Coordinate, TileData>,
    seed: Side,
    visited: Set<Side>,
    queue: Seq<Side>,
    done: Set<Side>,
    complete: bool,
    popped: Side,
)
    requires
        traversal_invariant(tiles, seed, visited, queue.push(popped), done, complete),
        !tiles.contains_key(popped.0),
    ensures
        traversal_invariant(tiles, seed, visited, queue, done.insert(popped), false),
{
    let old_queue = queue.push(popped);
    assert(old_queue.contains(popped)) by {
        lemma_push_contains(queue, popped, popped);
    }
    assert forall|side: Side| #[trigger] visited.contains(side) <==> done.insert(popped).contains(side) || queue.contains(side) by {
        lemma_push_contains(queue, popped, side);
    }
    assert(done.insert(popped).contains(popped) && !is_shut(tiles, popped));
}

impl<'a, B: BoardData> BoardUser<'a, B> {
    /// Follows the road or city that shows at a slot of a tile on the board.
    ///
    /// Finds every slot that the feature reaches, on tiles and on the empty
    /// places next to them, and says whether the feature is complete. There is
    /// nothing to follow where no tile lies or the slot shows neither road nor
    /// city.
    pub fn get_connecting_feature_results(
        &self,
        initial_coord: &Coordinate,
        direction: TileClickTarget,
    ) -> (found: Option<FeatureResult<'a, B>>)
        ensures
            found is Some <==> self.board@.contains_key(*initial_coord) && self.board@[*initial_coord].spec_at(
                direction,
            ).spec_is_traversable(),
            found matches Some(result) ==> {
                &&& result.feature == self.board@[*initial_coord].spec_at(direction)
                &&& result.originator_coord == *initial_coord
                &&& result.visited@ == feature_sides(self.board@, (*initial_coord, direction))
                &&& result.completed == feature_complete(self.board@, (*initial_coord, direction))
                &&& result.originators@ == slots_at(result.visited@, *initial_coord)
                &&& result.board@ == self.board@
            },
            found_view(found) == spec_connecting_feature(self.board@, *initial_coord, direction),
    {
        let initial_feature = match self.board.at(initial_coord) {
            Some(initial_tile) => *initial_tile.at(&direction),
            None => {
                return None;
            },
        };
        if !initial_feature.is_traversable() {
            return None;
        }
        let ghost tiles = self.board@;
        let ghost seed: Side = (*initial_coord, direction);
        let mut complete = true;
        let mut queue: Vec<Side> = Vec::new();
        queue.push((*initial_coord, direction));
        let mut visited: KeySet<Side> = KeySet::new();
        visited.insert((*initial_coord, direction));
        let ghost mut done: Set<Side> = Set::empty();
        proof {
            lemma_connected_self(tiles, seed);
            assert(queue@[0] == seed);
            lemma_key_set_bound::<Side>(visited@);
        }
        while queue.len() > 0
            invariant
                tiles == self.board@,
                traversal_invariant(tiles, seed, visited@, queue@, done, complete),
                visited@.len() <= 327680,
            decreases 327680 - visited@.len() + queue@.len(),
        {
            let ghost queue_before = queue@;
            let ghost complete_before = complete;
            let popped = queue.pop().unwrap();
            let coord = popped.0;
            let entrance = popped.1;
            assert(queue_before =~= queue@.push(popped));
            match self.board.at(&coord) {
                None => {
                    complete = false;
                    proof {
                        lemma_round_without_tile(
                            tiles,
                            seed,
                            visited@,
                            queue@,
                            done,
                            complete_before,
                            popped,
                        );
                        done = done.insert(popped);
                    }
                },
                Some(tile) => {
                    let exits = tile.get_exits(&entrance);
                    let ghost visited_before = visited@;
                    let ghost queue_popped = queue@;
                    let mut leaves = false;
                    proof {
                        assert(queue_before.contains(popped)) by {
                            lemma_push_contains(queue_popped, popped, popped);
                        }
                        assert(visited@.contains(popped));
                        assert(connected(tiles, seed, popped));
                        assert forall|side: Side| #[trigger]
                            queue@.contains(side) implies visited@.contains(side) by {
                            lemma_push_contains(queue_popped, popped, side);
                            assert(queue_before.contains(side));
                        }
                    }
                    for k in 0..exits.len()
                        invariant
                            tiles == self.board@,
                            tiles.contains_key(coord),
                            *tile == tiles[coord],
                            popped == (coord, entrance),
                            connected(tiles, seed, popped),
                            forall|exit: TileClickTarget| exits@.contains(exit) <==> tile.is_exit(entrance, exit),
                            visited@.finite(),
                            visited_before.finite(),
                            forall|side: Side| visited_before.contains(side) ==> visited@.contains(side),
                            forall|side: Side| #[trigger] visited@.contains(side) && !visited_before.contains(side) ==> connected(tiles, seed, side) && (
                                (side.0 == coord && tile.is_exit(entrance, side.1)) || queue@.contains(side)),
                            forall|side: Side| queue_popped.contains(side) ==> queue@.contains(side),
                            forall|side: Side| #[trigger] queue@.contains(side) ==> visited@.contains(side),
                            exits_visited(visited@, coord, exits@, k as int),
                            leaves == exits_leave(coord, exits@, k as int),
                            visited@.len() - visited_before.len() >= queue@.len() - queue_popped.len(),
                    {
                        let exit = exits[k];
                        let ghost visited_round = visited@;
                        let ghost queue_round = queue@;
                        let ghost across = spec_neighbor(coord, exit);
                        proof {
                            assert(exits@.contains(exit));
                            assert(tile.is_exit(entrance, exit));
                            assert(steps_to(tiles, popped, (coord, exit))) by {
                                assert(tiles[popped.0].is_exit(popped.1, exit) && lands_on(
                                    popped.0,
                                    exit,
                                    (coord, exit),
                                ));
                            }
                            lemma_connected_step(tiles, seed, popped, (coord, exit));
                        }
                        visited.insert((coord, exit));
                        match offset(&coord, &delta_of(&exit)) {
                            Some(next) => {
                                let side = (next, coupling_of(&exit));
                                proof {
                                    assert(steps_to(tiles, popped, side)) by {
                                        assert(tiles[popped.0].is_exit(popped.1, exit) && lands_on(
                                            popped.0,
                                            exit,
                                            side,
                                        ));
                                    }
                                    lemma_connected_step(tiles, seed, popped, side);
                                }
                                if visited.insert(side) {
                                    queue.push(side);
                                    proof {
                                        assert forall|other: Side|
                                            queue@.contains(other) <==> queue_round.contains(other)
                                                || other == side by {
                                            lemma_push_contains(queue_round, side, other);
                                        }
                                    }
                                }
                            },
                            None => {
                                leaves = true;
                            },
                        }
                        proof {
                            assert forall|other: Side|
                                queue_round.contains(other) implies queue@.contains(other) by {
                                lemma_push_contains(queue_round, (across.unwrap(), spec_coupling(exit)), other);
                            }
                            assert forall|other: Side| #[trigger]
                                queue@.contains(other) implies visited@.contains(other) by {
                                lemma_push_contains(queue_round, (across.unwrap(), spec_coupling(exit)), other);
                                if queue_round.contains(other) {
                                    assert(visited_round.contains(other));
                                }
                            }
                            assert forall|other: Side| #[trigger]
                                visited@.contains(other) && !visited_before.contains(
                                    other,
                                ) implies connected(tiles, seed, other) && ((other.0 == coord
                                && tile.is_exit(entrance, other.1)) || queue@.contains(other)) by {
                                if visited_round.contains(other) {
                                    assert(visited_round.contains(other) && !visited_before.contains(other));
                                    if queue_round.contains(other) {
                                        assert(queue@.contains(other));
                                    }
                                } else if other == (coord, exit) {
                                } else {
                                    assert(across is Some);
                                    assert(other == (across.unwrap(), spec_coupling(exit)));
                                    lemma_push_contains(queue_round, other, other);
                                }
                            }
                            assert forall|m: int|
                                #![trigger exits@[m]]
                                0 <= m < k + 1 implies visited@.contains((coord, exits@[m])) && (
                                spec_neighbor(coord, exits@[m]) is Some ==> visited@.contains(
                                    (spec_neighbor(coord, exits@[m]).unwrap(), spec_coupling(exits@[m])),
                                )) by {
                                if m < k {
                                    assert(visited_round.contains((coord, exits@[m])));
                                }
                            }
                        }
                    }
                    complete = complete && !leaves;
                    proof {
                        lemma_round_with_tile(
                            tiles,
                            seed,
                            visited_before,
                            queue_popped,
                            done,
                            complete_before,
                            popped,
                            exits@,
                            visited@,
                            queue@,
                            leaves,
                        );
                        done = done.union(group_of(*tile, coord, entrance));
                        lemma_key_set_bound::<Side>(visited@);
                    }
                },
            }
        }
        let all = slots();
        let mut originators: KeySet<TileClickTarget> = KeySet::new();
        for i in 0..5
            invariant
                all@ == spec_slots(),
                forall|slot: TileClickTarget| #[trigger]
                    originators@.contains(slot) <==> among_first(spec_slots(), i as int, slot) && visited@.contains(
                        (*initial_coord, slot),
                    ),
        {
            if visited.contains(&(*initial_coord, all[i])) {
                originators.insert(all[i]);
            }
        }
        proof {
            assert forall|slot: TileClickTarget| among_first(spec_slots(), 5, slot) by {
                reveal_with_fuel(among_first, 6);
            }
            assert(originators@ =~= slots_at(visited@, *initial_coord));
            assert forall|side: Side| connected(tiles, seed, side) implies visited@.contains(side) by {
                let steps = choose|steps: nat| #[trigger] connected_in(tiles, seed, side, steps);
                assert forall|a: Side, b: Side| visited@.contains(a) && #[trigger] steps_to(tiles, a, b) implies visited@.contains(b) by {
                    assert(!queue@.contains(a));
                }
                lemma_closed_set_holds_feature(tiles, seed, visited@, side, steps);
            }
            assert(visited@ =~= feature_sides(tiles, seed));
            assert forall|side: Side| visited@.contains(side) implies done.contains(side) by {
                assert(!queue@.contains(side));
            }
            if complete {
                assert forall|side: Side| #[trigger] connected(tiles, seed, side) implies is_shut(tiles, side) by {
                    assert(done.contains(side));
                }
            } else {
                let side = choose|side: Side| #[trigger] done.contains(side) && !is_shut(tiles, side);
                assert(visited@.contains(side));
                assert(connected(tiles, seed, side));
            }
        }
        Some(
            FeatureResult {
                board: self.board,
                originators,
                originator_coord: *initial_coord,
                completed: complete,
                feature: initial_feature,
                visited,
            },
        )
    }
}

} // verus!
