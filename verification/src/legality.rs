//! Which meeples and which moves the rules allow.

use crate::board::{
    spec_features_match, spec_legal_tiles, BoardData, BoardUser, Coordinate, OverlaidBoard, Side,
};
use crate::bots::bot::MoveRequest;
use crate::error::{GameError, MessageResult};
use crate::feature::{connected, feature_sides, meeple_on, owned_by};
use crate::keys::KeyMap;
use crate::player::Player;
use crate::seqs::{among_first, lemma_among_first, lemma_push_contains, lemma_push_fresh};
use crate::tile::{slots, spec_slots, MiniTile, Rotation, TileClickTarget, TileData};
use vstd::prelude::*;

verus! {

/// Whether the road or city of a slot carries a meeple anywhere.
pub open spec fn feature_has_meeple(tiles: Map<Coordinate, TileData>, seed: Side) -> bool {
    exists|side: Side| #[trigger] connected(tiles, seed, side) && meeple_on(tiles, side) is Some
}

/// Whether a meeple may be put on a slot of a tile on the board, and why not
/// where it may not.
///
/// A road or city is claimed at an edge, and only while no meeple stands
/// anywhere on it; a monastery is claimed while its slot is free; grass and
/// junctions are never claimed.
pub open spec fn spec_legal_meeple(
    tiles: Map<Coordinate, TileData>,
    coord: Coordinate,
    target: TileClickTarget,
) -> MessageResult<()> {
    if !tiles.contains_key(coord) {
        Err(GameError::NoTilePresent)
    } else {
        match tiles[coord].spec_at(target) {
            MiniTile::City | MiniTile::Road => if target == TileClickTarget::Center {
                Err(GameError::NonScoringFeature)
            } else if feature_has_meeple(tiles, (coord, target)) {
                Err(GameError::FeatureNonEmpty)
            } else {
                Ok(())
            },
            MiniTile::Grass | MiniTile::Junction => Err(GameError::NonScoringFeature),
            MiniTile::Monastery => if tiles[coord].spec_meeple_at(target) is Some {
                Err(GameError::FeatureNonEmpty)
            } else {
                Ok(())
            },
        }
    }
}

/// The four rotations in the order in which moves are listed.
pub open spec fn spec_rotations() -> Seq<Rotation> {
    seq![Rotation::Upright, Rotation::Left, Rotation::Flip, Rotation::Right]
}

pub fn rotations() -> (all: [Rotation; 4])
    ensures
        all@ == spec_rotations(),
{
    let all = [Rotation::Upright, Rotation::Left, Rotation::Flip, Rotation::Right];
    assert(all@ =~= spec_rotations());
    all
}

/// Whether a place is open to the next tile: on an empty board the origin
/// alone, otherwise every empty place with a tile on one of its sides.
pub open spec fn is_open_place(tiles: Map<Coordinate, TileData>, coord: Coordinate) -> bool {
    if tiles.dom() == Set::<Coordinate>::empty() {
        coord == (0i8, 0i8)
    } else {
        spec_legal_tiles(tiles).contains(coord)
    }
}

/// Whether `tile`, turned to `rotation`, may go to `coord`.
pub open spec fn placement_fits(
    tiles: Map<Coordinate, TileData>,
    tile: TileData,
    coord: Coordinate,
    rotation: Rotation,
) -> bool {
    is_open_place(tiles, coord) && spec_features_match(
        tiles,
        coord,
        tile.spec_with_rotation(rotation),
    )
}

/// Whether a meeple may go on a slot of `tile` once it lies at `coord`, turned
/// to `rotation`.
pub open spec fn meeple_fits(
    tiles: Map<Coordinate, TileData>,
    tile: TileData,
    coord: Coordinate,
    rotation: Rotation,
    slot: TileClickTarget,
) -> bool {
    spec_legal_meeple(tiles.insert(coord, tile.spec_with_rotation(rotation)), coord, slot) is Ok
}

/// Whether a move is legal with the drawn tile `tile`: the place is open, the
/// turned tile agrees with its neighbours, and the meeple, if one is asked
/// for, may be put and the player has one to put.
pub open spec fn spec_is_legal_move(
    tiles: Map<Coordinate, TileData>,
    tile: TileData,
    can_place_meeple: bool,
    request: MoveRequest,
) -> bool {
    &&& placement_fits(tiles, tile, request.coord, request.rotation)
    &&& match request.meeple {
        None => true,
        Some(slot) => can_place_meeple && meeple_fits(
            tiles,
            tile,
            request.coord,
            request.rotation,
            slot,
        ),
    }
}

/// A finite set none of whose members meets a condition has no member left
/// when it is narrowed to that condition, and the other way round.
pub proof fn lemma_filter_len_zero<T>(set: Set<T>, meets: spec_fn(T) -> bool)
    requires
        set.finite(),
    ensures
        set.filter(meets).len() == 0 <==> forall|item: T| set.contains(item) ==> !meets(item),
{
    set.lemma_len_filter(meets);
    let narrowed = set.filter(meets);
    if narrowed.len() == 0 {
        assert forall|item: T| set.contains(item) implies !meets(item) by {
            if meets(item) {
                assert(narrowed.contains(item));
                narrowed.lemma_len0_is_empty();
            }
        }
    }
    if forall|item: T| set.contains(item) ==> !meets(item) {
        assert(narrowed =~= Set::<T>::empty());
    }
}

impl<'a, B: BoardData> BoardUser<'a, B> {
    /// Whether a meeple may be put on a slot of a tile on the board.
    pub fn is_legal_meeple(&self, coord: &Coordinate, target: TileClickTarget) -> (legal:
        MessageResult<()>)
        ensures
            legal == spec_legal_meeple(self.board@, *coord, target),
    {
        let tile = match self.board.at(coord) {
            Some(tile) => tile,
            None => {
                return Err(GameError::NoTilePresent);
            },
        };
        let mini_feature = *tile.at(&target);
        match mini_feature {
            MiniTile::City | MiniTile::Road => {
                if target == TileClickTarget::Center {
                    return Err(GameError::NonScoringFeature);
                }
                let feature_result = match self.get_connecting_feature_results(coord, target) {
                    Some(feature_result) => feature_result,
                    None => {
                        // a road or a city can always be followed
                        proof {
                            assert(false);
                        }
                        return Err(GameError::NonScoringFeature);
                    },
                };
                let owners = feature_result.get_meeples();
                proof {
                    let tiles = self.board@;
                    let seed = (*coord, target);
                    let view = feature_result@;
                    let sides = feature_sides(tiles, seed);
                    assert(view.removal_candidates() == sides);
                    assert(feature_result.visited@.finite()) by {
                        lemma_visited_finite(&feature_result);
                    }
                    if owners@.len() == 0 {
                        if feature_has_meeple(tiles, seed) {
                            let side = choose|side: Side| #[trigger]
                                connected(tiles, seed, side) && meeple_on(tiles, side) is Some;
                            let owner = meeple_on(tiles, side).unwrap();
                            assert(view.meeple_total(owner) == 0);
                            lemma_filter_len_zero(sides, owned_by(tiles, owner));
                            assert(sides.contains(side));
                        }
                    } else {
                        let owner = choose|owner: Player| view.meeple_total(owner) != 0;
                        lemma_filter_len_zero(sides, owned_by(tiles, owner));
                        let side = choose|side: Side|
                            sides.contains(side) && owned_by(tiles, owner)(side);
                        assert(connected(tiles, seed, side) && meeple_on(tiles, side) is Some);
                    }
                }
                if owners.len() == 0 {
                    Ok(())
                } else {
                    Err(GameError::FeatureNonEmpty)
                }
            },
            MiniTile::Grass | MiniTile::Junction => Err(GameError::NonScoringFeature),
            MiniTile::Monastery => {
                if tile.get_meeple_at(&target).is_some() {
                    Err(GameError::FeatureNonEmpty)
                } else {
                    Ok(())
                }
            },
        }
    }
}

/// Whether the drawn tile can go anywhere at all.
pub open spec fn spec_legal_move_exists(tiles: Map<Coordinate, TileData>, tile: TileData) -> bool {
    exists|coord: Coordinate, rotation: Rotation| #[trigger]
        placement_fits(tiles, tile, coord, rotation)
}

/// Every rotation is one of the four.
pub proof fn lemma_all_rotations(rotation: Rotation)
    ensures
        among_first(spec_rotations(), 4, rotation),
        spec_rotations().no_duplicates(),
{
    reveal_with_fuel(among_first, 5);
}

/// Every slot is one of the five.
pub proof fn lemma_all_slots(slot: TileClickTarget)
    ensures
        among_first(spec_slots(), 5, slot),
        spec_slots().no_duplicates(),
{
    reveal_with_fuel(among_first, 6);
}

/// Adds the moves of one list at the end of another.
pub fn append_moves(list: &mut Vec<MoveRequest>, more: &Vec<MoveRequest>)
    ensures
        final(list)@ == old(list)@ + more@,
{
    let mut k: usize = 0;
    while k < more.len()
        invariant
            k <= more@.len(),
            list@ == old(list)@ + more@.take(k as int),
        decreases more.len() - k,
    {
        list.push(more[k]);
        proof {
            assert(more@.take(k + 1) =~= more@.take(k as int).push(more@[k as int]));
            assert(list@ =~= old(list)@ + more@.take(k + 1));
        }
        k += 1;
    }
    proof {
        assert(more@.take(more@.len() as int) =~= more@);
    }
}

impl<'a, B: BoardData> BoardUser<'a, B> {
    /// The places that are open to the next tile, each once: on an empty board
    /// the origin, otherwise the empty places next to a tile.
    pub fn open_places(&self) -> (places: Vec<Coordinate>)
        ensures
            places@.no_duplicates(),
            forall|coord: Coordinate| places@.contains(coord) <==> is_open_place(self.board@, coord),
    {
        let mut coords = self.get_legal_tiles();
        let placed = self.tiles_placed();
        proof {
            if placed == 0 {
                self.board@.dom().lemma_len0_is_empty();
                assert(self.board@.dom() =~= Set::<Coordinate>::empty());
                assert(spec_legal_tiles(self.board@) =~= Set::<Coordinate>::empty());
            } else {
                assert(self.board@.dom() != Set::<Coordinate>::empty());
            }
        }
        if placed == 0 {
            coords.insert((0, 0));
        }
        let places = coords.to_vec();
        proof {
            assert forall|coord: Coordinate|
                places@.contains(coord) <==> is_open_place(self.board@, coord) by {
                assert(places@.contains(coord) <==> places@.to_set().contains(coord));
            }
        }
        places
    }

    /// The legal moves that put `tile` at one place in one rotation: one for
    /// each slot that may take a meeple, and one without meeple.
    pub fn moves_at(
        &self,
        tile: &TileData,
        coord: Coordinate,
        rotation: Rotation,
        can_place_meeple: bool,
    ) -> (moves: Vec<MoveRequest>)
        requires
            is_open_place(self.board@, coord),
        ensures
            moves@.no_duplicates(),
            forall|request: MoveRequest|
                moves@.contains(request) <==> request.coord == coord && request.rotation
                    == rotation && spec_is_legal_move(
                    self.board@,
                    *tile,
                    can_place_meeple,
                    request,
                ),
    {
        let placed = tile.with_rotation(rotation);
        let mut moves: Vec<MoveRequest> = Vec::new();
        if !self.is_features_match(&coord, &placed) {
            return moves;
        }
        let ghost tiles = self.board@;
        if can_place_meeple {
            let mut overlay: KeyMap<Coordinate, TileData> = KeyMap::new();
            overlay.insert(coord, placed);
            let board = OverlaidBoard { board: self.board, overlay };
            assert(board@ =~= tiles.insert(coord, placed));
            let user = board.as_user();
            let all = slots();
            for i in 0..5
                invariant
                    all@ == spec_slots(),
                    user.board@ == tiles.insert(coord, placed),
                    placed == tile.spec_with_rotation(rotation),
                    moves@.no_duplicates(),
                    forall|request: MoveRequest| #[trigger]
                        moves@.contains(request) <==> request.coord == coord && request.rotation
                            == rotation && request.meeple is Some && among_first(
                            spec_slots(),
                            i as int,
                            request.meeple.unwrap(),
                        ) && meeple_fits(tiles, *tile, coord, rotation, request.meeple.unwrap()),
            {
                let slot = all[i];
                let ghost before = moves@;
                let request = MoveRequest { coord, rotation, meeple: Some(slot) };
                proof {
                    lemma_all_slots(slot);
                    lemma_among_first(spec_slots(), i as int, slot);
                }
                if user.is_legal_meeple(&coord, slot).is_ok() {
                    proof {
                        lemma_push_fresh(before, request);
                    }
                    moves.push(request);
                }
                proof {
                    assert forall|other: MoveRequest| #[trigger]
                        moves@.contains(other) <==> other.coord == coord && other.rotation
                            == rotation && other.meeple is Some && among_first(
                            spec_slots(),
                            i + 1,
                            other.meeple.unwrap(),
                        ) && meeple_fits(tiles, *tile, coord, rotation, other.meeple.unwrap()) by {
                        lemma_push_contains(before, request, other);
                        assert(before.contains(other) <==> other.coord == coord
                            && other.rotation == rotation && other.meeple is Some && among_first(
                            spec_slots(),
                            i as int,
                            other.meeple.unwrap(),
                        ) && meeple_fits(tiles, *tile, coord, rotation, other.meeple.unwrap()));
                    }
                }
            }
        }
        let ghost before = moves@;
        let plain = MoveRequest { coord, rotation, meeple: None };
        proof {
            lemma_push_fresh(before, plain);
        }
        moves.push(plain);
        proof {
            assert forall|request: MoveRequest|
                moves@.contains(request) <==> request.coord == coord && request.rotation
                    == rotation && spec_is_legal_move(
                    tiles,
                    *tile,
                    can_place_meeple,
                    request,
                ) by {
                lemma_push_contains(before, plain, request);
                if request.meeple is Some {
                    lemma_all_slots(request.meeple.unwrap());
                }
            }
        }
        moves
    }

    /// Every legal move with the drawn tile, each once: for each open place and
    /// each rotation in which the tile agrees with its neighbours, one move for
    /// each slot that may take a meeple, if the player has one, and one without.
    pub fn get_legal_moves(&self, tile: &TileData, can_place_meeple: bool) -> (moves: Vec<
        MoveRequest,
    >)
        ensures
            moves@.no_duplicates(),
            forall|request: MoveRequest|
                moves@.contains(request) <==> spec_is_legal_move(
                    self.board@,
                    *tile,
                    can_place_meeple,
                    request,
                ),
    {
        let places = self.open_places();
        let turns = rotations();
        let ghost tiles = self.board@;
        let mut out: Vec<MoveRequest> = Vec::new();
        for i in 0..places.len()
            invariant
                tiles == self.board@,
                turns@ == spec_rotations(),
                places@.no_duplicates(),
                forall|coord: Coordinate| places@.contains(coord) <==> is_open_place(tiles, coord),
                out@.no_duplicates(),
                forall|request: MoveRequest| #[trigger]
                    out@.contains(request) <==> among_first(places@, i as int, request.coord)
                        && spec_is_legal_move(tiles, *tile, can_place_meeple, request),
        {
            let coord = places[i];
            proof {
                assert(places@.contains(coord));
                lemma_among_first(places@, i as int, coord);
            }
            for r in 0..4
                invariant
                    tiles == self.board@,
                    turns@ == spec_rotations(),
                    i < places@.len(),
                    coord == places@[i as int],
                    is_open_place(tiles, coord),
                    !among_first(places@, i as int, coord),
                    out@.no_duplicates(),
                    forall|request: MoveRequest| #[trigger]
                        out@.contains(request) <==> (among_first(
                            places@,
                            i as int,
                            request.coord,
                        ) || (request.coord == coord && among_first(
                            spec_rotations(),
                            r as int,
                            request.rotation,
                        ))) && spec_is_legal_move(tiles, *tile, can_place_meeple, request),
            {
                let rotation = turns[r];
                let ghost before = out@;
                let found = self.moves_at(tile, coord, rotation, can_place_meeple);
                append_moves(&mut out, &found);
                proof {
                    lemma_all_rotations(rotation);
                    lemma_among_first(spec_rotations(), r as int, rotation);
                    assert forall|a: int, b: int|
                        0 <= a < before.len() && 0 <= b < found@.len() implies before[a]
                        != found@[b] by {
                        assert(before.contains(before[a]));
                        assert(found@.contains(found@[b]));
                    }
                    vstd::seq_lib::lemma_no_dup_in_concat(before, found@);
                    assert forall|request: MoveRequest| #[trigger]
                        out@.contains(request) <==> (among_first(
                            places@,
                            i as int,
                            request.coord,
                        ) || (request.coord == coord && among_first(
                            spec_rotations(),
                            r + 1,
                            request.rotation,
                        ))) && spec_is_legal_move(tiles, *tile, can_place_meeple, request) by {
                        vstd::seq_lib::lemma_seq_concat_contains_all_elements(
                            before,
                            found@,
                            request,
                        );
                        assert(before.contains(request) <==> (among_first(
                            places@,
                            i as int,
                            request.coord,
                        ) || (request.coord == coord && among_first(
                            spec_rotations(),
                            r as int,
                            request.rotation,
                        ))) && spec_is_legal_move(tiles, *tile, can_place_meeple, request));
                    }
                }
            }
            proof {
                assert forall|request: MoveRequest| #[trigger]
                    out@.contains(request) <==> among_first(places@, i + 1, request.coord)
                        && spec_is_legal_move(tiles, *tile, can_place_meeple, request) by {
                    lemma_all_rotations(request.rotation);
                }
            }
        }
        proof {
            assert forall|request: MoveRequest|
                out@.contains(request) <==> spec_is_legal_move(
                    tiles,
                    *tile,
                    can_place_meeple,
                    request,
                ) by {
                lemma_among_first(places@, places@.len() as int, request.coord);
            }
        }
        out
    }

    /// Whether the drawn tile can go anywhere at all. On an empty board it can.
    pub fn does_legal_move_exist(&self, tile: &TileData) -> (exists_move: bool)
        ensures
            exists_move == spec_legal_move_exists(self.board@, *tile),
    {
        let places = self.open_places();
        let turns = rotations();
        let ghost tiles = self.board@;
        let mut i: usize = 0;
        while i < places.len()
            invariant
                i <= places@.len(),
                tiles == self.board@,
                turns@ == spec_rotations(),
                forall|coord: Coordinate| places@.contains(coord) <==> is_open_place(tiles, coord),
                forall|coord: Coordinate, rotation: Rotation|
                    among_first(places@, i as int, coord) ==> !#[trigger] placement_fits(
                        tiles,
                        *tile,
                        coord,
                        rotation,
                    ),
            decreases places.len() - i,
        {
            let coord = places[i];
            let mut r: usize = 0;
            assert(places@.contains(coord));
            while r < 4
                invariant
                    r <= 4,
                    i < places@.len(),
                    coord == places@[i as int],
                    is_open_place(tiles, coord),
                    tiles == self.board@,
                    turns@ == spec_rotations(),
                    forall|rotation: Rotation|
                        among_first(spec_rotations(), r as int, rotation) ==> !#[trigger] placement_fits(
                            tiles,
                            *tile,
                            coord,
                            rotation,
                        ),
                decreases 4 - r,
            {
                let placed = tile.with_rotation(turns[r]);
                if self.is_features_match(&coord, &placed) {
                    assert(placement_fits(tiles, *tile, coord, turns@[r as int]));
                    return true;
                }
                r += 1;
            }
            proof {
                assert forall|other: Coordinate, rotation: Rotation|
                    among_first(places@, i + 1, other) implies !#[trigger] placement_fits(
                        tiles,
                        *tile,
                        other,
                        rotation,
                    ) by {
                    lemma_all_rotations(rotation);
                }
            }
            i += 1;
        }
        proof {
            assert forall|coord: Coordinate, rotation: Rotation|
                !#[trigger] placement_fits(tiles, *tile, coord, rotation) by {
                lemma_among_first(places@, places@.len() as int, coord);
            }
        }
        false
    }
}

/// What a traversal has found is a finite set.
pub proof fn lemma_visited_finite<'a, B: BoardData>(result: &crate::feature::FeatureResult<'a, B>)
    ensures
        result.visited@.finite(),
{
    result.visited.lemma_finite();
}

} // verus!
