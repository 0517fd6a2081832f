//! Why a feature is scored once: a complete feature is out of reach of every
//! tile that is placed later, and what stands at the end of a match is taken
//! in feature by feature, no slot twice.

use crate::board::{
    edge_agrees, edges_agree, has_tile_across, lemma_neighbor_symmetric, spec_coupling,
    spec_features_match, spec_neighbor, Coordinate, Side,
};
use crate::feature::{
    connected, connected_in, feature_complete, feature_sides, is_shut, lands_on, leaves_grid,
    lemma_closed_set_holds_feature, lemma_connected_self, lemma_connected_step, steps_to,
};
use crate::board::{lemma_fit_of_tile, meeples_fit, spec_offset, tile_fits};
use crate::feature::{
    spec_feature_result, spec_octal_deltas, surrounded_by_first, ScoringView,
};
use crate::scoring::{lemma_places, monastery_candidate, spec_places, spec_standing, standing_at, standing_over};
use crate::referee::RefereeView;
use crate::tile::{lemma_exit_properties, MiniTile, Rotation, TileClickTarget, TileData};
use vstd::prelude::*;

verus! {

/// Whether a slot is an edge that shows a given kind wherever a tile lies.
pub open spec fn shows_at_edge(tiles: Map<Coordinate, TileData>, side: Side, kind: MiniTile) -> bool {
    side.1.is_edge() && (tiles.contains_key(side.0) ==> tiles[side.0].spec_at(side.1) == kind)
}

/// On a board whose tiles agree, a road or a city that is entered at an edge
/// runs along edges only and shows the same kind on every tile.
pub proof fn lemma_feature_shows_one_kind(
    tiles: Map<Coordinate, TileData>,
    seed: Side,
    side: Side,
    steps: nat,
)
    requires
        edges_agree(tiles),
        tiles.contains_key(seed.0),
        seed.1.is_edge(),
        tiles[seed.0].spec_at(seed.1).spec_is_traversable(),
        connected_in(tiles, seed, side, steps),
    ensures
        shows_at_edge(tiles, side, tiles[seed.0].spec_at(seed.1)),
    decreases steps,
{
    if steps > 0 {
        let kind = tiles[seed.0].spec_at(seed.1);
        let mid = choose|mid: Side|
            connected_in(tiles, seed, mid, (steps - 1) as nat) && #[trigger] steps_to(
                tiles,
                mid,
                side,
            );
        lemma_feature_shows_one_kind(tiles, seed, mid, (steps - 1) as nat);
        let exit = choose|exit: TileClickTarget| #[trigger]
            tiles[mid.0].is_exit(mid.1, exit) && lands_on(mid.0, exit, side);
        lemma_exit_properties(tiles[mid.0], mid.1, exit);
        if side != (mid.0, exit) && tiles.contains_key(side.0) {
            reveal(edges_agree);
            assert(spec_features_match(tiles, mid.0, tiles[mid.0]));
            assert(edge_agrees(tiles, mid.0, tiles[mid.0], exit));
            assert(has_tile_across(tiles, mid.0, exit));
        }
    }
}

/// On a tile, a step from an edge to an exit can be taken back.
pub proof fn lemma_step_back_on_tile(tile: TileData, from: TileClickTarget, to: TileClickTarget)
    requires
        from.is_edge(),
        tile.is_exit(from, to),
    ensures
        tile.is_exit(to, from),
{
}

/// A complete road or city is out of reach of a tile that is placed later:
/// nothing that is reached from an edge of the new tile belongs to it.
pub proof fn lemma_complete_feature_is_out_of_reach(
    tiles: Map<Coordinate, TileData>,
    seed: Side,
    coord: Coordinate,
    tile: TileData,
    edge: TileClickTarget,
    side: Side,
)
    requires
        edges_agree(tiles),
        tiles.contains_key(seed.0),
        seed.1.is_edge(),
        tiles[seed.0].spec_at(seed.1).spec_is_traversable(),
        feature_complete(tiles, seed),
        !tiles.contains_key(coord),
        edge.is_edge(),
        connected(tiles.insert(coord, tile), (coord, edge), side),
    ensures
        !connected(tiles, seed, side),
{
    let after = tiles.insert(coord, tile);
    let kind = tiles[seed.0].spec_at(seed.1);
    let outside = Set::new(|other: Side| other.1.is_edge() && !connected(tiles, seed, other));
    assert(outside.contains((coord, edge))) by {
        if connected(tiles, seed, (coord, edge)) {
            assert(is_shut(tiles, (coord, edge)));
        }
    }
    assert forall|a: Side, b: Side|
        outside.contains(a) && #[trigger] steps_to(after, a, b) implies outside.contains(b) by {
        let exit = choose|exit: TileClickTarget| #[trigger]
            after[a.0].is_exit(a.1, exit) && lands_on(a.0, exit, b);
        lemma_exit_properties(after[a.0], a.1, exit);
        if connected(tiles, seed, b) {
            let steps = choose|steps: nat| #[trigger] connected_in(tiles, seed, b, steps);
            lemma_feature_shows_one_kind(tiles, seed, b, steps);
            assert(is_shut(tiles, b));
            // the feature runs on from `b` across its own edge
            assert(tiles[b.0].is_exit(b.1, b.1));
            if b == (a.0, exit) {
                // a step on one tile, which can be taken back
                assert(a.0 != coord);
                lemma_step_back_on_tile(tiles[a.0], a.1, exit);
                assert(steps_to(tiles, b, a)) by {
                    assert(tiles[b.0].is_exit(b.1, a.1) && lands_on(b.0, a.1, a));
                }
                lemma_connected_step(tiles, seed, b, a);
            } else {
                // a step across an edge, which leads back across the facing edge
                lemma_neighbor_symmetric(a.0, exit);
                let back: Side = (a.0, exit);
                assert(steps_to(tiles, b, back)) by {
                    assert(tiles[b.0].is_exit(b.1, b.1) && lands_on(b.0, b.1, back));
                }
                lemma_connected_step(tiles, seed, b, back);
                assert(is_shut(tiles, back));
                assert(a.0 != coord);
                lemma_step_back_on_tile(tiles[a.0], a.1, exit);
                assert(steps_to(tiles, back, a)) by {
                    assert(tiles[back.0].is_exit(back.1, a.1) && lands_on(back.0, a.1, a));
                }
                lemma_connected_step(tiles, seed, back, a);
            }
        }
    }
    let steps = choose|steps: nat| #[trigger] connected_in(after, (coord, edge), side, steps);
    lemma_closed_set_holds_feature(after, (coord, edge), outside, side, steps);
}

/// A complete road or city stays as it is when a tile is placed later: it
/// reaches what it reached, and it is complete.
pub proof fn lemma_complete_feature_stays(
    tiles: Map<Coordinate, TileData>,
    seed: Side,
    coord: Coordinate,
    tile: TileData,
)
    requires
        feature_complete(tiles, seed),
        !tiles.contains_key(coord),
    ensures
        feature_sides(tiles.insert(coord, tile), seed) == feature_sides(tiles, seed),
        feature_complete(tiles.insert(coord, tile), seed),
{
    let after = tiles.insert(coord, tile);
    let before_sides = feature_sides(tiles, seed);
    lemma_connected_self(tiles, seed);
    assert forall|a: Side, b: Side|
        before_sides.contains(a) && #[trigger] steps_to(after, a, b) implies before_sides.contains(
        b,
    ) by {
        assert(is_shut(tiles, a));
        let exit = choose|exit: TileClickTarget| #[trigger]
            after[a.0].is_exit(a.1, exit) && lands_on(a.0, exit, b);
        assert(steps_to(tiles, a, b)) by {
            assert(tiles[a.0].is_exit(a.1, exit) && lands_on(a.0, exit, b));
        }
        lemma_connected_step(tiles, seed, a, b);
    }
    assert forall|side: Side| connected(after, seed, side) implies connected(tiles, seed, side) by {
        let steps = choose|steps: nat| #[trigger] connected_in(after, seed, side, steps);
        lemma_closed_set_holds_feature(after, seed, before_sides, side, steps);
    }
    assert forall|side: Side| connected(tiles, seed, side) implies connected(after, seed, side) by {
        let steps = choose|steps: nat| #[trigger] connected_in(tiles, seed, side, steps);
        lemma_old_path_is_new_path(tiles, seed, coord, tile, side, steps);
    }
    assert(feature_sides(after, seed) =~= before_sides);
    assert forall|side: Side| #[trigger] connected(after, seed, side) implies is_shut(
        after,
        side,
    ) by {
        assert(is_shut(tiles, side));
        if leaves_grid(after, side) {
            let exit = choose|exit: TileClickTarget| #[trigger]
                after[side.0].is_exit(side.1, exit) && spec_neighbor(side.0, exit) is None;
            assert(tiles[side.0].is_exit(side.1, exit) && spec_neighbor(side.0, exit) is None);
        }
    }
}

/// What a complete feature reaches, it still reaches after a tile is placed.
pub proof fn lemma_old_path_is_new_path(
    tiles: Map<Coordinate, TileData>,
    seed: Side,
    coord: Coordinate,
    tile: TileData,
    side: Side,
    steps: nat,
)
    requires
        feature_complete(tiles, seed),
        !tiles.contains_key(coord),
        connected_in(tiles, seed, side, steps),
    ensures
        connected(tiles.insert(coord, tile), seed, side),
    decreases steps,
{
    let after = tiles.insert(coord, tile);
    if steps == 0 {
        lemma_connected_self(after, seed);
    } else {
        let mid = choose|mid: Side|
            connected_in(tiles, seed, mid, (steps - 1) as nat) && #[trigger] steps_to(
                tiles,
                mid,
                side,
            );
        lemma_old_path_is_new_path(tiles, seed, coord, tile, mid, (steps - 1) as nat);
        let exit = choose|exit: TileClickTarget| #[trigger]
            tiles[mid.0].is_exit(mid.1, exit) && lands_on(mid.0, exit, side);
        assert(steps_to(after, mid, side)) by {
            assert(after[mid.0].is_exit(mid.1, exit) && lands_on(mid.0, exit, side));
        }
        lemma_connected_step(after, seed, mid, side);
    }
}

/// A place that has a tile at each of the eight places around it lies next
/// to no empty place.
pub proof fn lemma_surrounded_place_has_no_empty_neighbour(
    tiles: Map<Coordinate, TileData>,
    place: Coordinate,
    coord: Coordinate,
    k: int,
)
    requires
        surrounded_by_first(tiles, place, 8),
        tiles.contains_key(place),
        !tiles.contains_key(coord),
        0 <= k < 9,
    ensures
        monastery_candidate(coord, k) != Some(place),
{
    reveal_with_fuel(surrounded_by_first, 9);
    let deltas = spec_octal_deltas();
    if k < 8 && spec_offset(coord, deltas[k]) == Some(place) {
        // the step back from the place leads to the empty place
        let back = if k == 0 {
            3
        } else if k == 1 {
            2
        } else if k == 2 {
            1
        } else if k == 3 {
            0
        } else if k == 4 {
            7
        } else if k == 5 {
            6
        } else if k == 6 {
            5
        } else {
            4int
        };
        assert(spec_offset(place, deltas[back]) == Some(coord));
    }
}

/// A complete monastery is scored once: it is not among the monasteries that
/// a tile placed later is scored for.
pub proof fn lemma_complete_monastery_is_out_of_reach(
    tiles: Map<Coordinate, TileData>,
    place: Coordinate,
    coord: Coordinate,
)
    requires
        surrounded_by_first(tiles, place, 8),
        tiles.contains_key(place),
        !tiles.contains_key(coord),
    ensures
        forall|k: int| 0 <= k < 9 ==> #[trigger] monastery_candidate(coord, k) != Some(place),
{
    assert forall|k: int| 0 <= k < 9 implies #[trigger] monastery_candidate(coord, k) != Some(
        place,
    ) by {
        lemma_surrounded_place_has_no_empty_neighbour(tiles, place, coord, k);
    }
}

/// Whether a slot is an edge of a tile of the board that shows a road or a city.
pub open spec fn is_seed(tiles: Map<Coordinate, TileData>, side: Side) -> bool {
    &&& tiles.contains_key(side.0)
    &&& side.1.is_edge()
    &&& tiles[side.0].spec_at(side.1).spec_is_traversable()
}

/// What is reached from something that is reached, is reached.
pub proof fn lemma_connected_on(
    tiles: Map<Coordinate, TileData>,
    from: Side,
    mid: Side,
    to: Side,
    steps: nat,
)
    requires
        connected(tiles, from, mid),
        connected_in(tiles, mid, to, steps),
    ensures
        connected(tiles, from, to),
    decreases steps,
{
    if steps > 0 {
        let last = choose|last: Side|
            connected_in(tiles, mid, last, (steps - 1) as nat) && #[trigger] steps_to(
                tiles,
                last,
                to,
            );
        lemma_connected_on(tiles, from, mid, last, (steps - 1) as nat);
        lemma_connected_step(tiles, from, last, to);
    }
}

/// On a board whose tiles agree, a step from an edge to a slot of a tile can
/// be taken back, in one step or in two.
pub proof fn lemma_step_back(tiles: Map<Coordinate, TileData>, from: Side, to: Side)
    requires
        edges_agree(tiles),
        from.1.is_edge(),
        steps_to(tiles, from, to),
        tiles.contains_key(to.0),
    ensures
        connected(tiles, to, from),
{
    let exit = choose|exit: TileClickTarget| #[trigger]
        tiles[from.0].is_exit(from.1, exit) && lands_on(from.0, exit, to);
    lemma_exit_properties(tiles[from.0], from.1, exit);
    lemma_step_back_on_tile(tiles[from.0], from.1, exit);
    let back: Side = (from.0, exit);
    lemma_connected_self(tiles, to);
    if to != back {
        reveal(edges_agree);
        assert(spec_features_match(tiles, from.0, tiles[from.0]));
        assert(edge_agrees(tiles, from.0, tiles[from.0], exit));
        assert(has_tile_across(tiles, from.0, exit));
        lemma_neighbor_symmetric(from.0, exit);
        assert(steps_to(tiles, to, back)) by {
            assert(tiles[to.0].is_exit(to.1, to.1) && lands_on(to.0, to.1, back));
        }
        lemma_connected_step(tiles, to, to, back);
    }
    assert(steps_to(tiles, back, from)) by {
        assert(tiles[back.0].is_exit(back.1, from.1) && lands_on(back.0, from.1, from));
    }
    lemma_connected_step(tiles, to, back, from);
}

/// On a board whose tiles agree, the way along a road or a city can be gone
/// back: from a slot of a tile that is reached from an edge, the edge is reached.
pub proof fn lemma_connected_back(
    tiles: Map<Coordinate, TileData>,
    seed: Side,
    side: Side,
    steps: nat,
)
    requires
        edges_agree(tiles),
        is_seed(tiles, seed),
        connected_in(tiles, seed, side, steps),
        tiles.contains_key(side.0),
    ensures
        connected(tiles, side, seed),
    decreases steps,
{
    if steps == 0 {
        lemma_connected_self(tiles, seed);
    } else {
        let mid = choose|mid: Side|
            connected_in(tiles, seed, mid, (steps - 1) as nat) && #[trigger] steps_to(
                tiles,
                mid,
                side,
            );
        lemma_feature_shows_one_kind(tiles, seed, mid, (steps - 1) as nat);
        lemma_connected_back(tiles, seed, mid, (steps - 1) as nat);
        lemma_step_back(tiles, mid, side);
        let back = choose|back: nat| #[trigger] connected_in(tiles, mid, seed, back);
        lemma_connected_on(tiles, side, mid, seed, back);
    }
}

/// The slot of the tile across an edge of an empty place.
pub open spec fn across(side: Side) -> Side {
    (spec_neighbor(side.0, side.1).unwrap(), spec_coupling(side.1))
}

/// A slot of an empty place is reached only across its edge, from the tile
/// that lies there.
pub proof fn lemma_reached_across(
    tiles: Map<Coordinate, TileData>,
    seed: Side,
    side: Side,
    steps: nat,
)
    requires
        is_seed(tiles, seed),
        connected_in(tiles, seed, side, steps),
        !tiles.contains_key(side.0),
    ensures
        spec_neighbor(side.0, side.1) is Some,
        tiles.contains_key(across(side).0),
        connected(tiles, seed, across(side)),
{
    assert(steps > 0);
    let mid = choose|mid: Side|
        connected_in(tiles, seed, mid, (steps - 1) as nat) && #[trigger] steps_to(
            tiles,
            mid,
            side,
        );
    let exit = choose|exit: TileClickTarget| #[trigger]
        tiles[mid.0].is_exit(mid.1, exit) && lands_on(mid.0, exit, side);
    lemma_exit_properties(tiles[mid.0], mid.1, exit);
    lemma_neighbor_symmetric(mid.0, exit);
    let from: Side = (mid.0, exit);
    assert(across(side) == from);
    assert(steps_to(tiles, mid, from)) by {
        assert(tiles[mid.0].is_exit(mid.1, exit) && lands_on(mid.0, exit, from));
    }
    assert(connected(tiles, seed, mid));
    lemma_connected_step(tiles, seed, mid, from);
}

/// On a board whose tiles agree, roads and cities share nothing: two of them
/// that reach one slot are one, each reached from the edges of the other.
pub proof fn lemma_features_share_nothing(
    tiles: Map<Coordinate, TileData>,
    first: Side,
    second: Side,
    shared: Side,
)
    requires
        edges_agree(tiles),
        is_seed(tiles, first),
        is_seed(tiles, second),
        connected(tiles, first, shared),
        connected(tiles, second, shared),
    ensures
        connected(tiles, first, second),
{
    let to_first = choose|steps: nat| #[trigger] connected_in(tiles, first, shared, steps);
    let to_second = choose|steps: nat| #[trigger] connected_in(tiles, second, shared, steps);
    if tiles.contains_key(shared.0) {
        lemma_connected_back(tiles, second, shared, to_second);
        let back = choose|steps: nat| #[trigger] connected_in(tiles, shared, second, steps);
        lemma_connected_on(tiles, first, shared, second, back);
    } else {
        lemma_reached_across(tiles, first, shared, to_first);
        lemma_reached_across(tiles, second, shared, to_second);
        let from = across(shared);
        let from_second = choose|steps: nat| #[trigger] connected_in(tiles, second, from, steps);
        lemma_connected_back(tiles, second, from, from_second);
        let back = choose|steps: nat| #[trigger] connected_in(tiles, from, second, steps);
        lemma_connected_on(tiles, first, from, second, back);
    }
}

/// Whether an entry takes in a road or a city of the board, or the centre of
/// one of some places.
pub open spec fn entry_from(
    tiles: Map<Coordinate, TileData>,
    entry: ScoringView,
    done: Set<Coordinate>,
) -> bool {
    ||| exists|seed: Side|
        is_seed(tiles, seed) && #[trigger] feature_sides(tiles, seed) == entry.removal_candidate
    ||| exists|place: Coordinate| #[trigger]
        done.contains(place) && entry.removal_candidate == set![(place, TileClickTarget::Center)]
}

/// Whether a list of entries takes in what it takes in once: every entry is
/// a road, a city or the centre of one of the places that have been looked
/// at; no slot is in two entries; and the slots that are marked as taken in
/// are those of the entries.
pub open spec fn counted_once(
    tiles: Map<Coordinate, TileData>,
    so_far: (Seq<ScoringView>, Set<Side>),
    done: Set<Coordinate>,
) -> bool {
    &&& forall|i: int| 0 <= i < so_far.0.len() ==> entry_from(tiles, #[trigger] so_far.0[i], done)
    &&& no_slot_twice(so_far.0)
    &&& forall|side: Side|
        so_far.1.contains(side) <==> exists|i: int|
            0 <= i < so_far.0.len() && (#[trigger] so_far.0[i]).removal_candidate.contains(side)
}

/// Whether no slot is taken in by two entries of a list.
pub open spec fn no_slot_twice(list: Seq<ScoringView>) -> bool {
    forall|i: int, j: int, side: Side|
        #![trigger list[i].removal_candidate.contains(side), list[j].removal_candidate.contains(side)]
        0 <= i < j < list.len() && list[i].removal_candidate.contains(side)
            ==> !list[j].removal_candidate.contains(side)
}

/// A tile with at most one meeple lists at most one meeple, at the slot where it stands.
pub proof fn lemma_one_meeple_listed(tile: TileData)
    requires
        tile_fits(tile),
    ensures
        tile.spec_meeple_locations().len() <= 1,
        tile.spec_meeple_locations().len() == 1 ==> tile.spec_meeple_at(
            tile.spec_meeple_locations()[0].0,
        ) is Some,
{
    reveal_with_fuel(TileData::meeples_on_first, 6);
    assert(crate::tile::spec_slots()[0] == TileClickTarget::Top);
    assert(crate::tile::spec_slots()[1] == TileClickTarget::Left);
    assert(crate::tile::spec_slots()[2] == TileClickTarget::Center);
    assert(crate::tile::spec_slots()[3] == TileClickTarget::Right);
    assert(crate::tile::spec_slots()[4] == TileClickTarget::Bottom);
}

/// Looking at the tile of one more place keeps a list of entries one that
/// takes in what it takes in once.
pub proof fn lemma_one_more_place(
    tiles: Map<Coordinate, TileData>,
    coord: Coordinate,
    so_far: (Seq<ScoringView>, Set<Side>),
    done: Set<Coordinate>,
)
    requires
        edges_agree(tiles),
        meeples_fit(tiles),
        tiles.contains_key(coord),
        !done.contains(coord),
        counted_once(tiles, so_far, done),
    ensures
        counted_once(
            tiles,
            standing_at(
                tiles,
                coord,
                tiles[coord].spec_meeple_locations().len() as int,
                so_far,
            ),
            done.insert(coord),
        ),
{
    let tile = tiles[coord];
    let meeples = tile.spec_meeple_locations();
    let more = done.insert(coord);
    lemma_fit_of_tile(tiles, coord);
    lemma_one_meeple_listed(tile);
    assert forall|i: int| 0 <= i < so_far.0.len() implies entry_from(
        tiles,
        #[trigger] so_far.0[i],
        more,
    ) by {
        let entry = so_far.0[i];
        assert(entry_from(tiles, entry, done));
        if exists|place: Coordinate| #[trigger]
            done.contains(place) && entry.removal_candidate == set![
                (place, TileClickTarget::Center),
            ] {
            let place = choose|place: Coordinate| #[trigger]
                done.contains(place) && entry.removal_candidate == set![
                    (place, TileClickTarget::Center),
                ];
            assert(more.contains(place));
        }
    }
    let after = standing_at(tiles, coord, meeples.len() as int, so_far);
    reveal_with_fuel(standing_at, 2);
    if meeples.len() == 1 {
        let slot = meeples[0].0;
        let seed: Side = (coord, slot);
        if !so_far.1.contains(seed) {
            match spec_feature_result(tiles, coord, slot) {
                Some(feature) => {
                    let entry = feature.scoring(true);
                    let taken = entry.removal_candidate;
                    let list = so_far.0.push(entry);
                    assert(after == (list, so_far.1.union(taken)));
                    let kind = tile.spec_at(slot);
                    if kind.spec_is_traversable() {
                        assert(is_seed(tiles, seed));
                        assert(taken == feature_sides(tiles, seed));
                        assert(entry_from(tiles, entry, more));
                        assert forall|i: int, side: Side|
                            0 <= i < so_far.0.len() && #[trigger] so_far.0[i].removal_candidate.contains(
                                side,
                            ) implies !taken.contains(side) by {
                            if taken.contains(side) {
                                let steps = choose|steps: nat| #[trigger]
                                    connected_in(tiles, seed, side, steps);
                                lemma_feature_shows_one_kind(tiles, seed, side, steps);
                                let earlier = so_far.0[i];
                                assert(entry_from(tiles, earlier, done));
                                if exists|other: Side|
                                    is_seed(tiles, other) && #[trigger] feature_sides(tiles, other)
                                        == earlier.removal_candidate {
                                    let other = choose|other: Side|
                                        is_seed(tiles, other) && #[trigger] feature_sides(
                                            tiles,
                                            other,
                                        ) == earlier.removal_candidate;
                                    assert(feature_sides(tiles, other).contains(side));
                                    lemma_features_share_nothing(tiles, other, seed, side);
                                    assert(feature_sides(tiles, other).contains(seed));
                                    assert(so_far.1.contains(seed));
                                }
                            }
                        }
                    } else {
                        assert(kind == MiniTile::Monastery);
                        assert(taken == set![(coord, TileClickTarget::Center)]);
                        assert(more.contains(coord) && taken == set![
                            (coord, TileClickTarget::Center),
                        ]);
                        assert(entry_from(tiles, entry, more));
                        assert forall|i: int, side: Side|
                            0 <= i < so_far.0.len() && #[trigger] so_far.0[i].removal_candidate.contains(
                                side,
                            ) implies !taken.contains(side) by {
                            if taken.contains(side) {
                                let earlier = so_far.0[i];
                                assert(entry_from(tiles, earlier, done));
                                if exists|other: Side|
                                    is_seed(tiles, other) && #[trigger] feature_sides(tiles, other)
                                        == earlier.removal_candidate {
                                    let other = choose|other: Side|
                                        is_seed(tiles, other) && #[trigger] feature_sides(
                                            tiles,
                                            other,
                                        ) == earlier.removal_candidate;
                                    let steps = choose|steps: nat| #[trigger]
                                        connected_in(tiles, other, side, steps);
                                    lemma_feature_shows_one_kind(tiles, other, side, steps);
                                } else {
                                    let place = choose|place: Coordinate| #[trigger]
                                        done.contains(place) && earlier.removal_candidate == set![
                                            (place, TileClickTarget::Center),
                                        ];
                                    assert(place != coord);
                                }
                            }
                        }
                    }
                    assert forall|i: int| 0 <= i < list.len() implies entry_from(
                        tiles,
                        #[trigger] list[i],
                        more,
                    ) by {
                        if i < so_far.0.len() {
                            assert(list[i] == so_far.0[i]);
                        }
                    }
                    assert(no_slot_twice(list)) by {
                        assert forall|i: int, j: int, side: Side|
                            #![trigger list[i].removal_candidate.contains(side), list[j].removal_candidate.contains(side)]
                            0 <= i < j < list.len() && list[i].removal_candidate.contains(
                                side,
                            ) implies !list[j].removal_candidate.contains(side) by {
                            assert(list[i] == so_far.0[i]);
                            assert(so_far.0[i].removal_candidate.contains(side));
                            if j < so_far.0.len() {
                                assert(list[j] == so_far.0[j]);
                                assert(!so_far.0[j].removal_candidate.contains(side));
                            } else {
                                assert(list[j] == entry);
                                assert(!taken.contains(side));
                            }
                        }
                    }
                    assert forall|side: Side|
                        after.1.contains(side) <==> exists|i: int|
                            0 <= i < list.len() && (#[trigger] list[i]).removal_candidate.contains(
                                side,
                            ) by {
                        if so_far.1.contains(side) {
                            let i = choose|i: int|
                                0 <= i < so_far.0.len() && (
                                #[trigger] so_far.0[i]).removal_candidate.contains(side);
                            assert(list[i] == so_far.0[i]);
                        }
                        if taken.contains(side) {
                            assert(list[list.len() - 1].removal_candidate.contains(side));
                        }
                        if exists|i: int|
                            0 <= i < list.len() && (#[trigger] list[i]).removal_candidate.contains(
                                side,
                            ) {
                            let i = choose|i: int|
                                0 <= i < list.len() && (
                                #[trigger] list[i]).removal_candidate.contains(side);
                            if i < so_far.0.len() {
                                assert(so_far.0[i].removal_candidate.contains(side));
                            }
                        }
                    }
                },
                None => {},
            }
        }
    }
}

/// What stands on the first places of a list without repeats takes in what
/// it takes in once.
pub proof fn lemma_standing_over_counts_once(
    tiles: Map<Coordinate, TileData>,
    order: Seq<Coordinate>,
    n: int,
)
    requires
        edges_agree(tiles),
        meeples_fit(tiles),
        order.no_duplicates(),
        0 <= n <= order.len(),
    ensures
        counted_once(tiles, standing_over(tiles, order, n), order.take(n).to_set()),
    decreases n,
{
    if n > 0 {
        lemma_standing_over_counts_once(tiles, order, n - 1);
        let before = standing_over(tiles, order, n - 1);
        let shorter = order.take(n - 1);
        let longer = order.take(n);
        let done = shorter.to_set();
        let coord = order[n - 1];
        assert(!done.contains(coord)) by {
            if done.contains(coord) {
                let k = choose|k: int| 0 <= k < shorter.len() && shorter[k] == coord;
                assert(order[k] == order[n - 1]);
            }
        }
        assert(longer.to_set() =~= done.insert(coord)) by {
            assert forall|place: Coordinate|
                longer.to_set().contains(place) == done.insert(coord).contains(place) by {
                if longer.to_set().contains(place) {
                    let k = choose|k: int| 0 <= k < longer.len() && longer[k] == place;
                    if k < n - 1 {
                        assert(shorter[k] == place);
                    }
                }
                if done.contains(place) {
                    let k = choose|k: int| 0 <= k < shorter.len() && shorter[k] == place;
                    assert(longer[k] == place);
                }
                if place == coord {
                    assert(longer[n - 1] == place);
                }
            }
        }
        if tiles.contains_key(coord) {
            lemma_one_more_place(tiles, coord, before, done);
        } else {
            let more = done.insert(coord);
            assert forall|i: int| 0 <= i < before.0.len() implies entry_from(
                tiles,
                #[trigger] before.0[i],
                more,
            ) by {
                let entry = before.0[i];
                assert(entry_from(tiles, entry, done));
                if exists|place: Coordinate| #[trigger]
                    done.contains(place) && entry.removal_candidate == set![
                        (place, TileClickTarget::Center),
                    ] {
                    let place = choose|place: Coordinate| #[trigger]
                        done.contains(place) && entry.removal_candidate == set![
                            (place, TileClickTarget::Center),
                        ];
                    assert(more.contains(place));
                }
            }
        }
    }
}

/// What stands at the end of a match is counted once: on a board whose
/// tiles agree and carry at most one meeple each, on a slot that takes one,
/// no slot belongs to two of the features that are counted.
pub proof fn lemma_standing_counts_once(tiles: Map<Coordinate, TileData>)
    requires
        edges_agree(tiles),
        meeples_fit(tiles),
    ensures
        no_slot_twice(spec_standing(tiles)),
{
    lemma_places(tiles);
    let order = spec_places(tiles);
    lemma_standing_over_counts_once(tiles, order, order.len() as int);
}

/// In a match, what stands on the board is counted once at the end: no slot
/// belongs to two of the features that are counted.
pub proof fn lemma_match_counts_once(state: RefereeView)
    requires
        state.settled(),
    ensures
        no_slot_twice(spec_standing(state.board)),
{
    lemma_standing_counts_once(state.board);
}

/// In a match, a road or a city that is complete is scored no more: nothing
/// that is reached from an edge of the tile that is placed next belongs to it.
pub proof fn lemma_match_scores_once(
    state: RefereeView,
    seed: Side,
    coord: Coordinate,
    rotation: Rotation,
    edge: TileClickTarget,
    side: Side,
)
    requires
        state.settled(),
        state.check_tile(coord, rotation) is Ok,
        is_seed(state.board, seed),
        feature_complete(state.board, seed),
        edge.is_edge(),
        connected(state.with_tile(coord, rotation).board, (coord, edge), side),
    ensures
        !connected(state.board, seed, side),
{
    let tile = state.drawn().unwrap().spec_with_rotation(rotation);
    assert(!state.board.contains_key(coord)) by {
        if state.board.contains_key(coord) {
            assert(state.board.dom().contains(coord));
            assert(state.board.dom() != Set::<Coordinate>::empty());
        }
    }
    lemma_complete_feature_is_out_of_reach(state.board, seed, coord, tile, edge, side);
}

} // verus!
