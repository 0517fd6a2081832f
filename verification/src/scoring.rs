//! What a placement scores, what stands at the end of a match, and the tables
//! that add it up.

use crate::board::{offset, spec_offset, BoardData, BoardUser, Coordinate, Side, OCTAL_DELTAS};
use crate::feature::{
    centres_around,
    found_view,
    spec_connecting_feature,
    spec_feature_result,
    spec_monastery_feature,
    spec_octal_deltas,
    surrounded_by_first,
    FeatureResult,
    ScoringData,
    ScoringView,
};
use crate::keys::{Key, KeyMap, KeySet};
use crate::player::{Player, PLAYER_COUNT};
use crate::tile::{cardinals, spec_cardinals, MiniTile, TileClickTarget, TileData};
use vstd::prelude::*;

verus! {

/// What a list of scorings says, entry by entry.
pub open spec fn views_of(list: Seq<ScoringData>) -> Seq<ScoringView> {
    Seq::new(list.len(), |i: int| list[i]@)
}

/// The roads and cities at the first `n` edges of a tile, in the order of the
/// cardinals, each once: an edge through which an earlier one passes is left
/// out. With them, the edges through which they pass.
pub open spec fn edge_scorings(tiles: Map<Coordinate, TileData>, coord: Coordinate, n: int) -> (
    Seq<ScoringView>,
    Set<TileClickTarget>,
)
    decreases n,
{
    if n <= 0 || n > 4 {
        (Seq::empty(), Set::empty())
    } else {
        let before = edge_scorings(tiles, coord, n - 1);
        let edge = spec_cardinals()[n - 1];
        if before.1.contains(edge) {
            before
        } else {
            match spec_connecting_feature(tiles, coord, edge) {
                Some(feature) => (
                    before.0.push(feature.scoring(false)),
                    before.1.union(feature.originators),
                ),
                None => before,
            }
        }
    }
}

/// The place where the `k`-th monastery that a placement may complete would
/// stand: one of the eight places around the tile, and last the tile itself.
pub open spec fn monastery_candidate(coord: Coordinate, k: int) -> Option<Coordinate> {
    if 0 <= k < 8 {
        spec_offset(coord, spec_octal_deltas()[k])
    } else {
        Some(coord)
    }
}

/// The monasteries among the first `n` candidates.
pub open spec fn monastery_scorings(
    tiles: Map<Coordinate, TileData>,
    coord: Coordinate,
    n: int,
) -> Seq<ScoringView>
    decreases n,
{
    if n <= 0 || n > 9 {
        Seq::empty()
    } else {
        let before = monastery_scorings(tiles, coord, n - 1);
        match monastery_candidate(coord, n - 1) {
            Some(at) => if tiles.contains_key(at) && tiles[at].spec_center_matches(
                MiniTile::Monastery,
            ) {
                match spec_monastery_feature(tiles, at, TileClickTarget::Center) {
                    Some(feature) => before.push(feature.scoring(false)),
                    None => before,
                }
            } else {
                before
            },
            None => before,
        }
    }
}

/// What laying `tile` at `coord` scores: one entry for each road or city at an
/// edge of the tile, then one for each monastery on or around it, each counted
/// as in the match.
pub open spec fn spec_feature_score_data(
    tiles: Map<Coordinate, TileData>,
    coord: Coordinate,
    tile: TileData,
) -> Seq<ScoringView> {
    let laid = tiles.insert(coord, tile);
    edge_scorings(laid, coord, 4).0 + monastery_scorings(laid, coord, 9)
}

/// What stands on the tile at `coord` after its first `n` meeples have been
/// looked at: a meeple on a slot that an earlier entry takes in adds nothing.
pub open spec fn standing_at(
    tiles: Map<Coordinate, TileData>,
    coord: Coordinate,
    n: int,
    so_far: (Seq<ScoringView>, Set<Side>),
) -> (Seq<ScoringView>, Set<Side>)
    decreases n,
{
    let meeples = tiles[coord].spec_meeple_locations();
    if n <= 0 || n > meeples.len() {
        so_far
    } else {
        let before = standing_at(tiles, coord, n - 1, so_far);
        let slot = meeples[n - 1].0;
        if before.1.contains((coord, slot)) {
            before
        } else {
            match spec_feature_result(tiles, coord, slot) {
                Some(feature) => (
                    before.0.push(feature.scoring(true)),
                    before.1.union(feature.removal_candidates()),
                ),
                None => before,
            }
        }
    }
}

/// What stands on the first `n` places of a list, counted as at the end of a
/// match, with the slots that the entries take in.
pub open spec fn standing_over(
    tiles: Map<Coordinate, TileData>,
    order: Seq<Coordinate>,
    n: int,
) -> (Seq<ScoringView>, Set<Side>)
    decreases n,
{
    if n <= 0 || n > order.len() {
        (Seq::empty(), Set::empty())
    } else {
        let before = standing_over(tiles, order, n - 1);
        let coord = order[n - 1];
        if tiles.contains_key(coord) {
            standing_at(tiles, coord, tiles[coord].spec_meeple_locations().len() as int, before)
        } else {
            before
        }
    }
}

/// The places of a board that hold a tile among the first `n` places of the
/// grid, row by row, each row from left to right.
pub open spec fn places_upto(tiles: Map<Coordinate, TileData>, n: int) -> Seq<Coordinate>
    decreases n,
{
    if n <= 0 || n > 65536 {
        Seq::empty()
    } else {
        let before = places_upto(tiles, n - 1);
        let coord = Coordinate::spec_of_code((n - 1) as nat);
        if tiles.contains_key(coord) {
            before.push(coord)
        } else {
            before
        }
    }
}

/// The places of a board that hold a tile, row by row, each row from left to right.
pub open spec fn spec_places(tiles: Map<Coordinate, TileData>) -> Seq<Coordinate> {
    places_upto(tiles, 65536)
}

/// What stands on a board at the end of a match: the features that carry a
/// meeple, each once, as they are met row by row.
pub open spec fn spec_standing(tiles: Map<Coordinate, TileData>) -> Seq<ScoringView> {
    standing_over(tiles, spec_places(tiles), spec_places(tiles).len() as int).0
}

/// The places among the first `n` of the grid that hold a tile are listed
/// once each, and no other place is.
pub proof fn lemma_places_upto(tiles: Map<Coordinate, TileData>, n: int)
    requires
        0 <= n <= 65536,
    ensures
        places_upto(tiles, n).no_duplicates(),
        places_upto(tiles, n).len() <= n,
        forall|coord: Coordinate|
            places_upto(tiles, n).contains(coord) <==> tiles.contains_key(coord)
                && coord.spec_code() < n,
    decreases n,
{
    if n > 0 {
        lemma_places_upto(tiles, n - 1);
        let before = places_upto(tiles, n - 1);
        let last = Coordinate::spec_of_code((n - 1) as nat);
        Coordinate::lemma_of_code((n - 1) as nat);
        assert forall|coord: Coordinate|
            places_upto(tiles, n).contains(coord) <==> tiles.contains_key(coord)
                && coord.spec_code() < n by {
            coord.lemma_code();
            crate::seqs::lemma_push_contains(before, last, coord);
            if coord.spec_code() == n - 1 {
                crate::keys::lemma_code_injective(coord, last);
            }
        }
        if tiles.contains_key(last) {
            crate::seqs::lemma_push_fresh(before, last);
        }
    }
}

/// Every place of a board that holds a tile is listed once, and no other place is.
pub proof fn lemma_places(tiles: Map<Coordinate, TileData>)
    ensures
        spec_places(tiles).no_duplicates(),
        spec_places(tiles).to_set() == tiles.dom(),
        spec_places(tiles).len() <= 65536,
{
    lemma_places_upto(tiles, 65536);
    assert forall|coord: Coordinate|
        spec_places(tiles).to_set().contains(coord) == tiles.dom().contains(coord) by {
        coord.lemma_code();
    }
    assert(spec_places(tiles).to_set() =~= tiles.dom());
}

/// Whether an entry counts for a bucket: for a player who scores, or, where
/// nobody scores, for the bucket without owner.
pub open spec fn credits(entry: ScoringView, bucket: Option<Player>) -> bool {
    match bucket {
        None => entry.scoring_players == Set::<Player>::empty(),
        Some(owner) => entry.scoring_players.contains(owner),
    }
}

/// The points that the first `n` entries of a list give to a bucket.
pub open spec fn bucket_points(list: Seq<ScoringView>, n: int, bucket: Option<Player>) -> nat
    decreases n,
{
    if n <= 0 || n > list.len() {
        0
    } else {
        bucket_points(list, n - 1, bucket) + if credits(list[n - 1], bucket) {
            list[n - 1].points
        } else {
            0nat
        }
    }
}

/// Whether one of the first `n` entries of a list counts for a bucket.
pub open spec fn bucket_credited(list: Seq<ScoringView>, n: int, bucket: Option<Player>) -> bool
    decreases n,
{
    if n <= 0 || n > list.len() {
        false
    } else {
        bucket_credited(list, n - 1, bucket) || credits(list[n - 1], bucket)
    }
}

/// The table of a list of scorings: for each bucket that an entry counts for,
/// the sum of the points of those entries.
pub open spec fn spec_points_table(list: Seq<ScoringView>) -> Map<Option<Player>, nat> {
    Map::new(
        |bucket: Option<Player>| bucket_credited(list, list.len() as int, bucket),
        |bucket: Option<Player>| bucket_points(list, list.len() as int, bucket),
    )
}

/// The part of a table that belongs to players.
pub open spec fn players_part(table: Map<Option<Player>, nat>) -> Map<Player, nat> {
    Map::new(|owner: Player| table.contains_key(Some(owner)), |owner: Player| table[Some(owner)])
}

/// Whether a table of numbers says what a table of points says.
pub open spec fn table_is<K>(table: Map<K, u64>, points: Map<K, nat>) -> bool {
    &&& forall|key: K| table.contains_key(key) <==> points.contains_key(key)
    &&& forall|key: K| table.contains_key(key) ==> table[key] as nat == points[key]
}

/// A bucket gets no more from `n` entries than `n` times the most that one entry can give.
pub proof fn lemma_bucket_points_bound(
    list: Seq<ScoringView>,
    n: int,
    bucket: Option<Player>,
    most: nat,
)
    requires
        0 <= n <= list.len(),
        forall|i: int| 0 <= i < list.len() ==> (#[trigger] list[i]).points <= most,
    ensures
        bucket_points(list, n, bucket) <= n * most,
    decreases n,
{
    if n > 0 {
        lemma_bucket_points_bound(list, n - 1, bucket, most);
        assert(list[n - 1].points <= most);
        assert((n - 1) * most + most == n * most) by (nonlinear_arith);
    }
}

/// A bucket for which no entry counts gets nothing.
pub proof fn lemma_bucket_without_credit(list: Seq<ScoringView>, n: int, bucket: Option<Player>)
    requires
        !bucket_credited(list, n, bucket),
    ensures
        bucket_points(list, n, bucket) == 0,
    decreases n,
{
    if 0 < n <= list.len() {
        lemma_bucket_without_credit(list, n - 1, bucket);
    }
}

impl<'a, B: BoardData> BoardUser<'a, B> {
    /// The monastery that shows at a slot of a tile on the board.
    ///
    /// It reaches the centres of the eight places around it, as far as the grid
    /// goes, and is complete when a tile lies at each of the eight.
    pub fn get_monastery_feature_result(
        &self,
        initial_coord: &Coordinate,
        direction: &TileClickTarget,
    ) -> (found: Option<FeatureResult<'a, B>>)
        ensures
            found_view(found) == spec_monastery_feature(self.board@, *initial_coord, *direction),
    {
        let feature = match self.board.at(initial_coord) {
            Some(tile) => *tile.at(direction),
            None => {
                return None;
            },
        };
        if feature != MiniTile::Monastery {
            return None;
        }
        let mut completed = true;
        let mut out: KeySet<Side> = KeySet::new();
        out.insert((*initial_coord, TileClickTarget::Center));
        assert(out@ =~= centres_around(*initial_coord, 0));
        let deltas = OCTAL_DELTAS;
        assert(deltas@ =~= spec_octal_deltas());
        for k in 0..8
            invariant
                deltas@ == spec_octal_deltas(),
                out@ == centres_around(*initial_coord, k as int),
                completed == surrounded_by_first(self.board@, *initial_coord, k as int),
        {
            match offset(initial_coord, &deltas[k]) {
                Some(coord) => {
                    completed = completed && self.board.at(&coord).is_some();
                    out.insert((coord, TileClickTarget::Center));
                },
                None => {
                    completed = false;
                },
            }
        }
        let mut originators: KeySet<TileClickTarget> = KeySet::new();
        originators.insert(TileClickTarget::Center);
        assert(originators@ =~= set![TileClickTarget::Center]);
        Some(
            FeatureResult {
                board: self.board,
                originators,
                originator_coord: *initial_coord,
                completed,
                feature: MiniTile::Monastery,
                visited: out,
            },
        )
    }

    /// The feature that shows at a slot of a tile on the board, if the slot
    /// shows one.
    pub fn get_feature_result(&self, coord: &Coordinate, direction: &TileClickTarget) -> (found:
        Option<FeatureResult<'a, B>>)
        ensures
            found_view(found) == spec_feature_result(self.board@, *coord, *direction),
    {
        let feature = match self.board.at(coord) {
            Some(tile) => *tile.at(direction),
            None => {
                return None;
            },
        };
        match feature {
            MiniTile::City | MiniTile::Road => self.get_connecting_feature_results(
                coord,
                *direction,
            ),
            MiniTile::Grass | MiniTile::Junction => None,
            MiniTile::Monastery => self.get_monastery_feature_result(coord, direction),
        }
    }

    /// What laying `tile` at `coord` would score, feature by feature, counted
    /// as in the match. The board itself is not changed.
    pub fn get_feature_score_data(&self, coord: &Coordinate, tile: &TileData) -> (data: Vec<
        ScoringData,
    >)
        ensures
            views_of(data@) == spec_feature_score_data(self.board@, *coord, *tile),
            data@.len() <= 13,
            forall|i: int| 0 <= i < data@.len() ==> (#[trigger] data@[i]).points <= 262144,
    {
        let mut overlay: KeyMap<Coordinate, TileData> = KeyMap::new();
        overlay.insert(*coord, *tile);
        let board = crate::board::OverlaidBoard { board: self.board, overlay };
        let ghost laid = self.board@.insert(*coord, *tile);
        assert(board@ =~= laid);
        let board_user = board.as_user();
        let mut data: Vec<ScoringData> = Vec::new();
        // no feature is reported twice for one tile
        let mut seen: KeySet<TileClickTarget> = KeySet::new();
        let edges = cardinals();
        for k in 0..4
            invariant
                edges@ == spec_cardinals(),
                board_user.board@ == laid,
                views_of(data@) == edge_scorings(laid, *coord, k as int).0,
                seen@ == edge_scorings(laid, *coord, k as int).1,
                data@.len() <= k,
                forall|i: int| 0 <= i < data@.len() ==> (#[trigger] data@[i]).points <= 262144,
        {
            let direction = edges[k];
            if !seen.contains(&direction) {
                let ghost before = data@;
                if let Some(feature_result) = board_user.get_connecting_feature_results(
                    coord,
                    direction,
                ) {
                    seen.extend(&feature_result.originators);
                    data.push(feature_result.as_scoring_data(false));
                    assert(views_of(data@) =~= views_of(before).push(
                        feature_result@.scoring(false),
                    ));
                }
            }
        }
        let ghost roads = data@;
        let deltas = OCTAL_DELTAS;
        assert(deltas@ =~= spec_octal_deltas());
        assert(views_of(data@) =~= views_of(roads) + monastery_scorings(laid, *coord, 0));
        for k in 0..9
            invariant
                deltas@ == spec_octal_deltas(),
                board_user.board@ == laid,
                views_of(roads) == edge_scorings(laid, *coord, 4).0,
                views_of(data@) == views_of(roads) + monastery_scorings(laid, *coord, k as int),
                roads.len() <= 4,
                data@.len() <= 4 + k,
                forall|i: int| 0 <= i < data@.len() ==> (#[trigger] data@[i]).points <= 262144,
        {
            let candidate = if k < 8 {
                offset(coord, &deltas[k])
            } else {
                Some(*coord)
            };
            let ghost before = data@;
            if let Some(derived_coord) = candidate {
                if let Some(derived_tile) = board_user.board.at(&derived_coord) {
                    if derived_tile.center_matches(&MiniTile::Monastery) {
                        if let Some(feature_result) = board_user.get_monastery_feature_result(
                            &derived_coord,
                            &TileClickTarget::Center,
                        ) {
                            data.push(feature_result.as_scoring_data(false));
                            assert(views_of(data@) =~= views_of(before).push(
                                feature_result@.scoring(false),
                            ));
                        }
                    }
                }
            }
            assert(views_of(data@) =~= views_of(roads) + monastery_scorings(laid, *coord, k + 1));
        }
        data
    }

    /// What stands on the places of a list, taken in the order of the list and
    /// counted as at the end of a match: one entry for each feature that
    /// carries a meeple.
    pub fn score_standing(&self, order: &Vec<Coordinate>) -> (data: Vec<ScoringData>)
        ensures
            views_of(data@) == standing_over(self.board@, order@, order@.len() as int).0,
            data@.len() <= 5 * order@.len(),
            forall|i: int| 0 <= i < data@.len() ==> (#[trigger] data@[i]).points <= 262144,
    {
        let mut out: Vec<ScoringData> = Vec::new();
        let mut visited: KeySet<Side> = KeySet::new();
        let ghost tiles = self.board@;
        for i in 0..order.len()
            invariant
                tiles == self.board@,
                views_of(out@) == standing_over(tiles, order@, i as int).0,
                visited@ == standing_over(tiles, order@, i as int).1,
                out@.len() <= 5 * i,
                forall|i: int| 0 <= i < out@.len() ==> (#[trigger] out@[i]).points <= 262144,
        {
            let coord = order[i];
            if let Some(tile) = self.board.at(&coord) {
                let directions = tile.get_meeple_locations();
                let ghost so_far = (views_of(out@), visited@);
                let ghost start = out@.len();
                proof {
                    lemma_at_most_five_meeples(*tile);
                }
                for j in 0..directions.len()
                    invariant
                        tiles == self.board@,
                        tiles.contains_key(coord),
                        *tile == tiles[coord],
                        directions@ == tile.spec_meeple_locations(),
                        views_of(out@) == standing_at(tiles, coord, j as int, so_far).0,
                        visited@ == standing_at(tiles, coord, j as int, so_far).1,
                        out@.len() <= start + j,
                        forall|i: int|
                            0 <= i < out@.len() ==> (#[trigger] out@[i]).points <= 262144,
                {
                    let direction = directions[j].0;
                    if !visited.contains(&(coord, direction)) {
                        let ghost before = out@;
                        if let Some(result) = self.get_feature_result(&coord, &direction) {
                            let data = result.as_scoring_data(true);
                            visited.extend(&data.removal_candidate);
                            out.push(data);
                            assert(views_of(out@) =~= views_of(before).push(
                                result@.scoring(true),
                            ));
                        }
                    }
                }
            }
        }
        out
    }

    /// The places that hold a tile, row by row, each row from left to right.
    pub fn places_in_order(&self) -> (places: Vec<Coordinate>)
        ensures
            places@ == spec_places(self.board@),
            places@.len() <= 65536,
    {
        let mut places: Vec<Coordinate> = Vec::new();
        for code in 0..65536u32
            invariant
                places@ == places_upto(self.board@, code as int),
                places@.len() <= code,
        {
            let coord = Coordinate::of_code(code);
            if self.board.at(&coord).is_some() {
                places.push(coord);
            }
        }
        places
    }

    /// What stands on the board at the end of a match: every feature that
    /// carries a meeple, complete or not, once, as the meeples are met row by
    /// row.
    pub fn get_all_scoring_data(&self) -> (data: Vec<ScoringData>)
        ensures
            views_of(data@) == spec_standing(self.board@),
            data@.len() <= 327680,
            forall|i: int| 0 <= i < data@.len() ==> (#[trigger] data@[i]).points <= 262144,
    {
        let order = self.places_in_order();
        self.score_standing(&order)
    }

    /// Adds up a list of scorings: each entry gives its points to every player
    /// who scores, or to the bucket without owner where nobody does.
    pub fn get_points_from_score_data(&self, scores: &Vec<ScoringData>) -> (table: KeyMap<
        Option<Player>,
        u64,
    >)
        requires
            scores@.len() <= u32::MAX,
        ensures
            table_is(table@, spec_points_table(views_of(scores@))),
    {
        let mut out: KeyMap<Option<Player>, u64> = KeyMap::new();
        let ghost list = views_of(scores@);
        for i in 0..scores.len()
            invariant
                list == views_of(scores@),
                scores@.len() <= u32::MAX,
                forall|bucket: Option<Player>| #[trigger]
                    out@.contains_key(bucket) <==> bucket_credited(list, i as int, bucket),
                forall|bucket: Option<Player>| #[trigger]
                    out@.contains_key(bucket) ==> out@[bucket] as nat == bucket_points(
                        list,
                        i as int,
                        bucket,
                    ),
        {
            let datum = &scores[i];
            let score: u64 = datum.points as u64;
            let nobody = datum.scoring_players.is_empty();
            let ghost at_entry = out@;
            assert(list[i as int] == datum@);
            for code in 0..3u32
                invariant
                    list == views_of(scores@),
                    i < scores@.len(),
                    scores@.len() <= u32::MAX,
                    *datum == scores@[i as int],
                    score == datum.points,
                    nobody == (datum.scoring_players@ == Set::<Player>::empty()),
                    forall|bucket: Option<Player>| #[trigger]
                        at_entry.contains_key(bucket) <==> bucket_credited(list, i as int, bucket),
                    forall|bucket: Option<Player>| #[trigger]
                        at_entry.contains_key(bucket) ==> at_entry[bucket] as nat == bucket_points(
                            list,
                            i as int,
                            bucket,
                        ),
                    forall|bucket: Option<Player>| #[trigger]
                        out@.contains_key(bucket) <==> if bucket.spec_code() < code {
                            bucket_credited(list, i + 1, bucket)
                        } else {
                            at_entry.contains_key(bucket)
                        },
                    forall|bucket: Option<Player>| #[trigger]
                        out@.contains_key(bucket) ==> out@[bucket] as nat == if bucket.spec_code()
                            < code {
                            bucket_points(list, i + 1, bucket)
                        } else {
                            bucket_points(list, i as int, bucket)
                        },
            {
                let bucket = Option::<Player>::of_code(code);
                proof {
                    Option::<Player>::lemma_of_code(code as nat);
                    assert forall|other: Option<Player>| other.spec_code() == code implies other
                        == bucket by {
                        crate::keys::lemma_code_injective(other, bucket);
                    }
                    assert forall|i: int| 0 <= i < list.len() implies (#[trigger] list[i]).points
                        <= u32::MAX by {
                        assert(list[i] == scores@[i]@);
                    }
                    lemma_bucket_points_bound(list, i as int, bucket, u32::MAX as nat);
                    if !bucket_credited(list, i as int, bucket) {
                        lemma_bucket_without_credit(list, i as int, bucket);
                    }
                    assert(i * (u32::MAX as nat) + u32::MAX <= u64::MAX) by (nonlinear_arith)
                        requires
                            i < u32::MAX,
                    ;
                }
                let credited = match bucket {
                    None => nobody,
                    Some(owner) => datum.scoring_players.contains(&owner),
                };
                if credited {
                    let current: u64 = match out.get(&bucket) {
                        Some(value) => *value,
                        None => 0,
                    };
                    out.insert(bucket, current + score);
                }
            }
        }
        out
    }

    /// The table of what laying `tile` at `coord` would score.
    pub fn get_completion_points(&self, coord: &Coordinate, tile: &TileData) -> (table: KeyMap<
        Option<Player>,
        u64,
    >)
        ensures
            table_is(
                table@,
                spec_points_table(spec_feature_score_data(self.board@, *coord, *tile)),
            ),
            forall|bucket: Option<Player>| #[trigger]
                table@.contains_key(bucket) ==> table@[bucket] <= 13 * 262144,
    {
        let scores = self.get_feature_score_data(coord, tile);
        proof {
            let list = views_of(scores@);
            assert forall|bucket: Option<Player>|
                bucket_points(list, list.len() as int, bucket) <= 13 * 262144 by {
                assert forall|i: int| 0 <= i < list.len() implies (#[trigger] list[i]).points
                    <= 262144 by {
                    assert(list[i] == scores@[i]@);
                }
                lemma_bucket_points_bound(list, list.len() as int, bucket, 262144);
                assert(list.len() * 262144 <= 13 * 262144) by (nonlinear_arith)
                    requires
                        list.len() <= 13,
                ;
            }
        }
        self.get_points_from_score_data(&scores)
    }

    /// What each player gets at the end of a match for the features that stand
    /// on the board. A player who gets nothing has no entry.
    pub fn get_standing_points(&self) -> (table: KeyMap<Player, u64>)
        ensures
            table_is(table@, players_part(spec_points_table(spec_standing(self.board@)))),
            forall|owner: Player| #[trigger]
                table@.contains_key(owner) ==> table@[owner] <= 327680 * 262144,
    {
        let score_data = self.get_all_scoring_data();
        let points = self.get_points_from_score_data(&score_data);
        proof {
            let list = views_of(score_data@);
            assert forall|owner: Player|
                bucket_points(list, list.len() as int, Some(owner)) <= 327680 * 262144 by {
                assert forall|i: int| 0 <= i < list.len() implies (#[trigger] list[i]).points
                    <= 262144 by {
                    assert(list[i] == score_data@[i]@);
                }
                lemma_bucket_points_bound(list, list.len() as int, Some(owner), 262144);
                assert(list.len() * 262144 <= 327680 * 262144) by (nonlinear_arith)
                    requires
                        list.len() <= 327680,
                ;
            }
        }
        let mut score_map: KeyMap<Player, u64> = KeyMap::new();
        for i in 0..PLAYER_COUNT
            invariant
                forall|owner: Player| #[trigger]
                    score_map@.contains_key(owner) <==> owner.spec_index() < i
                        && points@.contains_key(Some(owner)),
                forall|owner: Player| #[trigger]
                    score_map@.contains_key(owner) ==> score_map@[owner] == points@[Some(owner)],
        {
            let owner = Player::from_index(i);
            if let Some(value) = points.get(&Some(owner)) {
                score_map.insert(owner, *value);
            }
        }
        proof {
            let wanted = players_part(spec_points_table(spec_standing(self.board@)));
            assert forall|owner: Player|
                score_map@.contains_key(owner) <==> wanted.contains_key(owner) by {
                crate::player::lemma_player_index_roundtrip(owner);
            }
            assert(table_is(score_map@, wanted));
        }
        score_map
    }
}

/// A tile carries no more than five meeples, one for each slot.
pub proof fn lemma_at_most_five_meeples(tile: TileData)
    ensures
        tile.spec_meeple_locations().len() <= 5,
{
    reveal_with_fuel(TileData::meeples_on_first, 6);
}

} // verus!
