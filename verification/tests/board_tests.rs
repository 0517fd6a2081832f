use crabcassonne::board::{BoardData, ConcreteBoard, DELTAS};
use crabcassonne::error::GameError;
use crabcassonne::player::Player;
use crabcassonne::tile::{MiniTile, Rotation, TileClickTarget, TileData, TileDataBuilder};
use crabcassonne::tilebag::{LegalTileBag, TileBag};

#[test]
fn legal_tiles() {
    let mut board = ConcreteBoard::default();
    let mut bag = LegalTileBag::default();
    board.set((30, 30), bag.pull().unwrap());
    assert_eq!(board.as_user().get_legal_tiles().len(), 4);
    board.set((29, 30), bag.pull().unwrap());
    assert_eq!(board.as_user().get_legal_tiles().len(), 6);
    board.set((29, 30), bag.pull().unwrap());
    assert_eq!(board.as_user().get_legal_tiles().len(), 6);

    board.set((29, 29), bag.pull().unwrap());
    assert_eq!(board.as_user().get_legal_tiles().len(), 7);

    board.set((30, 29), bag.pull().unwrap());
    assert_eq!(board.as_user().get_legal_tiles().len(), 8);
}

#[test]
fn features_match_basic() {
    let mut board = ConcreteBoard::default();
    let tile_left: TileData = TileDataBuilder {
        top: MiniTile::City,
        left: MiniTile::Road,
        right: MiniTile::Junction,
        bottom: MiniTile::Monastery,
        ..Default::default()
    }
    .into();
    let mut tile_right = tile_left.clone();
    board.set((30, 30), tile_left);
    assert!(!board.as_user().is_features_match(&(30, 31), &tile_right));

    tile_right.rotate_right();
    assert!(!board.as_user().is_features_match(&(30, 31), &tile_right));
    tile_right.rotate_right();

    assert!(board.as_user().is_features_match(&(30, 31), &tile_right));
}

#[test]
fn feature_completion_test() {
    let mut board = ConcreteBoard::default();

    board.set(
        (30, 30),
        TileDataBuilder {
            right: MiniTile::City,
            ..Default::default()
        }
        .into(),
    );
    board.set(
        (30, 31),
        TileDataBuilder {
            right: MiniTile::City,
            left: MiniTile::City,
            bottom: MiniTile::City,
            center: MiniTile::City,
            ..Default::default()
        }
        .into(),
    );
    board.set(
        (31, 31),
        TileDataBuilder {
            top: MiniTile::City,
            ..Default::default()
        }
        .into(),
    );
    board.set(
        (29, 32),
        TileDataBuilder {
            bottom: MiniTile::City,
            ..Default::default()
        }
        .into(),
    );
    assert_eq!(
        12,
        board
            .as_user()
            .get_completion_points(
                &(30, 32),
                &TileDataBuilder {
                    has_emblem: true,
                    top: MiniTile::City,
                    left: MiniTile::City,
                    center: MiniTile::City,
                    ..Default::default()
                }
                .into()
            )
            .get(&None)
            .unwrap_or(&0)
            .clone()
    );
}

#[test]
fn complete_monastery() {
    let mut board = ConcreteBoard::default();

    let mut tile_monastery: TileData = TileDataBuilder {
        center: MiniTile::Monastery,
        ..Default::default()
    }
    .into();
    let success = tile_monastery.place_meeple(&TileClickTarget::Center, &Player::Black);
    assert!(success.is_ok());
    board.set((30, 30), tile_monastery);

    let mut tile: TileData = TileDataBuilder {
        ..Default::default()
    }
    .into();

    let success = tile.place_meeple(&TileClickTarget::Center, &Player::White);
    assert!(success.is_ok());

    board.set((30, 31), tile.clone());
    board.set((29, 31), tile.clone());
    board.set((31, 31), tile.clone());

    board.set((30, 29), tile.clone());
    board.set((31, 29), tile.clone());
    board.set((29, 29), tile.clone());

    board.set((29, 30), tile.clone());

    assert_eq!(
        board
            .as_user()
            .get_completion_points(&(31, 30), &tile)
            .get(&Some(Player::Black))
            .unwrap_or(&0)
            .clone(),
        9
    );

    let score_data = board.as_user().get_feature_score_data(&(31, 30), &tile);
    let mut removed = 0;
    for data in score_data {
        if !data.completed {
            continue;
        }
        let out = board.remove_meeples(data.removal_candidate);
        removed += out.get(&Player::Black).unwrap_or(&0);
        removed += out.get(&Player::White).unwrap_or(&0);
    }

    assert_eq!(removed, 1);
}

#[test]
fn contested_road() {
    let mut board = ConcreteBoard::default();

    let mut tile: TileData = TileDataBuilder {
        top: MiniTile::Road,
        ..Default::default()
    }
    .into();

    let success = tile.place_meeple(&TileClickTarget::Top, &Player::Black);
    assert!(success.is_ok());
    board.set((0, 0), tile.clone());

    tile.rotate_right();
    board.set((-1, -1), tile.clone());

    let mut tile: TileData = TileDataBuilder {
        top: MiniTile::Road,
        ..Default::default()
    }
    .into();
    tile.rotate_left();
    let success = tile.place_meeple(&TileClickTarget::Left, &Player::White);
    assert!(success.is_ok());

    board.set((-1, 1), tile.clone());

    let mut completion_tile: TileData = TileDataBuilder {
        top: MiniTile::Road,
        bottom: MiniTile::Road,
        right: MiniTile::Road,
        center: MiniTile::Road,
        ..Default::default()
    }
    .into();
    completion_tile.rotate_right();

    let score_data = board
        .as_user()
        .get_feature_score_data(&(-1, 0), &completion_tile);
    assert_eq!(score_data.len(), 1);

    let datum = &score_data[0];
    assert_eq!(datum.scoring_players.to_vec(), vec![Player::Black]);
    assert_eq!(datum.points, 4);
}

#[test]
fn simple_score_no_rot() {
    let mut board = ConcreteBoard::default();

    let tile_city: TileData = TileDataBuilder {
        top: MiniTile::City,
        left: MiniTile::Road,
        right: MiniTile::Road,
        center: MiniTile::Road,
        ..Default::default()
    }
    .into();
    board.set((1, 0), tile_city);
    let player = Player::White;

    let maybe_tile = board.at_mut(&(1, 0));
    if let Some(tile) = maybe_tile {
        let success = tile.place_meeple(&TileClickTarget::Top, &player);
        assert!(success.is_ok());
        let success = tile.place_meeple(&TileClickTarget::Left, &player);
        assert!(success.is_ok());
    }

    let tile_city: TileData = TileDataBuilder {
        bottom: MiniTile::City,
        ..Default::default()
    }
    .into();
    board.set((0, 0), tile_city);

    let tile = *board.at(&(0, 0)).unwrap();
    let completion = board.as_user().get_completion_points(&(0, 0), &tile);
    let points = *completion.get(&Some(player.clone())).unwrap_or(&0);
    assert_eq!(points, 4);

    let score_data = board.as_user().get_feature_score_data(&(0, 0), &tile);
    let completion = board.as_user().get_points_from_score_data(&score_data);
    let points = *completion.get(&Some(player.clone())).unwrap_or(&0);
    assert_eq!(points, 4);

    let mut removed = 0;
    for data in score_data {
        let out = board.remove_meeples(data.removal_candidate);
        removed += out.get(&player).unwrap_or(&0);
        println!("{:?}", out.get(&player));
    }

    assert_eq!(removed, 1);
}

#[test]
fn simple_score() {
    let mut board = ConcreteBoard::default();

    let tile_city: TileData = TileDataBuilder {
        top: MiniTile::City,
        ..Default::default()
    }
    .into();
    board.set((1, 0), tile_city);

    let mut tile_city: TileData = TileDataBuilder {
        top: MiniTile::Road,
        left: MiniTile::Road,
        center: MiniTile::Road,
        right: MiniTile::City,
        ..Default::default()
    }
    .into();
    tile_city.rotate_right();
    board.set((0, 0), tile_city.clone());
    let player = Player::White;
    let maybe_tile = board.at_mut(&(0, 0));
    if let Some(tile) = maybe_tile {
        let success = tile.place_meeple(&TileClickTarget::Bottom, &player);
        assert!(success.is_ok());
        let success = tile.place_meeple(&TileClickTarget::Right, &player);
        assert!(success.is_ok());
    }

    let tile = *board.at(&(0, 0)).unwrap();
    let completion = board.as_user().get_completion_points(&(0, 0), &tile);
    let points = *completion.get(&Some(player.clone())).unwrap_or(&0);
    assert_eq!(points, 4);

    let score_data = board.as_user().get_feature_score_data(&(0, 0), &tile);
    let completion = board.as_user().get_points_from_score_data(&score_data);
    let points = *completion.get(&Some(player.clone())).unwrap_or(&0);
    assert_eq!(points, 4);

    let mut removed = 0;
    for data in score_data {
        if !data.completed {
            continue;
        }
        let out = board.remove_meeples(data.removal_candidate);
        removed += out.get(&player).unwrap_or(&0);
    }

    assert_eq!(removed, 1);
}

#[test]
fn features_match_surround_city() {
    let mut board = ConcreteBoard::default();

    let tile_city: TileData = TileDataBuilder {
        top: MiniTile::City,
        left: MiniTile::City,
        right: MiniTile::City,
        bottom: MiniTile::City,
        ..Default::default()
    }
    .into();

    let center = (30_i8, 30_i8);
    for delta in DELTAS {
        let dest = (center.0 + delta.0, center.1 + delta.1);
        assert!(board.as_user().is_features_match(&dest, &tile_city));
        board.set(dest, tile_city.clone());
    }

    assert!(board.as_user().is_features_match(&center, &tile_city));
    assert_eq!(
        board
            .as_user()
            .get_completion_points(&center, &tile_city)
            .get(&None)
            .unwrap_or(&0)
            .clone(),
        16
    );
    let mut bag = LegalTileBag::default();
    for _ in 0..100_000 {
        if let Some(tile) = bag.pull() {
            if tile_city.matches_minis(&tile) {
                assert!(board.as_user().is_features_match(&center, &tile));
            } else {
                assert!(!board.as_user().is_features_match(&center, &tile));
            }
        } else {
            break;
        }
    }
}

fn city_all_round() -> TileData {
    TileDataBuilder {
        top: MiniTile::City,
        left: MiniTile::City,
        right: MiniTile::City,
        bottom: MiniTile::City,
        ..Default::default()
    }
    .into()
}

#[test]
fn surrounded_city_tile_matches_in_every_rotation() {
    let mut board = ConcreteBoard::default();
    let center = (0_i8, 0_i8);
    for delta in DELTAS {
        board.set((center.0 + delta.0, center.1 + delta.1), city_all_round());
    }
    for rotation in [Rotation::Upright, Rotation::Left, Rotation::Flip, Rotation::Right] {
        let turned = city_all_round().with_rotation(rotation);
        assert!(board.as_user().is_features_match(&center, &turned));
    }
}

#[test]
fn legal_tiles_are_the_empty_neighbours() {
    let mut board = ConcreteBoard::default();
    assert_eq!(board.as_user().get_legal_tiles().len(), 0);
    board.set((0, 0), city_all_round());
    let legal = board.as_user().get_legal_tiles();
    assert_eq!(legal.len(), 4);
    for delta in DELTAS {
        assert!(legal.contains(&delta));
    }
    assert!(!legal.contains(&(0, 0)));
    assert!(!legal.contains(&(1, 1)));
}

#[test]
fn legal_tiles_stop_at_the_rim_of_the_grid() {
    let mut board = ConcreteBoard::default();
    board.set((127, 127), city_all_round());
    let legal = board.as_user().get_legal_tiles();
    assert_eq!(legal.len(), 2);
    assert!(legal.contains(&(126, 127)));
    assert!(legal.contains(&(127, 126)));
    board.set((-128, -128), city_all_round());
    assert_eq!(board.as_user().get_legal_tiles().len(), 4);
}

#[test]
fn a_city_at_the_rim_is_never_complete() {
    let mut board = ConcreteBoard::default();
    let tile: TileData = TileDataBuilder {
        right: MiniTile::City,
        ..Default::default()
    }
    .into();
    board.set((0, 127), tile);
    let user = board.as_user();
    let found = user
        .get_connecting_feature_results(&(0, 127), TileClickTarget::Right)
        .unwrap();
    assert!(!found.completed);
    assert_eq!(found.visited.len(), 1);
    assert!(found.visited.contains(&((0, 127), TileClickTarget::Right)));
}

#[test]
fn traversal_finds_a_ring_once() {
    // four corner pieces of road that close to a ring
    let mut board = ConcreteBoard::default();
    let corner = |rotation: Rotation| -> TileData {
        let tile: TileData = TileDataBuilder {
            right: MiniTile::Road,
            bottom: MiniTile::Road,
            center: MiniTile::Road,
            ..Default::default()
        }
        .into();
        tile.with_rotation(rotation)
    };
    board.set((0, 0), corner(Rotation::Upright));
    // right and bottom move to bottom and left after a quarter turn to the right
    let mut top_right = corner(Rotation::Upright);
    top_right.rotate_right();
    board.set((0, 1), top_right);
    let mut bottom_right = top_right;
    bottom_right.rotate_right();
    board.set((1, 1), bottom_right);
    let mut bottom_left = bottom_right;
    bottom_left.rotate_right();
    board.set((1, 0), bottom_left);

    let user = board.as_user();
    let found = user
        .get_connecting_feature_results(&(0, 0), TileClickTarget::Right)
        .unwrap();
    assert!(found.completed);
    assert_eq!(found.feature, MiniTile::Road);
    assert_eq!(found.visited.len(), 8);
    assert_eq!(found.get_present_tiles().len(), 4);
    assert_eq!(found.originators.len(), 2);
    assert!(found.originators.contains(&TileClickTarget::Right));
    assert!(found.originators.contains(&TileClickTarget::Bottom));
    let data = found.as_scoring_data(false);
    assert_eq!(data.points, 4);
    assert!(data.completed);
    assert!(data.scoring_players.is_empty());
}

#[test]
fn open_road_counts_only_at_the_end() {
    let mut board = ConcreteBoard::default();
    let mut tile: TileData = TileDataBuilder {
        left: MiniTile::Road,
        right: MiniTile::Road,
        center: MiniTile::Road,
        ..Default::default()
    }
    .into();
    assert!(tile.place_meeple(&TileClickTarget::Left, &Player::Black).is_ok());
    board.set((0, 0), tile);
    let user = board.as_user();
    let found = user.get_feature_result(&(0, 0), &TileClickTarget::Right).unwrap();
    assert!(!found.completed);
    // the two empty places at the ends are reached as well
    assert_eq!(found.visited.len(), 4);
    let in_match = found.as_scoring_data(false);
    assert_eq!(in_match.points, 0);
    assert!(in_match.scoring_players.is_empty());
    let at_end = found.as_scoring_data(true);
    assert_eq!(at_end.points, 1);
    assert_eq!(at_end.scoring_players.to_vec(), vec![Player::Black]);
    assert_eq!(found.get_meeples(), vec![Player::Black]);
}

#[test]
fn city_counts_twice_in_the_match_and_once_at_the_end() {
    let mut board = ConcreteBoard::default();
    let left: TileData = TileDataBuilder {
        has_emblem: true,
        right: MiniTile::City,
        ..Default::default()
    }
    .into();
    let right: TileData = TileDataBuilder {
        left: MiniTile::City,
        ..Default::default()
    }
    .into();
    board.set((0, 0), left);
    board.set((0, 1), right);
    let user = board.as_user();
    let found = user.get_feature_result(&(0, 0), &TileClickTarget::Right).unwrap();
    assert!(found.completed);
    // two tiles and one emblem
    assert_eq!(found.get_score(false).1, 6);
    assert_eq!(found.get_score(true).1, 3);
}

#[test]
fn tied_owners_all_score() {
    let mut board = ConcreteBoard::default();
    let mut left: TileData = TileDataBuilder {
        right: MiniTile::City,
        ..Default::default()
    }
    .into();
    let mut right: TileData = TileDataBuilder {
        left: MiniTile::City,
        ..Default::default()
    }
    .into();
    assert!(left.place_meeple(&TileClickTarget::Right, &Player::White).is_ok());
    assert!(right.place_meeple(&TileClickTarget::Left, &Player::Black).is_ok());
    board.set((0, 0), left);
    board.set((0, 1), right);
    let user = board.as_user();
    let found = user.get_feature_result(&(0, 0), &TileClickTarget::Right).unwrap();
    let players = found.get_scoring_players();
    assert_eq!(players.len(), 2);
    assert!(players.contains(&Player::White));
    assert!(players.contains(&Player::Black));
    let table = user.get_points_from_score_data(&vec![found.as_scoring_data(false)]);
    assert_eq!(table.get(&Some(Player::White)), Some(&4));
    assert_eq!(table.get(&Some(Player::Black)), Some(&4));
    assert_eq!(table.get(&None), None);
}

#[test]
fn grass_and_junction_are_no_features() {
    let mut board = ConcreteBoard::default();
    let tile: TileData = TileDataBuilder {
        left: MiniTile::Road,
        center: MiniTile::Junction,
        ..Default::default()
    }
    .into();
    board.set((0, 0), tile);
    let user = board.as_user();
    assert!(user.get_feature_result(&(0, 0), &TileClickTarget::Top).is_none());
    assert!(user.get_feature_result(&(0, 0), &TileClickTarget::Center).is_none());
    assert!(user.get_feature_result(&(5, 5), &TileClickTarget::Left).is_none());
    assert!(user.get_feature_result(&(0, 0), &TileClickTarget::Left).is_some());
}

#[test]
fn meeple_legality_names_its_reason() {
    let mut board = ConcreteBoard::default();
    let mut tile: TileData = TileDataBuilder {
        left: MiniTile::Road,
        right: MiniTile::Road,
        center: MiniTile::Road,
        ..Default::default()
    }
    .into();
    board.set((0, 0), tile);
    {
        let user = board.as_user();
        assert_eq!(user.is_legal_meeple(&(1, 1), TileClickTarget::Left), Err(GameError::NoTilePresent));
        assert_eq!(
            user.is_legal_meeple(&(0, 0), TileClickTarget::Center),
            Err(GameError::NonScoringFeature)
        );
        assert_eq!(
            user.is_legal_meeple(&(0, 0), TileClickTarget::Top),
            Err(GameError::NonScoringFeature)
        );
        assert_eq!(user.is_legal_meeple(&(0, 0), TileClickTarget::Left), Ok(()));
    }
    assert!(tile.place_meeple(&TileClickTarget::Right, &Player::White).is_ok());
    board.set((0, 0), tile);
    let user = board.as_user();
    assert_eq!(
        user.is_legal_meeple(&(0, 0), TileClickTarget::Left),
        Err(GameError::FeatureNonEmpty)
    );
}

#[test]
fn monastery_takes_one_meeple() {
    let mut board = ConcreteBoard::default();
    let mut tile: TileData = TileDataBuilder {
        center: MiniTile::Monastery,
        ..Default::default()
    }
    .into();
    board.set((0, 0), tile);
    assert_eq!(board.as_user().is_legal_meeple(&(0, 0), TileClickTarget::Center), Ok(()));
    assert!(tile.place_meeple(&TileClickTarget::Center, &Player::Black).is_ok());
    board.set((0, 0), tile);
    assert_eq!(
        board.as_user().is_legal_meeple(&(0, 0), TileClickTarget::Center),
        Err(GameError::FeatureNonEmpty)
    );
    let user = board.as_user();
    let found = user.get_feature_result(&(0, 0), &TileClickTarget::Center).unwrap();
    assert!(!found.completed);
    assert_eq!(found.visited.len(), 9);
    assert_eq!(found.get_score(true).1, 1);
}

#[test]
fn boundaries_span_the_tiles() {
    let mut board = ConcreteBoard::default();
    assert_eq!(board.boundaries(), ((1, -1), (1, -1)));
    board.set((3, -4), city_all_round());
    assert_eq!(board.boundaries(), ((3, 3), (-4, -4)));
    board.set((-2, 7), city_all_round());
    board.set((0, 0), city_all_round());
    assert_eq!(board.boundaries(), ((-2, 3), (-4, 7)));
}

#[test]
fn overlay_shows_the_tile_without_laying_it() {
    let mut board = ConcreteBoard::default();
    board.set((0, 0), city_all_round());
    let extra: TileData = TileDataBuilder {
        left: MiniTile::City,
        ..Default::default()
    }
    .into();
    {
        let laid = board.with_overlay((0, 1), &extra);
        assert!(laid.at(&(0, 1)).is_some());
        assert!(laid.at(&(0, 0)).is_some());
        let mut present = laid.tiles_present();
        present.sort();
        assert_eq!(present, vec![(0, 0), (0, 1)]);
        let over = laid.with_overlay((0, 0), &extra);
        assert_eq!(over.tiles_present().len(), 2);
        assert!(over.at(&(0, 0)).unwrap().matches_minis(&extra));
    }
    assert!(board.at(&(0, 1)).is_none());
    assert_eq!(board.as_user().tiles_placed(), 1);
}

#[test]
fn standing_points_count_each_feature_once() {
    let mut board = ConcreteBoard::default();
    let mut left: TileData = TileDataBuilder {
        left: MiniTile::Road,
        right: MiniTile::Road,
        center: MiniTile::Road,
        ..Default::default()
    }
    .into();
    let mut right = left;
    assert!(left.place_meeple(&TileClickTarget::Left, &Player::White).is_ok());
    assert!(right.place_meeple(&TileClickTarget::Right, &Player::White).is_ok());
    board.set((0, 0), left);
    board.set((0, 1), right);
    let user = board.as_user();
    let all = user.get_all_scoring_data();
    assert_eq!(all.len(), 1);
    assert_eq!(all[0].points, 2);
    let standing = user.get_standing_points();
    assert_eq!(standing.get(&Player::White), Some(&2));
    assert_eq!(standing.get(&Player::Black), None);
}

#[test]
fn legal_moves_are_listed_once_each() {
    let mut board = ConcreteBoard::default();
    let road: TileData = TileDataBuilder {
        left: MiniTile::Road,
        right: MiniTile::Road,
        center: MiniTile::Road,
        ..Default::default()
    }
    .into();
    {
        let user = board.as_user();
        // on an empty board the tile goes to the origin in any rotation
        let opening = user.get_legal_moves(&road, false);
        assert_eq!(opening.len(), 4);
        assert!(opening.iter().all(|request| request.coord == (0, 0) && request.meeple.is_none()));
        assert!(user.does_legal_move_exist(&road));
    }
    board.set((0, 0), road);
    let user = board.as_user();
    let plain = user.get_legal_moves(&road, false);
    // road to road at the left and at the right, grass to grass above and below
    assert_eq!(plain.len(), 8);
    let with_meeples = user.get_legal_moves(&road, true);
    // either end of the road may take the meeple
    assert_eq!(with_meeples.len(), 8 + 16);
    for (i, request) in with_meeples.iter().enumerate() {
        for other in &with_meeples[i + 1..] {
            assert_ne!(request, other);
        }
    }
    let city: TileData = TileDataBuilder {
        top: MiniTile::City,
        left: MiniTile::City,
        right: MiniTile::City,
        bottom: MiniTile::City,
        ..Default::default()
    }
    .into();
    assert!(!user.does_legal_move_exist(&city));
    assert!(user.get_legal_moves(&city, true).is_empty());
}

#[test]
fn at_mut_changes_one_tile_in_place() {
    let mut board = ConcreteBoard::default();
    board.set((0, 0), city_all_round());
    board.set((0, 1), city_all_round());
    assert!(board.at_mut(&(5, 5)).is_none());
    if let Some(tile) = board.at_mut(&(0, 1)) {
        tile.rotate_left();
        assert!(tile.place_meeple(&TileClickTarget::Top, &Player::White).is_ok());
    }
    assert_eq!(board.at(&(0, 1)).unwrap().rotation, Rotation::Left);
    assert_eq!(board.at(&(0, 1)).unwrap().get_meeple_at(&TileClickTarget::Top), Some(Player::White));
    assert_eq!(board.at(&(0, 0)).unwrap().rotation, Rotation::Upright);
    assert_eq!(board.at(&(0, 0)).unwrap().get_meeple_at(&TileClickTarget::Top), None);
    assert_eq!(board.len(), 2);
}

#[test]
fn standing_features_come_row_by_row() {
    let mut board = ConcreteBoard::default();
    let mut city: TileData = TileDataBuilder {
        top: MiniTile::City,
        ..Default::default()
    }
    .into();
    assert!(city.place_meeple(&TileClickTarget::Top, &Player::Black).is_ok());
    let mut emblem: TileData = TileDataBuilder {
        has_emblem: true,
        top: MiniTile::City,
        ..Default::default()
    }
    .into();
    assert!(emblem.place_meeple(&TileClickTarget::Top, &Player::White).is_ok());
    // laid in this order, met in the order of the rows
    board.set((3, 0), city);
    board.set((-2, 5), emblem);
    board.set((-2, -1), city);
    let user = board.as_user();
    assert_eq!(user.places_in_order(), vec![(-2, -1), (-2, 5), (3, 0)]);
    let all = user.get_all_scoring_data();
    assert_eq!(all.len(), 3);
    assert_eq!(all[0].points, 1);
    assert_eq!(all[0].scoring_players.to_vec(), vec![Player::Black]);
    assert_eq!(all[1].points, 2);
    assert_eq!(all[1].scoring_players.to_vec(), vec![Player::White]);
    assert_eq!(all[2].points, 1);
    let standing = user.get_standing_points();
    assert_eq!(standing.get(&Player::White), Some(&2));
    assert_eq!(standing.get(&Player::Black), Some(&2));
}
