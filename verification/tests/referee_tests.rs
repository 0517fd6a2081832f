use crabcassonne::board::BoardData;
use crabcassonne::bots::bot::MoveRequest;
use crabcassonne::error::GameError;
use crabcassonne::player::Player;
use crabcassonne::referee::{RefereeState, INITIAL_MEEPLES};
use crabcassonne::render::{
    human_step, validate_meeple_placement, validate_tile_placement, ClickMessage, HumanChoice,
    HumanStep, InteractionMessage,
};
use crabcassonne::tile::{MiniTile, Rotation, TileClickTarget, TileData, TileDataBuilder};
use crabcassonne::tilebag::{ReplayTileBag, TileBag};

fn road() -> TileData {
    TileDataBuilder {
        left: MiniTile::Road,
        right: MiniTile::Road,
        center: MiniTile::Road,
        ..Default::default()
    }
    .into()
}

fn road_end_left() -> TileData {
    TileDataBuilder {
        left: MiniTile::Road,
        ..Default::default()
    }
    .into()
}

fn road_end_right() -> TileData {
    TileDataBuilder {
        right: MiniTile::Road,
        ..Default::default()
    }
    .into()
}

fn city() -> TileData {
    TileDataBuilder {
        top: MiniTile::City,
        left: MiniTile::City,
        right: MiniTile::City,
        bottom: MiniTile::City,
        ..Default::default()
    }
    .into()
}

fn monastery() -> TileData {
    TileDataBuilder {
        center: MiniTile::Monastery,
        ..Default::default()
    }
    .into()
}

fn grass() -> TileData {
    TileDataBuilder {
        ..Default::default()
    }
    .into()
}

/// A match in which White has put all seven meeples on monasteries in a row
/// and is up again, with the given tiles still to come.
fn state_with_white_out_of_meeples(then: Vec<TileData>) -> RefereeState {
    let mut tiles = vec![];
    for _ in 0..7 {
        tiles.push(monastery());
        tiles.push(grass());
    }
    tiles.extend(then);
    let mut state = state_with(tiles);
    for turn in 0..7 {
        let white = request((0, 2 * turn), Some(TileClickTarget::Center));
        assert_eq!(state.process_move(white), Ok(()));
        let black = request((0, 2 * turn + 1), None);
        assert_eq!(state.process_move(black), Ok(()));
    }
    assert_eq!(state.get_player(), Player::White);
    assert_eq!(state.player_meeples.get(&Player::White), Some(&0));
    assert_eq!(state.player_meeples.get(&Player::Black), Some(&7));
    state
}

fn state_with(tiles: Vec<TileData>) -> RefereeState {
    RefereeState::from_players(
        vec![Player::White, Player::Black],
        ReplayTileBag::new(tiles).into(),
    )
}

fn request(coord: (i8, i8), meeple: Option<TileClickTarget>) -> MoveRequest {
    MoveRequest { coord, rotation: Rotation::Upright, meeple }
}

#[test]
fn a_match_starts_with_full_reserves_and_no_scores() {
    let state = state_with(vec![road()]);
    assert_eq!(state.get_player(), Player::White);
    assert_eq!(state.get_next_player(), Player::Black);
    assert!(!state.is_placing_meeple);
    assert_eq!(state.player_meeples.get(&Player::White), Some(&INITIAL_MEEPLES));
    assert_eq!(state.player_meeples.get(&Player::Black), Some(&7));
    assert_eq!(state.player_scores.get(&Player::White), Some(&0));
    assert_eq!(state.player_scores.get(&Player::Black), Some(&0));
    assert_eq!(state.board.len(), 0);
    let standard = RefereeState::default();
    assert_eq!(standard.tilebag.count_remaining(), 72);
    assert_eq!(standard.turn_order, vec![Player::White, Player::Black]);
}

#[test]
fn the_first_tile_goes_anywhere() {
    let mut state = state_with(vec![road(), road()]);
    assert_eq!(state.process_move(request((17, -40), None)), Ok(()));
    assert!(state.board.at(&(17, -40)).is_some());
    assert_eq!(state.get_player(), Player::Black);
    assert_eq!(state.tilebag.count_remaining(), 1);
}

#[test]
fn a_tile_must_touch_and_agree() {
    let mut state = state_with(vec![road(), city(), road()]);
    assert_eq!(state.process_move(request((0, 0), None)), Ok(()));
    assert_eq!(state.process_move(request((5, 5), None)), Err(GameError::NoConnectingTile));
    assert_eq!(state.process_move(request((0, 0), None)), Err(GameError::NoConnectingTile));
    assert_eq!(state.process_move(request((0, 1), None)), Err(GameError::FeaturesDontMatch));
    // nothing has changed, and the same player is still up
    assert_eq!(state.get_player(), Player::Black);
    assert_eq!(state.tilebag.count_remaining(), 2);
    assert_eq!(state.board.len(), 1);
    assert!(!state.is_placing_meeple);
}

#[test]
fn an_empty_bag_turns_every_move_down() {
    let mut state = state_with(vec![road()]);
    assert_eq!(state.process_move(request((0, 0), None)), Ok(()));
    assert_eq!(state.process_move(request((0, 1), None)), Err(GameError::EmptyBag));
    assert_eq!(state.handle_tile_placement((0, 1), Rotation::Upright), Err(GameError::EmptyBag));
    assert_eq!(state.board.len(), 1);
}

#[test]
fn a_refused_meeple_leaves_the_tile_in_the_bag() {
    let mut state = state_with(vec![road(), road(), road()]);
    assert_eq!(state.process_move(request((0, 0), Some(TileClickTarget::Left))), Ok(()));
    assert_eq!(state.player_meeples.get(&Player::White), Some(&6));
    // the road is taken
    assert_eq!(
        state.process_move(request((0, 1), Some(TileClickTarget::Right))),
        Err(GameError::FeatureNonEmpty)
    );
    assert_eq!(
        state.process_move(request((0, 1), Some(TileClickTarget::Top))),
        Err(GameError::NonScoringFeature)
    );
    assert_eq!(
        state.process_move(request((0, 1), Some(TileClickTarget::Center))),
        Err(GameError::NonScoringFeature)
    );
    assert!(state.board.at(&(0, 1)).is_none());
    assert_eq!(state.tilebag.count_remaining(), 2);
    assert_eq!(state.get_player(), Player::Black);
    assert_eq!(state.player_meeples.get(&Player::Black), Some(&7));
    assert_eq!(state.process_move(request((0, 1), None)), Ok(()));
    assert_eq!(state.get_player(), Player::White);
}

#[test]
fn a_player_without_meeples_places_none() {
    let mut state = state_with_white_out_of_meeples(vec![monastery(), road()]);
    assert_eq!(
        state.process_move(request((0, 14), Some(TileClickTarget::Center))),
        Err(GameError::OutOfMeeples)
    );
    assert_eq!(state.board.len(), 14);
    assert_eq!(state.tilebag.count_remaining(), 2);
    assert_eq!(state.handle_tile_placement((0, 14), Rotation::Upright), Ok(()));
    assert_eq!(
        state.handle_meeple_placement((0, 14), TileClickTarget::Center),
        Err(GameError::OutOfMeeples)
    );
    assert!(state.is_placing_meeple);
    state.progress_phase(None);
    assert_eq!(state.get_player(), Player::Black);
    assert_eq!(state.board.len(), 15);
}

#[test]
fn a_closed_road_scores_and_gives_the_meeple_back() {
    let mut state = state_with(vec![road_end_right(), road(), road_end_left(), road()]);
    assert_eq!(state.process_move(request((0, 0), Some(TileClickTarget::Right))), Ok(()));
    assert_eq!(state.player_meeples.get(&Player::White), Some(&6));
    assert_eq!(state.process_move(request((0, 1), None)), Ok(()));
    assert_eq!(state.player_scores.get(&Player::White), Some(&0));
    assert_eq!(state.process_move(request((0, 2), None)), Ok(()));
    // three tiles of road for the owner of the only meeple on it
    assert_eq!(state.player_scores.get(&Player::White), Some(&3));
    assert_eq!(state.player_scores.get(&Player::Black), Some(&0));
    assert_eq!(state.player_meeples.get(&Player::White), Some(&7));
    assert_eq!(state.board.at(&(0, 0)).unwrap().get_meeple_at(&TileClickTarget::Right), None);
    assert_eq!(state.get_player(), Player::Black);
}

#[test]
fn the_two_phases_can_be_taken_one_by_one() {
    let mut state = state_with(vec![road(), road()]);
    assert_eq!(state.handle_tile_placement((0, 0), Rotation::Upright), Ok(()));
    assert!(state.is_placing_meeple);
    assert_eq!(state.get_player(), Player::White);
    assert!(state.is_legal_meeple_placement((0, 0), &TileClickTarget::Left));
    assert!(!state.is_legal_meeple_placement((0, 0), &TileClickTarget::Top));
    assert_eq!(
        state.handle_meeple_placement((0, 0), TileClickTarget::Top),
        Err(GameError::NonScoringFeature)
    );
    assert_eq!(
        state.handle_meeple_placement((3, 3), TileClickTarget::Left),
        Err(GameError::NoTilePresent)
    );
    assert!(state.is_placing_meeple);
    assert_eq!(state.handle_meeple_placement((0, 0), TileClickTarget::Left), Ok(()));
    assert!(!state.is_placing_meeple);
    assert_eq!(state.get_player(), Player::Black);
    assert_eq!(state.player_meeples.get(&Player::White), Some(&6));
    assert_eq!(state.handle_tile_placement((0, 1), Rotation::Flip), Ok(()));
    state.progress_phase(None);
    assert_eq!(state.get_player(), Player::White);
    assert_eq!(state.player_meeples.get(&Player::Black), Some(&7));
}

#[test]
fn legal_moves_of_a_state_follow_the_reserve() {
    let state = state_with(vec![road(), road()]);
    // the origin in four rotations, with no meeple or one at either end of the road
    assert_eq!(state.get_legal_moves().len(), 4 * 3);
    assert_eq!(state.is_legal_placement((9, 9), &road()), Ok(()));
    let state = state_with_white_out_of_meeples(vec![monastery()]);
    // thirty places around the row, four rotations each, and no meeple to offer
    assert_eq!(state.get_legal_moves().len(), 30 * 4);
    assert!(state.get_legal_moves().iter().all(|made| made.meeple.is_none()));
}

#[test]
fn a_player_at_the_screen_without_meeples_is_told_so() {
    let state = state_with_white_out_of_meeples(vec![monastery()]);
    let chosen = HumanChoice { tile_data: Some(((0, 14), Rotation::Upright)) };
    let click = InteractionMessage::Click(ClickMessage {
        coord: (0, 14),
        rotation: Rotation::Upright,
        location: TileClickTarget::Center,
    });
    match human_step(&state, &Player::White, chosen, &click) {
        HumanStep::Refused(_, error) => assert_eq!(error, GameError::OutOfMeeples),
        _ => panic!("no meeple is left"),
    }
    match human_step(&state, &Player::Black, chosen, &click) {
        HumanStep::Play(made) => assert_eq!(made.meeple, Some(TileClickTarget::Center)),
        _ => panic!("the other player has meeples"),
    }
}

#[test]
fn a_complete_monastery_gives_nine_points_and_its_meeple_back() {
    let mut tiles = vec![monastery()];
    for _ in 0..8 {
        tiles.push(grass());
    }
    let mut state = state_with(tiles);
    assert_eq!(state.process_move(request((0, 0), Some(TileClickTarget::Center))), Ok(()));
    let around = [(0, 1), (1, 1), (1, 0), (1, -1), (0, -1), (-1, -1), (-1, 0), (-1, 1)];
    for (i, coord) in around.iter().enumerate() {
        assert_eq!(state.player_scores.get(&Player::White), Some(&0));
        assert_eq!(state.player_meeples.get(&Player::White), Some(&6));
        assert_eq!(state.process_move(request(*coord, None)), Ok(()), "tile {i}");
    }
    assert_eq!(state.player_scores.get(&Player::White), Some(&9));
    assert_eq!(state.player_scores.get(&Player::Black), Some(&0));
    assert_eq!(state.player_meeples.get(&Player::White), Some(&7));
    assert_eq!(state.board.at(&(0, 0)).unwrap().get_meeple_at(&TileClickTarget::Center), None);
}

#[test]
fn a_copy_of_a_state_goes_its_own_way() {
    let mut state = state_with(vec![road(), road(), road()]);
    assert_eq!(state.process_move(request((0, 0), Some(TileClickTarget::Left))), Ok(()));
    let mut copy = state.clone();
    assert_eq!(copy.process_move(request((0, 1), None)), Ok(()));
    assert_eq!(copy.board.len(), 2);
    assert_eq!(copy.tilebag.count_remaining(), 1);
    assert_eq!(state.board.len(), 1);
    assert_eq!(state.tilebag.count_remaining(), 2);
    assert_eq!(state.get_player(), Player::Black);
    assert_eq!(copy.get_player(), Player::White);
    assert_eq!(copy.player_meeples.get(&Player::White), Some(&6));
}

#[test]
fn what_is_shown_follows_the_state() {
    let mut state = state_with(vec![road(), city()]);
    assert_eq!(state.process_move(request((0, 0), None)), Ok(()));
    let shown = state.clone_into();
    assert!(shown.preview_tile.unwrap().matches_minis(&city()));
    assert_eq!(shown.current_player, Player::Black);
    assert_eq!(shown.board.len(), 1);
    assert!(!shown.is_placing_meeple);
    assert_eq!(shown.turn_order, vec![Player::White, Player::Black]);
    let mid = state.clone_into_mid_move(Some(((1, 0), Rotation::Right)), true);
    assert!(mid.is_placing_meeple);
    assert_eq!(mid.board.len(), 2);
    assert_eq!(mid.board.at(&(1, 0)).unwrap().rotation, Rotation::Right);
    assert_eq!(state.board.len(), 1);
}

#[test]
fn a_player_at_the_screen_chooses_tile_then_meeple() {
    let mut state = state_with(vec![road(), road()]);
    assert_eq!(state.process_move(request((0, 0), None)), Ok(()));
    let nothing = HumanChoice { tile_data: None };
    let click = |coord: (i8, i8), location: TileClickTarget| {
        InteractionMessage::Click(ClickMessage { coord, rotation: Rotation::Upright, location })
    };
    assert_eq!(validate_tile_placement((0, 1), Rotation::Upright, &state), Ok(()));
    assert_eq!(
        validate_tile_placement((0, 1), Rotation::Left, &state),
        Err(GameError::FeaturesDontMatch)
    );
    assert_eq!(
        validate_meeple_placement(&Player::Black, (0, 1), Rotation::Upright, TileClickTarget::Right, &state),
        Ok(())
    );
    match human_step(&state, &Player::Black, nothing, &click((4, 4), TileClickTarget::Left)) {
        HumanStep::Refused(choice, error) => {
            assert!(choice.tile_data.is_none());
            assert_eq!(error, GameError::NoConnectingTile);
        },
        _ => panic!("a place far off is refused"),
    }
    let chosen = match human_step(&state, &Player::Black, nothing, &click((0, 1), TileClickTarget::Left)) {
        HumanStep::Wait(choice) => choice,
        _ => panic!("the place is taken as chosen"),
    };
    assert_eq!(chosen.tile_data, Some(((0, 1), Rotation::Upright)));
    match human_step(&state, &Player::Black, chosen, &click((0, 1), TileClickTarget::Top)) {
        HumanStep::Refused(_, error) => assert_eq!(error, GameError::NonScoringFeature),
        _ => panic!("grass takes no meeple"),
    }
    match human_step(&state, &Player::Black, chosen, &click((0, 0), TileClickTarget::Right)) {
        HumanStep::Refused(_, error) => assert_eq!(error, GameError::NoTilePresent),
        _ => panic!("the meeple goes on the tile of the turn"),
    }
    match human_step(&state, &Player::Black, chosen, &click((0, 1), TileClickTarget::Right)) {
        HumanStep::Play(made) => {
            assert_eq!(made, MoveRequest {
                coord: (0, 1),
                rotation: Rotation::Upright,
                meeple: Some(TileClickTarget::Right),
            });
            assert_eq!(state.process_move(made), Ok(()));
        },
        _ => panic!("the move is made"),
    }
    match human_step(&state, &Player::Black, chosen, &InteractionMessage::CancelMeeple) {
        HumanStep::Play(made) => assert_eq!(made.meeple, None),
        _ => panic!("the move is made without meeple"),
    }
    match human_step(&state, &Player::Black, nothing, &InteractionMessage::Print("hello".to_string())) {
        HumanStep::Wait(choice) => assert!(choice.tile_data.is_none()),
        _ => panic!("a word changes nothing"),
    }
}

#[test]
fn majority_takes_the_road_and_all_meeples_come_back() {
    let end_right: TileData = TileDataBuilder { right: MiniTile::Road, ..Default::default() }.into();
    let end_bottom: TileData = TileDataBuilder { bottom: MiniTile::Road, ..Default::default() }.into();
    let end_left: TileData = TileDataBuilder { left: MiniTile::Road, ..Default::default() }.into();
    let connector: TileData = TileDataBuilder {
        left: MiniTile::Road,
        top: MiniTile::Road,
        right: MiniTile::Road,
        center: MiniTile::Road,
        ..Default::default()
    }
    .into();
    let mut state = state_with(vec![
        end_right,
        grass(),
        end_bottom,
        grass(),
        grass(),
        end_left,
        connector,
    ]);
    assert_eq!(state.process_move(request((0, -1), Some(TileClickTarget::Right))), Ok(()));
    assert_eq!(state.process_move(request((-1, -1), None)), Ok(()));
    assert_eq!(state.process_move(request((-1, 0), Some(TileClickTarget::Bottom))), Ok(()));
    assert_eq!(state.process_move(request((-1, 1), None)), Ok(()));
    assert_eq!(state.process_move(request((-2, 1), None)), Ok(()));
    assert_eq!(state.process_move(request((0, 1), Some(TileClickTarget::Left))), Ok(()));
    assert_eq!(state.player_meeples.get(&Player::White), Some(&5));
    assert_eq!(state.player_meeples.get(&Player::Black), Some(&6));
    // the road is closed: White has two meeples on it, Black one
    assert_eq!(state.process_move(request((0, 0), None)), Ok(()));
    assert_eq!(state.player_scores.get(&Player::White), Some(&4));
    assert_eq!(state.player_scores.get(&Player::Black), Some(&0));
    assert_eq!(state.player_meeples.get(&Player::White), Some(&7));
    assert_eq!(state.player_meeples.get(&Player::Black), Some(&7));
}
