use crabcassonne::arena::Match;
use crabcassonne::board::{BoardData, ConcreteBoard, DELTAS};
use crabcassonne::bots::bot::Bot;
use crabcassonne::bots::greedy_bot::GreedyBot;
use crabcassonne::bots::random_bot::RandomBot;
use crabcassonne::player::Player;
use crabcassonne::referee::RefereeState;
use crabcassonne::tile::{TileClickTarget, TileData};
use crabcassonne::tilebag::{LegalTileBag, TileBag, TileBagEnum};

const SLOTS: [TileClickTarget; 5] = [
    TileClickTarget::Top,
    TileClickTarget::Left,
    TileClickTarget::Center,
    TileClickTarget::Right,
    TileClickTarget::Bottom,
];

fn meeples_on(board: &ConcreteBoard, player: Player) -> usize {
    board
        .tiles_present()
        .iter()
        .map(|coord| {
            let tile = board.at(coord).unwrap();
            SLOTS
                .iter()
                .filter(|slot| tile.get_meeple_at(slot) == Some(player))
                .count()
        })
        .sum()
}

fn facing(delta: (i8, i8)) -> (TileClickTarget, TileClickTarget) {
    match delta {
        (0, 1) => (TileClickTarget::Right, TileClickTarget::Left),
        (1, 0) => (TileClickTarget::Bottom, TileClickTarget::Top),
        (-1, 0) => (TileClickTarget::Top, TileClickTarget::Bottom),
        _ => (TileClickTarget::Left, TileClickTarget::Right),
    }
}

fn check_state(state: &RefereeState) {
    for player in [Player::White, Player::Black] {
        let reserve = *state.player_meeples.get(&player).unwrap() as usize;
        assert!(reserve <= 7);
        assert_eq!(reserve + meeples_on(&state.board, player), 7);
    }
    let present = state.board.tiles_present();
    assert_eq!(present.len(), state.board.len());
    for coord in &present {
        let tile: &TileData = state.board.at(coord).unwrap();
        assert!(state.board.as_user().is_features_match(coord, tile));
        for delta in DELTAS {
            let next = (coord.0 + delta.0, coord.1 + delta.1);
            if let Some(other) = state.board.at(&next) {
                let (mine, theirs) = facing(delta);
                assert_eq!(tile.at(&mine), other.at(&theirs));
            }
        }
        let meeples = SLOTS.iter().filter(|slot| tile.get_meeple_at(slot).is_some()).count();
        assert!(meeples <= 1);
    }
}

fn play_checked<W: Bot, B: Bot>(mut white: W, mut black: B) -> (RefereeState, usize) {
    let mut state = RefereeState::from_players(
        vec![Player::White, Player::Black],
        TileBagEnum::LegalTileBag(LegalTileBag::default()),
    );
    let mut turns = 0;
    let mut scored_before = [0u64, 0u64];
    loop {
        let player = state.get_player();
        let left_before = state.tilebag.count_remaining();
        let turn = match player {
            Player::White => Match::play_turn(&mut state, &mut white),
            Player::Black => Match::play_turn(&mut state, &mut black),
        };
        match turn.unwrap() {
            Some(made) => {
                turns += 1;
                assert!(state.tilebag.count_remaining() < left_before);
                assert!(state.board.at(&made.coord).unwrap().matches_minis(
                    &made.tile_data.with_rotation(made.rotation)
                ));
                assert_ne!(state.get_player(), player);
                assert!(!state.is_placing_meeple);
            }
            None => {
                assert_eq!(state.tilebag.count_remaining(), 0);
                break;
            }
        }
        check_state(&state);
        let scored = [
            *state.player_scores.get(&Player::White).unwrap(),
            *state.player_scores.get(&Player::Black).unwrap(),
        ];
        assert!(scored[0] >= scored_before[0] && scored[1] >= scored_before[1]);
        scored_before = scored;
    }
    assert_eq!(state.board.len(), turns);
    (state, turns)
}

#[test]
fn random_matches_keep_what_the_referee_promises() {
    for _ in 0..5 {
        let (state, turns) = play_checked(RandomBot::new(Player::White), RandomBot::new(Player::Black));
        assert!(turns <= 72);
        let result = Match::final_result(&state);
        let standing = state.board.as_user().get_standing_points();
        for player in [Player::White, Player::Black] {
            let in_match = *state.player_scores.get(&player).unwrap();
            let at_end = standing.get(&player).copied().unwrap_or(0);
            assert_eq!(result.score_of(&player), in_match + at_end);
        }
    }
}

#[test]
fn a_greedy_match_keeps_what_the_referee_promises() {
    let (state, turns) = play_checked(GreedyBot::new(Player::White), RandomBot::new(Player::Black));
    assert!(turns > 60);
    let result = Match::final_result(&state);
    assert!(result.score_of(&Player::White) > 0);
}

#[test]
fn records_play_again_to_the_same_scores() {
    for _ in 0..5 {
        let bots = vec![RandomBot::new(Player::Black), RandomBot::new(Player::White)];
        let (result, record) = Match::play(bots).unwrap();
        let again = record.replay().unwrap();
        for player in [Player::White, Player::Black] {
            assert_eq!(result.score_of(&player), again.score_of(&player));
        }
        assert_eq!(result.get_winners().to_vec(), again.get_winners().to_vec());
    }
}

#[test]
fn every_listed_move_is_taken_and_no_other_placement() {
    let mut state = RefereeState::from_players(
        vec![Player::White, Player::Black],
        TileBagEnum::LegalTileBag(LegalTileBag::default()),
    );
    let mut white = RandomBot::new(Player::White);
    let mut black = RandomBot::new(Player::Black);
    for turn in 0..12 {
        assert!(state.ensure_legal_draw());
        let moves = state.get_legal_moves();
        assert!(!moves.is_empty());
        for made in &moves {
            let mut copy = state.clone();
            assert_eq!(copy.process_move(*made), Ok(()), "turn {turn}");
        }
        // a place that is taken, and a place far from every tile
        if turn > 0 {
            let taken = state.board.tiles_present()[0];
            let mut copy = state.clone();
            assert!(copy.handle_tile_placement(taken, moves[0].rotation).is_err());
            let mut copy = state.clone();
            assert!(copy.handle_tile_placement((100, 100), moves[0].rotation).is_err());
        }
        let request = if turn % 2 == 0 { white.get_move(&state) } else { black.get_move(&state) };
        assert!(moves.contains(&request));
        assert_eq!(state.process_move(request), Ok(()));
    }
}
