use crabcassonne::arena::{random_match, ConcreteMove, GameResult, Match, Replay};
use crabcassonne::bots::bot::{Bot, MoveRequest};
use crabcassonne::bots::greedy_bot::{choose_best, GreedyBot};
use crabcassonne::bots::random_bot::RandomBot;
use crabcassonne::bots::replay_bot::ReplayBot;
use crabcassonne::bots::tree::ArenaTree;
use crabcassonne::error::GameError;
use crabcassonne::keys::KeyMap;
use crabcassonne::player::Player;
use crabcassonne::referee::RefereeState;
use crabcassonne::tile::{MiniTile, Rotation, TileClickTarget, TileData, TileDataBuilder};
use crabcassonne::tilebag::{ReplayTileBag, TileBag};

#[test]
fn replay_works() {
    let bot_w = RandomBot::new(Player::White);
    let bot_b = RandomBot::new(Player::Black);

    let (result, replay) = Match::play(vec![bot_w, bot_b]).unwrap();

    let replay_result = replay.replay().unwrap();
    assert_eq!(
        result.score_of(&Player::White),
        replay_result.score_of(&Player::White)
    );
    assert_eq!(
        result.score_of(&Player::Black),
        replay_result.score_of(&Player::Black)
    );
}

#[test]
fn is_greedy() {
    let bot_w = RandomBot::new(Player::White);
    let bot_b = RandomBot::new(Player::Black);

    let bots = vec![bot_w, bot_b];
    let owners: Vec<Player> = bots.iter().map(|bot| bot.get_own_player()).collect();
    let players = Match::players_of(&owners);
    let first: TileData = TileDataBuilder {
        top: MiniTile::City,
        left: MiniTile::Road,
        center: MiniTile::Road,
        right: MiniTile::Road,
        ..Default::default()
    }
    .into();
    let second: TileData = TileDataBuilder {
        right: MiniTile::Road,
        ..Default::default()
    }
    .into();
    let third: TileData = TileDataBuilder {
        left: MiniTile::Road,
        center: MiniTile::Junction,
        ..Default::default()
    }
    .into();
    let bag = ReplayTileBag::new(vec![first, second, third]);

    let mut state = RefereeState::from_players(players.clone(), bag.into());
    state
        .process_move(MoveRequest {
            coord: (0, 0),
            ..Default::default()
        })
        .unwrap();
    state
        .process_move(MoveRequest {
            coord: (0, -1),
            ..Default::default()
        })
        .unwrap();
    let mut bot_b = GreedyBot::new(Player::Black);
    for _i in 0..10 {
        let move_request = bot_b.get_move(&state);
        let expected = MoveRequest {
            coord: (0, 1),
            rotation: crabcassonne::tile::Rotation::Upright,
            meeple: Some(crabcassonne::tile::TileClickTarget::Left),
        };
        assert_eq!(move_request, expected);
    }
}

fn road() -> TileData {
    TileDataBuilder {
        left: MiniTile::Road,
        right: MiniTile::Road,
        center: MiniTile::Road,
        ..Default::default()
    }
    .into()
}

fn scores(white: Option<u64>, black: Option<u64>) -> GameResult {
    let mut player_scores: KeyMap<Player, u64> = KeyMap::new();
    if let Some(points) = white {
        player_scores.insert(Player::White, points);
    }
    if let Some(points) = black {
        player_scores.insert(Player::Black, points);
    }
    GameResult { player_scores }
}

#[test]
fn winners_are_those_with_the_most() {
    assert_eq!(scores(Some(3), Some(5)).get_winners().to_vec(), vec![Player::Black]);
    assert_eq!(scores(Some(8), Some(5)).get_winners().to_vec(), vec![Player::White]);
    let tie = scores(Some(4), Some(4)).get_winners();
    assert_eq!(tie.len(), 2);
    let none_scored = scores(Some(0), Some(0)).get_winners();
    assert_eq!(none_scored.len(), 2);
    assert_eq!(scores(None, Some(0)).get_winners().to_vec(), vec![Player::Black]);
    assert!(scores(None, None).get_winners().is_empty());
    assert_eq!(scores(Some(3), None).score_of(&Player::Black), 0);
}

#[test]
fn players_come_in_their_order_each_once() {
    assert_eq!(
        Match::players_of(&vec![Player::Black, Player::White, Player::Black]),
        vec![Player::White, Player::Black]
    );
    assert_eq!(Match::players_of(&vec![Player::Black]), vec![Player::Black]);
    assert_eq!(Match::bot_for(&vec![Player::Black, Player::White, Player::Black], Player::Black), Some(2));
    assert_eq!(Match::bot_for(&vec![Player::Black], Player::White), None);
}

#[test]
fn a_random_match_runs_to_the_end() {
    let bots = vec![RandomBot::new(Player::White), RandomBot::new(Player::Black)];
    let (result, replay) = Match::play(bots).unwrap();
    assert!(replay.moves.len() <= 72);
    assert!(replay.moves.len() > 60);
    assert_eq!(replay.turn_order, vec![Player::White, Player::Black]);
    let winners = result.get_winners();
    assert!(winners.len() >= 1);
    assert_eq!(random_match(2), 2);
}

#[test]
fn final_scores_are_match_scores_and_standing_points() {
    let end_left: TileData = TileDataBuilder {
        right: MiniTile::Road,
        ..Default::default()
    }
    .into();
    let end_right: TileData = TileDataBuilder {
        left: MiniTile::Road,
        ..Default::default()
    }
    .into();
    let city_left: TileData = TileDataBuilder {
        bottom: MiniTile::City,
        ..Default::default()
    }
    .into();
    let bag = ReplayTileBag::new(vec![end_left, end_right, city_left]);
    let mut state = RefereeState::from_players(vec![Player::White, Player::Black], bag.into());
    let upright = |coord: (i8, i8), meeple: Option<TileClickTarget>| MoveRequest {
        coord,
        rotation: Rotation::Upright,
        meeple,
    };
    // White closes a road of two tiles with Black's help, Black keeps an open city
    assert_eq!(state.process_move(upright((0, 0), Some(TileClickTarget::Right))), Ok(()));
    assert_eq!(state.process_move(upright((0, 1), None)), Ok(()));
    assert_eq!(state.process_move(upright((1, 0), None)), Ok(()));
    assert_eq!(state.player_scores.get(&Player::White), Some(&2));
    let result = Match::final_result(&state);
    assert_eq!(result.score_of(&Player::White), 2);
    assert_eq!(result.score_of(&Player::Black), 0);

    let bag = ReplayTileBag::new(vec![end_left, city_left]);
    let mut state = RefereeState::from_players(vec![Player::White, Player::Black], bag.into());
    assert_eq!(state.process_move(upright((0, 0), Some(TileClickTarget::Right))), Ok(()));
    assert_eq!(state.process_move(upright((1, 0), Some(TileClickTarget::Bottom))), Ok(()));
    assert_eq!(state.player_scores.get(&Player::White), Some(&0));
    let result = Match::final_result(&state);
    // one open road of one tile, one open city of one tile
    assert_eq!(result.score_of(&Player::White), 1);
    assert_eq!(result.score_of(&Player::Black), 1);
}

#[test]
fn a_record_plays_again_as_it_was() {
    let record = Replay {
        turn_order: vec![Player::White, Player::Black],
        moves: vec![
            ConcreteMove {
                tile_data: road(),
                coord: (0, 0),
                rotation: Rotation::Upright,
                location: Some(TileClickTarget::Left),
            },
            ConcreteMove {
                tile_data: road(),
                coord: (0, 1),
                rotation: Rotation::Flip,
                location: None,
            },
            ConcreteMove {
                tile_data: road(),
                coord: (1, 1),
                rotation: Rotation::Upright,
                location: Some(TileClickTarget::Right),
            },
        ],
    };
    let result = record.replay().unwrap();
    // White holds the road of two tiles and a road of one tile
    assert_eq!(result.score_of(&Player::White), 3);
    assert_eq!(result.score_of(&Player::Black), 0);
    let request: MoveRequest = (&record.moves[1]).into();
    assert_eq!(request, MoveRequest { coord: (0, 1), rotation: Rotation::Flip, meeple: None });
}

#[test]
fn a_record_with_a_wrong_move_fails() {
    let record = Replay {
        turn_order: vec![Player::White, Player::Black],
        moves: vec![
            ConcreteMove { tile_data: road(), coord: (0, 0), rotation: Rotation::Upright, location: None },
            ConcreteMove { tile_data: road(), coord: (0, 1), rotation: Rotation::Left, location: None },
        ],
    };
    assert_eq!(record.replay().err(), Some(GameError::FeaturesDontMatch));
}

#[test]
fn replay_bot_plays_its_moves_in_order() {
    let mut bot = ReplayBot::unitialized(Player::Black);
    assert_eq!(bot.get_own_player(), Player::Black);
    let first = MoveRequest { coord: (1, 2), rotation: Rotation::Left, meeple: None };
    let second = MoveRequest { coord: (3, 4), rotation: Rotation::Flip, meeple: Some(TileClickTarget::Top) };
    bot.add_move(first);
    bot.add_move(second);
    assert_eq!(bot.next_move(), first);
    assert_eq!(bot.next_move(), second);
    assert_eq!(bot.next_move(), MoveRequest::default());
    assert_eq!(bot.get_name(), "replay bot");
}

#[test]
fn greedy_bot_breaks_ties_either_way() {
    // every move on an empty board is worth nothing
    let bag = ReplayTileBag::new(vec![road()]);
    let state = RefereeState::from_players(vec![Player::White, Player::Black], bag.into());
    let mut bot = GreedyBot::new(Player::White);
    let mut seen = std::collections::HashSet::new();
    for _ in 0..200 {
        let made = bot.get_move(&state);
        assert_eq!(made.coord, (0, 0));
        seen.insert(made);
    }
    assert!(seen.len() > 1);
    assert_eq!(state.tilebag.count_remaining(), 1);
}

#[test]
fn random_bot_plays_legal_moves() {
    let bag = ReplayTileBag::new(vec![road(), road()]);
    let mut state = RefereeState::from_players(vec![Player::White, Player::Black], bag.into());
    let mut white = RandomBot::new(Player::White);
    let mut black = RandomBot::new(Player::Black);
    let first = white.get_move(&state);
    assert_eq!(first.coord, (0, 0));
    assert_eq!(state.process_move(first), Ok(()));
    let second = black.get_move(&state);
    assert_eq!(state.process_move(second), Ok(()));
    assert_eq!(state.board.len(), 2);
}

#[test]
fn a_search_tree_knows_its_way_to_the_root() {
    let mut tree: ArenaTree<&str> = ArenaTree::new("root");
    assert_eq!(tree.len(), 1);
    assert_eq!(tree.path_to_root(0), vec![0]);
    let first = tree.insert_children(vec!["a", "b", "c"], 0);
    assert_eq!(first, vec![1, 2, 3]);
    let second = tree.insert_children(vec!["ba", "bb"], 2);
    assert_eq!(second, vec![4, 5]);
    let third = tree.insert_children(vec!["d"], 0);
    assert_eq!(third, vec![6]);
    assert!(tree.insert_children(vec![], 3).is_empty());
    let deep = tree.insert_children(vec!["bba"], 5);
    assert_eq!(deep, vec![7]);
    assert_eq!(tree.len(), 8);
    assert_eq!(tree.arena[0].children, vec![1, 2, 3, 6]);
    assert_eq!(tree.arena[2].children, vec![4, 5]);
    assert_eq!(tree.arena[5].parent, Some(2));
    assert_eq!(tree.arena[5].data, "bb");
    assert_eq!(tree.arena[1].data, "a");
    assert_eq!(tree.arena[3].data, "c");
    assert_eq!(tree.arena[7].idx, 7);
    assert_eq!(tree.path_to_root(7), vec![7, 5, 2, 0]);
    assert_eq!(tree.path_to_root(6), vec![6, 0]);
}

#[test]
fn the_lead_of_a_player_is_own_less_others() {
    assert_eq!(scores(Some(9), Some(4)).advantage_of(&Player::White), 5);
    assert_eq!(scores(Some(9), Some(4)).advantage_of(&Player::Black), -5);
    assert_eq!(scores(None, Some(4)).advantage_of(&Player::White), -4);
    assert_eq!(scores(None, None).advantage_of(&Player::Black), 0);
    assert_eq!(
        scores(Some(u64::MAX), Some(0)).advantage_of(&Player::Black),
        -(u64::MAX as i128)
    );
}

#[test]
fn the_best_of_a_list_is_chosen() {
    let moves: Vec<MoveRequest> = (0..5)
        .map(|i| MoveRequest { coord: (0, i), rotation: Rotation::Upright, meeple: None })
        .collect();
    let mut bot_rng = <rand::rngs::StdRng as rand::SeedableRng>::seed_from_u64(1);
    assert_eq!(choose_best(&moves, &vec![1, 7, 3, -2, 0], &mut bot_rng), 1);
    assert_eq!(choose_best(&moves, &vec![-5, -7, -3, -2, -9], &mut bot_rng), 3);
    let mut seen = std::collections::HashSet::new();
    for _ in 0..200 {
        let best = choose_best(&moves, &vec![4, 1, 4, 0, 4], &mut bot_rng);
        assert!(best == 0 || best == 2 || best == 4);
        seen.insert(best);
    }
    assert!(seen.len() > 1);
}

#[test]
fn a_match_is_played_on_from_a_state() {
    let bag = ReplayTileBag::new(vec![road(), road(), road(), road()]);
    let mut state = RefereeState::from_players(vec![Player::White, Player::Black], bag.into());
    assert_eq!(
        state.process_move(MoveRequest {
            coord: (0, 0),
            rotation: Rotation::Upright,
            meeple: Some(TileClickTarget::Left),
        }),
        Ok(())
    );
    let result = Match::play_random_from_state(state.clone()).unwrap();
    // the road of White is never closed by three more pieces of road
    assert!(result.score_of(&Player::White) >= 1);
    assert_eq!(state.tilebag.count_remaining(), 3);
}

fn replay_bot_with(player: Player, moves: Vec<MoveRequest>) -> ReplayBot {
    let mut bot = ReplayBot::unitialized(player);
    for request in moves {
        bot.add_move(request);
    }
    bot
}

#[test]
fn a_match_without_tiles_ends_at_once() {
    let bots = vec![
        replay_bot_with(Player::White, vec![]),
        replay_bot_with(Player::Black, vec![]),
    ];
    let (result, record) = Match::play_custom(bots, ReplayTileBag::new(vec![]).into()).unwrap();
    assert!(record.moves.is_empty());
    assert_eq!(record.turn_order, vec![Player::White, Player::Black]);
    assert_eq!(result.score_of(&Player::White), 0);
    assert_eq!(result.score_of(&Player::Black), 0);
    assert_eq!(result.get_winners().len(), 2);
}

#[test]
fn a_match_breaks_off_at_the_first_move_that_is_turned_down() {
    let first = MoveRequest { coord: (0, 0), rotation: Rotation::Upright, meeple: None };
    let far = MoveRequest { coord: (5, 5), rotation: Rotation::Upright, meeple: None };
    let bots = vec![
        replay_bot_with(Player::White, vec![first]),
        replay_bot_with(Player::Black, vec![far]),
    ];
    let bag = ReplayTileBag::new(vec![road(), road(), road()]);
    let outcome = Match::play_custom(bots, bag.into());
    assert_eq!(outcome.err(), Some(GameError::NoConnectingTile));
}

#[test]
fn bots_that_keep_to_the_rules_end_every_match() {
    for _ in 0..3 {
        let bots = vec![RandomBot::new(Player::Black), RandomBot::new(Player::White)];
        let bag = ReplayTileBag::new(vec![road(), road(), road(), road(), road()]);
        let (_, record) = Match::play_custom(bots, bag.into()).unwrap();
        assert_eq!(record.moves.len(), 5);
        assert_eq!(record.turn_order, vec![Player::White, Player::Black]);
    }
    assert_eq!(random_match(0), 0);
    assert_eq!(random_match(3), 3);
}

#[test]
fn a_record_without_moves_plays_again() {
    let record = Replay { turn_order: vec![Player::Black], moves: vec![] };
    let result = record.replay().unwrap();
    assert_eq!(result.score_of(&Player::Black), 0);
    assert_eq!(result.get_winners().len(), 1);
}

#[test]
fn the_moves_of_a_record_are_dealt_to_its_bots_in_turn() {
    // two bots for one player: the second plays, and it holds the second move
    let record = Replay {
        turn_order: vec![Player::White, Player::White],
        moves: vec![
            ConcreteMove {
                tile_data: road(),
                coord: (3, 3),
                rotation: Rotation::Upright,
                location: None,
            },
            ConcreteMove {
                tile_data: road(),
                coord: (0, 0),
                rotation: Rotation::Flip,
                location: Some(TileClickTarget::Left),
            },
        ],
    };
    // the second turn finds the bot without a move: it asks for the origin again
    assert_eq!(record.replay().err(), Some(GameError::NoConnectingTile));

    let single = Replay {
        turn_order: vec![Player::White, Player::White],
        moves: vec![ConcreteMove {
            tile_data: road(),
            coord: (3, 3),
            rotation: Rotation::Upright,
            location: Some(TileClickTarget::Left),
        }],
    };
    // the one move went to the first bot; the second puts the tile at the origin
    let result = single.replay().unwrap();
    assert_eq!(result.score_of(&Player::White), 0);
}
