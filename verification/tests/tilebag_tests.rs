use crabcassonne::board::ConcreteBoard;
use crabcassonne::error::GameError;
use crabcassonne::tile::{MiniTile, TileData, TileDataBuilder};
use crabcassonne::tilebag::{
    LegalTileBag,
    NextTileType,
    ReplayTileBag,
    STANDARD_TILES,
    TileBag,
    TileBagEnum,
};

#[test]
#[allow(unused_must_use)]
fn check_count() {
    let mut bag = LegalTileBag::default();
    assert_eq!(bag.count_remaining(), 72);
    bag.pull();
    assert_eq!(bag.count_remaining(), 71);
    bag.peek();
    assert_eq!(bag.count_remaining(), 71);
}

#[test]
fn check_empties() {
    let mut bag = LegalTileBag::default();
    let mut ct = 1_000_000;
    while bag.pull().is_some() {
        ct -= 1;
        assert!(ct > 0)
    }
}

fn road() -> TileData {
    TileDataBuilder {
        left: MiniTile::Road,
        right: MiniTile::Road,
        center: MiniTile::Road,
        ..Default::default()
    }
    .into()
}

fn city() -> TileData {
    TileDataBuilder {
        top: MiniTile::City,
        left: MiniTile::City,
        right: MiniTile::City,
        bottom: MiniTile::City,
        ..Default::default()
    }
    .into()
}

fn monastery() -> TileData {
    TileDataBuilder {
        center: MiniTile::Monastery,
        ..Default::default()
    }
    .into()
}

#[test]
fn standard_bag_starts_with_the_starting_tile() {
    let bag = LegalTileBag::default();
    let start: TileData = TileDataBuilder {
        top: MiniTile::City,
        left: MiniTile::Road,
        right: MiniTile::Road,
        center: MiniTile::Road,
        ..Default::default()
    }
    .into();
    assert_eq!(*bag.get_next_idx(), NextTileType::BagTile(71));
    assert!(bag.peek().unwrap().matches_minis(&start));
    assert_eq!(STANDARD_TILES.iter().map(|kind| kind.7).sum::<usize>(), 72);
    let monasteries = bag
        .get_data()
        .iter()
        .filter(|tile| tile.center == MiniTile::Monastery)
        .count();
    assert_eq!(monasteries, 6);
    let emblems = bag.get_data().iter().filter(|tile| tile.has_emblem).count();
    assert_eq!(emblems, 10);
}

#[test]
fn replay_bag_hands_out_in_order() {
    let mut bag = ReplayTileBag::new(vec![road(), city(), monastery()]);
    assert_eq!(bag.count_remaining(), 3);
    assert!(bag.peek().unwrap().matches_minis(&road()));
    assert!(bag.pull().unwrap().matches_minis(&road()));
    assert!(bag.pull().unwrap().matches_minis(&city()));
    assert_eq!(*bag.get_next_idx(), NextTileType::BagTile(0));
    assert!(bag.pull().unwrap().center == MiniTile::Monastery);
    assert_eq!(*bag.get_next_idx(), NextTileType::Empty);
    assert_eq!(bag.peek().err(), Some(GameError::EmptyBag));
    assert!(bag.pull().is_none());
    assert_eq!(bag.count_remaining(), 0);
}

#[test]
fn empty_replay_bag_is_empty() {
    let mut bag = ReplayTileBag::new(vec![]);
    assert_eq!(bag.peek().err(), Some(GameError::EmptyBag));
    assert!(bag.pull().is_none());
}

#[test]
fn random_bag_loses_one_tile_per_pull() {
    let mut bag = LegalTileBag::default();
    let mut left = 72;
    while let Some(_) = bag.pull() {
        left -= 1;
        assert_eq!(bag.count_remaining(), left);
        match *bag.get_next_idx() {
            NextTileType::BagTile(idx) => assert!(idx < left),
            NextTileType::Empty => assert_eq!(left, 0),
        }
    }
    assert_eq!(left, 0);
}

#[test]
fn tiles_that_go_nowhere_are_thrown_away() {
    let mut board = ConcreteBoard::default();
    board.set((0, 0), road());
    // the city fits nowhere next to the road, the second road does
    let mut bag = ReplayTileBag::new(vec![city(), city(), road(), city()]);
    assert!(bag.ensure_legal_draw(&board.as_user()));
    assert_eq!(bag.count_remaining(), 2);
    assert!(bag.peek().unwrap().matches_minis(&road()));
    // a second call changes nothing
    assert!(bag.ensure_legal_draw(&board.as_user()));
    assert_eq!(bag.count_remaining(), 2);
    bag.pull();
    assert!(!bag.ensure_legal_draw(&board.as_user()));
    assert_eq!(bag.count_remaining(), 0);
}

#[test]
fn any_tile_goes_on_an_empty_board() {
    let board = ConcreteBoard::default();
    let mut bag = ReplayTileBag::new(vec![city()]);
    assert!(bag.ensure_legal_draw(&board.as_user()));
    assert_eq!(bag.count_remaining(), 1);
}

#[test]
fn rigging_takes_matches_out_and_puts_the_last_on_top() {
    let mut bag = ReplayTileBag::new(vec![road(), city(), monastery(), road()]);
    // held from the last to the first: road, monastery, city, road
    bag.rig(vec![city(), road()]);
    assert_eq!(bag.count_remaining(), 3);
    assert!(bag.peek().unwrap().matches_minis(&road()));
    assert!(bag.pull().is_some());
    let roads = bag.get_data().iter().filter(|tile| tile.matches_minis(&road())).count();
    let cities = bag.get_data().iter().filter(|tile| tile.matches_minis(&city())).count();
    assert_eq!(roads, 1);
    assert_eq!(cities, 0);
    // nothing to rig, nothing changes
    bag.rig(vec![]);
    assert_eq!(bag.count_remaining(), 2);
}

#[test]
fn a_copy_of_a_bag_is_its_own() {
    let bag = ReplayTileBag::new(vec![road(), city()]);
    let mut copy = bag.as_new_tile_bag();
    assert_eq!(copy.count_remaining(), 2);
    assert!(copy.peek().unwrap().matches_minis(&road()));
    assert!(copy.pull().is_some());
    assert_eq!(copy.count_remaining(), 1);
    assert_eq!(bag.count_remaining(), 2);
    let either: TileBagEnum = bag.into();
    assert_eq!(either.count_remaining(), 2);
    assert_eq!(either.as_new_tile_bag().count_remaining(), 2);
}
