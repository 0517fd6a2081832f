use crabcassonne::board::DELTAS;
use crabcassonne::error::GameError;
use crabcassonne::player::Player;
use crabcassonne::tile::{
    MeepleSlots, MiniTile, Rotation, TileClickTarget, TileData, TileDataBuilder,
};

fn sample_tile() -> TileData {
    TileDataBuilder {
        top: MiniTile::City,
        left: MiniTile::Road,
        right: MiniTile::Junction,
        bottom: MiniTile::Monastery,
        ..Default::default()
    }
    .into()
}

#[test]
fn from_octal_works() {
    for maybe_target in DELTAS.map(TileClickTarget::from_octal) {
        assert!(maybe_target.is_some());
    }
}

#[test]
fn tile_rotation() {
    let mut tile: TileData = sample_tile();
    let original = tile.clone();

    tile.rotate_left();
    tile.rotate_right();

    for _ in 0..4 {
        tile.rotate_right();
    }

    for _ in 0..4 {
        tile.rotate_left();
    }

    assert_eq!(original.top(), tile.top());
    assert_eq!(original.bottom(), tile.bottom());
    assert_eq!(original.left(), tile.left());
    assert_eq!(original.right(), tile.right());

    tile.rotate_right();

    assert_eq!(original.left(), tile.top());
    assert_eq!(original.right(), tile.bottom());
    assert_eq!(original.top(), tile.right());
    assert_eq!(original.bottom(), tile.left());

    tile.rotate_left();
    tile.rotate_left();

    assert_eq!(original.right(), tile.top());
    assert_eq!(original.left(), tile.bottom());
    assert_eq!(original.top(), tile.left());
    assert_eq!(original.bottom(), tile.right());
}

#[test]
fn from_octal_names_each_slot() {
    assert_eq!(TileClickTarget::from_octal((0, -1)), Some(TileClickTarget::Top));
    assert_eq!(TileClickTarget::from_octal((-1, 0)), Some(TileClickTarget::Left));
    assert_eq!(TileClickTarget::from_octal((0, 0)), Some(TileClickTarget::Center));
    assert_eq!(TileClickTarget::from_octal((1, 0)), Some(TileClickTarget::Right));
    assert_eq!(TileClickTarget::from_octal((0, 1)), Some(TileClickTarget::Bottom));
    assert_eq!(TileClickTarget::from_octal((1, 1)), None);
    assert_eq!(TileClickTarget::from_octal((-2, 0)), None);
}

#[test]
fn rotation_turns_slots_round() {
    assert_eq!(Rotation::Upright.rotate(&TileClickTarget::Top), TileClickTarget::Top);
    assert_eq!(Rotation::Right.rotate(&TileClickTarget::Top), TileClickTarget::Left);
    assert_eq!(Rotation::Flip.rotate(&TileClickTarget::Top), TileClickTarget::Bottom);
    assert_eq!(Rotation::Left.rotate(&TileClickTarget::Top), TileClickTarget::Right);
    assert_eq!(Rotation::Right.rotate(&TileClickTarget::Center), TileClickTarget::Center);
    for rotation in [Rotation::Upright, Rotation::Left, Rotation::Right, Rotation::Flip] {
        for slot in [
            TileClickTarget::Top,
            TileClickTarget::Left,
            TileClickTarget::Center,
            TileClickTarget::Right,
            TileClickTarget::Bottom,
        ] {
            assert_eq!(rotation.counter_rotate(&rotation.rotate(&slot)), slot);
            assert_eq!(rotation.rotate(&rotation.counter_rotate(&slot)), slot);
        }
    }
}

#[test]
fn next_right_and_next_left_cycle() {
    assert_eq!(Rotation::Upright.next_right(), Rotation::Right);
    assert_eq!(Rotation::Right.next_right(), Rotation::Flip);
    assert_eq!(Rotation::Flip.next_right(), Rotation::Left);
    assert_eq!(Rotation::Left.next_right(), Rotation::Upright);
    assert_eq!(Rotation::Upright.next_left(), Rotation::Left);
    assert_eq!(Rotation::Left.next_left(), Rotation::Flip);
    assert_eq!(Rotation::Flip.next_left(), Rotation::Right);
    assert_eq!(Rotation::Right.next_left(), Rotation::Upright);
}

#[test]
fn four_quarter_turns_keep_meeples_too() {
    let mut tile = sample_tile();
    assert!(tile.place_meeple(&TileClickTarget::Left, &Player::White).is_ok());
    let original = tile;
    for _ in 0..4 {
        tile.rotate_right();
    }
    assert_eq!(tile.get_meeple_at(&TileClickTarget::Left), Some(Player::White));
    assert_eq!(tile.rotation, original.rotation);
    assert_eq!(tile.meeple_locations, original.meeple_locations);
}

#[test]
fn exits_follow_the_centre() {
    // a road that runs through the tile from left to right
    let through: TileData = TileDataBuilder {
        top: MiniTile::City,
        left: MiniTile::Road,
        right: MiniTile::Road,
        center: MiniTile::Road,
        ..Default::default()
    }
    .into();
    assert_eq!(
        through.get_exits(&TileClickTarget::Left),
        vec![TileClickTarget::Left, TileClickTarget::Right]
    );
    // the city ends at this tile
    assert_eq!(through.get_exits(&TileClickTarget::Top), vec![TileClickTarget::Top]);
    // grass leads nowhere
    assert_eq!(through.get_exits(&TileClickTarget::Bottom), Vec::<TileClickTarget>::new());

    let all_city: TileData = TileDataBuilder {
        top: MiniTile::City,
        left: MiniTile::City,
        right: MiniTile::City,
        bottom: MiniTile::City,
        center: MiniTile::City,
        ..Default::default()
    }
    .into();
    assert_eq!(
        all_city.get_exits(&TileClickTarget::Bottom),
        vec![
            TileClickTarget::Left,
            TileClickTarget::Right,
            TileClickTarget::Top,
            TileClickTarget::Bottom
        ]
    );
}

#[test]
fn second_centre_carries_a_city_through() {
    let tile: TileData = TileDataBuilder {
        top: MiniTile::City,
        right: MiniTile::City,
        secondary_center: Some(MiniTile::City),
        bottom: MiniTile::Road,
        left: MiniTile::Road,
        center: MiniTile::Road,
        ..Default::default()
    }
    .into();
    assert!(tile.center_matches(&MiniTile::City));
    assert!(tile.center_matches(&MiniTile::Road));
    assert!(!tile.center_matches(&MiniTile::Monastery));
    assert_eq!(
        tile.get_exits(&TileClickTarget::Top),
        vec![TileClickTarget::Right, TileClickTarget::Top]
    );
    assert_eq!(
        tile.get_exits(&TileClickTarget::Left),
        vec![TileClickTarget::Left, TileClickTarget::Bottom]
    );
}

#[test]
fn a_slot_takes_one_meeple() {
    let mut tile = sample_tile();
    assert_eq!(tile.place_meeple(&TileClickTarget::Top, &Player::Black), Ok(()));
    assert_eq!(
        tile.place_meeple(&TileClickTarget::Top, &Player::White),
        Err(GameError::FeatureNonEmpty)
    );
    assert_eq!(tile.get_meeple_at(&TileClickTarget::Top), Some(Player::Black));
    assert_eq!(tile.place_meeple(&TileClickTarget::Center, &Player::White), Ok(()));
    assert_eq!(
        tile.get_meeple_locations(),
        vec![(TileClickTarget::Top, Player::Black), (TileClickTarget::Center, Player::White)]
    );
    assert_eq!(tile.clear_meeple(&TileClickTarget::Top), Some(Player::Black));
    assert_eq!(tile.clear_meeple(&TileClickTarget::Top), None);
    assert_eq!(tile.get_meeple_at(&TileClickTarget::Top), None);
}

#[test]
fn meeples_turn_with_the_tile() {
    let mut tile = sample_tile();
    assert!(tile.place_meeple(&TileClickTarget::Top, &Player::Black).is_ok());
    tile.rotate_right();
    // what was at the top shows at the right now
    assert_eq!(tile.get_meeple_at(&TileClickTarget::Right), Some(Player::Black));
    assert_eq!(tile.get_meeple_at(&TileClickTarget::Top), None);
    assert_eq!(tile.get_meeple_locations(), vec![(TileClickTarget::Right, Player::Black)]);
    assert_eq!(
        tile.meeple_locations,
        MeepleSlots { top: Some(Player::Black), left: None, center: None, right: None, bottom: None }
    );
}

#[test]
fn matches_minis_looks_at_the_edges_as_they_lie() {
    let tile = sample_tile();
    let mut turned = tile;
    assert!(tile.matches_minis(&turned));
    turned.rotate_right();
    assert!(!tile.matches_minis(&turned));
    let with_emblem: TileData = TileDataBuilder {
        has_emblem: true,
        center: MiniTile::Road,
        top: MiniTile::City,
        left: MiniTile::Road,
        right: MiniTile::Junction,
        bottom: MiniTile::Monastery,
        ..Default::default()
    }
    .into();
    assert!(tile.matches_minis(&with_emblem));
}

#[test]
fn traversable_are_road_and_city() {
    assert!(MiniTile::Road.is_traversable());
    assert!(MiniTile::City.is_traversable());
    assert!(!MiniTile::Grass.is_traversable());
    assert!(!MiniTile::Monastery.is_traversable());
    assert!(!MiniTile::Junction.is_traversable());
}

#[test]
fn error_messages_name_the_reason() {
    assert_eq!(GameError::NoConnectingTile.message(), "Illegal tile placement: No connecting tile");
    assert_eq!(GameError::FeaturesDontMatch.message(), "Illegal tile placement: features dont match");
    assert_eq!(GameError::FeatureNonEmpty.message(), "Illegal meeple: Feature is non empty");
    assert_eq!(GameError::NonScoringFeature.message(), "Illegal meeple: Non scoring feature");
    assert_eq!(GameError::OutOfMeeples.message(), "out of meeples");
    assert_eq!(GameError::NoTilePresent.message(), "Illegal meeple: No tile present");
    assert_eq!(GameError::EmptyBag.message(), "Empty bag");
}
