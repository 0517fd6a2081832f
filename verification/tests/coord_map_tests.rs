use crabcassonne::coord_map::{CoordMap, ReferenceCoordMap, INITIAL_BOARD};
use crabcassonne::tile::{MiniTile, TileData, TileDataBuilder};

#[test]
fn resize_test() {
    let mut map = CoordMap::default();
    assert_eq!(map.get_inner_size(), INITIAL_BOARD);

    let tile1: TileData = TileDataBuilder {
        ..Default::default()
    }
    .into();
    let coord1 = (0, 0);
    map.insert(coord1, tile1.clone());

    let tile2: TileData = TileDataBuilder {
        right: MiniTile::City,
        ..Default::default()
    }
    .into();

    let coord2 = (INITIAL_BOARD as i8 / 2, INITIAL_BOARD as i8 / 2);
    map.insert(coord2, tile2.clone());

    assert!(map.get(&coord1).unwrap().matches_minis(&tile1));
    assert!(map.get(&coord2).unwrap().matches_minis(&tile2));
}

fn city(right: bool) -> TileData {
    TileDataBuilder {
        right: if right { MiniTile::City } else { MiniTile::Grass },
        left: if right { MiniTile::Grass } else { MiniTile::City },
        ..Default::default()
    }
    .into()
}

#[test]
fn grid_grows_by_four_and_keeps_its_tiles() {
    let mut map = CoordMap::default();
    map.insert((-6, 5), city(true));
    assert_eq!(map.get_inner_size(), 12);
    map.insert((6, 0), city(false));
    assert_eq!(map.get_inner_size(), 16);
    map.insert((0, -9), city(true));
    assert_eq!(map.get_inner_size(), 20);
    assert!(map.get(&(-6, 5)).unwrap().matches_minis(&city(true)));
    assert!(map.get(&(6, 0)).unwrap().matches_minis(&city(false)));
    assert!(map.get(&(0, -9)).unwrap().matches_minis(&city(true)));
    assert!(map.get(&(0, 0)).is_none());
    assert!(map.get(&(100, 100)).is_none());
    assert_eq!(map.tiles_present(), vec![(-6, 5), (6, 0), (0, -9)]);
}

#[test]
fn grid_reaches_every_place() {
    let mut map = CoordMap::default();
    map.insert((-128, -128), city(true));
    map.insert((127, 127), city(false));
    assert_eq!(map.get_inner_size(), 256);
    assert!(map.get(&(-128, -128)).unwrap().matches_minis(&city(true)));
    assert!(map.get(&(127, 127)).unwrap().matches_minis(&city(false)));
    assert_eq!(map.iter().len(), 2);
    assert_eq!(map.iter()[0].0, (-128, -128));
    assert_eq!(map.iter()[1].0, (127, 127));
}

#[test]
fn a_place_keeps_one_tile() {
    let mut map = CoordMap::default();
    map.insert((1, 2), city(true));
    map.insert((1, 2), city(false));
    assert_eq!(map.tiles_present(), vec![(1, 2)]);
    assert!(map.get(&(1, 2)).unwrap().matches_minis(&city(false)));
    let entries = map.iter();
    assert_eq!(entries.len(), 1);
    assert_eq!(entries[0].0, (1, 2));
}

#[test]
fn keys_and_places_lead_to_each_other() {
    let map = CoordMap::default();
    assert_eq!(map.coord_to_key(&(-6, -6)), Some(0));
    assert_eq!(map.coord_to_key(&(-6, -5)), Some(1));
    assert_eq!(map.coord_to_key(&(-5, -6)), Some(12));
    assert_eq!(map.coord_to_key(&(5, 5)), Some(143));
    assert_eq!(map.coord_to_key(&(6, 0)), None);
    assert_eq!(map.coord_to_key(&(0, -7)), None);
    assert_eq!(map.key_to_coord(0), (-6, -6));
    assert_eq!(map.key_to_coord(143), (5, 5));
    assert_eq!(map.key_to_coord(13), (-5, -5));
    assert!(map.is_oob(6));
    assert!(!map.is_oob(5));
    assert!(!map.is_oob(-6));
    assert!(map.is_oob(-7));
}

#[test]
fn iter_goes_row_by_row() {
    let mut map = CoordMap::default();
    map.insert((2, -3), city(true));
    map.insert((-1, 4), city(false));
    map.insert((2, -4), city(true));
    let places: Vec<(i8, i8)> = map.iter().iter().map(|entry| entry.0).collect();
    assert_eq!(places, vec![(-1, 4), (2, -4), (2, -3)]);
}

#[test]
fn reference_map_keeps_what_it_gets() {
    let mut map = ReferenceCoordMap::default();
    assert!(map.get(&(0, 0)).is_none());
    map.insert((0, 0), city(true));
    map.insert((-128, 127), city(false));
    map.insert((0, 0), city(false));
    assert!(map.get(&(0, 0)).unwrap().matches_minis(&city(false)));
    assert!(map.get(&(-128, 127)).unwrap().matches_minis(&city(false)));
    let mut places: Vec<(i8, i8)> = map.iter().iter().map(|entry| entry.0).collect();
    places.sort();
    assert_eq!(places, vec![(-128, 127), (0, 0)]);
    let copy = map.clone();
    map.insert((1, 1), city(true));
    assert!(copy.get(&(1, 1)).is_none());
}

#[test]
fn get_mut_changes_one_tile_in_place() {
    let mut map = CoordMap::default();
    map.insert((1, 1), city(true));
    map.insert((-3, 2), city(true));
    assert!(map.get_mut(&(0, 0)).is_none());
    assert!(map.get_mut(&(90, 0)).is_none());
    if let Some(tile) = map.get_mut(&(1, 1)) {
        tile.has_emblem = true;
    }
    assert!(map.get(&(1, 1)).unwrap().has_emblem);
    assert!(!map.get(&(-3, 2)).unwrap().has_emblem);
    assert_eq!(map.tiles_present(), vec![(1, 1), (-3, 2)]);

    let mut reference = ReferenceCoordMap::default();
    reference.insert((1, 1), city(true));
    reference.insert((-3, 2), city(true));
    assert!(reference.get_mut(&(0, 0)).is_none());
    if let Some(tile) = reference.get_mut(&(-3, 2)) {
        tile.has_emblem = true;
    }
    assert!(reference.get(&(-3, 2)).unwrap().has_emblem);
    assert!(!reference.get(&(1, 1)).unwrap().has_emblem);
}
