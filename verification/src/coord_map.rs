//! Two stores for the tiles of a board: one that hashes the places, and one
//! that keeps a square grid around the origin and lets it grow.

use crate::keys::{Coordinate, KeyMap};
use crate::seqs::{lemma_push_contains, lemma_push_fresh};
use crate::tile::TileData;
use vstd::prelude::*;

verus! {

/// A store that hashes the places.
pub struct ReferenceCoordMap {
    data: KeyMap<Coordinate, TileData>,
}

impl View for ReferenceCoordMap {
    type V = Map<Coordinate, TileData>;

    closed spec fn view(&self) -> Map<Coordinate, TileData> {
        self.data@
    }
}

impl Default for ReferenceCoordMap {
    fn default() -> (map: ReferenceCoordMap)
        ensures
            map@ == Map::<Coordinate, TileData>::empty(),
    {
        ReferenceCoordMap { data: KeyMap::new() }
    }
}

impl Clone for ReferenceCoordMap {
    fn clone(&self) -> (copy: ReferenceCoordMap)
        ensures
            copy@ == self@,
    {
        ReferenceCoordMap { data: self.data.clone() }
    }
}

impl ReferenceCoordMap {
    /// The places with their tiles, each once, in an order that is not stated.
    pub fn iter(&self) -> (entries: Vec<(Coordinate, TileData)>)
        ensures
            entries@.len() == self@.dom().len(),
            forall|i: int|
                0 <= i < entries@.len() ==> self@.contains_key((#[trigger] entries@[i]).0)
                    && self@[entries@[i].0] == entries@[i].1,
            forall|i: int, j: int|
                0 <= i < j < entries@.len() ==> entries@[i].0 != entries@[j].0,
            forall|coord: Coordinate|
                self@.contains_key(coord) ==> exists|i: int|
                    0 <= i < entries@.len() && (#[trigger] entries@[i]).0 == coord,
    {
        let keys = self.data.keys();
        let mut entries: Vec<(Coordinate, TileData)> = Vec::new();
        for i in 0..keys.len()
            invariant
                keys@.to_set() == self@.dom(),
                entries@.len() == i,
                forall|j: int|
                    0 <= j < i ==> (#[trigger] entries@[j]).0 == keys@[j] && self@.contains_key(
                        keys@[j],
                    ) && entries@[j].1 == self@[keys@[j]],
        {
            assert(keys@.to_set().contains(keys@[i as int]));
            if let Some(tile) = self.data.get(&keys[i]) {
                entries.push((keys[i], *tile));
            }
        }
        proof {
            assert forall|coord: Coordinate| self@.contains_key(coord) implies exists|i: int|
                0 <= i < entries@.len() && (#[trigger] entries@[i]).0 == coord by {
                assert(keys@.to_set().contains(coord));
                let i = choose|i: int| 0 <= i < keys@.len() && keys@[i] == coord;
                assert(entries@[i].0 == coord);
            }
        }
        entries
    }

    pub fn get(&self, k: &Coordinate) -> (tile: Option<&TileData>)
        ensures
            tile == (if self@.contains_key(*k) {
                Some(&self@[*k])
            } else {
                None
            }),
    {
        self.data.get(k)
    }

    /// A way to change the tile at a place, if there is one.
    pub fn get_mut(&mut self, k: &Coordinate) -> (tile: Option<&mut TileData>)
        ensures
            match tile {
                Some(stored) => old(self)@.contains_key(*k) && *stored == old(self)@[*k]
                    && final(self)@ == old(self)@.insert(*k, *final(stored)),
                None => !old(self)@.contains_key(*k) && final(self)@ == old(self)@,
            },
    {
        self.data.get_mut(k)
    }

    pub fn insert(&mut self, k: Coordinate, v: TileData)
        ensures
            final(self)@ == old(self)@.insert(k, v),
    {
        self.data.insert(k, v);
    }
}

/// The side of the grid that a new store starts with.
pub const INITIAL_BOARD: usize = 12;

/// By how much the side of the grid grows at a time.
pub const INC: usize = 4;

/// The side of a grid that reaches every place.
pub const FULL_BOARD: usize = 256;

/// Whether a row or a column lies off a grid of a given side.
pub open spec fn spec_is_oob(size: int, k: int) -> bool {
    k >= size / 2 || k < -(size / 2)
}

/// Whether a place lies on a grid of a given side.
pub open spec fn on_grid(size: int, coord: Coordinate) -> bool {
    !spec_is_oob(size, coord.0 as int) && !spec_is_oob(size, coord.1 as int)
}

/// Where a place of the grid is kept: row by row, each row from left to right.
pub open spec fn spec_key(size: int, coord: Coordinate) -> int {
    (coord.0 + size / 2) * size + (coord.1 + size / 2)
}

/// The place that is kept at a position.
pub open spec fn spec_coord(size: int, key: int) -> Coordinate {
    ((key / size - size / 2) as i8, (key % size - size / 2) as i8)
}

/// The position of a place on the grid lies within the grid and leads back to the place.
pub proof fn lemma_key(size: int, coord: Coordinate)
    requires
        0 < size <= 256,
        size % 2 == 0,
        on_grid(size, coord),
    ensures
        0 <= spec_key(size, coord) < size * size,
        spec_coord(size, spec_key(size, coord)) == coord,
{
    let row = coord.0 + size / 2;
    let col = coord.1 + size / 2;
    assert(0 <= row * size + col < size * size) by (nonlinear_arith)
        requires
            0 <= row < size,
            0 <= col < size,
    ;
    vstd::arithmetic::div_mod::lemma_fundamental_div_mod_converse(
        spec_key(size, coord),
        size,
        row,
        col,
    );
}

/// Every position within the grid is the position of the place that is kept there.
pub proof fn lemma_coord(size: int, key: int)
    requires
        0 < size <= 256,
        size % 2 == 0,
        0 <= key < size * size,
    ensures
        on_grid(size, spec_coord(size, key)),
        spec_key(size, spec_coord(size, key)) == key,
{
    vstd::arithmetic::div_mod::lemma_fundamental_div_mod(key, size);
    let row = key / size;
    let col = key % size;
    assert(0 <= col < size);
    assert(0 <= row < size) by (nonlinear_arith)
        requires
            0 <= key < size * size,
            key == size * row + col,
            0 <= col < size,
            0 < size,
    ;
    assert(size * row == row * size) by (nonlinear_arith);
}

/// Where a place of a grid is kept.
pub fn key_of(size: usize, coord: &Coordinate) -> (key: usize)
    requires
        0 < size <= FULL_BOARD,
        size % 2 == 0,
        on_grid(size as int, *coord),
    ensures
        key == spec_key(size as int, *coord),
        key < size * size,
        size * size <= 65536,
{
    proof {
        lemma_key(size as int, *coord);
    }
    let half: i32 = (size / 2) as i32;
    let row: usize = (coord.0 as i32 + half) as usize;
    let col: usize = (coord.1 as i32 + half) as usize;
    assert(row * size + col < size * size && size * size <= 65536 && row * size <= size * size) by (nonlinear_arith)
        requires
            row < size,
            col < size,
            size <= 256,
    ;
    row * size + col
}

/// A store that keeps a square grid around the origin and lets it grow when a
/// place beyond it gets a tile.
pub struct CoordMap {
    data: Vec<Option<TileData>>,
    coords_present: Vec<Coordinate>,
    inner_size: usize,
}

/// What a grid of a given side holds: the tile of every place whose cell holds one.
pub open spec fn grid_view(size: int, cells: Seq<Option<TileData>>) -> Map<Coordinate, TileData> {
    Map::new(
        |coord: Coordinate| on_grid(size, coord) && cells[spec_key(size, coord)] is Some,
        |coord: Coordinate| cells[spec_key(size, coord)].unwrap(),
    )
}

/// A new tile in a cell that holds a tile is a new tile at the place of the cell.
pub proof fn lemma_grid_update(
    size: int,
    cells: Seq<Option<TileData>>,
    coord: Coordinate,
    tile: TileData,
)
    requires
        0 < size <= 256,
        size % 2 == 0,
        cells.len() == size * size,
        on_grid(size, coord),
    ensures
        grid_view(size, cells.update(spec_key(size, coord), Some(tile))) == grid_view(
            size,
            cells,
        ).insert(coord, tile),
{
    lemma_key(size, coord);
    let after = cells.update(spec_key(size, coord), Some(tile));
    assert forall|other: Coordinate|
        #[trigger] grid_view(size, after).contains_key(other) == grid_view(size, cells).insert(
            coord,
            tile,
        ).contains_key(other) && (grid_view(size, after).contains_key(other) ==> grid_view(
            size,
            after,
        )[other] == grid_view(size, cells).insert(coord, tile)[other]) by {
        if on_grid(size, other) {
            lemma_key(size, other);
        }
    }
    assert(grid_view(size, after) =~= grid_view(size, cells).insert(coord, tile));
}

impl View for CoordMap {
    type V = Map<Coordinate, TileData>;

    closed spec fn view(&self) -> Map<Coordinate, TileData> {
        grid_view(self.inner_size as int, self.data@)
    }
}

impl Default for CoordMap {
    fn default() -> (map: CoordMap)
        ensures
            map.wf(),
            map@ == Map::<Coordinate, TileData>::empty(),
            map.spec_inner_size() == INITIAL_BOARD,
    {
        let data = CoordMap::empty_grid(INITIAL_BOARD);
        let map = CoordMap { data, coords_present: Vec::new(), inner_size: INITIAL_BOARD };
        assert(map@ =~= Map::<Coordinate, TileData>::empty());
        map
    }
}

impl CoordMap {
    /// The side of the grid.
    pub closed spec fn spec_inner_size(&self) -> usize {
        self.inner_size
    }

    /// The places in the order in which they got their tiles.
    pub closed spec fn spec_present(&self) -> Seq<Coordinate> {
        self.coords_present@
    }

    /// The grid has one of the sides that it can grow to, it holds a cell for
    /// each of its places, and the list of places names exactly those that
    /// hold a tile, each once.
    pub closed spec fn wf(&self) -> bool {
        &&& INITIAL_BOARD <= self.inner_size <= FULL_BOARD
        &&& self.inner_size % 4 == 0
        &&& self.data@.len() == self.inner_size * self.inner_size
        &&& self.coords_present@.no_duplicates()
        &&& forall|coord: Coordinate| #[trigger]
            self.coords_present@.contains(coord) <==> self@.contains_key(coord)
    }

    /// A grid of a given side without tiles.
    fn empty_grid(size: usize) -> (data: Vec<Option<TileData>>)
        requires
            size <= FULL_BOARD,
        ensures
            data@.len() == size * size,
            forall|i: int| 0 <= i < data@.len() ==> #[trigger] data@[i] is None,
    {
        assert(size * size <= 65536) by (nonlinear_arith)
            requires
                size <= 256,
        ;
        let cells: usize = size * size;
        let mut data: Vec<Option<TileData>> = Vec::new();
        for i in 0..cells
            invariant
                data@.len() == i,
                forall|j: int| 0 <= j < data@.len() ==> #[trigger] data@[j] is None,
        {
            data.push(None);
        }
        data
    }

    pub fn get_inner_size(&self) -> (size: usize)
        ensures
            size == self.spec_inner_size(),
    {
        self.inner_size
    }

    /// Whether a row or a column lies off the grid.
    pub fn is_oob(&self, k: i32) -> (off: bool)
        requires
            self.wf(),
        ensures
            off == spec_is_oob(self.spec_inner_size() as int, k as int),
    {
        let lim: i32 = (self.inner_size / 2) as i32;
        k >= lim || k < -lim
    }

    /// Where a place is kept, if it lies on the grid.
    pub fn coord_to_key(&self, k: &Coordinate) -> (key: Option<usize>)
        requires
            self.wf(),
        ensures
            key is Some <==> on_grid(self.spec_inner_size() as int, *k),
            key is Some ==> key.unwrap() == spec_key(self.spec_inner_size() as int, *k)
                && key.unwrap() < self.spec_inner_size() * self.spec_inner_size(),
    {
        if self.is_oob(k.0 as i32) || self.is_oob(k.1 as i32) {
            return None;
        }
        Some(key_of(self.inner_size, k))
    }

    /// The place that is kept at a position of the grid.
    pub fn key_to_coord(&self, k: usize) -> (coord: Coordinate)
        requires
            self.wf(),
            k < self.spec_inner_size() * self.spec_inner_size(),
        ensures
            coord == spec_coord(self.spec_inner_size() as int, k as int),
            on_grid(self.spec_inner_size() as int, coord),
            spec_key(self.spec_inner_size() as int, coord) == k,
    {
        let size = self.inner_size;
        proof {
            lemma_coord(size as int, k as int);
            vstd::arithmetic::div_mod::lemma_fundamental_div_mod(k as int, size as int);
            assert(0 <= (k as int) / (size as int) < size) by (nonlinear_arith)
                requires
                    0 <= k < size * size,
                    k == size * ((k as int) / (size as int)) + (k as int) % (size as int),
                    0 <= (k as int) % (size as int) < size,
                    0 < size,
            ;
        }
        let rem: usize = k % size;
        let half: i32 = (size / 2) as i32;
        let second: i32 = rem as i32 - half;
        let first: i32 = (k / size) as i32 - half;
        (first as i8, second as i8)
    }

    /// The places that hold a tile, in the order in which they got it.
    pub fn tiles_present(&self) -> (coords: Vec<Coordinate>)
        requires
            self.wf(),
        ensures
            coords@ == self.spec_present(),
            coords@.no_duplicates(),
            coords@.to_set() == self@.dom(),
    {
        let mut coords: Vec<Coordinate> = Vec::new();
        for i in 0..self.coords_present.len()
            invariant
                coords@ == self.coords_present@.take(i as int),
        {
            coords.push(self.coords_present[i]);
            proof {
                assert(self.coords_present@.take(i + 1) =~= self.coords_present@.take(
                    i as int,
                ).push(self.coords_present@[i as int]));
            }
        }
        proof {
            assert(self.coords_present@.take(self.coords_present@.len() as int)
                =~= self.coords_present@);
            assert(coords@.to_set() =~= self@.dom());
        }
        coords
    }

    /// The places with their tiles, row by row, each row from left to right.
    pub fn iter(&self) -> (entries: Vec<(Coordinate, TileData)>)
        requires
            self.wf(),
        ensures
            forall|i: int|
                0 <= i < entries@.len() ==> self@.contains_key((#[trigger] entries@[i]).0)
                    && self@[entries@[i].0] == entries@[i].1,
            forall|i: int, j: int|
                0 <= i < j < entries@.len() ==> spec_key(
                    self.spec_inner_size() as int,
                    entries@[i].0,
                ) < spec_key(self.spec_inner_size() as int, entries@[j].0),
            forall|coord: Coordinate|
                self@.contains_key(coord) ==> exists|i: int|
                    0 <= i < entries@.len() && (#[trigger] entries@[i]).0 == coord,
    {
        let mut entries: Vec<(Coordinate, TileData)> = Vec::new();
        let ghost size = self.inner_size as int;
        let mut key: usize = 0;
        while key < self.data.len()
            invariant
                self.wf(),
                size == self.inner_size,
                key <= self.data@.len(),
                forall|i: int|
                    0 <= i < entries@.len() ==> self@.contains_key((#[trigger] entries@[i]).0)
                        && self@[entries@[i].0] == entries@[i].1 && spec_key(size, entries@[i].0)
                        < key,
                forall|i: int, j: int|
                    0 <= i < j < entries@.len() ==> spec_key(size, entries@[i].0) < spec_key(
                        size,
                        entries@[j].0,
                    ),
                forall|coord: Coordinate|
                    self@.contains_key(coord) && spec_key(size, coord) < key ==> exists|i: int|
                        0 <= i < entries@.len() && (#[trigger] entries@[i]).0 == coord,
            decreases self.data.len() - key,
        {
            let ghost before = entries@;
            if let Some(tile) = self.data[key] {
                let coord = self.key_to_coord(key);
                entries.push((coord, tile));
            }
            proof {
                assert forall|coord: Coordinate|
                    self@.contains_key(coord) && spec_key(size, coord) < key + 1 implies exists|
                    i: int,
                | 0 <= i < entries@.len() && (#[trigger] entries@[i]).0 == coord by {
                    if spec_key(size, coord) < key {
                        let i = choose|i: int|
                            0 <= i < before.len() && (#[trigger] before[i]).0 == coord;
                        assert(entries@[i].0 == coord);
                    } else {
                        lemma_key(size, coord);
                        lemma_coord(size, key as int);
                        assert(entries@[entries@.len() - 1].0 == coord);
                    }
                }
            }
            key += 1;
        }
        proof {
            assert forall|coord: Coordinate| self@.contains_key(coord) implies exists|i: int|
                0 <= i < entries@.len() && (#[trigger] entries@[i]).0 == coord by {
                lemma_key(size, coord);
            }
        }
        entries
    }

    pub fn get(&self, k: &Coordinate) -> (tile: Option<&TileData>)
        requires
            self.wf(),
        ensures
            tile == (if self@.contains_key(*k) {
                Some(&self@[*k])
            } else {
                None
            }),
    {
        proof {
            let size = self.inner_size as int;
            assert(self@.contains_key(*k) == (on_grid(size, *k) && self.data@[spec_key(
                size,
                *k,
            )] is Some));
            if on_grid(size, *k) {
                lemma_key(size, *k);
            }
        }
        match self.coord_to_key(k) {
            Some(key) => match &self.data[key] {
                Some(tile) => Some(tile),
                None => None,
            },
            None => None,
        }
    }

    /// A way to change the tile at a place, if there is one. No tile comes or
    /// goes, and no other tile changes.
    pub fn get_mut(&mut self, k: &Coordinate) -> (tile: Option<&mut TileData>)
        requires
            old(self).wf(),
        ensures
            final(self).wf(),
            final(self).spec_inner_size() == old(self).spec_inner_size(),
            final(self).spec_present() == old(self).spec_present(),
            match tile {
                Some(stored) => old(self)@.contains_key(*k) && *stored == old(self)@[*k]
                    && final(self)@ == old(self)@.insert(*k, *final(stored)),
                None => !old(self)@.contains_key(*k) && final(self)@ == old(self)@,
            },
    {
        let key = match self.coord_to_key(k) {
            Some(key) => key,
            None => {
                return None;
            },
        };
        proof {
            let size = self.inner_size as int;
            lemma_key(size, *k);
            assert forall|changed: TileData|
                #[trigger] grid_view(size, self.data@.update(key as int, Some(changed)))
                    == grid_view(size, self.data@).insert(*k, changed) by {
                lemma_grid_update(size, self.data@, *k, changed);
            }
            if self.data@[key as int] is None {
                assert(self.data@.update(key as int, None) =~= self.data@);
            }
        }
        self.data[key].as_mut()
    }

    /// Lets the grid grow by two rows and two columns on every side. The
    /// tiles stay where they are.
    pub fn resize(&mut self)
        requires
            old(self).wf(),
            old(self).spec_inner_size() < FULL_BOARD,
        ensures
            final(self).wf(),
            final(self)@ == old(self)@,
            final(self).spec_inner_size() == old(self).spec_inner_size() + INC,
            final(self).spec_present() == old(self).spec_present(),
    {
        let old_size = self.inner_size;
        let new_size = old_size + INC;
        let ghost small = old_size as int;
        let ghost large = new_size as int;
        let mut grown = Self::empty_grid(new_size);
        for i in 0..self.coords_present.len()
            invariant
                self.wf(),
                *self == *old(self),
                small == self.inner_size,
                old_size == self.inner_size,
                new_size == old_size + 4,
                large == small + 4,
                12 <= small <= 252,
                small % 4 == 0,
                grown@.len() == large * large,
                forall|j: int|
                    0 <= j < i ==> grown@[spec_key(large, #[trigger] self.coords_present@[j])]
                        == self.data@[spec_key(small, self.coords_present@[j])],
                forall|key: int|
                    0 <= key < grown@.len() && (#[trigger] grown@[key]) is Some ==> exists|j: int|
                        0 <= j < i && key == spec_key(large, #[trigger] self.coords_present@[j]),
        {
            let coord = self.coords_present[i];
            let ghost before = grown@;
            proof {
                assert(self.coords_present@.contains(coord));
                assert(self@.contains_key(coord));
                lemma_key(small, coord);
                lemma_key(large, coord);
            }
            let from: usize = key_of(old_size, &coord);
            let to: usize = key_of(new_size, &coord);
            let tile = self.data[from];
            grown.set(to, tile);
            proof {
                assert forall|j: int| 0 <= j < i + 1 implies grown@[spec_key(
                    large,
                    #[trigger] self.coords_present@[j],
                )] == self.data@[spec_key(small, self.coords_present@[j])] by {
                    if j < i {
                        let other = self.coords_present@[j];
                        assert(self.coords_present@.contains(other));
                        assert(self@.contains_key(other));
                        lemma_key(large, other);
                        assert(other != coord);
                        assert(before[spec_key(large, other)] == self.data@[spec_key(
                            small,
                            other,
                        )]);
                    }
                }
                assert forall|key: int|
                    0 <= key < grown@.len() && (#[trigger] grown@[key]) is Some implies exists|
                    j: int,
                | 0 <= j < i + 1 && key == spec_key(large, #[trigger] self.coords_present@[j]) by {
                    if key == to {
                        assert(key == spec_key(large, self.coords_present@[i as int]));
                    } else {
                        assert(before[key] is Some);
                        let j = choose|j: int|
                            0 <= j < i && key == spec_key(
                                large,
                                #[trigger] self.coords_present@[j],
                            );
                        assert(0 <= j < i + 1 && key == spec_key(large, self.coords_present@[j]));
                    }
                }
            }
        }
        let ghost before = *self;
        self.data = grown;
        self.inner_size = new_size;
        proof {
            assert forall|coord: Coordinate|
                #[trigger] self@.contains_key(coord) == before@.contains_key(coord) && (
                self@.contains_key(coord) ==> self@[coord] == before@[coord]) by {
                assert(self@.contains_key(coord) == (on_grid(large, coord) && self.data@[spec_key(
                    large,
                    coord,
                )] is Some));
                assert(before@.contains_key(coord) == (on_grid(small, coord)
                    && before.data@[spec_key(small, coord)] is Some));
                if before@.contains_key(coord) {
                    assert(before.coords_present@.contains(coord));
                    let j = choose|j: int|
                        0 <= j < before.coords_present@.len() && before.coords_present@[j]
                            == coord;
                    assert(self.data@[spec_key(large, before.coords_present@[j])]
                        == before.data@[spec_key(small, before.coords_present@[j])]);
                }
                if self@.contains_key(coord) {
                    lemma_key(large, coord);
                    let key = spec_key(large, coord);
                    assert(self.data@[key] is Some);
                    let j = choose|j: int|
                        0 <= j < before.coords_present@.len() && key == spec_key(
                            large,
                            #[trigger] before.coords_present@[j],
                        );
                    let other = before.coords_present@[j];
                    assert(before.coords_present@.contains(other));
                    assert(before@.contains_key(other));
                    lemma_key(large, other);
                    assert(other == coord);
                }
            }
            assert(self@ =~= before@);
        }
    }

    /// Puts a tile at a place; a tile that lay there is replaced. The grid
    /// grows as far as it must to reach the place.
    pub fn insert(&mut self, k: Coordinate, v: TileData)
        requires
            old(self).wf(),
        ensures
            final(self).wf(),
            final(self)@ == old(self)@.insert(k, v),
            final(self).spec_present() == if old(self)@.contains_key(k) {
                old(self).spec_present()
            } else {
                old(self).spec_present().push(k)
            },
            final(self).spec_inner_size() >= old(self).spec_inner_size(),
    {
        let mut key = self.coord_to_key(&k);
        while key.is_none()
            invariant
                self.wf(),
                self@ == old(self)@,
                self.spec_present() == old(self).spec_present(),
                self.spec_inner_size() >= old(self).spec_inner_size(),
                key is Some <==> on_grid(self.spec_inner_size() as int, k),
                key is Some ==> key.unwrap() == spec_key(self.spec_inner_size() as int, k)
                    && key.unwrap() < self.spec_inner_size() * self.spec_inner_size(),
            decreases FULL_BOARD - self.spec_inner_size(),
        {
            self.resize();
            key = self.coord_to_key(&k);
        }
        let key = match key {
            Some(key) => key,
            None => {
                proof {
                    assert(false);
                }
                return ;
            },
        };
        let ghost before = *self;
        let ghost size = self.inner_size as int;
        proof {
            lemma_key(size, k);
        }
        proof {
            assert(key == spec_key(size, k));
            assert(self@.contains_key(k) == (on_grid(size, k) && self.data@[spec_key(size, k)]
                is Some));
            assert(self.coords_present@.contains(k) <==> self@.contains_key(k));
        }
        if self.data[key].is_none() {
            proof {
                lemma_push_fresh(self.coords_present@, k);
            }
            self.coords_present.push(k);
        }
        self.data.set(key, Some(v));
        proof {
            assert(self.inner_size == before.inner_size);
            assert(self.data@ == before.data@.update(key as int, Some(v)));
            assert forall|coord: Coordinate|
                #[trigger] self@.contains_key(coord) == before@.insert(k, v).contains_key(coord)
                    && (self@.contains_key(coord) ==> self@[coord] == before@.insert(
                    k,
                    v,
                )[coord]) by {
                assert(self@.contains_key(coord) == (on_grid(size, coord) && self.data@[spec_key(
                    size,
                    coord,
                )] is Some));
                assert(before@.contains_key(coord) == (on_grid(size, coord)
                    && before.data@[spec_key(size, coord)] is Some));
                if on_grid(size, coord) {
                    lemma_key(size, coord);
                }
            }
            assert(self@ =~= before@.insert(k, v));
            assert forall|coord: Coordinate| #[trigger]
                self.coords_present@.contains(coord) <==> self@.contains_key(coord) by {
                lemma_push_contains(before.coords_present@, k, coord);
                assert(before.coords_present@.contains(coord) <==> before@.contains_key(coord));
            }
        }
    }
}

} // verus!
