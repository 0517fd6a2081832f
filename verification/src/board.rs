use crate::feature::{lemma_owned_among, owned_among, owned_by};
use crate::keys::{KeyMap, KeySet};
use crate::player::Player;
use crate::seqs::{among_first, lemma_among_first, lemma_push_contains, lemma_push_fresh};
use crate::tile::{cardinals, spec_cardinals, spec_slots, MiniTile, TileClickTarget, TileData};
use vstd::prelude::*;

verus! {

pub use crate::keys::Coordinate;

/// One slot of the tile at one place: where a feature is entered or left.
pub type Side = (Coordinate, TileClickTarget);

/// The steps to the four neighbours: right, below, above, left.
pub const DELTAS: [Coordinate; 4] = [(0, 1), (1, 0), (-1, 0), (0, -1)];

/// The steps to the eight tiles around a tile.
pub const OCTAL_DELTAS: [Coordinate; 8] = [
    (0, 1),
    (1, 0),
    (-1, 0),
    (0, -1),
    (1, 1),
    (1, -1),
    (-1, 1),
    (-1, -1),
];

/// For each step of `DELTAS`, the edge of a tile that looks that way and the
/// edge of the neighbour that faces it.
pub const COUPLINGS: [(TileClickTarget, TileClickTarget); 4] = [
    (TileClickTarget::Right, TileClickTarget::Left),
    (TileClickTarget::Bottom, TileClickTarget::Top),
    (TileClickTarget::Top, TileClickTarget::Bottom),
    (TileClickTarget::Left, TileClickTarget::Right),
];

/// The step on the grid that leads across an edge. The centre leads nowhere.
pub open spec fn spec_delta(edge: TileClickTarget) -> Coordinate {
    match edge {
        TileClickTarget::Right => (0i8, 1i8),
        TileClickTarget::Bottom => (1i8, 0i8),
        TileClickTarget::Top => (-1i8, 0i8),
        TileClickTarget::Left => (0i8, -1i8),
        TileClickTarget::Center => (0i8, 0i8),
    }
}

/// The edge of the neighbour that faces an edge: right and left pair up, and
/// so do top and bottom.
pub open spec fn spec_coupling(edge: TileClickTarget) -> TileClickTarget {
    match edge {
        TileClickTarget::Right => TileClickTarget::Left,
        TileClickTarget::Left => TileClickTarget::Right,
        TileClickTarget::Top => TileClickTarget::Bottom,
        TileClickTarget::Bottom => TileClickTarget::Top,
        TileClickTarget::Center => TileClickTarget::Center,
    }
}

/// The place a step away, if the grid reaches that far.
pub open spec fn spec_offset(coord: Coordinate, delta: Coordinate) -> Option<Coordinate> {
    let row = coord.0 + delta.0;
    let col = coord.1 + delta.1;
    if -128 <= row <= 127 && -128 <= col <= 127 {
        Some((row as i8, col as i8))
    } else {
        None
    }
}

/// The place across an edge, if the grid reaches that far.
pub open spec fn spec_neighbor(coord: Coordinate, edge: TileClickTarget) -> Option<Coordinate> {
    spec_offset(coord, spec_delta(edge))
}

pub fn delta_of(edge: &TileClickTarget) -> (delta: Coordinate)
    ensures
        delta == spec_delta(*edge),
{
    match edge {
        TileClickTarget::Right => (0, 1),
        TileClickTarget::Bottom => (1, 0),
        TileClickTarget::Top => (-1, 0),
        TileClickTarget::Left => (0, -1),
        TileClickTarget::Center => (0, 0),
    }
}

pub fn coupling_of(edge: &TileClickTarget) -> (facing: TileClickTarget)
    ensures
        facing == spec_coupling(*edge),
{
    match edge {
        TileClickTarget::Right => TileClickTarget::Left,
        TileClickTarget::Left => TileClickTarget::Right,
        TileClickTarget::Top => TileClickTarget::Bottom,
        TileClickTarget::Bottom => TileClickTarget::Top,
        TileClickTarget::Center => TileClickTarget::Center,
    }
}

pub fn offset(coord: &Coordinate, delta: &Coordinate) -> (moved: Option<Coordinate>)
    ensures
        moved == spec_offset(*coord, *delta),
{
    let row: i16 = coord.0 as i16 + delta.0 as i16;
    let col: i16 = coord.1 as i16 + delta.1 as i16;
    if -128 <= row && row <= 127 && -128 <= col && col <= 127 {
        Some((row as i8, col as i8))
    } else {
        None
    }
}

/// Crossing an edge and then the edge that faces it leads back.
pub proof fn lemma_neighbor_symmetric(coord: Coordinate, edge: TileClickTarget)
    requires
        spec_neighbor(coord, edge) is Some,
    ensures
        spec_neighbor(spec_neighbor(coord, edge).unwrap(), spec_coupling(edge)) == Some(coord),
        spec_coupling(spec_coupling(edge)) == edge,
{
}

/// Something that can be read as a board: it says which tile lies where.
pub trait BoardData: View<V = Map<Coordinate, TileData>> {
    /// The tile at a place, if there is one.
    fn at(&self, coord: &Coordinate) -> (tile: Option<&TileData>)
        ensures
            tile == (if self@.contains_key(*coord) {
                Some(&self@[*coord])
            } else {
                None
            }),
    ;

    /// The places that hold a tile, each once, in an order that is not stated.
    fn tiles_present(&self) -> (coords: Vec<Coordinate>)
        ensures
            coords@.no_duplicates(),
            coords@.to_set() == self@.dom(),
    ;
}

/// The board of a match: at most one tile at each place.
pub struct ConcreteBoard {
    data: KeyMap<Coordinate, TileData>,
}

impl View for ConcreteBoard {
    type V = Map<Coordinate, TileData>;

    closed spec fn view(&self) -> Map<Coordinate, TileData> {
        self.data@
    }
}

impl BoardData for ConcreteBoard {
    fn at(&self, coord: &Coordinate) -> (tile: Option<&TileData>) {
        self.data.get(coord)
    }

    fn tiles_present(&self) -> (coords: Vec<Coordinate>) {
        self.data.keys()
    }
}

impl Default for ConcreteBoard {
    fn default() -> (board: ConcreteBoard)
        ensures
            board@ == Map::<Coordinate, TileData>::empty(),
    {
        ConcreteBoard { data: KeyMap::new() }
    }
}

impl Clone for ConcreteBoard {
    fn clone(&self) -> (copy: ConcreteBoard)
        ensures
            copy@ == self@,
    {
        ConcreteBoard { data: self.data.clone() }
    }
}

impl ConcreteBoard {
    pub fn as_user(&self) -> (user: BoardUser<'_, ConcreteBoard>)
        ensures
            user.board@ == self@,
    {
        BoardUser { board: self }
    }

    /// This board with one more tile laid over it.
    pub fn with_overlay(&self, coord: Coordinate, tile: &TileData) -> (laid: OverlaidBoard<
        '_,
        ConcreteBoard,
    >)
        ensures
            laid@ == self@.insert(coord, *tile),
    {
        let mut overlay: KeyMap<Coordinate, TileData> = KeyMap::new();
        overlay.insert(coord, *tile);
        let laid = OverlaidBoard { board: self, overlay };
        assert(laid@ =~= self@.insert(coord, *tile));
        laid
    }

    /// A way to change the tile at a place, if there is one. No tile comes or
    /// goes, and no other tile changes.
    pub fn at_mut(&mut self, coord: &Coordinate) -> (tile: Option<&mut TileData>)
        ensures
            match tile {
                Some(stored) => old(self)@.contains_key(*coord) && *stored == old(self)@[*coord]
                    && final(self)@ == old(self)@.insert(*coord, *final(stored)),
                None => !old(self)@.contains_key(*coord) && final(self)@ == old(self)@,
            },
    {
        self.data.get_mut(coord)
    }

    /// Puts a tile at a place; a tile that lay there is replaced.
    pub fn set(&mut self, coord: Coordinate, tile: TileData)
        ensures
            final(self)@ == old(self)@.insert(coord, tile),
    {
        self.data.insert(coord, tile);
    }

    /// A board holds finitely many tiles, no more than the grid has places.
    pub proof fn lemma_finite(&self)
        ensures
            self@.dom().finite(),
            self@.dom().len() <= 65536,
    {
        self.data.lemma_finite();
    }

    /// How many tiles lie on the board.
    pub fn len(&self) -> (count: usize)
        ensures
            self@.dom().finite(),
            count == self@.dom().len(),
            count <= 65536,
    {
        self.data.len()
    }
}

/// A board with a few tiles laid over it, for asking what would hold if they lay there.
pub struct OverlaidBoard<'a, B: BoardData> {
    pub board: &'a B,
    pub overlay: KeyMap<Coordinate, TileData>,
}

impl<'a, B: BoardData> View for OverlaidBoard<'a, B> {
    type V = Map<Coordinate, TileData>;

    open spec fn view(&self) -> Map<Coordinate, TileData> {
        self.board@.union_prefer_right(self.overlay@)
    }
}

impl<'a, B: BoardData> BoardData for OverlaidBoard<'a, B> {
    fn at(&self, coord: &Coordinate) -> (tile: Option<&TileData>) {
        if let Some(tile) = self.overlay.get(coord) {
            Some(tile)
        } else {
            self.board.at(coord)
        }
    }

    fn tiles_present(&self) -> (coords: Vec<Coordinate>) {
        let mut coords = self.board.tiles_present();
        let laid = self.overlay.keys();
        let ghost below = coords@;
        for i in 0..laid.len()
            invariant
                below.no_duplicates(),
                below.to_set() == self.board@.dom(),
                laid@.no_duplicates(),
                laid@.to_set() == self.overlay@.dom(),
                coords@.no_duplicates(),
                forall|coord: Coordinate| #[trigger]
                    coords@.contains(coord) <==> below.contains(coord) || among_first(
                        laid@,
                        i as int,
                        coord,
                    ),
        {
            let coord = laid[i];
            let ghost before = coords@;
            if self.board.at(&coord).is_none() {
                proof {
                    assert(!below.to_set().contains(coord));
                    lemma_among_first(laid@, i as int, coord);
                    lemma_push_fresh(coords@, coord);
                }
                coords.push(coord);
                proof {
                    assert forall|other: Coordinate|
                        coords@.contains(other) <==> before.contains(other) || other == coord by {
                        lemma_push_contains(before, coord, other);
                    }
                }
            } else {
                assert(below.to_set().contains(coord));
                assert(below.contains(coord));
            }
            assert forall|other: Coordinate| #[trigger]
                coords@.contains(other) <==> below.contains(other) || among_first(
                    laid@,
                    i + 1,
                    other,
                ) by {
                assert(before.contains(other) <==> below.contains(other) || among_first(
                    laid@,
                    i as int,
                    other,
                ));
                assert(among_first(laid@, i + 1, other) <==> among_first(laid@, i as int, other)
                    || other == coord);
            }
        }
        proof {
            assert forall|coord: Coordinate|
                coords@.to_set().contains(coord) == self@.dom().contains(coord) by {
                lemma_among_first(laid@, laid@.len() as int, coord);
                if self.overlay@.dom().contains(coord) {
                    assert(laid@.to_set().contains(coord));
                }
                if laid@.contains(coord) {
                    assert(laid@.to_set().contains(coord));
                }
                if below.contains(coord) {
                    assert(below.to_set().contains(coord));
                }
                if self.board@.dom().contains(coord) {
                    assert(below.to_set().contains(coord));
                }
            }
            assert(coords@.to_set() =~= self@.dom());
        }
        coords
    }
}

impl<'a, B: BoardData> OverlaidBoard<'a, B> {
    pub fn as_user(&self) -> (user: BoardUser<'_, OverlaidBoard<'a, B>>)
        ensures
            user.board@ == self@,
    {
        BoardUser { board: self }
    }

    /// This board with one more tile laid over it.
    pub fn with_overlay(&self, coord: Coordinate, tile: &TileData) -> (laid: OverlaidBoard<
        '_,
        OverlaidBoard<'a, B>,
    >)
        ensures
            laid@ == self@.insert(coord, *tile),
    {
        let mut overlay: KeyMap<Coordinate, TileData> = KeyMap::new();
        overlay.insert(coord, *tile);
        let laid = OverlaidBoard { board: self, overlay };
        assert(laid@ =~= self@.insert(coord, *tile));
        laid
    }
}

/// Whether a tile lies across an edge of a place.
pub open spec fn has_tile_across(
    tiles: Map<Coordinate, TileData>,
    coord: Coordinate,
    edge: TileClickTarget,
) -> bool {
    match spec_neighbor(coord, edge) {
        Some(next) => tiles.contains_key(next),
        None => false,
    }
}

/// Whether a place has a tile on at least one of its four sides.
pub open spec fn touches(tiles: Map<Coordinate, TileData>, coord: Coordinate) -> bool {
    ||| has_tile_across(tiles, coord, TileClickTarget::Left)
    ||| has_tile_across(tiles, coord, TileClickTarget::Right)
    ||| has_tile_across(tiles, coord, TileClickTarget::Top)
    ||| has_tile_across(tiles, coord, TileClickTarget::Bottom)
}

/// The places where the next tile may go: empty, with a tile on at least one side.
pub open spec fn spec_legal_tiles(tiles: Map<Coordinate, TileData>) -> Set<Coordinate> {
    Set::new(|coord: Coordinate| !tiles.contains_key(coord) && touches(tiles, coord))
}

/// Whether, across one edge of `dest`, there is no tile or the tile there shows
/// on its facing edge what `incoming` shows on this one.
pub open spec fn edge_agrees(
    tiles: Map<Coordinate, TileData>,
    dest: Coordinate,
    incoming: TileData,
    edge: TileClickTarget,
) -> bool {
    has_tile_across(tiles, dest, edge) ==> tiles[spec_neighbor(dest, edge).unwrap()].spec_at(
        spec_coupling(edge),
    ) == incoming.spec_at(edge)
}

/// Whether `incoming` would agree with every neighbour that `dest` has.
pub open spec fn spec_features_match(
    tiles: Map<Coordinate, TileData>,
    dest: Coordinate,
    incoming: TileData,
) -> bool {
    &&& edge_agrees(tiles, dest, incoming, TileClickTarget::Left)
    &&& edge_agrees(tiles, dest, incoming, TileClickTarget::Right)
    &&& edge_agrees(tiles, dest, incoming, TileClickTarget::Top)
    &&& edge_agrees(tiles, dest, incoming, TileClickTarget::Bottom)
}

/// Agreement across an edge is mutual: a tile agrees with the tile across one
/// of its edges exactly if that tile agrees with it across the facing edge.
pub proof fn lemma_edge_agreement_is_mutual(
    tiles: Map<Coordinate, TileData>,
    here: Coordinate,
    tile: TileData,
    edge: TileClickTarget,
    there: Coordinate,
    other: TileData,
)
    requires
        spec_neighbor(here, edge) == Some(there),
    ensures
        edge_agrees(tiles.insert(there, other), here, tile, edge) <==> edge_agrees(
            tiles.insert(here, tile),
            there,
            other,
            spec_coupling(edge),
        ),
{
    lemma_neighbor_symmetric(here, edge);
}

/// Whether a meeple may stand on a slot that shows a given kind: on a road or
/// a city at an edge, on a monastery anywhere, and nowhere else.
pub open spec fn slot_takes_meeple(kind: MiniTile, slot: TileClickTarget) -> bool {
    match kind {
        MiniTile::Road | MiniTile::City => slot.is_edge(),
        MiniTile::Monastery => true,
        MiniTile::Grass | MiniTile::Junction => false,
    }
}

/// Whether a tile carries at most one meeple, and that on a slot that takes one.
pub open spec fn tile_fits(tile: TileData) -> bool {
    &&& forall|a: TileClickTarget, b: TileClickTarget|
        tile.spec_meeple_at(a) is Some && tile.spec_meeple_at(b) is Some ==> a == b
    &&& forall|slot: TileClickTarget| #[trigger]
        tile.spec_meeple_at(slot) is Some ==> slot_takes_meeple(tile.spec_at(slot), slot)
}

/// Whether every tile of a board carries at most one meeple, and that on a
/// slot that takes one.
#[verifier::opaque]
pub open spec fn meeples_fit(tiles: Map<Coordinate, TileData>) -> bool {
    forall|coord: Coordinate| #[trigger] tiles.contains_key(coord) ==> tile_fits(tiles[coord])
}

/// A board without tiles has no meeple out of place.
pub proof fn lemma_empty_board_fits()
    ensures
        meeples_fit(Map::<Coordinate, TileData>::empty()),
{
    reveal(meeples_fit);
}

/// A tile that carries at most one meeple, and that on a slot that takes
/// one, leaves the meeples of a board in place when it is laid or changed.
pub proof fn lemma_fitting_tile_keeps_fit(
    tiles: Map<Coordinate, TileData>,
    coord: Coordinate,
    tile: TileData,
)
    requires
        meeples_fit(tiles),
        tile_fits(tile),
    ensures
        meeples_fit(tiles.insert(coord, tile)),
{
    reveal(meeples_fit);
}

/// A tile of a board whose meeples are in place carries at most one meeple,
/// and that on a slot that takes one.
pub proof fn lemma_fit_of_tile(tiles: Map<Coordinate, TileData>, coord: Coordinate)
    requires
        meeples_fit(tiles),
        tiles.contains_key(coord),
    ensures
        tile_fits(tiles[coord]),
{
    reveal(meeples_fit);
}

/// Taking meeples off a board leaves the meeples that stay in place.
pub proof fn lemma_removal_keeps_fit(tiles: Map<Coordinate, TileData>, sides: Set<Side>)
    requires
        meeples_fit(tiles),
    ensures
        meeples_fit(without_meeples(tiles, sides)),
{
    reveal(meeples_fit);
    let after = without_meeples(tiles, sides);
    assert forall|coord: Coordinate| #[trigger] after.contains_key(coord) implies tile_fits(
        after[coord],
    ) by {
        lemma_cleared(tiles[coord], coord, sides);
        assert(tile_fits(tiles[coord]));
        let cleared = after[coord];
        assert forall|slot: TileClickTarget| #[trigger]
            cleared.spec_meeple_at(slot) is Some implies slot_takes_meeple(
            cleared.spec_at(slot),
            slot,
        ) by {
            assert(tiles[coord].spec_meeple_at(slot) is Some);
        }
    }
}

/// Whether every tile of a board agrees with all its neighbours.
#[verifier::opaque]
pub open spec fn edges_agree(tiles: Map<Coordinate, TileData>) -> bool {
    forall|coord: Coordinate| #[trigger]
        tiles.contains_key(coord) ==> spec_features_match(tiles, coord, tiles[coord])
}

/// Whether two boards hold tiles at the same places that show the same.
pub open spec fn same_faces(a: Map<Coordinate, TileData>, b: Map<Coordinate, TileData>) -> bool {
    &&& forall|coord: Coordinate| a.contains_key(coord) == b.contains_key(coord)
    &&& forall|coord: Coordinate, slot: TileClickTarget|
        a.contains_key(coord) ==> #[trigger] a[coord].spec_at(slot) == b[coord].spec_at(slot)
}

/// A tile that agrees with its neighbours and goes to an empty place leaves a
/// board on which every tile agrees with its neighbours as such a board.
pub proof fn lemma_placing_keeps_agreement(
    tiles: Map<Coordinate, TileData>,
    coord: Coordinate,
    tile: TileData,
)
    requires
        edges_agree(tiles),
        !tiles.contains_key(coord),
        spec_features_match(tiles, coord, tile),
    ensures
        edges_agree(tiles.insert(coord, tile)),
{
    reveal(edges_agree);
    let after = tiles.insert(coord, tile);
    assert forall|other: Coordinate| #[trigger] after.contains_key(other) implies spec_features_match(
        after,
        other,
        after[other],
    ) by {
        if other == coord {
            assert forall|edge: TileClickTarget| edge_agrees(after, coord, tile, edge) by {
                if spec_neighbor(coord, edge) is Some && edge.is_edge() {
                    assert(edge_agrees(tiles, coord, tile, edge));
                }
            }
        } else {
            assert(spec_features_match(tiles, other, tiles[other]));
            assert forall|edge: TileClickTarget| edge.is_edge() implies edge_agrees(
                after,
                other,
                after[other],
                edge,
            ) by {
                assert(edge_agrees(tiles, other, tiles[other], edge));
                if spec_neighbor(other, edge) == Some(coord) {
                    lemma_neighbor_symmetric(other, edge);
                    assert(edge_agrees(tiles, coord, tile, spec_coupling(edge)));
                }
            }
        }
    }
}

/// What the tiles show decides whether they agree: meeples come and go
/// without a change to it.
pub proof fn lemma_faces_keep_agreement(a: Map<Coordinate, TileData>, b: Map<Coordinate, TileData>)
    requires
        edges_agree(a),
        same_faces(a, b),
    ensures
        edges_agree(b),
{
    reveal(edges_agree);
    assert forall|coord: Coordinate| #[trigger] b.contains_key(coord) implies spec_features_match(
        b,
        coord,
        b[coord],
    ) by {
        assert(a.contains_key(coord));
        assert(spec_features_match(a, coord, a[coord]));
        assert forall|edge: TileClickTarget| edge.is_edge() implies edge_agrees(
            b,
            coord,
            b[coord],
            edge,
        ) by {
            assert(edge_agrees(a, coord, a[coord], edge));
            if has_tile_across(b, coord, edge) {
                let next = spec_neighbor(coord, edge).unwrap();
                assert(a.contains_key(next));
                assert(a[next].spec_at(spec_coupling(edge)) == b[next].spec_at(spec_coupling(edge)));
                assert(a[coord].spec_at(edge) == b[coord].spec_at(edge));
            }
        }
    }
}

/// On a board without tiles every tile agrees with its neighbours.
pub proof fn lemma_empty_board_agrees()
    ensures
        edges_agree(Map::<Coordinate, TileData>::empty()),
{
    reveal(edges_agree);
}

/// A meeple that comes or goes leaves a board on which every tile agrees
/// with its neighbours as such a board.
pub proof fn lemma_meeple_keeps_agreement(
    tiles: Map<Coordinate, TileData>,
    coord: Coordinate,
    location: TileClickTarget,
    owner: Option<Player>,
)
    requires
        edges_agree(tiles),
        tiles.contains_key(coord),
    ensures
        edges_agree(tiles.insert(coord, tiles[coord].spec_with_meeple(location, owner))),
{
    let after = tiles.insert(coord, tiles[coord].spec_with_meeple(location, owner));
    assert(same_faces(tiles, after));
    lemma_faces_keep_agreement(tiles, after);
}

/// Taking meeples off a board leaves a board on which every tile agrees with
/// its neighbours as such a board.
pub proof fn lemma_removal_keeps_agreement(tiles: Map<Coordinate, TileData>, sides: Set<Side>)
    requires
        edges_agree(tiles),
    ensures
        edges_agree(without_meeples(tiles, sides)),
{
    lemma_without_meeples_same_faces(tiles, sides);
    lemma_faces_keep_agreement(tiles, without_meeples(tiles, sides));
}

/// Taking meeples off a board changes nothing that the tiles show.
pub proof fn lemma_without_meeples_same_faces(tiles: Map<Coordinate, TileData>, sides: Set<Side>)
    ensures
        same_faces(tiles, without_meeples(tiles, sides)),
{
    assert forall|coord: Coordinate, slot: TileClickTarget|
        tiles.contains_key(coord) implies #[trigger] tiles[coord].spec_at(slot) == without_meeples(
        tiles,
        sides,
    )[coord].spec_at(slot) by {
        lemma_cleared(tiles[coord], coord, sides);
    }
}

/// Whether `to` lies across one of the four edges of `from`.
pub open spec fn is_next_to(from: Coordinate, to: Coordinate) -> bool {
    ||| spec_neighbor(from, TileClickTarget::Left) == Some(to)
    ||| spec_neighbor(from, TileClickTarget::Right) == Some(to)
    ||| spec_neighbor(from, TileClickTarget::Top) == Some(to)
    ||| spec_neighbor(from, TileClickTarget::Bottom) == Some(to)
}

/// Whether `to` lies across one of the first `n` edges in the order of the cardinals.
pub open spec fn is_next_to_by_first(from: Coordinate, to: Coordinate, n: int) -> bool
    decreases n,
{
    if n <= 0 || n > 4 {
        false
    } else {
        is_next_to_by_first(from, to, n - 1) || spec_neighbor(from, spec_cardinals()[n - 1])
            == Some(to)
    }
}

/// Whether `to` lies next to one of the first `n` places of a list.
pub open spec fn is_next_to_any(list: Seq<Coordinate>, n: int, to: Coordinate) -> bool
    decreases n,
{
    if n <= 0 {
        false
    } else {
        is_next_to_any(list, n - 1, to) || (n <= list.len() && is_next_to(list[n - 1], to))
    }
}

/// A place lies next to one of the first `n` of a list exactly if it lies next
/// to the one at some place before `n`.
pub proof fn lemma_is_next_to_any(list: Seq<Coordinate>, n: int, to: Coordinate)
    requires
        0 <= n <= list.len(),
    ensures
        is_next_to_any(list, n, to) <==> exists|j: int|
            0 <= j < n && #[trigger] is_next_to(list[j], to),
    decreases n,
{
    if n > 0 {
        lemma_is_next_to_any(list, n - 1, to);
        if is_next_to_any(list, n - 1, to) {
            let j = choose|j: int| 0 <= j < n - 1 && #[trigger] is_next_to(list[j], to);
            assert(0 <= j < n && is_next_to(list[j], to));
        }
        if exists|j: int| 0 <= j < n && #[trigger] is_next_to(list[j], to) {
            let j = choose|j: int| 0 <= j < n && #[trigger] is_next_to(list[j], to);
            if j < n - 1 {
                assert(0 <= j < n - 1 && is_next_to(list[j], to));
            }
        }
    }
}

/// Whether `incoming` agrees with the neighbours across the first `n` edges in
/// the order of the cardinals.
pub open spec fn first_edges_agree(
    tiles: Map<Coordinate, TileData>,
    dest: Coordinate,
    incoming: TileData,
    n: int,
) -> bool
    decreases n,
{
    if n <= 0 || n > 4 {
        true
    } else {
        first_edges_agree(tiles, dest, incoming, n - 1) && edge_agrees(
            tiles,
            dest,
            incoming,
            spec_cardinals()[n - 1],
        )
    }
}

/// The questions of the game, asked of anything that can be read as a board.
pub struct BoardUser<'a, B: BoardData> {
    pub board: &'a B,
}

impl<'a, B: BoardData> BoardUser<'a, B> {
    /// How many tiles lie on the board.
    pub fn tiles_placed(&self) -> (count: u32)
        ensures
            self.board@.dom().finite(),
            count == self.board@.dom().len(),
    {
        let coords = self.board.tiles_present();
        proof {
            coords@.unique_seq_to_set();
            crate::keys::lemma_key_set_bound::<Coordinate>(self.board@.dom());
        }
        coords.len() as u32
    }

    pub fn contains_coord(&self, coord: &Coordinate) -> (present: bool)
        ensures
            present == self.board@.contains_key(*coord),
    {
        self.board.at(coord).is_some()
    }

    /// The places where the next tile may go.
    pub fn get_legal_tiles(&self) -> (legal: KeySet<Coordinate>)
        ensures
            legal@ == spec_legal_tiles(self.board@),
    {
        let present = self.board.tiles_present();
        let edges = cardinals();
        let mut legal: KeySet<Coordinate> = KeySet::new();
        for i in 0..present.len()
            invariant
                edges@ == spec_cardinals(),
                present@.to_set() == self.board@.dom(),
                forall|coord: Coordinate|
                    legal@.contains(coord) <==> !self.board@.contains_key(coord)
                        && is_next_to_any(present@, i as int, coord),
        {
            let from = present[i];
            for k in 0..4
                invariant
                    edges@ == spec_cardinals(),
                    from == present@[i as int],
                    i < present@.len(),
                    forall|coord: Coordinate|
                        legal@.contains(coord) <==> !self.board@.contains_key(coord) && (
                        is_next_to_any(present@, i as int, coord) || is_next_to_by_first(
                            from,
                            coord,
                            k as int,
                        )),
            {
                let edge = edges[k];
                if let Some(coord) = offset(&from, &delta_of(&edge)) {
                    if !self.contains_coord(&coord) {
                        legal.insert(coord);
                    }
                }
            }
            proof {
                assert forall|coord: Coordinate|
                    is_next_to_by_first(from, coord, 4) == is_next_to(from, coord) by {
                    reveal_with_fuel(is_next_to_by_first, 5);
                }
            }
        }
        proof {
            assert forall|coord: Coordinate|
                legal@.contains(coord) == spec_legal_tiles(self.board@).contains(coord) by {
                lemma_is_next_to_any(present@, present@.len() as int, coord);
                lemma_touching_is_next_to(self.board@, coord);
                if legal@.contains(coord) {
                    let j = choose|j: int|
                        0 <= j < present@.len() && #[trigger] is_next_to(present@[j], coord);
                    assert(present@.to_set().contains(present@[j]));
                    assert(self.board@.contains_key(present@[j]) && is_next_to(
                        present@[j],
                        coord,
                    ));
                }
                if spec_legal_tiles(self.board@).contains(coord) {
                    let from = choose|from: Coordinate|
                        self.board@.contains_key(from) && #[trigger] is_next_to(from, coord);
                    assert(present@.to_set().contains(from));
                    let j = choose|j: int| 0 <= j < present@.len() && present@[j] == from;
                    assert(is_next_to(present@[j], coord));
                }
            }
            assert(legal@ =~= spec_legal_tiles(self.board@));
        }
        legal
    }

    /// Whether `incoming_tile` would agree with every neighbour that `dest` has.
    /// Where `dest` has no neighbour, any tile agrees.
    pub fn is_features_match(&self, dest: &Coordinate, incoming_tile: &TileData) -> (agrees: bool)
        ensures
            agrees == spec_features_match(self.board@, *dest, *incoming_tile),
    {
        let edges = cardinals();
        let mut agrees = true;
        for k in 0..4
            invariant
                edges@ == spec_cardinals(),
                agrees == first_edges_agree(self.board@, *dest, *incoming_tile, k as int),
        {
            let edge = edges[k];
            if let Some(next) = offset(dest, &delta_of(&edge)) {
                if let Some(existing_tile) = self.board.at(&next) {
                    if *existing_tile.at(&coupling_of(&edge)) != *incoming_tile.at(&edge) {
                        agrees = false;
                    }
                }
            }
        }
        proof {
            reveal_with_fuel(first_edges_agree, 5);
        }
        agrees
    }
}

/// A place touches the board exactly if it lies next to a place with a tile.
pub proof fn lemma_touching_is_next_to(tiles: Map<Coordinate, TileData>, coord: Coordinate)
    ensures
        touches(tiles, coord) <==> exists|from: Coordinate|
            tiles.contains_key(from) && #[trigger] is_next_to(from, coord),
{
    if touches(tiles, coord) {
        let edge = if has_tile_across(tiles, coord, TileClickTarget::Left) {
            TileClickTarget::Left
        } else if has_tile_across(tiles, coord, TileClickTarget::Right) {
            TileClickTarget::Right
        } else if has_tile_across(tiles, coord, TileClickTarget::Top) {
            TileClickTarget::Top
        } else {
            TileClickTarget::Bottom
        };
        let from = spec_neighbor(coord, edge).unwrap();
        lemma_neighbor_symmetric(coord, edge);
        assert(is_next_to(from, coord));
    }
    if exists|from: Coordinate| tiles.contains_key(from) && #[trigger] is_next_to(from, coord) {
        let from = choose|from: Coordinate| tiles.contains_key(from) && #[trigger] is_next_to(from, coord);
        let edge = if spec_neighbor(from, TileClickTarget::Left) == Some(coord) {
            TileClickTarget::Left
        } else if spec_neighbor(from, TileClickTarget::Right) == Some(coord) {
            TileClickTarget::Right
        } else if spec_neighbor(from, TileClickTarget::Top) == Some(coord) {
            TileClickTarget::Top
        } else {
            TileClickTarget::Bottom
        };
        lemma_neighbor_symmetric(from, edge);
        assert(has_tile_across(tiles, coord, spec_coupling(edge)));
    }
}

/// What laying a tile on an empty place does to the places where the next tile
/// may go: the place itself leaves them, its empty neighbours join them, and
/// nothing else changes.
pub proof fn lemma_legal_tiles_after_placing(
    tiles: Map<Coordinate, TileData>,
    coord: Coordinate,
    tile: TileData,
)
    ensures
        forall|other: Coordinate|
            spec_legal_tiles(tiles.insert(coord, tile)).contains(other) <==> other != coord && (
            spec_legal_tiles(tiles).contains(other) || (!tiles.contains_key(other) && is_next_to(
                coord,
                other,
            ))),
{
    let after = tiles.insert(coord, tile);
    assert forall|other: Coordinate|
        spec_legal_tiles(after).contains(other) <==> other != coord && (spec_legal_tiles(
            tiles,
        ).contains(other) || (!tiles.contains_key(other) && is_next_to(coord, other))) by {
        lemma_touching_is_next_to(after, other);
        lemma_touching_is_next_to(tiles, other);
        if other != coord && !tiles.contains_key(other) {
            if touches(after, other) {
                let from = choose|from: Coordinate|
                    after.contains_key(from) && #[trigger] is_next_to(from, other);
                if from != coord {
                    assert(tiles.contains_key(from) && is_next_to(from, other));
                }
            }
            if touches(tiles, other) {
                let from = choose|from: Coordinate|
                    tiles.contains_key(from) && #[trigger] is_next_to(from, other);
                assert(after.contains_key(from) && is_next_to(from, other));
            }
            if is_next_to(coord, other) {
                assert(after.contains_key(coord) && is_next_to(coord, other));
            }
        }
    }
}

/// A tile with the meeples taken off those of its first `n` slots that are among `sides`.
pub open spec fn cleared_first(tile: TileData, coord: Coordinate, sides: Set<Side>, n: int) -> TileData
    decreases n,
{
    if n <= 0 || n > 5 {
        tile
    } else {
        let before = cleared_first(tile, coord, sides, n - 1);
        let slot = spec_slots()[n - 1];
        if sides.contains((coord, slot)) {
            before.spec_with_meeple(slot, None)
        } else {
            before
        }
    }
}

/// A board with the meeples taken off every slot among `sides`. No tile comes
/// or goes, and nothing else about a tile changes.
pub open spec fn without_meeples(tiles: Map<Coordinate, TileData>, sides: Set<Side>) -> Map<
    Coordinate,
    TileData,
> {
    Map::new(
        |coord: Coordinate| tiles.contains_key(coord),
        |coord: Coordinate| cleared_first(tiles[coord], coord, sides, 5),
    )
}

/// How many meeples of a player stand on the slots among `sides`.
pub open spec fn meeples_among(
    tiles: Map<Coordinate, TileData>,
    sides: Set<Side>,
    owner: Player,
) -> nat {
    sides.filter(owned_by(tiles, owner)).len()
}

/// Whether two tiles differ at most in their meeples.
pub open spec fn same_but_meeples(a: TileData, b: TileData) -> bool {
    a == (TileData { meeple_locations: a.meeple_locations, ..b })
}

/// A tile is known by what it shows and by the meeple at each of its five slots.
pub proof fn lemma_tile_by_slots(a: TileData, b: TileData)
    requires
        same_but_meeples(a, b),
        forall|slot: TileClickTarget| a.spec_meeple_at(slot) == b.spec_meeple_at(slot),
    ensures
        a == b,
{
    assert(a.rotation == b.rotation);
    assert(a.spec_meeple_at(TileClickTarget::Top) == b.spec_meeple_at(TileClickTarget::Top));
    assert(a.spec_meeple_at(TileClickTarget::Left) == b.spec_meeple_at(TileClickTarget::Left));
    assert(a.spec_meeple_at(TileClickTarget::Right) == b.spec_meeple_at(TileClickTarget::Right));
    assert(a.spec_meeple_at(TileClickTarget::Bottom) == b.spec_meeple_at(TileClickTarget::Bottom));
    assert(a.spec_meeple_at(TileClickTarget::Center) == b.spec_meeple_at(TileClickTarget::Center));
    assert(a.meeple_locations == b.meeple_locations);
}

/// What taking the meeples off the slots among `sides` leaves: the tile as it
/// was, with no meeple on those slots and the old one on every other.
pub proof fn lemma_cleared(tile: TileData, coord: Coordinate, sides: Set<Side>)
    ensures
        same_but_meeples(cleared_first(tile, coord, sides, 5), tile),
        forall|slot: TileClickTarget|
            cleared_first(tile, coord, sides, 5).spec_meeple_at(slot) == if sides.contains(
                (coord, slot),
            ) {
                None
            } else {
                tile.spec_meeple_at(slot)
            },
{
    reveal_with_fuel(cleared_first, 6);
    let c0 = cleared_first(tile, coord, sides, 0);
    let c1 = cleared_first(tile, coord, sides, 1);
    let c2 = cleared_first(tile, coord, sides, 2);
    let c3 = cleared_first(tile, coord, sides, 3);
    let c4 = cleared_first(tile, coord, sides, 4);
    let c5 = cleared_first(tile, coord, sides, 5);
    assert(spec_slots()[0] == TileClickTarget::Top);
    assert(spec_slots()[1] == TileClickTarget::Left);
    assert(spec_slots()[2] == TileClickTarget::Center);
    assert(spec_slots()[3] == TileClickTarget::Right);
    assert(spec_slots()[4] == TileClickTarget::Bottom);
    assert forall|slot: TileClickTarget|
        c5.spec_meeple_at(slot) == if sides.contains((coord, slot)) {
            None
        } else {
            tile.spec_meeple_at(slot)
        } by {
        lemma_with_meeple(c0, TileClickTarget::Top, None, slot);
        lemma_with_meeple(c1, TileClickTarget::Left, None, slot);
        lemma_with_meeple(c2, TileClickTarget::Center, None, slot);
        lemma_with_meeple(c3, TileClickTarget::Right, None, slot);
        lemma_with_meeple(c4, TileClickTarget::Bottom, None, slot);
    }
}

/// Setting the meeple at one slot changes that slot and no other.
pub proof fn lemma_with_meeple(
    tile: TileData,
    target: TileClickTarget,
    owner: Option<Player>,
    slot: TileClickTarget,
)
    ensures
        tile.spec_with_meeple(target, owner).spec_meeple_at(slot) == if slot == target {
            owner
        } else {
            tile.spec_meeple_at(slot)
        },
        same_but_meeples(tile.spec_with_meeple(target, owner), tile),
{
}

/// Taking the meeples off one more slot of a board is the same as taking
/// them off the others first and off that slot afterwards.
pub proof fn lemma_without_one_more(
    tiles: Map<Coordinate, TileData>,
    sides: Set<Side>,
    side: Side,
)
    ensures
        without_meeples(tiles, sides.insert(side)) == if tiles.contains_key(side.0) {
            without_meeples(tiles, sides).insert(
                side.0,
                without_meeples(tiles, sides)[side.0].spec_with_meeple(side.1, None),
            )
        } else {
            without_meeples(tiles, sides)
        },
{
    let more = sides.insert(side);
    let before = without_meeples(tiles, sides);
    let after = without_meeples(tiles, more);
    let wanted = if tiles.contains_key(side.0) {
        before.insert(side.0, before[side.0].spec_with_meeple(side.1, None))
    } else {
        before
    };
    assert forall|coord: Coordinate| after.contains_key(coord) implies after[coord]
        == wanted[coord] by {
        lemma_cleared(tiles[coord], coord, sides);
        lemma_cleared(tiles[coord], coord, more);
        let a = after[coord];
        let w = wanted[coord];
        assert forall|slot: TileClickTarget| a.spec_meeple_at(slot) == w.spec_meeple_at(slot) by {
            if coord == side.0 {
                lemma_with_meeple(before[coord], side.1, None, slot);
            }
        }
        if coord == side.0 {
            lemma_with_meeple(before[coord], side.1, None, side.1);
        }
        lemma_tile_by_slots(a, w);
    }
    assert(after =~= wanted);
}

impl ConcreteBoard {
    /// The least and the greatest row, and the least and the greatest column,
    /// that hold a tile. For an empty board the least is above the greatest.
    pub fn boundaries(&self) -> (bounds: ((i8, i8), (i8, i8)))
        ensures
            self@.dom() == Set::<Coordinate>::empty() ==> bounds == ((1i8, -1i8), (1i8, -1i8)),
            forall|coord: Coordinate| #[trigger]
                self@.contains_key(coord) ==> bounds.0.0 <= coord.0 <= bounds.0.1 && bounds.1.0
                    <= coord.1 <= bounds.1.1,
            self@.dom() != Set::<Coordinate>::empty() ==> {
                &&& exists|coord: Coordinate| #[trigger]
                    self@.contains_key(coord) && coord.0 == bounds.0.0
                &&& exists|coord: Coordinate| #[trigger]
                    self@.contains_key(coord) && coord.0 == bounds.0.1
                &&& exists|coord: Coordinate| #[trigger]
                    self@.contains_key(coord) && coord.1 == bounds.1.0
                &&& exists|coord: Coordinate| #[trigger]
                    self@.contains_key(coord) && coord.1 == bounds.1.1
            },
    {
        let coords = self.tiles_present();
        if coords.len() == 0 {
            assert(self@.dom() =~= Set::<Coordinate>::empty()) by {
                assert forall|coord: Coordinate| !self@.dom().contains(coord) by {
                    if coords@.to_set().contains(coord) {
                        let j = choose|j: int| 0 <= j < coords@.len() && coords@[j] == coord;
                    }
                }
            }
            return ((1, -1), (1, -1));
        }
        let mut min_row: i8 = coords[0].0;
        let mut min_col: i8 = coords[0].1;
        let mut max_row: i8 = min_row;
        let mut max_col: i8 = min_col;
        let mut i: usize = 1;
        assert(coords@.to_set().contains(coords@[0]));
        while i < coords.len()
            invariant
                1 <= i <= coords@.len(),
                coords@.to_set() == self@.dom(),
                forall|j: int|
                    0 <= j < i ==> min_row <= (#[trigger] coords@[j]).0 <= max_row && min_col
                        <= coords@[j].1 <= max_col,
                exists|coord: Coordinate| #[trigger]
                    self@.contains_key(coord) && coord.0 == min_row,
                exists|coord: Coordinate| #[trigger]
                    self@.contains_key(coord) && coord.0 == max_row,
                exists|coord: Coordinate| #[trigger]
                    self@.contains_key(coord) && coord.1 == min_col,
                exists|coord: Coordinate| #[trigger]
                    self@.contains_key(coord) && coord.1 == max_col,
            decreases coords.len() - i,
        {
            let (row, col) = coords[i];
            assert(coords@.to_set().contains(coords@[i as int]));
            assert(self@.contains_key((row, col)));
            if row < min_row {
                min_row = row;
            }
            if col < min_col {
                min_col = col;
            }
            if row > max_row {
                max_row = row;
            }
            if col > max_col {
                max_col = col;
            }
            i += 1;
        }
        proof {
            assert forall|coord: Coordinate| #[trigger] self@.contains_key(coord) implies min_row
                <= coord.0 <= max_row && min_col <= coord.1 <= max_col by {
                assert(coords@.to_set().contains(coord));
                let j = choose|j: int| 0 <= j < coords@.len() && coords@[j] == coord;
                assert(min_row <= coords@[j].0);
            }
        }
        ((min_row, max_row), (min_col, max_col))
    }

    /// Takes every meeple off the slots of a set and says how many of each
    /// player came off. A player of whom none came off has no entry.
    pub fn remove_meeples(&mut self, set: KeySet<Side>) -> (returned: KeyMap<Player, u32>)
        ensures
            final(self)@ == without_meeples(old(self)@, set@),
            forall|owner: Player|
                returned@.contains_key(owner) <==> meeples_among(old(self)@, set@, owner) > 0,
            forall|owner: Player|
                returned@.contains_key(owner) ==> returned@[owner] == meeples_among(
                    old(self)@,
                    set@,
                    owner,
                ),
    {
        let sides = set.to_vec();
        let mut return_meeples: KeyMap<Player, u32> = KeyMap::new();
        let ghost tiles = self@;
        let ghost mut done: Set<Side> = Set::empty();
        proof {
            sides@.unique_seq_to_set();
            crate::keys::lemma_key_set_bound::<Side>(set@);
            assert forall|coord: Coordinate| tiles.contains_key(coord) implies tiles[coord]
                == cleared_first(tiles[coord], coord, done, 5) by {
                lemma_cleared(tiles[coord], coord, done);
                lemma_tile_by_slots(tiles[coord], cleared_first(tiles[coord], coord, done, 5));
            }
            assert(self@ =~= without_meeples(tiles, done));
        }
        let mut i: usize = 0;
        while i < sides.len()
            invariant
                i <= sides@.len(),
                sides@.len() <= 327680,
                sides@.no_duplicates(),
                sides@.to_set() == set@,
                self@ == without_meeples(tiles, done),
                forall|side: Side| #[trigger] done.contains(side) <==> among_first(
                    sides@,
                    i as int,
                    side,
                ),
                forall|owner: Player| #[trigger]
                    return_meeples@.contains_key(owner) <==> owned_among(
                        tiles,
                        sides@,
                        i as int,
                        owner,
                    ) > 0,
                forall|owner: Player| #[trigger]
                    return_meeples@.contains_key(owner) ==> return_meeples@[owner] == owned_among(
                        tiles,
                        sides@,
                        i as int,
                        owner,
                    ),
                forall|owner: Player| #[trigger] owned_among(tiles, sides@, i as int, owner) <= i,
            decreases sides.len() - i,
        {
            let (coord, target) = sides[i];
            let ghost side = sides@[i as int];
            proof {
                lemma_among_first(sides@, i as int, side);
                assert(!done.contains(side));
                lemma_without_one_more(tiles, done, side);
                if tiles.contains_key(coord) {
                    lemma_cleared(tiles[coord], coord, done);
                }
            }
            let found = match self.data.get(&coord) {
                Some(tile) => Some(*tile),
                None => None,
            };
            if let Some(mut tile) = found {
                let left = tile.clear_meeple(&target);
                self.data.insert(coord, tile);
                if let Some(player) = left {
                    let count: u32 = match return_meeples.get(&player) {
                        Some(output_count) => *output_count,
                        None => 0,
                    };
                    return_meeples.insert(player, count + 1);
                }
            }
            proof {
                done = done.insert(side);
                assert forall|other: Side| #[trigger] done.contains(other) <==> among_first(
                    sides@,
                    i + 1,
                    other,
                ) by {}
                assert forall|owner: Player| #[trigger]
                    owned_among(tiles, sides@, i + 1, owner) <= i + 1 by {
                    assert(owned_among(tiles, sides@, i as int, owner) <= i);
                }
            }
            i += 1;
        }
        proof {
            assert forall|side: Side| done.contains(side) == set@.contains(side) by {
                lemma_among_first(sides@, sides@.len() as int, side);
                if sides@.contains(side) {
                    assert(sides@.to_set().contains(side));
                }
            }
            assert(done =~= set@);
            assert forall|owner: Player|
                owned_among(tiles, sides@, sides@.len() as int, owner) == meeples_among(
                    tiles,
                    set@,
                    owner,
                ) by {
                lemma_owned_among(tiles, sides@, sides@.len() as int, owner);
            }
        }
        return_meeples
    }
}

} // verus!
