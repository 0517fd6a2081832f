//! The draw source: the tiles that are still to come, and which comes next.

use crate::board::{BoardData, BoardUser};
use crate::error::{GameError, MessageResult};
use crate::legality::spec_legal_move_exists;
use crate::rng::{random_below, random_seed, seeded_rng};
use crate::tile::{MiniTile, TileData, TileDataBuilder};
use rand::rngs::StdRng;
use vstd::prelude::*;

verus! {

/// Which tile of a bag is drawn next.
#[derive(Clone, Copy, Debug, PartialEq, Eq, Structural)]
pub enum NextTileType {
    BagTile(usize),
    Empty,
}

/// What a bag holds: its tiles and which of them is drawn next.
pub struct BagView {
    pub data: Seq<TileData>,
    pub next: NextTileType,
}

impl BagView {
    /// The next tile is one of the bag, and there is a next tile unless the bag is empty.
    pub open spec fn wf(self) -> bool {
        match self.next {
            NextTileType::BagTile(idx) => idx < self.data.len(),
            NextTileType::Empty => self.data.len() == 0,
        }
    }

    /// The tile that is drawn next.
    pub open spec fn top(self) -> Option<TileData> {
        match self.next {
            NextTileType::BagTile(idx) => Some(self.data[idx as int]),
            NextTileType::Empty => None,
        }
    }

    /// The tiles that are left once the next tile is drawn: the last tile
    /// takes the place of the drawn one.
    pub open spec fn rest(self) -> Seq<TileData> {
        match self.next {
            NextTileType::BagTile(idx) => self.data.update(
                idx as int,
                self.data.last(),
            ).drop_last(),
            NextTileType::Empty => self.data,
        }
    }
}

/// Whether `bag` may be what is left of `before` after one draw: the rest of
/// the tiles, with any of them next, or the last of them where the bag draws
/// in order.
pub open spec fn is_after_pull(before: BagView, bag: BagView, in_order: bool) -> bool {
    &&& bag.data == before.rest()
    &&& bag.wf()
    &&& in_order ==> bag.next == last_of(bag.data)
}

/// The last tile of a list as the next to draw, or none for an empty list.
pub open spec fn last_of(data: Seq<TileData>) -> NextTileType {
    if data.len() == 0 {
        NextTileType::Empty
    } else {
        NextTileType::BagTile((data.len() - 1) as usize)
    }
}

/// Whether every tile of a list is one of another list.
pub open spec fn all_from(data: Seq<TileData>, source: Seq<TileData>) -> bool {
    forall|i: int| 0 <= i < data.len() ==> source.contains(#[trigger] data[i])
}

/// What is left of a list of tiles once the first that shows the same edges
/// as `wanted` is taken out, the last tile taking its place.
pub open spec fn without_match(data: Seq<TileData>, wanted: TileData, from: int) -> Seq<TileData>
    decreases data.len() - from,
{
    if from < 0 || from >= data.len() {
        data
    } else if data[from].spec_matches_minis(wanted) {
        data.update(from, data.last()).drop_last()
    } else {
        without_match(data, wanted, from + 1)
    }
}

/// What is left once a match for each of the first `n` tiles of `rig` is taken out in turn.
pub open spec fn without_matches(data: Seq<TileData>, rig: Seq<TileData>, n: int) -> Seq<TileData>
    decreases n,
{
    if n <= 0 || n > rig.len() {
        data
    } else {
        without_match(without_matches(data, rig, n - 1), rig[n - 1], 0)
    }
}

/// A bag after it is rigged: a match for each tile of `rig` is taken out, and
/// the last tile of `rig` is put in and drawn next. An empty `rig` changes nothing.
pub open spec fn spec_rig(bag: BagView, rig: Seq<TileData>) -> BagView {
    if rig.len() == 0 {
        bag
    } else {
        let data = without_matches(bag.data, rig, rig.len() as int).push(rig.last());
        BagView { data, next: NextTileType::BagTile((data.len() - 1) as usize) }
    }
}

/// The draw source that a match needs.
pub trait TileBag: View<V = BagView> + Sized {
    /// Whether the bag keeps what it promises about itself.
    spec fn wf(&self) -> bool;

    /// Whether the bag always draws its last tile.
    spec fn draws_in_order(&self) -> bool;

    proof fn lemma_wf(&self)
        requires
            self.wf(),
        ensures
            self@.wf(),
    ;

    /// The tile that is drawn next, without drawing it.
    fn peek(&self) -> (tile: MessageResult<&TileData>)
        requires
            self.wf(),
        ensures
            match tile {
                Ok(tile) => self@.top() == Some(*tile),
                Err(error) => self@.top() is None && error == GameError::EmptyBag,
            },
    ;

    /// Draws the next tile and settles which comes after it.
    fn pull(&mut self) -> (tile: Option<TileData>)
        requires
            old(self).wf(),
        ensures
            final(self).wf(),
            tile == old(self)@.top(),
            is_after_pull(old(self)@, final(self)@, old(self).draws_in_order()),
            final(self).draws_in_order() == old(self).draws_in_order(),
    ;

    /// How many tiles are left.
    fn count_remaining(&self) -> (count: usize)
        ensures
            count == self@.data.len(),
    ;

    /// The tiles that are left.
    fn get_data(&self) -> (data: &Vec<TileData>)
        ensures
            data@ == self@.data,
    ;

    fn get_next_idx(&self) -> (next: &NextTileType)
        ensures
            *next == self@.next,
    ;

    /// Takes the tiles of `rig` out of the bag, as far as it holds a match for
    /// them, and makes the last of them the next to draw.
    fn rig(&mut self, rig: Vec<TileData>)
        requires
            old(self).wf(),
        ensures
            final(self).wf(),
            final(self)@ == spec_rig(old(self)@, rig@),
            final(self).draws_in_order() == old(self).draws_in_order(),
    ;
}

/// The tiles of a bag and the next tile, without the way the next is chosen.
pub struct BagCore {
    pub data: Vec<TileData>,
    pub next_idx: NextTileType,
}

impl View for BagCore {
    type V = BagView;

    open spec fn view(&self) -> BagView {
        BagView { data: self.data@, next: self.next_idx }
    }
}

impl BagCore {
    pub fn peek(&self) -> (tile: MessageResult<&TileData>)
        requires
            self@.wf(),
        ensures
            match tile {
                Ok(tile) => self@.top() == Some(*tile),
                Err(error) => self@.top() is None && error == GameError::EmptyBag,
            },
    {
        match self.next_idx {
            NextTileType::BagTile(idx) => Ok(&self.data[idx]),
            NextTileType::Empty => Err(GameError::EmptyBag),
        }
    }

    /// Draws the next tile; which tile comes after it is left open.
    pub fn take(&mut self) -> (tile: Option<TileData>)
        requires
            old(self)@.wf(),
        ensures
            tile == old(self)@.top(),
            final(self).data@ == old(self)@.rest(),
    {
        match self.next_idx {
            NextTileType::BagTile(idx) => Some(self.data.swap_remove(idx)),
            NextTileType::Empty => None,
        }
    }

    /// Makes the last tile the next to draw.
    pub fn pick_last(&mut self)
        ensures
            final(self).data@ == old(self).data@,
            final(self).next_idx == last_of(old(self).data@),
            final(self)@.wf(),
    {
        if self.data.len() == 0 {
            self.next_idx = NextTileType::Empty;
        } else {
            self.next_idx = NextTileType::BagTile(self.data.len() - 1);
        }
    }

    /// Takes out the first tile that shows the same edges as `wanted`, if there is one.
    pub fn remove_match(&mut self, wanted: &TileData)
        ensures
            final(self).data@ == without_match(old(self).data@, *wanted, 0),
            final(self).next_idx == old(self).next_idx,
    {
        let mut i: usize = 0;
        while i < self.data.len()
            invariant
                self.data@ == old(self).data@,
                self.next_idx == old(self).next_idx,
                i <= self.data@.len(),
                without_match(old(self).data@, *wanted, 0) == without_match(
                    old(self).data@,
                    *wanted,
                    i as int,
                ),
            decreases self.data.len() - i,
        {
            if self.data[i].matches_minis(wanted) {
                self.data.swap_remove(i);
                return ;
            }
            i += 1;
        }
    }

    /// Rigs the bag: see `spec_rig`.
    pub fn rig(&mut self, rig: &Vec<TileData>)
        ensures
            final(self)@ == spec_rig(old(self)@, rig@),
            old(self)@.wf() ==> final(self)@.wf(),
    {
        let mut i: usize = 0;
        while i < rig.len()
            invariant
                i <= rig@.len(),
                self.next_idx == old(self).next_idx,
                self.data@ == without_matches(old(self).data@, rig@, i as int),
            decreases rig.len() - i,
        {
            self.remove_match(&rig[i]);
            i += 1;
        }
        if rig.len() > 0 {
            self.data.push(rig[rig.len() - 1]);
            self.next_idx = NextTileType::BagTile(self.data.len() - 1);
        }
    }
}

/// Taking a tile out of a list leaves only tiles of the list, and fewer of them.
pub proof fn lemma_rest_is_from(bag: BagView)
    requires
        bag.wf(),
    ensures
        all_from(bag.rest(), bag.data),
        bag.top() is Some ==> bag.rest().len() + 1 == bag.data.len(),
{
    assert forall|i: int| 0 <= i < bag.rest().len() implies bag.data.contains(
        #[trigger] bag.rest()[i],
    ) by {
        match bag.next {
            NextTileType::BagTile(idx) => {
                if i == idx {
                    assert(bag.data[bag.data.len() - 1] == bag.rest()[i]);
                } else {
                    assert(bag.data[i] == bag.rest()[i]);
                }
            },
            NextTileType::Empty => {},
        }
    }
}

/// Whether none of the tiles of a list can go anywhere on a board.
pub open spec fn none_fits(data: Seq<TileData>, tiles: Map<crate::keys::Coordinate, TileData>) -> bool {
    forall|i: int| 0 <= i < data.len() ==> !spec_legal_move_exists(tiles, #[trigger] data[i])
}

/// A draw takes the next tile only: every other tile of the bag is still
/// there afterwards.
pub proof fn lemma_rest_keeps_others(bag: BagView, kept: int)
    requires
        bag.wf(),
        bag.top() is Some,
        0 <= kept < bag.data.len(),
        bag.data[kept] != bag.top().unwrap(),
    ensures
        bag.rest().contains(bag.data[kept]),
{
    match bag.next {
        NextTileType::BagTile(idx) => {
            if kept == bag.data.len() - 1 {
                assert(bag.rest()[idx as int] == bag.data[kept]);
            } else {
                assert(bag.rest()[kept] == bag.data[kept]);
            }
        },
        NextTileType::Empty => {},
    }
}

/// A bag that draws in order after the tiles that can go nowhere on a board
/// have been thrown away from its top.
pub open spec fn spec_discarded(bag: BagView, tiles: Map<crate::keys::Coordinate, TileData>) -> BagView
    decreases bag.data.len(),
{
    if !bag.wf() || bag.top() is None || spec_legal_move_exists(tiles, bag.top().unwrap()) {
        bag
    } else {
        spec_discarded(BagView { data: bag.rest(), next: last_of(bag.rest()) }, tiles)
    }
}

/// Throwing tiles away leaves a bag in order, with no more tiles than before.
pub proof fn lemma_discarded_is_less(bag: BagView, tiles: Map<crate::keys::Coordinate, TileData>)
    requires
        bag.wf(),
    ensures
        spec_discarded(bag, tiles).wf(),
        spec_discarded(bag, tiles).data.len() <= bag.data.len(),
    decreases bag.data.len(),
{
    if !(bag.top() is None || spec_legal_move_exists(tiles, bag.top().unwrap())) {
        lemma_rest_is_from(bag);
        lemma_discarded_is_less(BagView { data: bag.rest(), next: last_of(bag.rest()) }, tiles);
    }
}

/// Draws and throws away tiles until the next one can be placed on the board
/// or none is left, and says which of the two it is.
pub fn discard_until_legal<'a, T: TileBag, B: BoardData>(
    bag: &mut T,
    board_user: &BoardUser<'a, B>,
) -> (legal: bool)
    requires
        old(bag).wf(),
    ensures
        final(bag).wf(),
        final(bag).draws_in_order() == old(bag).draws_in_order(),
        legal <==> final(bag)@.top() is Some,
        legal ==> spec_legal_move_exists(board_user.board@, final(bag)@.top().unwrap()),
        legal <==> !none_fits(old(bag)@.data, board_user.board@),
        all_from(final(bag)@.data, old(bag)@.data),
        final(bag)@.data.len() <= old(bag)@.data.len(),
        old(bag)@.top() is Some && spec_legal_move_exists(
            board_user.board@,
            old(bag)@.top().unwrap(),
        ) ==> final(bag)@ == old(bag)@,
        old(bag).draws_in_order() ==> final(bag)@ == spec_discarded(old(bag)@, board_user.board@),
{
    let ghost start = bag@;
    proof {
        assert forall|i: int| 0 <= i < start.data.len() implies start.data.contains(
            #[trigger] start.data[i],
        ) by {}
    }
    loop
        invariant
            bag.wf(),
            bag.draws_in_order() == old(bag).draws_in_order(),
            all_from(bag@.data, start.data),
            bag@.data.len() <= start.data.len(),
            start == old(bag)@,
            bag@ != start ==> !(start.top() is Some && spec_legal_move_exists(
                board_user.board@,
                start.top().unwrap(),
            )),
            bag.draws_in_order() ==> spec_discarded(bag@, board_user.board@) == spec_discarded(
                start,
                board_user.board@,
            ),
            forall|j: int|
                0 <= j < start.data.len() && spec_legal_move_exists(
                    board_user.board@,
                    #[trigger] start.data[j],
                ) ==> bag@.data.contains(start.data[j]),
        decreases bag@.data.len(),
    {
        let ghost before = bag@;
        proof {
            bag.lemma_wf();
        }
        match bag.peek() {
            Ok(tile) => {
                if board_user.does_legal_move_exist(tile) {
                    proof {
                        let idx = before.next->BagTile_0 as int;
                        assert(start.data.contains(before.data[idx]));
                    }
                    return true;
                }
            },
            Err(_) => {
                proof {
                    assert forall|j: int| 0 <= j < start.data.len() implies !spec_legal_move_exists(
                        board_user.board@,
                        #[trigger] start.data[j],
                    ) by {
                        if spec_legal_move_exists(board_user.board@, start.data[j]) {
                            assert(before.data.contains(start.data[j]));
                        }
                    }
                }
                return false;
            },
        }
        bag.pull();
        proof {
            lemma_rest_is_from(before);
            assert forall|j: int|
                0 <= j < start.data.len() && spec_legal_move_exists(
                    board_user.board@,
                    #[trigger] start.data[j],
                ) implies bag@.data.contains(start.data[j]) by {
                assert(before.data.contains(start.data[j]));
                let k = choose|k: int| 0 <= k < before.data.len() && before.data[k]
                    == start.data[j];
                lemma_rest_keeps_others(before, k);
            }
            assert forall|i: int| 0 <= i < bag@.data.len() implies start.data.contains(
                #[trigger] bag@.data[i],
            ) by {
                assert(before.data.contains(bag@.data[i]));
                let j = choose|j: int| 0 <= j < before.data.len() && before.data[j]
                    == bag@.data[i];
                assert(start.data.contains(before.data[j]));
            }
        }
    }
}

/// The bag of a match: every draw takes a tile by chance.
pub struct LegalTileBag {
    core: BagCore,
    rng: StdRng,
}

impl View for LegalTileBag {
    type V = BagView;

    closed spec fn view(&self) -> BagView {
        self.core@
    }
}

/// A bag that hands out its tiles in the order in which they were given.
pub struct ReplayTileBag {
    core: BagCore,
}

impl View for ReplayTileBag {
    type V = BagView;

    closed spec fn view(&self) -> BagView {
        self.core@
    }
}

impl ReplayTileBag {
    /// The bag that draws the tiles of `data` from the first to the last.
    pub fn new(data: Vec<TileData>) -> (bag: Self)
        ensures
            bag.wf(),
            bag@.data == data@.reverse(),
            bag@.next == last_of(data@),
            bag.draws_in_order(),
    {
        let mut reversed: Vec<TileData> = Vec::new();
        let mut i: usize = data.len();
        while i > 0
            invariant
                i <= data@.len(),
                reversed@.len() == data@.len() - i,
                forall|j: int|
                    0 <= j < reversed@.len() ==> reversed@[j] == data@[data@.len() - 1 - j],
            decreases i,
        {
            i -= 1;
            reversed.push(data[i]);
        }
        assert(reversed@ =~= data@.reverse());
        let mut core = BagCore { data: reversed, next_idx: NextTileType::Empty };
        core.pick_last();
        ReplayTileBag { core }
    }
}

impl ReplayTileBag {
    /// Draws and throws away tiles until the next one can be placed on the
    /// board or none is left, and says which of the two it is.
    pub fn ensure_legal_draw<'a, B: BoardData>(&mut self, board_user: &BoardUser<'a, B>) -> (legal:
        bool)
        requires
            old(self).wf(),
        ensures
            final(self).wf(),
            final(self).draws_in_order() == old(self).draws_in_order(),
            legal <==> final(self)@.top() is Some,
            legal ==> spec_legal_move_exists(board_user.board@, final(self)@.top().unwrap()),
            legal <==> !none_fits(old(self)@.data, board_user.board@),
            all_from(final(self)@.data, old(self)@.data),
            final(self)@.data.len() <= old(self)@.data.len(),
            old(self)@.top() is Some && spec_legal_move_exists(
                board_user.board@,
                old(self)@.top().unwrap(),
            ) ==> final(self)@ == old(self)@,
            old(self).draws_in_order() ==> final(self)@ == spec_discarded(
                old(self)@,
                board_user.board@,
            ),
    {
        discard_until_legal(self, board_user)
    }

    /// A bag of its own with the same tiles and the same next tile, which
    /// draws by chance from then on.
    pub fn as_new_tile_bag(&self) -> (bag: LegalTileBag)
        ensures
            bag.wf() == self.wf(),
            bag@ == self@,
    {
        LegalTileBag::from_data(self.core.data.clone(), self.core.next_idx)
    }
}

impl TileBag for ReplayTileBag {
    closed spec fn wf(&self) -> bool {
        self.core@.wf()
    }

    open spec fn draws_in_order(&self) -> bool {
        true
    }

    proof fn lemma_wf(&self) {
    }

    fn peek(&self) -> (tile: MessageResult<&TileData>) {
        self.core.peek()
    }

    fn pull(&mut self) -> (tile: Option<TileData>) {
        let tile = self.core.take();
        self.core.pick_last();
        tile
    }

    fn count_remaining(&self) -> (count: usize) {
        self.core.data.len()
    }

    fn get_data(&self) -> (data: &Vec<TileData>) {
        &self.core.data
    }

    fn get_next_idx(&self) -> (next: &NextTileType) {
        &self.core.next_idx
    }

    fn rig(&mut self, rig: Vec<TileData>) {
        self.core.rig(&rig);
    }

}

impl LegalTileBag {
    /// A bag with the given tiles and next tile.
    pub fn from_data(data: Vec<TileData>, next: NextTileType) -> (bag: Self)
        ensures
            bag.wf() == (BagView { data: data@, next }).wf(),
            bag@ == (BagView { data: data@, next }),
            !bag.draws_in_order(),
    {
        LegalTileBag { core: BagCore { data, next_idx: next }, rng: seeded_rng(random_seed()) }
    }

    /// Chooses by chance which tile is drawn next.
    fn pick_next_idx(&mut self)
        ensures
            final(self).core.data@ == old(self).core.data@,
            final(self).core@.wf(),
    {
        if self.core.data.len() == 0 {
            self.core.next_idx = NextTileType::Empty;
        } else {
            let idx = random_below(&mut self.rng, self.core.data.len());
            self.core.next_idx = NextTileType::BagTile(idx);
        }
    }
}

impl LegalTileBag {
    /// Draws and throws away tiles until the next one can be placed on the
    /// board or none is left, and says which of the two it is.
    pub fn ensure_legal_draw<'a, B: BoardData>(&mut self, board_user: &BoardUser<'a, B>) -> (legal:
        bool)
        requires
            old(self).wf(),
        ensures
            final(self).wf(),
            final(self).draws_in_order() == old(self).draws_in_order(),
            legal <==> final(self)@.top() is Some,
            legal ==> spec_legal_move_exists(board_user.board@, final(self)@.top().unwrap()),
            legal <==> !none_fits(old(self)@.data, board_user.board@),
            all_from(final(self)@.data, old(self)@.data),
            final(self)@.data.len() <= old(self)@.data.len(),
            old(self)@.top() is Some && spec_legal_move_exists(
                board_user.board@,
                old(self)@.top().unwrap(),
            ) ==> final(self)@ == old(self)@,
            old(self).draws_in_order() ==> final(self)@ == spec_discarded(
                old(self)@,
                board_user.board@,
            ),
    {
        discard_until_legal(self, board_user)
    }

    /// A bag of its own with the same tiles and the same next tile.
    pub fn as_new_tile_bag(&self) -> (bag: LegalTileBag)
        ensures
            bag.wf() == self.wf(),
            bag@ == self@,
    {
        LegalTileBag::from_data(self.core.data.clone(), self.core.next_idx)
    }
}

impl TileBag for LegalTileBag {
    closed spec fn wf(&self) -> bool {
        self.core@.wf()
    }

    open spec fn draws_in_order(&self) -> bool {
        false
    }

    proof fn lemma_wf(&self) {
    }

    fn peek(&self) -> (tile: MessageResult<&TileData>) {
        self.core.peek()
    }

    fn pull(&mut self) -> (tile: Option<TileData>) {
        let tile = self.core.take();
        self.pick_next_idx();
        tile
    }

    fn count_remaining(&self) -> (count: usize) {
        self.core.data.len()
    }

    fn get_data(&self) -> (data: &Vec<TileData>) {
        &self.core.data
    }

    fn get_next_idx(&self) -> (next: &NextTileType) {
        &self.core.next_idx
    }

    fn rig(&mut self, rig: Vec<TileData>) {
        self.core.rig(&rig);
    }

}

/// A kind of tile: whether it carries an emblem; what its top, its left and
/// its centre show; whether a city is its second centre; what its right and
/// its bottom show; and how many tiles of the kind the game has.
pub type TileKind = (bool, MiniTile, MiniTile, MiniTile, bool, MiniTile, MiniTile, usize);

/// The tiles of the game, kind by kind. The last entry is the tile that a
/// match starts with.
pub const STANDARD_TILES: [TileKind; 25] = [
    (false, MiniTile::Grass, MiniTile::Grass, MiniTile::Monastery, false, MiniTile::Grass, MiniTile::Grass, 4),
    (false, MiniTile::City, MiniTile::Grass, MiniTile::Grass, false, MiniTile::Grass, MiniTile::Grass, 5),
    (false, MiniTile::City, MiniTile::Grass, MiniTile::Grass, false, MiniTile::Grass, MiniTile::City, 3),
    (false, MiniTile::City, MiniTile::Grass, MiniTile::Grass, false, MiniTile::City, MiniTile::Grass, 2),
    (false, MiniTile::Grass, MiniTile::City, MiniTile::City, false, MiniTile::City, MiniTile::Grass, 1),
    (true, MiniTile::Grass, MiniTile::City, MiniTile::City, false, MiniTile::City, MiniTile::Grass, 2),
    (false, MiniTile::City, MiniTile::Grass, MiniTile::City, false, MiniTile::City, MiniTile::Grass, 3),
    (true, MiniTile::City, MiniTile::Grass, MiniTile::City, false, MiniTile::City, MiniTile::Grass, 2),
    (false, MiniTile::City, MiniTile::City, MiniTile::City, false, MiniTile::City, MiniTile::Grass, 3),
    (true, MiniTile::City, MiniTile::City, MiniTile::City, false, MiniTile::City, MiniTile::Grass, 1),
    (true, MiniTile::City, MiniTile::City, MiniTile::City, false, MiniTile::City, MiniTile::City, 1),
    (false, MiniTile::Grass, MiniTile::Grass, MiniTile::Monastery, false, MiniTile::Grass, MiniTile::Road, 2),
    (false, MiniTile::City, MiniTile::Grass, MiniTile::City, false, MiniTile::City, MiniTile::Road, 1),
    (true, MiniTile::City, MiniTile::Grass, MiniTile::City, false, MiniTile::City, MiniTile::Road, 2),
    (false, MiniTile::Grass, MiniTile::Road, MiniTile::Road, false, MiniTile::Road, MiniTile::Grass, 8),
    (false, MiniTile::Grass, MiniTile::Road, MiniTile::Road, false, MiniTile::Grass, MiniTile::Road, 9),
    (false, MiniTile::City, MiniTile::Road, MiniTile::Road, false, MiniTile::Road, MiniTile::Grass, 3),
    (false, MiniTile::City, MiniTile::Road, MiniTile::Road, false, MiniTile::Grass, MiniTile::Road, 3),
    (false, MiniTile::City, MiniTile::Grass, MiniTile::Road, false, MiniTile::Road, MiniTile::Road, 3),
    (false, MiniTile::City, MiniTile::Road, MiniTile::Road, true, MiniTile::City, MiniTile::Road, 3),
    (true, MiniTile::City, MiniTile::Road, MiniTile::Road, true, MiniTile::City, MiniTile::Road, 2),
    (false, MiniTile::Grass, MiniTile::Road, MiniTile::Junction, false, MiniTile::Road, MiniTile::Road, 4),
    (false, MiniTile::City, MiniTile::Road, MiniTile::Junction, false, MiniTile::Road, MiniTile::Road, 3),
    (false, MiniTile::Road, MiniTile::Road, MiniTile::Junction, false, MiniTile::Road, MiniTile::Road, 1),
    (false, MiniTile::City, MiniTile::Road, MiniTile::Road, false, MiniTile::Road, MiniTile::Grass, 1),
];

/// The description of the tiles of a kind.
pub open spec fn spec_builder_of(kind: TileKind) -> TileDataBuilder {
    TileDataBuilder {
        has_emblem: kind.0,
        top: kind.1,
        left: kind.2,
        center: kind.3,
        secondary_center: if kind.4 {
            Some(MiniTile::City)
        } else {
            None
        },
        right: kind.5,
        bottom: kind.6,
    }
}

pub fn builder_of(kind: &TileKind) -> (builder: TileDataBuilder)
    ensures
        builder == spec_builder_of(*kind),
{
    TileDataBuilder {
        has_emblem: kind.0,
        top: kind.1,
        left: kind.2,
        center: kind.3,
        secondary_center: if kind.4 {
            Some(MiniTile::City)
        } else {
            None
        },
        right: kind.5,
        bottom: kind.6,
    }
}

/// How many tiles the game has.
pub const STANDARD_TILE_COUNT: usize = 72;

/// The tiles that a list of kinds stands for, up to but without the kind at
/// `kind`, and `copies` tiles of that kind.
pub open spec fn tiles_of(kinds: Seq<TileKind>, kind: int, copies: int) -> Seq<
    TileData,
>
    decreases kind, copies,
{
    if kind < 0 || kind > kinds.len() || copies < 0 {
        Seq::empty()
    } else if copies > 0 {
        if kind < kinds.len() {
            tiles_of(kinds, kind, copies - 1).push(
                TileData::spec_from_builder(spec_builder_of(kinds[kind])),
            )
        } else {
            Seq::empty()
        }
    } else if kind == 0 {
        Seq::empty()
    } else {
        tiles_of(kinds, kind - 1, kinds[kind - 1].7 as int)
    }
}

/// All the tiles of the game, kind by kind.
pub open spec fn spec_standard_tiles() -> Seq<TileData> {
    tiles_of(STANDARD_TILES@, 25, 0)
}

/// The bag that a match starts with: all the tiles of the game, the
/// starting tile drawn first.
pub open spec fn spec_standard_bag() -> BagView {
    BagView {
        data: spec_standard_tiles(),
        next: NextTileType::BagTile((STANDARD_TILE_COUNT - 1) as usize),
    }
}

impl Default for LegalTileBag {
    /// The bag with all the tiles of the game; the starting tile is drawn first.
    fn default() -> (bag: LegalTileBag)
        ensures
            bag.wf(),
            bag@ == spec_standard_bag(),
            bag@.data.len() == STANDARD_TILE_COUNT,
    {
        let kinds = STANDARD_TILES;
        let mut data: Vec<TileData> = Vec::new();
        let mut total: usize = 0;
        for kind in 0..25
            invariant
                kinds@ == STANDARD_TILES@,
                data@ == tiles_of(kinds@, kind as int, 0),
                data@.len() == total,
                total == count_before(kind as int),
        {
            let copies: usize = kinds[kind].7;
            proof {
                lemma_tile_counts(kind as int);
                lemma_tile_counts(kind + 1);
            }
            let tile: TileData = TileData::from(builder_of(&kinds[kind]));
            let mut made: usize = 0;
            while made < copies
                invariant
                    kinds@ == STANDARD_TILES@,
                    kind < 25,
                    copies == kinds@[kind as int].7,
                    tile == TileData::spec_from_builder(spec_builder_of(kinds@[kind as int])),
                    made <= copies,
                    data@ == tiles_of(kinds@, kind as int, made as int),
                    data@.len() == total + made,
                    total + copies <= 72,
                decreases copies - made,
            {
                data.push(tile);
                made += 1;
            }
            total += copies;
        }
        proof {
            lemma_tile_counts(25);
        }
        let idx = data.len() - 1;
        LegalTileBag::from_data(data, NextTileType::BagTile(idx))
    }
}

/// How many tiles the kinds before `kind` have together.
pub open spec fn count_before(kind: int) -> int
    decreases kind,
{
    if kind <= 0 || kind > 25 {
        0
    } else {
        count_before(kind - 1) + STANDARD_TILES@[kind - 1].7
    }
}

/// The kinds have seventy-two tiles together.
pub proof fn lemma_tile_total()
    ensures
        count_before(25) == 72,
{
    assert(count_before(0) == 0);
    assert(STANDARD_TILES@[0].7 == 4);
    assert(count_before(1) == 4);
    assert(STANDARD_TILES@[1].7 == 5);
    assert(count_before(2) == 9);
    assert(STANDARD_TILES@[2].7 == 3);
    assert(count_before(3) == 12);
    assert(STANDARD_TILES@[3].7 == 2);
    assert(count_before(4) == 14);
    assert(STANDARD_TILES@[4].7 == 1);
    assert(count_before(5) == 15);
    assert(STANDARD_TILES@[5].7 == 2);
    assert(count_before(6) == 17);
    assert(STANDARD_TILES@[6].7 == 3);
    assert(count_before(7) == 20);
    assert(STANDARD_TILES@[7].7 == 2);
    assert(count_before(8) == 22);
    assert(STANDARD_TILES@[8].7 == 3);
    assert(count_before(9) == 25);
    assert(STANDARD_TILES@[9].7 == 1);
    assert(count_before(10) == 26);
    assert(STANDARD_TILES@[10].7 == 1);
    assert(count_before(11) == 27);
    assert(STANDARD_TILES@[11].7 == 2);
    assert(count_before(12) == 29);
    assert(STANDARD_TILES@[12].7 == 1);
    assert(count_before(13) == 30);
    assert(STANDARD_TILES@[13].7 == 2);
    assert(count_before(14) == 32);
    assert(STANDARD_TILES@[14].7 == 8);
    assert(count_before(15) == 40);
    assert(STANDARD_TILES@[15].7 == 9);
    assert(count_before(16) == 49);
    assert(STANDARD_TILES@[16].7 == 3);
    assert(count_before(17) == 52);
    assert(STANDARD_TILES@[17].7 == 3);
    assert(count_before(18) == 55);
    assert(STANDARD_TILES@[18].7 == 3);
    assert(count_before(19) == 58);
    assert(STANDARD_TILES@[19].7 == 3);
    assert(count_before(20) == 61);
    assert(STANDARD_TILES@[20].7 == 2);
    assert(count_before(21) == 63);
    assert(STANDARD_TILES@[21].7 == 4);
    assert(count_before(22) == 67);
    assert(STANDARD_TILES@[22].7 == 3);
    assert(count_before(23) == 70);
    assert(STANDARD_TILES@[23].7 == 1);
    assert(count_before(24) == 71);
    assert(STANDARD_TILES@[24].7 == 1);
    assert(count_before(25) == 72);
}

/// The kinds up to any kind have no more than seventy-two tiles together.
pub proof fn lemma_tile_counts(kind: int)
    requires
        0 <= kind <= 25,
    ensures
        0 <= count_before(kind) <= count_before(25) == 72,
    decreases 25 - kind,
{
    lemma_tile_total();
    if kind < 25 {
        lemma_tile_counts(kind + 1);
        assert(count_before(kind + 1) == count_before(kind) + STANDARD_TILES@[kind].7);
    }
    if kind > 0 {
        lemma_count_not_negative(kind);
    }
}

/// No count is negative.
pub proof fn lemma_count_not_negative(kind: int)
    ensures
        0 <= count_before(kind),
    decreases kind,
{
    if 0 < kind <= 25 {
        lemma_count_not_negative(kind - 1);
    }
}

/// A bag of either kind.
pub enum TileBagEnum {
    LegalTileBag(LegalTileBag),
    ReplayTileBag(ReplayTileBag),
}

impl View for TileBagEnum {
    type V = BagView;

    open spec fn view(&self) -> BagView {
        match self {
            TileBagEnum::LegalTileBag(bag) => bag@,
            TileBagEnum::ReplayTileBag(bag) => bag@,
        }
    }
}

impl TileBag for TileBagEnum {
    open spec fn wf(&self) -> bool {
        match self {
            TileBagEnum::LegalTileBag(bag) => bag.wf(),
            TileBagEnum::ReplayTileBag(bag) => bag.wf(),
        }
    }

    open spec fn draws_in_order(&self) -> bool {
        match self {
            TileBagEnum::LegalTileBag(bag) => bag.draws_in_order(),
            TileBagEnum::ReplayTileBag(bag) => bag.draws_in_order(),
        }
    }

    proof fn lemma_wf(&self) {
        match self {
            TileBagEnum::LegalTileBag(bag) => bag.lemma_wf(),
            TileBagEnum::ReplayTileBag(bag) => bag.lemma_wf(),
        }
    }

    fn peek(&self) -> (tile: MessageResult<&TileData>) {
        match self {
            TileBagEnum::LegalTileBag(bag) => bag.peek(),
            TileBagEnum::ReplayTileBag(bag) => bag.peek(),
        }
    }

    fn pull(&mut self) -> (tile: Option<TileData>) {
        match self {
            TileBagEnum::LegalTileBag(bag) => bag.pull(),
            TileBagEnum::ReplayTileBag(bag) => bag.pull(),
        }
    }

    fn count_remaining(&self) -> (count: usize) {
        match self {
            TileBagEnum::LegalTileBag(bag) => bag.count_remaining(),
            TileBagEnum::ReplayTileBag(bag) => bag.count_remaining(),
        }
    }

    fn get_data(&self) -> (data: &Vec<TileData>) {
        match self {
            TileBagEnum::LegalTileBag(bag) => bag.get_data(),
            TileBagEnum::ReplayTileBag(bag) => bag.get_data(),
        }
    }

    fn get_next_idx(&self) -> (next: &NextTileType) {
        match self {
            TileBagEnum::LegalTileBag(bag) => bag.get_next_idx(),
            TileBagEnum::ReplayTileBag(bag) => bag.get_next_idx(),
        }
    }

    fn rig(&mut self, rig: Vec<TileData>) {
        match self {
            TileBagEnum::LegalTileBag(bag) => bag.rig(rig),
            TileBagEnum::ReplayTileBag(bag) => bag.rig(rig),
        }
    }
}

impl TileBagEnum {
    /// Draws and throws away tiles until the next one can be placed on the
    /// board or none is left, and says which of the two it is.
    pub fn ensure_legal_draw<'a, B: BoardData>(&mut self, board_user: &BoardUser<'a, B>) -> (legal:
        bool)
        requires
            old(self).wf(),
        ensures
            final(self).wf(),
            final(self).draws_in_order() == old(self).draws_in_order(),
            legal <==> final(self)@.top() is Some,
            legal ==> spec_legal_move_exists(board_user.board@, final(self)@.top().unwrap()),
            legal <==> !none_fits(old(self)@.data, board_user.board@),
            all_from(final(self)@.data, old(self)@.data),
            final(self)@.data.len() <= old(self)@.data.len(),
            old(self)@.top() is Some && spec_legal_move_exists(
                board_user.board@,
                old(self)@.top().unwrap(),
            ) ==> final(self)@ == old(self)@,
            old(self).draws_in_order() ==> final(self)@ == spec_discarded(
                old(self)@,
                board_user.board@,
            ),
    {
        discard_until_legal(self, board_user)
    }

    /// A bag of its own with the same tiles and the same next tile, which
    /// draws by chance from then on.
    pub fn as_new_tile_bag(&self) -> (bag: LegalTileBag)
        ensures
            bag.wf() == self.wf(),
            bag@ == self@,
    {
        match self {
            TileBagEnum::LegalTileBag(bag) => bag.as_new_tile_bag(),
            TileBagEnum::ReplayTileBag(bag) => bag.as_new_tile_bag(),
        }
    }
}

impl From<LegalTileBag> for TileBagEnum {
    fn from(bag: LegalTileBag) -> (either: TileBagEnum) {
        TileBagEnum::LegalTileBag(bag)
    }
}

impl vstd::std_specs::convert::FromSpecImpl<LegalTileBag> for TileBagEnum {
    open spec fn obeys_from_spec() -> bool {
        true
    }

    open spec fn from_spec(bag: LegalTileBag) -> TileBagEnum {
        TileBagEnum::LegalTileBag(bag)
    }
}

impl From<ReplayTileBag> for TileBagEnum {
    fn from(bag: ReplayTileBag) -> (either: TileBagEnum) {
        TileBagEnum::ReplayTileBag(bag)
    }
}

impl vstd::std_specs::convert::FromSpecImpl<ReplayTileBag> for TileBagEnum {
    open spec fn obeys_from_spec() -> bool {
        true
    }

    open spec fn from_spec(bag: ReplayTileBag) -> TileBagEnum {
        TileBagEnum::ReplayTileBag(bag)
    }
}

} // verus!
