use crate::error::{GameError, MessageResult};
use crate::player::Player;
use vstd::prelude::*;

verus! {

/// What one slot of a tile shows.
#[derive(Clone, Copy, Debug, PartialEq, Eq, Hash, Structural)]
pub enum MiniTile {
    Grass,
    Road,
    City,
    Monastery,
    Junction,
}

impl Default for MiniTile {
    fn default() -> (kind: MiniTile)
        ensures
            kind == MiniTile::Grass,
    {
        MiniTile::Grass
    }
}

impl MiniTile {
    /// Roads and cities run on from tile to tile.
    pub open spec fn spec_is_traversable(self) -> bool {
        self == MiniTile::Road || self == MiniTile::City
    }

    pub fn is_traversable(&self) -> (yes: bool)
        ensures
            yes == self.spec_is_traversable(),
    {
        matches!(self, MiniTile::Road | MiniTile::City)
    }
}

/// A slot of a tile: one of its four edges, or its centre.
#[derive(Clone, Copy, Hash, PartialEq, Eq, Debug, Structural)]
pub enum TileClickTarget {
    Top,
    Left,
    Center,
    Right,
    Bottom,
}

impl TileClickTarget {
    pub open spec fn is_edge(self) -> bool {
        self != TileClickTarget::Center
    }

    /// The place of an edge on the way round the tile: top, left, bottom, right.
    pub open spec fn edge_index(self) -> int {
        match self {
            TileClickTarget::Top => 0,
            TileClickTarget::Left => 1,
            TileClickTarget::Bottom => 2,
            TileClickTarget::Right => 3,
            TileClickTarget::Center => 0,
        }
    }

    /// The edge at a place on the way round the tile.
    pub open spec fn edge_at(i: int) -> TileClickTarget {
        if i == 0 {
            TileClickTarget::Top
        } else if i == 1 {
            TileClickTarget::Left
        } else if i == 2 {
            TileClickTarget::Bottom
        } else {
            TileClickTarget::Right
        }
    }

    /// The slot that lies in a direction from the centre, given as (column step, row step).
    pub open spec fn spec_from_octal(coord: (i8, i8)) -> Option<TileClickTarget> {
        if coord == (0i8, -1i8) {
            Some(TileClickTarget::Top)
        } else if coord == (-1i8, 0i8) {
            Some(TileClickTarget::Left)
        } else if coord == (0i8, 0i8) {
            Some(TileClickTarget::Center)
        } else if coord == (1i8, 0i8) {
            Some(TileClickTarget::Right)
        } else if coord == (0i8, 1i8) {
            Some(TileClickTarget::Bottom)
        } else {
            None
        }
    }

    pub fn from_octal(coord: (i8, i8)) -> (slot: Option<Self>)
        ensures
            slot == Self::spec_from_octal(coord),
    {
        match coord {
            (0, -1) => Some(Self::Top),
            (-1, 0) => Some(Self::Left),
            (0, 0) => Some(Self::Center),
            (1, 0) => Some(Self::Right),
            (0, 1) => Some(Self::Bottom),
            _ => None,
        }
    }

    fn edge_number(&self) -> (i: u8)
        requires
            self.is_edge(),
        ensures
            i == self.edge_index(),
            i < 4,
    {
        match self {
            TileClickTarget::Top => 0,
            TileClickTarget::Left => 1,
            TileClickTarget::Bottom => 2,
            _ => 3,
        }
    }

    fn edge_numbered(i: u8) -> (slot: TileClickTarget)
        requires
            i < 4,
        ensures
            slot == Self::edge_at(i as int),
    {
        if i == 0 {
            TileClickTarget::Top
        } else if i == 1 {
            TileClickTarget::Left
        } else if i == 2 {
            TileClickTarget::Bottom
        } else {
            TileClickTarget::Right
        }
    }
}

/// How far a tile has been turned from the way it was drawn.
#[derive(Clone, Copy, Debug, PartialEq, Eq, Hash, Structural)]
pub enum Rotation {
    Upright,
    Left,
    Right,
    Flip,
}

impl Default for Rotation {
    fn default() -> (rotation: Rotation)
        ensures
            rotation == Rotation::Upright,
    {
        Rotation::Upright
    }
}

impl Rotation {
    /// The number of quarter turns to the right.
    pub open spec fn quarter_turns(self) -> int {
        match self {
            Rotation::Upright => 0,
            Rotation::Right => 1,
            Rotation::Flip => 2,
            Rotation::Left => 3,
        }
    }

    /// The slot of the tile as drawn that shows at `target` once the tile is turned.
    pub open spec fn spec_rotate(self, target: TileClickTarget) -> TileClickTarget {
        if target.is_edge() {
            TileClickTarget::edge_at((target.edge_index() + self.quarter_turns()) % 4)
        } else {
            TileClickTarget::Center
        }
    }

    /// Where a slot of the tile as drawn shows once the tile is turned.
    pub open spec fn spec_counter_rotate(self, target: TileClickTarget) -> TileClickTarget {
        if target.is_edge() {
            TileClickTarget::edge_at((target.edge_index() - self.quarter_turns() + 4) % 4)
        } else {
            TileClickTarget::Center
        }
    }

    pub open spec fn spec_next_right(self) -> Rotation {
        match self {
            Rotation::Upright => Rotation::Right,
            Rotation::Right => Rotation::Flip,
            Rotation::Flip => Rotation::Left,
            Rotation::Left => Rotation::Upright,
        }
    }

    pub open spec fn spec_next_left(self) -> Rotation {
        match self {
            Rotation::Upright => Rotation::Left,
            Rotation::Left => Rotation::Flip,
            Rotation::Flip => Rotation::Right,
            Rotation::Right => Rotation::Upright,
        }
    }

    fn rotate_impl(&self, target: &TileClickTarget, is_counter: bool) -> (slot: TileClickTarget)
        ensures
            slot == (if is_counter {
                self.spec_counter_rotate(*target)
            } else {
                self.spec_rotate(*target)
            }),
    {
        let turns: u8 = match self {
            Rotation::Upright => 0,
            Rotation::Right => 1,
            Rotation::Flip => 2,
            Rotation::Left => 3,
        };
        if *target == TileClickTarget::Center {
            return TileClickTarget::Center;
        }
        let at: u8 = target.edge_number();
        if is_counter {
            TileClickTarget::edge_numbered((at + 4 - turns) % 4)
        } else {
            TileClickTarget::edge_numbered((at + turns) % 4)
        }
    }

    pub fn rotate(&self, target: &TileClickTarget) -> (slot: TileClickTarget)
        ensures
            slot == self.spec_rotate(*target),
    {
        self.rotate_impl(target, false)
    }

    pub fn counter_rotate(&self, target: &TileClickTarget) -> (slot: TileClickTarget)
        ensures
            slot == self.spec_counter_rotate(*target),
    {
        self.rotate_impl(target, true)
    }

    pub fn next_right(&self) -> (next: Rotation)
        ensures
            next == self.spec_next_right(),
    {
        match self {
            Rotation::Upright => Rotation::Right,
            Rotation::Right => Rotation::Flip,
            Rotation::Flip => Rotation::Left,
            Rotation::Left => Rotation::Upright,
        }
    }

    pub fn next_left(&self) -> (next: Rotation)
        ensures
            next == self.spec_next_left(),
    {
        match self {
            Rotation::Upright => Rotation::Left,
            Rotation::Left => Rotation::Flip,
            Rotation::Flip => Rotation::Right,
            Rotation::Right => Rotation::Upright,
        }
    }
}

/// The meeple, if any, on each slot of a tile as drawn.
#[derive(Clone, Copy, Debug, PartialEq, Eq, Hash, Structural)]
pub struct MeepleSlots {
    pub top: Option<Player>,
    pub left: Option<Player>,
    pub center: Option<Player>,
    pub right: Option<Player>,
    pub bottom: Option<Player>,
}

impl MeepleSlots {
    pub open spec fn spec_empty() -> MeepleSlots {
        MeepleSlots { top: None, left: None, center: None, right: None, bottom: None }
    }

    pub open spec fn spec_get(self, slot: TileClickTarget) -> Option<Player> {
        match slot {
            TileClickTarget::Top => self.top,
            TileClickTarget::Left => self.left,
            TileClickTarget::Center => self.center,
            TileClickTarget::Right => self.right,
            TileClickTarget::Bottom => self.bottom,
        }
    }

    pub open spec fn spec_set(self, slot: TileClickTarget, owner: Option<Player>) -> MeepleSlots {
        match slot {
            TileClickTarget::Top => MeepleSlots { top: owner, ..self },
            TileClickTarget::Left => MeepleSlots { left: owner, ..self },
            TileClickTarget::Center => MeepleSlots { center: owner, ..self },
            TileClickTarget::Right => MeepleSlots { right: owner, ..self },
            TileClickTarget::Bottom => MeepleSlots { bottom: owner, ..self },
        }
    }

    pub fn empty() -> (slots: MeepleSlots)
        ensures
            slots == Self::spec_empty(),
    {
        MeepleSlots { top: None, left: None, center: None, right: None, bottom: None }
    }

    pub fn get(&self, slot: &TileClickTarget) -> (owner: Option<Player>)
        ensures
            owner == self.spec_get(*slot),
    {
        match slot {
            TileClickTarget::Top => self.top,
            TileClickTarget::Left => self.left,
            TileClickTarget::Center => self.center,
            TileClickTarget::Right => self.right,
            TileClickTarget::Bottom => self.bottom,
        }
    }

    pub fn set(&mut self, slot: &TileClickTarget, owner: Option<Player>)
        ensures
            *final(self) == old(self).spec_set(*slot, owner),
    {
        match slot {
            TileClickTarget::Top => {
                self.top = owner;
            },
            TileClickTarget::Left => {
                self.left = owner;
            },
            TileClickTarget::Center => {
                self.center = owner;
            },
            TileClickTarget::Right => {
                self.right = owner;
            },
            TileClickTarget::Bottom => {
                self.bottom = owner;
            },
        }
    }
}

/// The description from which a tile is made.
#[derive(Clone, Copy, Debug)]
pub struct TileDataBuilder {
    pub has_emblem: bool,
    pub top: MiniTile,
    pub left: MiniTile,
    pub center: MiniTile,
    pub secondary_center: Option<MiniTile>,
    pub right: MiniTile,
    pub bottom: MiniTile,
}

impl Default for TileDataBuilder {
    fn default() -> (builder: TileDataBuilder)
        ensures
            builder == (TileDataBuilder {
                has_emblem: false,
                top: MiniTile::Grass,
                left: MiniTile::Grass,
                center: MiniTile::Grass,
                secondary_center: None,
                right: MiniTile::Grass,
                bottom: MiniTile::Grass,
            }),
    {
        TileDataBuilder {
            has_emblem: false,
            top: MiniTile::Grass,
            left: MiniTile::Grass,
            center: MiniTile::Grass,
            secondary_center: None,
            right: MiniTile::Grass,
            bottom: MiniTile::Grass,
        }
    }
}

/// One tile: what its slots show as drawn, how far it is turned, and the meeples on it.
///
/// The slots are stored as drawn; every reading method takes the turn into account.
#[derive(Clone, Copy, Debug)]
pub struct TileData {
    pub has_emblem: bool,
    pub top: MiniTile,
    pub left: MiniTile,
    pub center: MiniTile,
    pub secondary_center: Option<MiniTile>,
    pub right: MiniTile,
    pub bottom: MiniTile,
    pub meeple_locations: MeepleSlots,
    pub rotation: Rotation,
}

/// The four edges in the order in which the exits of a slot are listed.
pub open spec fn spec_cardinals() -> Seq<TileClickTarget> {
    seq![
        TileClickTarget::Left,
        TileClickTarget::Right,
        TileClickTarget::Top,
        TileClickTarget::Bottom,
    ]
}

/// All five slots in the order in which the meeples of a tile are listed.
pub open spec fn spec_slots() -> Seq<TileClickTarget> {
    seq![
        TileClickTarget::Top,
        TileClickTarget::Left,
        TileClickTarget::Center,
        TileClickTarget::Right,
        TileClickTarget::Bottom,
    ]
}

pub fn cardinals() -> (edges: [TileClickTarget; 4])
    ensures
        edges@ == spec_cardinals(),
{
    let edges = [
        TileClickTarget::Left,
        TileClickTarget::Right,
        TileClickTarget::Top,
        TileClickTarget::Bottom,
    ];
    assert(edges@ =~= spec_cardinals());
    edges
}

pub fn slots() -> (all: [TileClickTarget; 5])
    ensures
        all@ == spec_slots(),
{
    let all = [
        TileClickTarget::Top,
        TileClickTarget::Left,
        TileClickTarget::Center,
        TileClickTarget::Right,
        TileClickTarget::Bottom,
    ];
    assert(all@ =~= spec_slots());
    all
}

impl TileData {
    /// The tile that a description stands for: not turned, no meeple on it.
    pub open spec fn spec_from_builder(builder: TileDataBuilder) -> TileData {
        TileData {
            has_emblem: builder.has_emblem,
            top: builder.top,
            left: builder.left,
            center: builder.center,
            secondary_center: builder.secondary_center,
            right: builder.right,
            bottom: builder.bottom,
            meeple_locations: MeepleSlots::spec_empty(),
            rotation: Rotation::Upright,
        }
    }

    /// What a slot of the tile as drawn shows.
    pub open spec fn stored(self, slot: TileClickTarget) -> MiniTile {
        match slot {
            TileClickTarget::Top => self.top,
            TileClickTarget::Left => self.left,
            TileClickTarget::Center => self.center,
            TileClickTarget::Right => self.right,
            TileClickTarget::Bottom => self.bottom,
        }
    }

    /// What shows at a slot of the tile as it lies.
    pub open spec fn spec_at(self, target: TileClickTarget) -> MiniTile {
        self.stored(self.rotation.spec_rotate(target))
    }

    /// Whether the centre, or the second centre, shows `feature`.
    pub open spec fn spec_center_matches(self, feature: MiniTile) -> bool {
        self.center == feature || self.secondary_center == Some(feature)
    }

    /// Whether a feature entered at `entrance` leaves the tile through `exit`.
    ///
    /// Nothing leaves from a slot that is neither road nor city. Where the
    /// centre does not show the feature, the feature ends at this tile and
    /// `entrance` is its only exit. Otherwise every edge that shows the feature
    /// is an exit.
    pub open spec fn is_exit(self, entrance: TileClickTarget, exit: TileClickTarget) -> bool {
        let kind = self.spec_at(entrance);
        &&& kind.spec_is_traversable()
        &&& if self.spec_center_matches(kind) {
            exit.is_edge() && self.spec_at(exit) == kind
        } else {
            exit == entrance
        }
    }

    /// `list` with `edge` added at its end if the edge shows `kind`.
    pub open spec fn with_exit(
        self,
        list: Seq<TileClickTarget>,
        edge: TileClickTarget,
        kind: MiniTile,
    ) -> Seq<TileClickTarget> {
        if self.spec_at(edge) == kind {
            list.push(edge)
        } else {
            list
        }
    }

    /// The exits of `entrance`, in the order left, right, top, bottom.
    pub open spec fn spec_exits(self, entrance: TileClickTarget) -> Seq<TileClickTarget> {
        let kind = self.spec_at(entrance);
        if !kind.spec_is_traversable() {
            Seq::empty()
        } else if !self.spec_center_matches(kind) {
            seq![entrance]
        } else {
            let l = self.with_exit(Seq::empty(), TileClickTarget::Left, kind);
            let r = self.with_exit(l, TileClickTarget::Right, kind);
            let t = self.with_exit(r, TileClickTarget::Top, kind);
            self.with_exit(t, TileClickTarget::Bottom, kind)
        }
    }

    /// Whether the four edges of two tiles, each as it lies, show the same.
    pub open spec fn spec_matches_minis(self, other: TileData) -> bool {
        &&& self.spec_at(TileClickTarget::Top) == other.spec_at(TileClickTarget::Top)
        &&& self.spec_at(TileClickTarget::Bottom) == other.spec_at(TileClickTarget::Bottom)
        &&& self.spec_at(TileClickTarget::Left) == other.spec_at(TileClickTarget::Left)
        &&& self.spec_at(TileClickTarget::Right) == other.spec_at(TileClickTarget::Right)
    }

    /// The owner of the meeple at a slot of the tile as it lies.
    pub open spec fn spec_meeple_at(self, target: TileClickTarget) -> Option<Player> {
        self.meeple_locations.spec_get(self.rotation.spec_rotate(target))
    }

    /// The tile with the meeple at a slot, as the tile lies, set or taken away.
    pub open spec fn spec_with_meeple(self, target: TileClickTarget, owner: Option<Player>) -> TileData {
        TileData {
            meeple_locations: self.meeple_locations.spec_set(
                self.rotation.spec_rotate(target),
                owner,
            ),
            ..self
        }
    }

    /// The tile turned to a given rotation.
    pub open spec fn spec_with_rotation(self, rotation: Rotation) -> TileData {
        TileData { rotation, ..self }
    }

    pub open spec fn spec_rotated_right(self) -> TileData {
        self.spec_with_rotation(self.rotation.spec_next_right())
    }

    pub open spec fn spec_rotated_left(self) -> TileData {
        self.spec_with_rotation(self.rotation.spec_next_left())
    }

    /// `list` with the meeple at `slot`, if there is one, added at its end.
    pub open spec fn with_meeple_of(
        self,
        list: Seq<(TileClickTarget, Player)>,
        slot: TileClickTarget,
    ) -> Seq<(TileClickTarget, Player)> {
        match self.spec_meeple_at(slot) {
            Some(owner) => list.push((slot, owner)),
            None => list,
        }
    }

    /// The meeples on the first `n` slots, in the order top, left, centre, right, bottom.
    pub open spec fn meeples_on_first(self, n: int) -> Seq<(TileClickTarget, Player)>
        decreases n,
    {
        if n <= 0 || n > 5 {
            Seq::empty()
        } else {
            self.with_meeple_of(self.meeples_on_first(n - 1), spec_slots()[n - 1])
        }
    }

    /// The meeples on the tile with their slots as the tile lies, in the order
    /// top, left, centre, right, bottom.
    pub open spec fn spec_meeple_locations(self) -> Seq<(TileClickTarget, Player)> {
        self.meeples_on_first(5)
    }

    pub fn at(&self, target: &TileClickTarget) -> (kind: &MiniTile)
        ensures
            *kind == self.spec_at(*target),
    {
        let rotated_target = self.rotation.rotate(target);
        match rotated_target {
            TileClickTarget::Top => &self.top,
            TileClickTarget::Left => &self.left,
            TileClickTarget::Center => &self.center,
            TileClickTarget::Right => &self.right,
            TileClickTarget::Bottom => &self.bottom,
        }
    }

    pub fn center_matches(&self, feature: &MiniTile) -> (yes: bool)
        ensures
            yes == self.spec_center_matches(*feature),
    {
        if *self.at(&TileClickTarget::Center) == *feature {
            return true;
        }
        match self.secondary_center {
            Some(center) => center == *feature,
            None => false,
        }
    }

    pub fn get_exits(&self, entrance: &TileClickTarget) -> (exits: Vec<TileClickTarget>)
        ensures
            exits@ == self.spec_exits(*entrance),
            forall|exit: TileClickTarget| exits@.contains(exit) <==> self.is_exit(*entrance, exit),
            exits@.no_duplicates(),
            exits@.len() <= 4,
    {
        let entrance_type = *self.at(entrance);
        proof {
            self.lemma_exits_are_the_exits(*entrance);
        }
        if !entrance_type.is_traversable() {
            return Vec::new();
        }
        if !self.center_matches(&entrance_type) {
            let mut only: Vec<TileClickTarget> = Vec::new();
            only.push(*entrance);
            assert(only@ =~= seq![*entrance]);
            return only;
        }
        let edges = cardinals();
        let mut exits: Vec<TileClickTarget> = Vec::new();
        for i in 0..4
            invariant
                edges@ == spec_cardinals(),
                entrance_type == self.spec_at(*entrance),
                i == 0 ==> exits@ == Seq::<TileClickTarget>::empty(),
                i == 1 ==> exits@ == self.with_exit(
                    Seq::empty(),
                    TileClickTarget::Left,
                    entrance_type,
                ),
                i == 2 ==> exits@ == self.with_exit(
                    self.with_exit(Seq::empty(), TileClickTarget::Left, entrance_type),
                    TileClickTarget::Right,
                    entrance_type,
                ),
                i == 3 ==> exits@ == self.with_exit(
                    self.with_exit(
                        self.with_exit(Seq::empty(), TileClickTarget::Left, entrance_type),
                        TileClickTarget::Right,
                        entrance_type,
                    ),
                    TileClickTarget::Top,
                    entrance_type,
                ),
                i == 4 ==> exits@ == self.with_exit(
                    self.with_exit(
                        self.with_exit(
                            self.with_exit(Seq::empty(), TileClickTarget::Left, entrance_type),
                            TileClickTarget::Right,
                            entrance_type,
                        ),
                        TileClickTarget::Top,
                        entrance_type,
                    ),
                    TileClickTarget::Bottom,
                    entrance_type,
                ),
        {
            if *self.at(&edges[i]) == entrance_type {
                exits.push(edges[i]);
            }
        }
        exits
    }

    /// Whether the four edges of two tiles, each as it lies, show the same.
    pub fn matches_minis(&self, other: &TileData) -> (same: bool)
        ensures
            same == self.spec_matches_minis(*other),
    {
        *self.top() == *other.top() && *self.bottom() == *other.bottom() && *self.left()
            == *other.left() && *self.right() == *other.right()
    }

    pub fn get_meeple_at(&self, target: &TileClickTarget) -> (owner: Option<Player>)
        ensures
            owner == self.spec_meeple_at(*target),
    {
        let slot = self.rotation.rotate(target);
        self.meeple_locations.get(&slot)
    }

    pub fn get_meeple_locations(&self) -> (meeples: Vec<(TileClickTarget, Player)>)
        ensures
            meeples@ == self.spec_meeple_locations(),
    {
        let all = slots();
        let mut meeples: Vec<(TileClickTarget, Player)> = Vec::new();
        for i in 0..5
            invariant
                all@ == spec_slots(),
                meeples@ == self.meeples_on_first(i as int),
        {
            let slot = all[i];
            if let Some(owner) = self.get_meeple_at(&slot) {
                meeples.push((slot, owner));
            }
        }
        meeples
    }

    pub fn top(&self) -> (kind: &MiniTile)
        ensures
            *kind == self.spec_at(TileClickTarget::Top),
    {
        self.at(&TileClickTarget::Top)
    }

    pub fn bottom(&self) -> (kind: &MiniTile)
        ensures
            *kind == self.spec_at(TileClickTarget::Bottom),
    {
        self.at(&TileClickTarget::Bottom)
    }

    pub fn right(&self) -> (kind: &MiniTile)
        ensures
            *kind == self.spec_at(TileClickTarget::Right),
    {
        self.at(&TileClickTarget::Right)
    }

    pub fn left(&self) -> (kind: &MiniTile)
        ensures
            *kind == self.spec_at(TileClickTarget::Left),
    {
        self.at(&TileClickTarget::Left)
    }

    pub fn rotate_right(&mut self)
        ensures
            *final(self) == old(self).spec_rotated_right(),
    {
        self.rotation = self.rotation.next_right();
    }

    pub fn rotate_left(&mut self)
        ensures
            *final(self) == old(self).spec_rotated_left(),
    {
        self.rotation = self.rotation.next_left();
    }

    /// The tile turned to a given rotation.
    pub fn with_rotation(&self, rotation: Rotation) -> (turned: TileData)
        ensures
            turned == self.spec_with_rotation(rotation),
    {
        let mut turned = *self;
        turned.rotation = rotation;
        turned
    }

    /// Puts a meeple of `player` on a slot, unless one stands there already.
    pub fn place_meeple(&mut self, target: &TileClickTarget, player: &Player) -> (placed:
        MessageResult<()>)
        ensures
            old(self).spec_meeple_at(*target) is None ==> placed is Ok && *final(self) == old(
                self,
            ).spec_with_meeple(*target, Some(*player)),
            old(self).spec_meeple_at(*target) is Some ==> placed == Err::<(), GameError>(
                GameError::FeatureNonEmpty,
            ) && *final(self) == *old(self),
    {
        let resolved_target = self.rotation.rotate(target);
        if self.meeple_locations.get(&resolved_target).is_some() {
            return Err(GameError::FeatureNonEmpty);
        }
        self.meeple_locations.set(&resolved_target, Some(*player));
        Ok(())
    }

    /// Takes the meeple off a slot and hands back its owner, if one stood there.
    pub fn clear_meeple(&mut self, target: &TileClickTarget) -> (owner: Option<Player>)
        ensures
            owner == old(self).spec_meeple_at(*target),
            *final(self) == old(self).spec_with_meeple(*target, None),
    {
        let resolved_target = self.rotation.rotate(target);
        let owner = self.meeple_locations.get(&resolved_target);
        self.meeple_locations.set(&resolved_target, None);
        owner
    }

    /// A slot is among the listed exits exactly if it is an exit, and no exit is
    /// listed twice.
    pub proof fn lemma_exits_are_the_exits(self, entrance: TileClickTarget)
        ensures
            forall|exit: TileClickTarget| #[trigger]
                self.spec_exits(entrance).contains(exit) <==> self.is_exit(entrance, exit),
            self.spec_exits(entrance).no_duplicates(),
            self.spec_exits(entrance).len() <= 4,
    {
        broadcast use vstd::seq_lib::lemma_seq_contains_after_push;

        let kind = self.spec_at(entrance);
        let exits = self.spec_exits(entrance);
        if !kind.spec_is_traversable() {
        } else if !self.spec_center_matches(kind) {
            assert(seq![entrance][0] == entrance);
        } else {
            let e = Seq::<TileClickTarget>::empty();
            let l = self.with_exit(e, TileClickTarget::Left, kind);
            let r = self.with_exit(l, TileClickTarget::Right, kind);
            let t = self.with_exit(r, TileClickTarget::Top, kind);
            crate::seqs::lemma_push_fresh(e, TileClickTarget::Left);
            crate::seqs::lemma_push_fresh(l, TileClickTarget::Right);
            crate::seqs::lemma_push_fresh(r, TileClickTarget::Top);
            crate::seqs::lemma_push_fresh(t, TileClickTarget::Bottom);
            assert forall|exit: TileClickTarget| #[trigger]
                exits.contains(exit) <==> self.is_exit(entrance, exit) by {
                assert(!e.contains(exit));
                assert(l.contains(exit) <==> exit == TileClickTarget::Left && self.spec_at(exit)
                    == kind);
                assert(r.contains(exit) <==> l.contains(exit) || (exit == TileClickTarget::Right
                    && self.spec_at(exit) == kind));
                assert(t.contains(exit) <==> r.contains(exit) || (exit == TileClickTarget::Top
                    && self.spec_at(exit) == kind));
                assert(exits.contains(exit) <==> t.contains(exit) || (exit
                    == TileClickTarget::Bottom && self.spec_at(exit) == kind));
            }
        }
    }
}

impl From<TileDataBuilder> for TileData {
    fn from(builder: TileDataBuilder) -> (tile: TileData) {
        TileData {
            has_emblem: builder.has_emblem,
            top: builder.top,
            left: builder.left,
            center: builder.center,
            secondary_center: builder.secondary_center,
            right: builder.right,
            bottom: builder.bottom,
            meeple_locations: MeepleSlots::empty(),
            rotation: Rotation::Upright,
        }
    }
}

impl vstd::std_specs::convert::FromSpecImpl<TileDataBuilder> for TileData {
    open spec fn obeys_from_spec() -> bool {
        true
    }

    open spec fn from_spec(builder: TileDataBuilder) -> TileData {
        TileData::spec_from_builder(builder)
    }
}

/// Turning a slot one way and then the other gives the slot back.
pub proof fn lemma_rotate_then_counter_rotate(rotation: Rotation, target: TileClickTarget)
    ensures
        rotation.spec_counter_rotate(rotation.spec_rotate(target)) == target,
        rotation.spec_rotate(rotation.spec_counter_rotate(target)) == target,
        rotation.spec_rotate(target).is_edge() == target.is_edge(),
        rotation.spec_counter_rotate(target).is_edge() == target.is_edge(),
{
}

/// A quarter turn to the right followed by one to the left, or the other way
/// round, leaves a rotation as it was.
pub proof fn lemma_next_right_undoes_next_left(rotation: Rotation)
    ensures
        rotation.spec_next_right().spec_next_left() == rotation,
        rotation.spec_next_left().spec_next_right() == rotation,
{
}

/// Four quarter turns to the right, or four to the left, bring a tile back to
/// where it was: every slot shows what it showed and carries the meeple it carried.
pub proof fn lemma_four_quarter_turns(tile: TileData)
    ensures
        tile.spec_rotated_right().spec_rotated_right().spec_rotated_right().spec_rotated_right()
            == tile,
        tile.spec_rotated_left().spec_rotated_left().spec_rotated_left().spec_rotated_left()
            == tile,
{
}

/// After one quarter turn to the right the top shows what the left showed, the
/// right what the top showed, the bottom what the right showed, and the left
/// what the bottom showed. The centre is not moved.
pub proof fn lemma_quarter_turn_right(tile: TileData)
    ensures
        tile.spec_rotated_right().spec_at(TileClickTarget::Top) == tile.spec_at(
            TileClickTarget::Left,
        ),
        tile.spec_rotated_right().spec_at(TileClickTarget::Right) == tile.spec_at(
            TileClickTarget::Top,
        ),
        tile.spec_rotated_right().spec_at(TileClickTarget::Bottom) == tile.spec_at(
            TileClickTarget::Right,
        ),
        tile.spec_rotated_right().spec_at(TileClickTarget::Left) == tile.spec_at(
            TileClickTarget::Bottom,
        ),
        tile.spec_rotated_right().spec_at(TileClickTarget::Center) == tile.spec_at(
            TileClickTarget::Center,
        ),
{
}

/// After one quarter turn to the left the top shows what the right showed, the
/// left what the top showed, the bottom what the left showed, and the right
/// what the bottom showed.
pub proof fn lemma_quarter_turn_left(tile: TileData)
    ensures
        tile.spec_rotated_left().spec_at(TileClickTarget::Top) == tile.spec_at(
            TileClickTarget::Right,
        ),
        tile.spec_rotated_left().spec_at(TileClickTarget::Left) == tile.spec_at(
            TileClickTarget::Top,
        ),
        tile.spec_rotated_left().spec_at(TileClickTarget::Bottom) == tile.spec_at(
            TileClickTarget::Left,
        ),
        tile.spec_rotated_left().spec_at(TileClickTarget::Right) == tile.spec_at(
            TileClickTarget::Bottom,
        ),
{
}

/// An exit is always an edge, shows what the entrance shows, and has the same
/// exits as the entrance.
pub proof fn lemma_exit_properties(tile: TileData, entrance: TileClickTarget, exit: TileClickTarget)
    requires
        tile.is_exit(entrance, exit),
    ensures
        exit.is_edge(),
        tile.spec_at(exit) == tile.spec_at(entrance),
        tile.is_exit(exit, exit),
        forall|other: TileClickTarget| tile.is_exit(exit, other) == tile.is_exit(entrance, other),
{
}

} // verus!
