//! What is shown of a match, and what a player at the screen may say.

use crate::board::{ConcreteBoard, Coordinate};
use crate::bots::bot::MoveRequest;
use crate::error::{GameError, MessageResult};
use crate::keys::KeyMap;
use crate::legality::spec_legal_meeple;
use crate::player::Player;
use crate::referee::{spec_legal_placement, RefereeState, RefereeView};
use crate::tile::{MiniTile, Rotation, TileClickTarget, TileData};
use crate::tilebag::TileBag;
use vstd::prelude::*;

verus! {

/// A colour: red, green, blue.
pub type Rgb = (u8, u8, u8);

impl MiniTile {
    /// The colour in which a slot of this kind is painted.
    pub open spec fn spec_color(self) -> Rgb {
        match self {
            MiniTile::Grass => (0u8, 188u8, 84u8),
            MiniTile::Road => (255u8, 255u8, 255u8),
            MiniTile::City => (205u8, 137u8, 48u8),
            MiniTile::Monastery => (255u8, 0u8, 0u8),
            MiniTile::Junction => (255u8, 255u8, 0u8),
        }
    }

    pub fn get_color(&self) -> (color: Rgb)
        ensures
            color == self.spec_color(),
    {
        match self {
            MiniTile::Grass => (0, 188, 84),
            MiniTile::Road => (255, 255, 255),
            MiniTile::City => (205, 137, 48),
            MiniTile::Monastery => (255, 0, 0),
            MiniTile::Junction => (255, 255, 0),
        }
    }
}

impl Player {
    /// The colour of the meeples of the player.
    pub open spec fn spec_color(self) -> Rgb {
        match self {
            Player::Black => (0u8, 0u8, 0u8),
            Player::White => (255u8, 255u8, 255u8),
        }
    }

    pub fn get_color(&self) -> (color: Rgb)
        ensures
            color == self.spec_color(),
    {
        match self {
            Player::Black => (0, 0, 0),
            Player::White => (255, 255, 255),
        }
    }
}

/// A click on a slot of a place, with the rotation that the drawn tile has on the screen.
#[derive(Clone, Copy, Debug)]
pub struct ClickMessage {
    pub coord: Coordinate,
    pub rotation: Rotation,
    pub location: TileClickTarget,
}

/// What the screen tells a player at it.
#[derive(Clone, Debug)]
pub enum InteractionMessage {
    Print(String),
    Click(ClickMessage),
    CancelMeeple,
    NextFrame,
    PreviousFrame,
    LastFrame,
    FirstFrame,
}

/// What is shown of a match.
pub struct RenderState {
    pub preview_tile: Option<TileData>,
    pub board: ConcreteBoard,
    pub turn_order: Vec<Player>,
    pub is_placing_meeple: bool,
    pub current_player: Player,
    pub player_meeples: KeyMap<Player, u8>,
    pub player_scores: KeyMap<Player, u64>,
}

/// What is sent to the screen.
pub enum RenderMessage {
    RefereeSync(RenderState),
}

impl RefereeState {
    /// What is shown of the state while a player has chosen a place for the
    /// drawn tile but has not made the move: the board with the drawn tile
    /// laid at that place, if a place is chosen and a tile is drawn.
    pub fn clone_into_mid_move(
        &self,
        preview_placed: Option<(Coordinate, Rotation)>,
        is_placing_meeple: bool,
    ) -> (shown: RenderState)
        requires
            self.wf(),
        ensures
            shown.preview_tile == self@.bag.top(),
            shown.board@ == match (preview_placed, self@.bag.top()) {
                (Some(placed), Some(tile)) => self@.board.insert(
                    placed.0,
                    tile.spec_with_rotation(placed.1),
                ),
                _ => self@.board,
            },
            shown.is_placing_meeple == is_placing_meeple,
            shown.turn_order@ == self@.turn_order,
            shown.current_player == self@.player(),
            shown.player_meeples@ == self@.meeples,
            shown.player_scores@ == self@.scores,
    {
        let player = self.get_player();
        let mut board = self.board.clone();
        let preview_tile = match self.tilebag.peek() {
            Ok(tile) => Some(*tile),
            Err(_) => None,
        };
        if let Some((coord, rotation)) = preview_placed {
            if let Some(tile) = preview_tile {
                board.set(coord, tile.with_rotation(rotation));
            }
        }
        let copy = self.clone();
        RenderState {
            preview_tile,
            board,
            is_placing_meeple,
            turn_order: copy.turn_order,
            current_player: player,
            player_scores: copy.player_scores,
            player_meeples: copy.player_meeples,
        }
    }

    /// What is shown of the state as it is.
    pub fn clone_into(&self) -> (shown: RenderState)
        requires
            self.wf(),
        ensures
            shown.preview_tile == self@.bag.top(),
            shown.board@ == self@.board,
            shown.is_placing_meeple == self@.is_placing_meeple,
            shown.turn_order@ == self@.turn_order,
            shown.current_player == self@.player(),
            shown.player_meeples@ == self@.meeples,
            shown.player_scores@ == self@.scores,
    {
        self.clone_into_mid_move(None, self.is_placing_meeple)
    }
}

/// What a player at the screen has chosen so far in a turn.
#[derive(Clone, Copy, Debug)]
pub struct HumanChoice {
    /// Where the drawn tile goes and how it is turned, once that is chosen.
    pub tile_data: Option<(Coordinate, Rotation)>,
}

/// What follows from a message of the screen.
#[derive(Clone, Copy, Debug)]
pub enum HumanStep {
    /// The turn goes on with what is chosen now.
    Wait(HumanChoice),
    /// What was said is not allowed; the turn goes on as before.
    Refused(HumanChoice, GameError),
    /// The move is made.
    Play(MoveRequest),
}

/// Whether the drawn tile of a state may go to a place in a rotation, and why not.
pub fn validate_tile_placement(coord: Coordinate, rotation: Rotation, state: &RefereeState) -> (
    valid: MessageResult<()>)
    requires
        state.wf(),
    ensures
        valid == match state@.bag.top() {
            None => Err(GameError::EmptyBag),
            Some(tile) => spec_legal_placement(state@.board, coord, tile.spec_with_rotation(rotation)),
        },
{
    let next = match state.tilebag.peek() {
        Ok(tile) => tile.with_rotation(rotation),
        Err(error) => {
            return Err(error);
        },
    };
    state.is_legal_placement(coord, &next)
}

/// Whether a player has a meeple in reserve.
pub open spec fn has_meeple(state: RefereeView, player: Player) -> bool {
    state.meeples.contains_key(player) && state.meeples[player] > 0
}

/// Whether a meeple of a player may go on a slot of the drawn tile once it
/// lies at a place in a rotation, and why not.
pub open spec fn spec_validate_meeple(
    state: RefereeView,
    player: Player,
    coord: Coordinate,
    rotation: Rotation,
    location: TileClickTarget,
) -> MessageResult<()> {
    if !has_meeple(state, player) {
        Err(GameError::OutOfMeeples)
    } else {
        match state.bag.top() {
            None => Err(GameError::EmptyBag),
            Some(tile) => spec_legal_meeple(
                state.board.insert(coord, tile.spec_with_rotation(rotation)),
                coord,
                location,
            ),
        }
    }
}

/// Whether a meeple of a player may go on a slot of the drawn tile once it
/// lies at a place in a rotation, and why not.
pub fn validate_meeple_placement(
    player: &Player,
    coord: Coordinate,
    rotation: Rotation,
    location: TileClickTarget,
    state: &RefereeState,
) -> (valid: MessageResult<()>)
    requires
        state.wf(),
    ensures
        valid == spec_validate_meeple(state@, *player, coord, rotation, location),
{
    let count: u8 = match state.player_meeples.get(player) {
        Some(count) => *count,
        None => 0,
    };
    if count == 0 {
        return Err(GameError::OutOfMeeples);
    }
    let next = match state.tilebag.peek() {
        Ok(tile) => tile.with_rotation(rotation),
        Err(error) => {
            return Err(error);
        },
    };
    let board = state.board.with_overlay(coord, &next);
    board.as_user().is_legal_meeple(&coord, location)
}

/// What a message of the screen does to the turn of a player at it.
///
/// Before a place is chosen, a click chooses the place and the rotation for
/// the drawn tile, if the tile may go there. After that, a click on a slot of
/// the tile asks for a meeple there and makes the move, if the player has a
/// meeple and it may go there, and the word that no meeple is placed makes
/// the move without one.
pub open spec fn spec_human_step(
    state: RefereeView,
    player: Player,
    choice: HumanChoice,
    message: InteractionMessage,
) -> HumanStep {
    match message {
        InteractionMessage::CancelMeeple => match choice.tile_data {
            Some(placed) => HumanStep::Play(
                MoveRequest { coord: placed.0, rotation: placed.1, meeple: None },
            ),
            None => HumanStep::Wait(choice),
        },
        InteractionMessage::Click(click) => match choice.tile_data {
            Some(placed) => if click.coord != placed.0 {
                HumanStep::Refused(choice, GameError::NoTilePresent)
            } else {
                match spec_validate_meeple(state, player, placed.0, placed.1, click.location) {
                    Ok(_) => HumanStep::Play(
                        MoveRequest {
                            coord: placed.0,
                            rotation: placed.1,
                            meeple: Some(click.location),
                        },
                    ),
                    Err(error) => HumanStep::Refused(choice, error),
                }
            },
            None => match state.bag.top() {
                None => HumanStep::Refused(choice, GameError::EmptyBag),
                Some(tile) => match spec_legal_placement(
                    state.board,
                    click.coord,
                    tile.spec_with_rotation(click.rotation),
                ) {
                    Ok(_) => HumanStep::Wait(
                        HumanChoice { tile_data: Some((click.coord, click.rotation)) },
                    ),
                    Err(error) => HumanStep::Refused(choice, error),
                },
            },
        },
        _ => HumanStep::Wait(choice),
    }
}

/// What a message of the screen does to the turn of a player at it.
pub fn human_step(
    state: &RefereeState,
    player: &Player,
    choice: HumanChoice,
    message: &InteractionMessage,
) -> (step: HumanStep)
    requires
        state.wf(),
    ensures
        step == spec_human_step(state@, *player, choice, *message),
{
    match message {
        InteractionMessage::CancelMeeple => match choice.tile_data {
            Some((coord, rotation)) => HumanStep::Play(MoveRequest { coord, rotation, meeple: None }),
            None => HumanStep::Wait(choice),
        },
        InteractionMessage::Click(click) => match choice.tile_data {
            Some((coord, rotation)) => {
                if click.coord.0 != coord.0 || click.coord.1 != coord.1 {
                    return HumanStep::Refused(choice, GameError::NoTilePresent);
                }
                match validate_meeple_placement(player, coord, rotation, click.location, state) {
                    Ok(_) => HumanStep::Play(
                        MoveRequest { coord, rotation, meeple: Some(click.location) },
                    ),
                    Err(error) => HumanStep::Refused(choice, error),
                }
            },
            None => match validate_tile_placement(click.coord, click.rotation, state) {
                Ok(_) => HumanStep::Wait(
                    HumanChoice { tile_data: Some((click.coord, click.rotation)) },
                ),
                Err(error) => HumanStep::Refused(choice, error),
            },
        },
        _ => HumanStep::Wait(choice),
    }
}

} // verus!
