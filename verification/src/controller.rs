//! Session controller: forwards directional commands to the board and
//! tracks the externally visible game phase.

use vstd::prelude::*;

use crate::board::GameState;
use crate::board::Gameboard;
use crate::board::MoveDirection;
use crate::board::move_outcome;
use crate::model::values_le;

verus! {

/// Holds one board together with the phase it last reported.
pub struct GameboardController {
    /// Stores the gameboard state.
    pub gameboard: Gameboard,
    /// The phase most recently reported by the board.
    pub game_state: GameState,
}

impl GameboardController {
    /// Creates a new gameboard controller around a board, starting in play.
    pub fn new(gameboard: Gameboard) -> (controller: GameboardController)
        ensures
            controller.gameboard == gameboard,
            controller.game_state is Playing,
    {
        GameboardController { gameboard, game_state: GameState::Playing }
    }

    /// Forwards one directional command.  While playing, the move is
    /// committed and the reported phase is stored.  A won game takes the
    /// next command as the acknowledgement of the win banner and returns
    /// to play without applying a move.  A lost game ignores commands.
    pub fn move_command(&mut self, move_direction: MoveDirection)
        requires
            old(self).gameboard.wf(),
            values_le(old(self).gameboard.grid(), usize::MAX as int / 4),
        ensures
            old(self).game_state is Playing ==> final(self).gameboard.wf() && move_outcome(
                old(self).gameboard,
                move_direction,
                final(self).gameboard,
                final(self).game_state,
            ),
            old(self).game_state is Won ==> final(self).game_state is Playing
                && final(self).gameboard == old(self).gameboard,
            old(self).game_state is Lost ==> *final(self) == *old(self),
    {
        match self.game_state {
            GameState::Playing => {
                let new_game_state = self.gameboard.handle_move(move_direction);
                self.game_state = new_game_state;
            }
            GameState::Won => {
                self.game_state = GameState::Playing;
            }
            GameState::Lost => {}
        }
    }
}

} // verus!
