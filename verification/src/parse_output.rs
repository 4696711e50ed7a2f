//! The reply the protocol loop sends out: a message, the position as a
//! FEN record, the legal moves, and the status flags.

use vstd::prelude::*;

use crate::fen_parser::Gamestate;
use crate::fen_parser::fen_spec;

verus! {

/// One protocol reply.
pub struct ParseOut {
    pub message: String,
    pub fen: String,
    pub possible_moves: Vec<String>,
    pub in_check: bool,
    pub checkmate: bool,
    pub stalemate: bool,
    pub game_over: bool,
}

impl ParseOut {
    /// Assemble a reply; the game is over exactly on mate or stalemate.
    pub fn new(
        message: String,
        game_state: &Gamestate,
        possible_moves: Vec<String>,
        in_check: bool,
        checkmate: bool,
        stalemate: bool,
    ) -> (r: ParseOut)
        requires
            game_state.wf(),
        ensures
            r.message == message,
            r.fen@ == fen_spec(*game_state),
            r.possible_moves == possible_moves,
            r.in_check == in_check,
            r.checkmate == checkmate,
            r.stalemate == stalemate,
            r.game_over == (checkmate || stalemate),
    {
        ParseOut {
            message,
            fen: Gamestate::to_fen(game_state),
            possible_moves,
            in_check,
            checkmate,
            stalemate,
            game_over: checkmate || stalemate,
        }
    }
}

} // verus!
