//! The error reply the protocol loop sends back: what went wrong, and
//! the position it concerned as a FEN record.

use vstd::prelude::*;

use crate::fen_parser::Gamestate;
use crate::fen_parser::fen_spec;

verus! {

/// An error message paired with the FEN of the state it arose in.
pub struct ParseError {
    pub error: String,
    pub fen: String,
}

impl ParseError {
    /// Wrap an error message with the FEN of the current state.
    pub fn new(error: String, game_state: &Gamestate) -> (r: ParseError)
        requires
            game_state.wf(),
        ensures
            r.error == error,
            r.fen@ == fen_spec(*game_state),
    {
        ParseError { error, fen: Gamestate::to_fen(game_state) }
    }
}

} // verus!
