//! The decoded request the protocol loop hands the engine: a reason, a
//! position, and a move in text form.  The loop that reads and decodes
//! the raw request lives outside this crate.

use vstd::prelude::*;

use crate::fen_parser::Gamestate;

verus! {

/// One decoded request.
pub struct JsonIn {
    pub reason: String,
    pub state: Gamestate,
    pub moves: String,
}

} // verus!
