//! Square-to-text translation between board indices and algebraic
//! notation such as "e2".

use vstd::prelude::*;

use crate::text::digit_char;

verus! {

/// The decoded (rank, file) index of a two-character square name: the
/// file letter gives the column, the rank digit counts up from the
/// bottom of the board, so "a8" is (0, 0) and "h1" is (7, 7).
pub open spec fn notation_index_spec(s: Seq<char>) -> Option<(usize, usize)> {
    if s.len() == 2 && 'a' <= s[0] && s[0] <= 'h' && '1' <= s[1] && s[1] <= '8' {
        Some(((7 - (s[1] as int - '1' as int)) as usize, (s[0] as int - 'a' as int) as usize))
    } else {
        None
    }
}

/// Decode a square name such as "e2" into its (rank, file) index.
pub fn chess_notation_to_index(notation: &str) -> (r: Option<(usize, usize)>)
    ensures
        r == notation_index_spec(notation@),
{
    if notation.unicode_len() != 2 {
        return None;
    }
    let file = notation.get_char(0);
    let rank = notation.get_char(1);
    let fb = file as u32;
    let rb = rank as u32;
    if fb < 97 || fb > 104 || rb < 49 || rb > 56 {
        proof {
            assert(('a' as int) == 97 && ('h' as int) == 104);
            assert(('1' as int) == 49 && ('8' as int) == 56);
        }
        return None;
    }
    let col = (fb - 97) as usize;
    let row = (56 - rb) as usize;
    Some((row, col))
}

/// The rendered name of a board square, or none off the board.
pub open spec fn index_notation_spec(rank: int, file: int) -> Option<Seq<char>> {
    if 0 <= rank < 8 && 0 <= file < 8 {
        Some(seq![(97 + file) as char, digit_char(8 - rank)])
    } else {
        None
    }
}

/// Render a (rank, file) index as a square name such as "e2".
pub fn index_to_chess_notation(position: (u8, u8)) -> (r: Option<String>)
    ensures
        match r {
            Some(s) => index_notation_spec(position.0 as int, position.1 as int) == Some(s@),
            None => index_notation_spec(position.0 as int, position.1 as int) is None,
        },
{
    let (rank, file) = position;
    if rank > 7 || file > 7 {
        return None;
    }
    let mut s = String::new();
    s.push((97 + file) as char);
    s.push((48 + (8 - rank)) as char);
    proof {
        assert(s@ =~= seq![(97 + position.1 as int) as char, digit_char(8 - position.0 as int)]);
    }
    Some(s)
}

} // verus!
