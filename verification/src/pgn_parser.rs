//! PGN game records: metadata headers, a move list and a result.
//!
//! `from_pgn` reads a record line by line — bracketed header tags first,
//! then move text — and `to_pgn` writes one back out with the standard
//! seven tags first, the remaining tags sorted by name, and the moves
//! wrapped at eighty characters.  Headers live in a vector with unique
//! keys, replaced in place as a map would.

use vstd::prelude::*;

use crate::text::first_space;
use crate::text::find_space;
use crate::text::lex_lt;
use crate::text::parse_num_spec;
use crate::text::split_lines;
use crate::text::split_lines_spec;
use crate::text::split_ws_spec;
use crate::text::strip_back_k;
use crate::text::strip_both;
use crate::text::strip_end;
use crate::text::strip_front_k;
use crate::text::trim_spec;
use crate::text::trim_str;
use crate::text::dec_rep;
use crate::text::push_decimal;
use crate::text::str_lex_lt;

verus! {

/// A full game record.
pub struct PgnGame {
    /// Metadata tags in insertion order, keys unique.
    pub headers: Vec<(String, String)>,
    /// The moves in standard algebraic notation.
    pub moves: Vec<String>,
    /// The game result: a win for either side, a draw, or ongoing.
    pub result: String,
}

/// The value stored under a key, if the key is present.
pub open spec fn header_lookup(hs: Seq<(String, String)>, k: Seq<char>) -> Option<Seq<char>>
    decreases hs.len(),
{
    if hs.len() == 0 {
        None
    } else if hs[0].0@ == k {
        Some(hs[0].1@)
    } else {
        header_lookup(hs.drop_first(), k)
    }
}

/// The header keys are pairwise distinct.
pub open spec fn headers_wf(hs: Seq<(String, String)>) -> bool {
    forall|i: int, j: int| 0 <= i < j < hs.len() ==> (#[trigger] hs[i]).0@ != (#[trigger] hs[j]).0@
}

impl PgnGame {
    pub open spec fn wf(&self) -> bool {
        headers_wf(self.headers@)
    }

    /// An empty game with an ongoing result.
    pub fn new() -> (r: PgnGame)
        ensures
            r.wf(),
            r.headers@.len() == 0,
            r.moves@.len() == 0,
            r.result@ == seq!['*'],
    {
        let mut result = String::new();
        result.push('*');
        proof {
            assert(result@ =~= seq!['*']);
        }
        PgnGame { headers: Vec::new(), moves: Vec::new(), result }
    }

    /// Append a move in standard algebraic notation.
    pub fn add_move(&mut self, san_move: String)
        ensures
            final (self).headers == old(self).headers,
            final (self).result == old(self).result,
            final (self).moves@ == old(self).moves@.push(san_move),
    {
        self.moves.push(san_move);
    }

    /// Set a tag, replacing an existing value under the same key.
    pub fn set_header(&mut self, key: String, value: String)
        requires
            old(self).wf(),
        ensures
            final (self).wf(),
            final (self).moves == old(self).moves,
            final (self).result == old(self).result,
            header_lookup(final (self).headers@, key@) == Some(value@),
            forall|k2: Seq<char>|
                k2 != key@ ==> #[trigger] header_lookup(final (self).headers@, k2)
                    == header_lookup(old(self).headers@, k2),
    {
        let ghost old_hs = self.headers@;
        let n = self.headers.len();
        let mut i: usize = 0;
        while i < n
            invariant
                n == self.headers@.len(),
                i <= n,
                self.headers@ == old_hs,
                old_hs == old(self).headers@,
                headers_wf(old_hs),
                self.moves == old(self).moves,
                self.result == old(self).result,
                forall|j: int| 0 <= j < i ==> (#[trigger] old_hs[j]).0@ != key@,
            decreases n - i,
        {
            let hit = {
                let pair = &self.headers[i];
                str_eq(pair.0.as_str(), key.as_str())
            };
            if hit {
                proof {
                    assert(old_hs[i as int].0@ == key@);
                }
                let _old_pair = self.headers.remove(i);
                self.headers.insert(i, (key, value));
                proof {
                    let hs2 = self.headers@;
                    assert(hs2 =~= old_hs.update(i as int, hs2[i as int]));
                    lemma_header_lookup_update(old_hs, i as int, hs2);
                    lemma_header_lookup_at(hs2, i as int, key@);
                    assert forall|i2: int, j2: int|
                        0 <= i2 < j2 < hs2.len() implies (#[trigger] hs2[i2]).0@ != (
                    #[trigger] hs2[j2]).0@ by {
                        assert(old_hs[i2].0@ != old_hs[j2].0@);
                    }
                }
                return ;
            }
            i = i + 1;
        }
        self.headers.push((key, value));
        proof {
            let hs2 = self.headers@;
            let e = hs2[n as int];
            assert(e.0@ == key@);
            assert(hs2 == old_hs.push(e));
            lemma_header_lookup_none(old_hs, key@);
            lemma_header_lookup_push(old_hs, e);
            assert forall|i2: int, j2: int|
                0 <= i2 < j2 < hs2.len() implies (#[trigger] hs2[i2]).0@ != (
            #[trigger] hs2[j2]).0@ by {
                if j2 < n {
                    assert(old_hs[i2].0@ != old_hs[j2].0@);
                } else {
                    assert(old_hs[i2].0@ != key@);
                }
            }
        }
    }

    /// Read a tag's value.
    pub fn get_header(&self, key: &str) -> (r: Option<&String>)
        ensures
            match r {
                Some(v) => header_lookup(self.headers@, key@) == Some(v@),
                None => header_lookup(self.headers@, key@) is None,
            },
    {
        let n = self.headers.len();
        let mut i: usize = 0;
        while i < n
            invariant
                n == self.headers@.len(),
                i <= n,
                forall|j: int| 0 <= j < i ==> (#[trigger] self.headers@[j]).0@ != key@,
            decreases n - i,
        {
            if str_eq(self.headers[i].0.as_str(), key) {
                proof {
                    lemma_header_lookup_at(self.headers@, i as int, key@);
                }
                return Some(&self.headers[i].1);
            }
            i = i + 1;
        }
        proof {
            lemma_header_lookup_none(self.headers@, key@);
        }
        None
    }
}

/// A found key at index `i`, with all earlier keys different, fixes the
/// lookup result.
proof fn lemma_header_lookup_at(hs: Seq<(String, String)>, i: int, k: Seq<char>)
    requires
        0 <= i < hs.len(),
        hs[i].0@ == k,
        forall|j: int| 0 <= j < i ==> (#[trigger] hs[j]).0@ != k,
    ensures
        header_lookup(hs, k) == Some(hs[i].1@),
    decreases i,
{
    if i > 0 {
        lemma_header_lookup_at(hs.drop_first(), i - 1, k);
    }
}

/// A key different from every stored key is absent.
proof fn lemma_header_lookup_none(hs: Seq<(String, String)>, k: Seq<char>)
    requires
        forall|j: int| 0 <= j < hs.len() ==> (#[trigger] hs[j]).0@ != k,
    ensures
        header_lookup(hs, k) is None,
    decreases hs.len(),
{
    if hs.len() > 0 {
        lemma_header_lookup_none(hs.drop_first(), k);
    }
}

/// Replacing the entry at `i` changes only its key's lookup.
proof fn lemma_header_lookup_update(hs: Seq<(String, String)>, i: int, hs2: Seq<(String, String)>)
    requires
        0 <= i < hs.len(),
        hs2 == hs.update(i, hs2[i]),
        hs2.len() == hs.len(),
    ensures
        forall|k2: Seq<char>|
            k2 != hs2[i].0@ && k2 != hs[i].0@ ==> #[trigger] header_lookup(hs2, k2)
                == header_lookup(hs, k2),
    decreases i,
{
    assert forall|k2: Seq<char>|
        k2 != hs2[i].0@ && k2 != hs[i].0@ implies #[trigger] header_lookup(hs2, k2)
        == header_lookup(hs, k2) by {
        lemma_header_lookup_update_one(hs, i, hs2, k2);
    }
}

proof fn lemma_header_lookup_update_one(
    hs: Seq<(String, String)>,
    i: int,
    hs2: Seq<(String, String)>,
    k2: Seq<char>,
)
    requires
        0 <= i < hs.len(),
        hs2 == hs.update(i, hs2[i]),
        hs2.len() == hs.len(),
        k2 != hs2[i].0@,
        k2 != hs[i].0@,
    ensures
        header_lookup(hs2, k2) == header_lookup(hs, k2),
    decreases hs.len(),
{
    if hs.len() > 0 {
        if i == 0 {
            assert(hs2.drop_first() =~= hs.drop_first());
        } else {
            assert(hs2[0] == hs[0]);
            assert(hs2.drop_first() =~= hs.drop_first().update(i - 1, hs2[i]));
            assert(hs2.drop_first()[i - 1] == hs2[i]);
            lemma_header_lookup_update_one(hs.drop_first(), i - 1, hs2.drop_first(), k2);
        }
    }
}

/// Appending a fresh entry changes only its key's lookup.
proof fn lemma_header_lookup_push(hs: Seq<(String, String)>, e: (String, String))
    ensures
        forall|k2: Seq<char>|
            k2 != e.0@ ==> #[trigger] header_lookup(hs.push(e), k2) == header_lookup(hs, k2),
        header_lookup(hs, e.0@) is None ==> header_lookup(hs.push(e), e.0@) == Some(e.1@),
    decreases hs.len(),
{
    if hs.len() == 0 {
        assert forall|k2: Seq<char>|
            k2 != e.0@ implies #[trigger] header_lookup(hs.push(e), k2) == header_lookup(
            hs,
            k2,
        ) by {
            assert(hs.push(e)[0] == e);
            assert(hs.push(e).drop_first() =~= hs);
        }
        assert(hs.push(e)[0] == e);
    } else {
        lemma_header_lookup_push(hs.drop_first(), e);
        assert(hs.push(e)[0] == hs[0]);
        assert(hs.push(e).drop_first() =~= hs.drop_first().push(e));
        assert forall|k2: Seq<char>|
            k2 != e.0@ implies #[trigger] header_lookup(hs.push(e), k2) == header_lookup(
            hs,
            k2,
        ) by {
            assert(header_lookup(hs.push(e).drop_first(), k2) == header_lookup(
                hs.drop_first().push(e),
                k2,
            ));
        }
        if header_lookup(hs, e.0@) is None {
            assert(hs[0].0@ != e.0@);
            assert(header_lookup(hs.drop_first(), e.0@) is None);
            assert(header_lookup(hs.drop_first().push(e), e.0@) == Some(e.1@));
            assert(header_lookup(hs.push(e), e.0@) == Some(e.1@));
        }
    }
}

/// Are two strings the same sequence of characters?
pub fn str_eq(a: &str, b: &str) -> (r: bool)
    ensures
        r == (a@ == b@),
{
    let na = a.unicode_len();
    let nb = b.unicode_len();
    if na != nb {
        return false;
    }
    let mut i: usize = 0;
    while i < na
        invariant
            na == a@.len(),
            nb == b@.len(),
            na == nb,
            i <= na,
            forall|j: int| 0 <= j < i ==> a@[j] == b@[j],
        decreases na - i,
    {
        if a.get_char(i) != b.get_char(i) {
            return false;
        }
        i = i + 1;
    }
    proof {
        assert(a@ =~= b@);
    }
    true
}


/// The key and value of a bracketed header line: brackets stripped from
/// the ends, the first space splitting key from value, quotes stripped
/// from the value's ends.
pub open spec fn parse_header_line_spec(t: Seq<char>) -> Option<(Seq<char>, Seq<char>)> {
    let content = trim_spec(strip_back_k(1, strip_front_k(1, t)));
    match first_space(content, 0) {
        Some(p) => Some(
            (
                trim_spec(content.take(p)),
                strip_back_k(2, strip_front_k(2, trim_spec(content.skip(p + 1)))),
            ),
        ),
        None => None,
    }
}

/// Parse a header line such as a bracketed key and quoted value.
pub fn parse_header_line(line: &str) -> (r: Option<(String, String)>)
    ensures
        match r {
            Some(kv) => parse_header_line_spec(line@) == Some((kv.0@, kv.1@)),
            None => parse_header_line_spec(line@) is None,
        },
{
    let stripped = strip_both(line, 1);
    let content = trim_str(stripped.as_str());
    match find_space(content.as_str()) {
        None => None,
        Some(p) => {
            let cs = content.as_str();
            let n = cs.unicode_len();
            let key = trim_str(cs.substring_char(0, p));
            let value_part = trim_str(cs.substring_char(p + 1, n));
            let value = strip_both(value_part.as_str(), 2);
            proof {
                assert(cs@.subrange(0, p as int) =~= cs@.take(p as int));
                assert(cs@.subrange(p + 1, n as int) =~= cs@.skip(p + 1));
            }
            Some((key, value))
        },
    }
}

/// One of the four result tokens: a win for either side, a draw, or an
/// ongoing game.
pub open spec fn is_result_tok(t: Seq<char>) -> bool {
    ||| (t.len() == 3 && t[0] == '1' && t[1] == '-' && t[2] == '0')
    ||| (t.len() == 3 && t[0] == '0' && t[1] == '-' && t[2] == '1')
    ||| (t.len() == 7 && t[0] == '1' && t[1] == '/' && t[2] == '2' && t[3] == '-' && t[4] == '1'
        && t[5] == '/' && t[6] == '2')
    ||| (t.len() == 1 && t[0] == '*')
}

/// Is the token a result marker?
pub fn is_result_token(s: &str) -> (r: bool)
    ensures
        r == is_result_tok(s@),
{
    let n = s.unicode_len();
    if n == 3 {
        let a = s.get_char(0);
        let b = s.get_char(1);
        let c = s.get_char(2);
        (a == '1' && b == '-' && c == '0') || (a == '0' && b == '-' && c == '1')
    } else if n == 7 {
        s.get_char(0) == '1' && s.get_char(1) == '/' && s.get_char(2) == '2' && s.get_char(3)
            == '-' && s.get_char(4) == '1' && s.get_char(5) == '/' && s.get_char(6) == '2'
    } else if n == 1 {
        s.get_char(0) == '*'
    } else {
        false
    }
}

/// A plausible first character of a move: a piece letter or a file.
pub open spec fn san_first_ok(c: char) -> bool {
    c == 'K' || c == 'Q' || c == 'R' || c == 'B' || c == 'N' || (97 <= c as int && c as int <= 104)
}

/// A plausible move in standard algebraic notation: castling, or a
/// piece-or-file first character with a file letter and a rank digit
/// somewhere in the token.
pub open spec fn is_valid_san_spec(s: Seq<char>) -> bool {
    ||| (s.len() == 3 && s[0] == 'O' && s[1] == '-' && s[2] == 'O')
    ||| (s.len() == 5 && s[0] == 'O' && s[1] == '-' && s[2] == 'O' && s[3] == '-' && s[4] == 'O')
    ||| (s.len() >= 1 && san_first_ok(s[0]) && (exists|i: int|
        0 <= i < s.len() && 97 <= (#[trigger] s[i]) as int && s[i] as int <= 104) && (exists|i: int|
        0 <= i < s.len() && 49 <= (#[trigger] s[i]) as int && s[i] as int <= 56))
}

/// Basic shape validation for a move token.
pub fn is_valid_san_move(san: &str) -> (r: bool)
    ensures
        r == is_valid_san_spec(san@),
{
    let n = san.unicode_len();
    if n == 3 && san.get_char(0) == 'O' && san.get_char(1) == '-' && san.get_char(2) == 'O' {
        return true;
    }
    if n == 5 && san.get_char(0) == 'O' && san.get_char(1) == '-' && san.get_char(2) == 'O'
        && san.get_char(3) == '-' && san.get_char(4) == 'O' {
        return true;
    }
    if n == 0 {
        return false;
    }
    let first = san.get_char(0);
    let fb = first as u32;
    if !(first == 'K' || first == 'Q' || first == 'R' || first == 'B' || first == 'N' || (97 <= fb
        && fb <= 104)) {
        return false;
    }
    let mut has_file: bool = false;
    let mut has_rank: bool = false;
    let mut i: usize = 0;
    while i < n
        invariant
            n == san@.len(),
            i <= n,
            has_file == (exists|j: int|
                0 <= j < i && 97 <= (#[trigger] san@[j]) as int && san@[j] as int <= 104),
            has_rank == (exists|j: int|
                0 <= j < i && 49 <= (#[trigger] san@[j]) as int && san@[j] as int <= 56),
        decreases n - i,
    {
        let cb = san.get_char(i) as u32;
        if 97 <= cb && cb <= 104 {
            has_file = true;
            proof {
                assert(97 <= san@[i as int] as int <= 104);
            }
        }
        if 49 <= cb && cb <= 56 {
            has_rank = true;
            proof {
                assert(49 <= san@[i as int] as int <= 56);
            }
        }
        i = i + 1;
    }
    has_file && has_rank
}

/// The token counts as a move number: digits, a plus sign allowed, then
/// a trailing period.
pub open spec fn is_move_number_spec(t: Seq<char>) -> bool {
    t.len() >= 1 && t[t.len() - 1] == '.' && parse_num_spec(t.take(t.len() - 1)) is Some
}

/// The moves selected from the first `i` tokens: move numbers, result
/// markers and comments skipped, annotations stripped, and only tokens
/// shaped like moves kept.
pub open spec fn moves_filter(toks: Seq<Seq<char>>, i: int) -> Seq<Seq<char>>
    decreases i,
{
    if i <= 0 {
        Seq::<Seq<char>>::empty()
    } else {
        let prev = moves_filter(toks, i - 1);
        let t = toks[i - 1];
        if is_move_number_spec(t) || is_result_tok(t) || (t.len() > 0 && t[0] == '{') {
            prev
        } else {
            let clean = strip_back_k(3, t);
            if clean.len() > 0 && is_valid_san_spec(clean) {
                prev.push(clean)
            } else {
                prev
            }
        }
    }
}

/// The moves a stretch of move text holds.
pub open spec fn parse_move_text_spec(s: Seq<char>) -> Seq<Seq<char>> {
    moves_filter(split_ws_spec(s), split_ws_spec(s).len() as int)
}

/// Extract the moves from accumulated move text.
pub fn parse_move_text(text: &str) -> (r: Result<Vec<String>, String>)
    ensures
        r matches Ok(ms) && ms@.map_values(|m: String| m@) == parse_move_text_spec(text@),
{
    let tokens = crate::text::split_ws(text);
    let ghost toks = text@;
    let ghost tseq = split_ws_spec(text@);
    let mut moves: Vec<String> = Vec::new();
    let mut i: usize = 0;
    while i < tokens.len()
        invariant
            tokens@.map_values(|t: String| t@) == tseq,
            tseq == split_ws_spec(text@),
            i <= tokens@.len(),
            moves@.map_values(|m: String| m@) == moves_filter(tseq, i as int),
        decreases tokens@.len() - i,
    {
        proof {
            assert(tokens@.map_values(|t: String| t@)[i as int] == tokens@[i as int]@);
        }
        let tok = tokens[i].as_str();
        let n = tok.unicode_len();
        let skip = {
            let is_num = if n >= 1 && tok.get_char(n - 1) == '.' {
                crate::text::parse_num(tok.substring_char(0, n - 1)).is_some()
            } else {
                false
            };
            proof {
                if n >= 1 {
                    assert(tok@.subrange(0, n - 1) =~= tok@.take(n - 1));
                }
            }
            is_num || is_result_token(tok) || (n > 0 && tok.get_char(0) == '{')
        };
        if !skip {
            let clean = strip_end(tok, 3);
            let keep = clean.as_str().unicode_len() > 0 && is_valid_san_move(clean.as_str());
            let ghost prev = moves@;
            if keep {
                moves.push(clean);
                proof {
                    assert(moves@.map_values(|m: String| m@) =~= prev.map_values(
                        |m: String| m@,
                    ).push(strip_back_k(3, tseq[i as int])));
                }
            }
        }
        i = i + 1;
    }
    Ok(moves)
}

/// The last result token among the first `i` tokens.
pub open spec fn last_result(toks: Seq<Seq<char>>, i: int) -> Option<Seq<char>>
    decreases i,
{
    if i <= 0 {
        None
    } else if is_result_tok(toks[i - 1]) {
        Some(toks[i - 1])
    } else {
        last_result(toks, i - 1)
    }
}

/// The game result the move text ends with, if any.
pub open spec fn extract_result_spec(s: Seq<char>) -> Option<Seq<char>> {
    last_result(split_ws_spec(s), split_ws_spec(s).len() as int)
}

/// Find the last result token in move text.
pub fn extract_result_from_moves(text: &str) -> (r: Option<String>)
    ensures
        match r {
            Some(v) => extract_result_spec(text@) == Some(v@),
            None => extract_result_spec(text@) is None,
        },
{
    let mut tokens = crate::text::split_ws(text);
    let ghost tseq = split_ws_spec(text@);
    let mut i: usize = tokens.len();
    while i > 0
        invariant
            tokens@.map_values(|t: String| t@) == tseq,
            tseq == split_ws_spec(text@),
            i <= tokens@.len(),
            last_result(tseq, tseq.len() as int) == last_result(tseq, i as int),
        decreases i,
    {
        proof {
            assert(tokens@.map_values(|t: String| t@)[i - 1] == tokens@[i - 1]@);
        }
        if is_result_token(tokens[i - 1].as_str()) {
            let v = tokens.remove(i - 1);
            return Some(v);
        }
        i = i - 1;
    }
    None
}


/// The key naming the result tag.
pub open spec fn result_key() -> Seq<char> {
    seq!['R', 'e', 's', 'u', 'l', 't']
}

/// The reader state after the first `i` lines: the tags as a map, the
/// result seen so far, and the accumulated move text.
pub open spec fn pgn_fold(lines: Seq<Seq<char>>, i: int) -> (
    Map<Seq<char>, Seq<char>>,
    Seq<char>,
    Seq<char>,
)
    decreases i,
{
    if i <= 0 {
        (Map::<Seq<char>, Seq<char>>::empty(), seq!['*'], Seq::<char>::empty())
    } else {
        let st = pgn_fold(lines, i - 1);
        let t = trim_spec(lines[i - 1]);
        if t.len() == 0 {
            st
        } else if t[0] == '[' && t[t.len() - 1] == ']' {
            match parse_header_line_spec(t) {
                Some(kv) => (
                    st.0.insert(kv.0, kv.1),
                    if kv.0 == result_key() {
                        kv.1
                    } else {
                        st.1
                    },
                    st.2,
                ),
                None => st,
            }
        } else {
            (st.0, st.1, st.2 + t + seq![' '])
        }
    }
}

impl PgnGame {
    /// Read a PGN record: header tags, then move text; the result comes
    /// from the result tag, or failing that from the move text's last
    /// result token.
    pub fn from_pgn(pgn_str: &str) -> (r: Result<PgnGame, String>)
        ensures
            r matches Ok(g) && {
                let lines = split_lines_spec(pgn_str@);
                let st = pgn_fold(lines, lines.len() as int);
                &&& g.wf()
                &&& forall|k: Seq<char>|
                    #[trigger] header_lookup(g.headers@, k) == if st.0.contains_key(k) {
                        Some(st.0[k])
                    } else {
                        None::<Seq<char>>
                    }
                &&& g.moves@.map_values(|m: String| m@) == parse_move_text_spec(st.2)
                &&& g.result@ == (if st.1 == seq!['*'] {
                    match extract_result_spec(st.2) {
                        Some(v) => v,
                        None => seq!['*'],
                    }
                } else {
                    st.1
                })
            },
    {
        let lines = split_lines(pgn_str);
        let ghost lseq = split_lines_spec(pgn_str@);
        let mut game = PgnGame::new();
        let mut move_text = String::new();
        let mut i: usize = 0;
        while i < lines.len()
            invariant
                lines@.map_values(|t: String| t@) == lseq,
                lseq == split_lines_spec(pgn_str@),
                i <= lines@.len(),
                game.wf(),
                game.moves@.len() == 0,
                forall|k: Seq<char>|
                    #[trigger] header_lookup(game.headers@, k) == if pgn_fold(
                        lseq,
                        i as int,
                    ).0.contains_key(k) {
                        Some(pgn_fold(lseq, i as int).0[k])
                    } else {
                        None::<Seq<char>>
                    },
                game.result@ == pgn_fold(lseq, i as int).1,
                move_text@ == pgn_fold(lseq, i as int).2,
            decreases lines@.len() - i,
        {
            proof {
                assert(lines@.map_values(|t: String| t@)[i as int] == lines@[i as int]@);
            }
            let line = trim_str(lines[i].as_str());
            let n = line.as_str().unicode_len();
            let ghost t = trim_spec(lseq[i as int]);
            if n == 0 {
            } else if line.as_str().get_char(0) == '[' && line.as_str().get_char(n - 1) == ']' {
                match parse_header_line(line.as_str()) {
                    Some((key, value)) => {
                        let is_result = str_eq(key.as_str(), "Result");
                        proof {
                            reveal_strlit("Result");
                            assert("Result"@ =~= result_key());
                        }
                        if is_result {
                            game.result = value.clone();
                        }
                        let ghost prev_headers = game.headers@;
                        game.set_header(key, value);
                        proof {
                            let st = pgn_fold(lseq, i as int);
                            let kv = parse_header_line_spec(t)->0;
                            assert forall|k: Seq<char>|
                                #[trigger] header_lookup(game.headers@, k) == if st.0.insert(
                                    kv.0,
                                    kv.1,
                                ).contains_key(k) {
                                    Some(st.0.insert(kv.0, kv.1)[k])
                                } else {
                                    None::<Seq<char>>
                                } by {
                                if k == kv.0 {
                                } else {
                                    assert(header_lookup(game.headers@, k) == header_lookup(
                                        prev_headers,
                                        k,
                                    ));
                                }
                            }
                        }
                    },
                    None => {},
                }
            } else {
                move_text.append(line.as_str());
                move_text.push(' ');
                proof {
                    assert(move_text@ =~= pgn_fold(lseq, i as int).2 + t + seq![' ']);
                }
            }
            i = i + 1;
        }
        let moves = match parse_move_text(move_text.as_str()) {
            Ok(ms) => ms,
            Err(e) => {
                return Err(e);
            },
        };
        game.moves = moves;
        let still_open = str_eq(game.result.as_str(), "*");
        proof {
            reveal_strlit("*");
            assert("*"@ =~= seq!['*']);
        }
        if still_open {
            match extract_result_from_moves(move_text.as_str()) {
                Some(res) => {
                    game.result = res;
                },
                None => {},
            }
        }
        Ok(game)
    }
}


/// One written header line: the bracketed key and quoted value.
pub open spec fn header_line_text(k: Seq<char>, v: Seq<char>) -> Seq<char> {
    seq!['['] + k + seq![' ', '"'] + v + seq!['"', ']', '\n']
}

/// The i-th standard tag name, in the order they are written.
pub open spec fn ordered_name(i: int) -> Seq<char> {
    if i == 0 {
        seq!['E', 'v', 'e', 'n', 't']
    } else if i == 1 {
        seq!['S', 'i', 't', 'e']
    } else if i == 2 {
        seq!['D', 'a', 't', 'e']
    } else if i == 3 {
        seq!['R', 'o', 'u', 'n', 'd']
    } else if i == 4 {
        seq!['W', 'h', 'i', 't', 'e']
    } else if i == 5 {
        seq!['B', 'l', 'a', 'c', 'k']
    } else {
        seq!['R', 'e', 's', 'u', 'l', 't']
    }
}

/// Is the key one of the seven standard tag names?
pub open spec fn is_ordered_key(k: Seq<char>) -> bool {
    ||| k == ordered_name(0)
    ||| k == ordered_name(1)
    ||| k == ordered_name(2)
    ||| k == ordered_name(3)
    ||| k == ordered_name(4)
    ||| k == ordered_name(5)
    ||| k == ordered_name(6)
}

/// The standard tags' lines from the i-th name on, present tags only.
pub open spec fn ordered_part(hs: Seq<(String, String)>, i: int) -> Seq<char>
    decreases 7 - i,
{
    if i >= 7 {
        Seq::<char>::empty()
    } else {
        (match header_lookup(hs, ordered_name(i)) {
            Some(v) => header_line_text(ordered_name(i), v),
            None => Seq::<char>::empty(),
        }) + ordered_part(hs, i + 1)
    }
}

/// Insert an entry into a key-sorted run, keeping it sorted.
pub open spec fn insert_sorted(sorted: Seq<(String, String)>, e: (String, String)) -> Seq<
    (String, String),
>
    decreases sorted.len(),
{
    if sorted.len() == 0 {
        seq![e]
    } else if lex_lt(e.0@, sorted[0].0@) {
        seq![e] + sorted
    } else {
        seq![sorted[0]] + insert_sorted(sorted.drop_first(), e)
    }
}

/// The non-standard tags among the first `i`, sorted by key.
pub open spec fn others_fold(hs: Seq<(String, String)>, i: int) -> Seq<(String, String)>
    decreases i,
{
    if i <= 0 {
        Seq::<(String, String)>::empty()
    } else {
        let prev = others_fold(hs, i - 1);
        if is_ordered_key(hs[i - 1].0@) {
            prev
        } else {
            insert_sorted(prev, hs[i - 1])
        }
    }
}

/// The written lines of the sorted non-standard tags, from index `i` on.
pub open spec fn others_lines(sorted: Seq<(String, String)>, i: int) -> Seq<char>
    decreases sorted.len() - i,
{
    if i < 0 || i >= sorted.len() {
        Seq::<char>::empty()
    } else {
        header_line_text(sorted[i].0@, sorted[i].1@) + others_lines(sorted, i + 1)
    }
}

/// The text a move contributes: its number and a period first for a
/// white move, then the move and a space.
pub open spec fn move_token_text(i: int, m: Seq<char>) -> Seq<char> {
    if i % 2 == 0 {
        dec_rep(i / 2 + 1) + seq!['.', ' '] + m + seq![' ']
    } else {
        m + seq![' ']
    }
}

/// The move section after the first `i` moves: the finished text and
/// the line being filled, wrapped when a line would pass eighty
/// characters.
pub open spec fn moves_fold(ms: Seq<String>, i: int) -> (Seq<char>, Seq<char>)
    decreases i,
{
    if i <= 0 {
        (Seq::<char>::empty(), Seq::<char>::empty())
    } else {
        let st = moves_fold(ms, i - 1);
        let t = move_token_text(i - 1, ms[i - 1]@);
        if st.1.len() + t.len() > 80 {
            (st.0 + st.1 + seq!['\n'], t)
        } else {
            (st.0, st.1 + t)
        }
    }
}

/// The full written record: standard tags, other tags sorted by name, a
/// blank line, the wrapped moves, and the result.
pub open spec fn to_pgn_spec(g: PgnGame) -> Seq<char> {
    let sorted = others_fold(g.headers@, g.headers@.len() as int);
    let mv = moves_fold(g.moves@, g.moves@.len() as int);
    ordered_part(g.headers@, 0) + others_lines(sorted, 0) + seq!['\n'] + mv.0 + mv.1 + g.result@
        + seq!['\n']
}

/// Append one written header line.
fn push_header_line(s: &mut String, k: &str, v: &str)
    ensures
        final (s)@ == old(s)@ + header_line_text(k@, v@),
{
    s.push('[');
    s.append(k);
    s.push(' ');
    s.push('"');
    s.append(v);
    s.push('"');
    s.push(']');
    s.push('\n');
    proof {
        assert(final (s)@ =~= old(s)@ + header_line_text(k@, v@));
    }
}

/// An entry inserted where every earlier key precedes it lands at that
/// position.
proof fn lemma_insert_sorted_at(sorted: Seq<(String, String)>, e: (String, String), pos: int)
    requires
        0 <= pos <= sorted.len(),
        forall|j: int| 0 <= j < pos ==> !lex_lt(e.0@, (#[trigger] sorted[j]).0@),
        pos == sorted.len() || lex_lt(e.0@, sorted[pos].0@),
    ensures
        insert_sorted(sorted, e) == sorted.take(pos) + seq![e] + sorted.skip(pos),
    decreases sorted.len(),
{
    if sorted.len() == 0 {
        assert(insert_sorted(sorted, e) =~= sorted.take(pos) + seq![e] + sorted.skip(pos));
    } else if lex_lt(e.0@, sorted[0].0@) {
        assert(pos == 0);
        assert(insert_sorted(sorted, e) =~= sorted.take(0) + seq![e] + sorted.skip(0));
    } else {
        assert(pos > 0);
        lemma_insert_sorted_at(sorted.drop_first(), e, pos - 1);
        assert(seq![sorted[0]] + (sorted.drop_first().take(pos - 1) + seq![e]
            + sorted.drop_first().skip(pos - 1)) =~= sorted.take(pos) + seq![e] + sorted.skip(
            pos,
        ));
    }
}

impl PgnGame {
    /// Write the record out.
    #[verifier::rlimit(100)]
    pub fn to_pgn(&self) -> (r: String)
        ensures
            r@ == to_pgn_spec(*self),
    {
        let ghost hs = self.headers@;
        let mut names: Vec<&str> = Vec::new();
        names.push("Event");
        names.push("Site");
        names.push("Date");
        names.push("Round");
        names.push("White");
        names.push("Black");
        names.push("Result");
        proof {
            reveal_strlit("Event");
            reveal_strlit("Site");
            reveal_strlit("Date");
            reveal_strlit("Round");
            reveal_strlit("White");
            reveal_strlit("Black");
            reveal_strlit("Result");
            assert(names@[0]@ =~= ordered_name(0));
            assert(names@[1]@ =~= ordered_name(1));
            assert(names@[2]@ =~= ordered_name(2));
            assert(names@[3]@ =~= ordered_name(3));
            assert(names@[4]@ =~= ordered_name(4));
            assert(names@[5]@ =~= ordered_name(5));
            assert(names@[6]@ =~= ordered_name(6));
        }
        let mut pgn = String::new();
        let mut i: usize = 0;
        while i < 7
            invariant
                hs == self.headers@,
                names@.len() == 7,
                forall|j: int| 0 <= j < 7 ==> (#[trigger] names@[j])@ == ordered_name(j),
                i <= 7,
                ordered_part(hs, 0) == pgn@ + ordered_part(hs, i as int),
            decreases 7 - i,
        {
            let ghost before = pgn@;
            match self.get_header(names[i]) {
                Some(v) => {
                    push_header_line(&mut pgn, names[i], v.as_str());
                },
                None => {},
            }
            proof {
                assert(ordered_part(hs, 0) =~= pgn@ + ordered_part(hs, i + 1));
            }
            i = i + 1;
        }
        let mut others: Vec<(String, String)> = Vec::new();
        let mut i: usize = 0;
        while i < self.headers.len()
            invariant
                hs == self.headers@,
                names@.len() == 7,
                forall|j: int| 0 <= j < 7 ==> (#[trigger] names@[j])@ == ordered_name(j),
                i <= hs.len(),
                others@ == others_fold(hs, i as int),
            decreases hs.len() - i,
        {
            let key = &self.headers[i].0;
            let mut ordered = false;
            let mut j: usize = 0;
            while j < 7
                invariant
                    hs == self.headers@,
                    i < hs.len(),
                    key == &hs[i as int].0,
                    names@.len() == 7,
                    forall|jj: int| 0 <= jj < 7 ==> (#[trigger] names@[jj])@ == ordered_name(jj),
                    j <= 7,
                    ordered == exists|jj: int| 0 <= jj < j && key@ == ordered_name(jj),
                decreases 7 - j,
            {
                if str_eq(key.as_str(), names[j]) {
                    ordered = true;
                    proof {
                        assert(key@ == ordered_name(j as int));
                    }
                }
                j = j + 1;
            }
            if !ordered {
                let e = (self.headers[i].0.clone(), self.headers[i].1.clone());
                proof {
                    assert(e.0@ == hs[i as int].0@ && e.1@ == hs[i as int].1@);
                }
                let ghost before = others@;
                let n = others.len();
                let mut pos: usize = 0;
                loop
                    invariant
                        others@ == before,
                        n == before.len(),
                        pos <= n,
                        forall|jj: int|
                            0 <= jj < pos ==> !lex_lt(e.0@, (#[trigger] before[jj]).0@),
                    ensures
                        others@ == before,
                        pos <= n,
                        forall|jj: int|
                            0 <= jj < pos ==> !lex_lt(e.0@, (#[trigger] before[jj]).0@),
                        pos == n || lex_lt(e.0@, before[pos as int].0@),
                    decreases n - pos,
                {
                    if pos >= n {
                        break ;
                    }
                    if str_lex_lt(e.0.as_str(), others[pos].0.as_str()) {
                        break ;
                    }
                    pos = pos + 1;
                }
                proof {
                    lemma_insert_sorted_at(before, e, pos as int);
                }
                others.insert(pos, e);
                proof {
                    assert(others@ =~= before.take(pos as int) + seq![others@[pos as int]]
                        + before.skip(pos as int));
                    assert(hs[i as int] == (hs[i as int].0, hs[i as int].1));
                    assert(insert_sorted(before, e) =~= others@);
                }
            }
            i = i + 1;
        }
        proof {
            assert(others@ == others_fold(hs, hs.len() as int));
        }
        let ghost sorted = others@;
        let mut i: usize = 0;
        while i < others.len()
            invariant
                sorted == others@,
                i <= sorted.len(),
                pgn@ + others_lines(sorted, i as int) == ordered_part(hs, 0) + others_lines(
                    sorted,
                    0,
                ),
                hs == self.headers@,
            decreases sorted.len() - i,
        {
            push_header_line(&mut pgn, others[i].0.as_str(), others[i].1.as_str());
            proof {
                assert(pgn@ + others_lines(sorted, i + 1) =~= ordered_part(hs, 0) + others_lines(
                    sorted,
                    0,
                ));
            }
            i = i + 1;
        }
        pgn.push('\n');
        let ghost head = pgn@;
        proof {
            assert(head =~= ordered_part(hs, 0) + others_lines(sorted, 0) + seq!['\n']);
        }
        let ghost ms = self.moves@;
        let mut line = String::new();
        let mut i: usize = 0;
        while i < self.moves.len()
            invariant
                ms == self.moves@,
                i <= ms.len(),
                pgn@ == head + moves_fold(ms, i as int).0,
                line@ == moves_fold(ms, i as int).1,
                head == ordered_part(hs, 0) + others_lines(sorted, 0) + seq!['\n'],
                hs == self.headers@,
                sorted == others_fold(hs, hs.len() as int),
            decreases ms.len() - i,
        {
            let mut tmp = String::new();
            if i % 2 == 0 {
                push_decimal(&mut tmp, (i / 2 + 1) as u64);
                tmp.push('.');
                tmp.push(' ');
                tmp.append(self.moves[i].as_str());
                tmp.push(' ');
            } else {
                tmp.append(self.moves[i].as_str());
                tmp.push(' ');
            }
            proof {
                assert(tmp@ =~= move_token_text(i as int, ms[i as int]@));
            }
            let ll = line.as_str().unicode_len();
            let tl = tmp.as_str().unicode_len();
            if ll > 80 || tl > 80 - ll {
                pgn.append(line.as_str());
                pgn.push('\n');
                line = tmp;
                proof {
                    assert(pgn@ =~= head + moves_fold(ms, i + 1).0);
                }
            } else {
                line.append(tmp.as_str());
            }
            i = i + 1;
        }
        pgn.append(line.as_str());
        pgn.append(self.result.as_str());
        pgn.push('\n');
        proof {
            assert(pgn@ =~= to_pgn_spec(*self));
        }
        pgn
    }
}

} // verus!
