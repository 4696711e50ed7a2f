//! Text building blocks shared by the notation and record writers.

use vstd::prelude::*;

verus! {

/// Relies on String::push: appends the given character to the string.
pub assume_specification[ String::push ](s: &mut String, ch: char)
    ensures
        final (s)@ == old(s)@.push(ch),
;

/// The decimal digit character for a value below ten.
pub open spec fn digit_char(d: int) -> char
    recommends
        0 <= d <= 9,
{
    (48 + d) as char
}

/// The decimal numeral of a nonnegative number, most significant digit
/// first.
pub open spec fn dec_rep(n: int) -> Seq<char>
    recommends
        n >= 0,
    decreases n,
{
    if n < 10 {
        seq![digit_char(n)]
    } else {
        dec_rep(n / 10).push(digit_char(n % 10))
    }
}

/// Append the decimal numeral of `n`.
pub fn push_decimal(s: &mut String, n: u64)
    ensures
        final (s)@ == old(s)@ + dec_rep(n as int),
    decreases n,
{
    if n < 10 {
        s.push((48 + n as u8) as char);
        proof {
            assert(final (s)@ =~= old(s)@ + dec_rep(n as int));
        }
    } else {
        push_decimal(s, n / 10);
        s.push((48 + (n % 10) as u8) as char);
        proof {
            assert(final (s)@ =~= old(s)@ + dec_rep(n as int));
        }
    }
}


/// An ASCII whitespace separator, as the record formats use.
pub open spec fn is_ws(c: char) -> bool {
    c == ' ' || c == '\t' || c == '\n' || c == '\r'
}

/// The tokenizer state after the first `i` characters: the finished
/// tokens and the token being read.
pub open spec fn split_fold(s: Seq<char>, i: int) -> (Seq<Seq<char>>, Seq<char>)
    decreases i,
{
    if i <= 0 {
        (Seq::<Seq<char>>::empty(), Seq::<char>::empty())
    } else {
        let prev = split_fold(s, i - 1);
        let c = s[i - 1];
        if is_ws(c) {
            if prev.1.len() > 0 {
                (prev.0.push(prev.1), Seq::<char>::empty())
            } else {
                prev
            }
        } else {
            (prev.0, prev.1.push(c))
        }
    }
}

/// The whitespace-separated tokens of a string.
pub open spec fn split_ws_spec(s: Seq<char>) -> Seq<Seq<char>> {
    let st = split_fold(s, s.len() as int);
    if st.1.len() > 0 {
        st.0.push(st.1)
    } else {
        st.0
    }
}

/// Split a string on runs of ASCII whitespace.
pub fn split_ws(s: &str) -> (r: Vec<String>)
    ensures
        r@.map_values(|t: String| t@) == split_ws_spec(s@),
{
    let n = s.unicode_len();
    let mut out: Vec<String> = Vec::new();
    let mut cur = String::new();
    let mut has_cur: bool = false;
    let mut i: usize = 0;
    while i < n
        invariant
            n == s@.len(),
            i <= n,
            has_cur == (cur@.len() > 0),
            out@.map_values(|t: String| t@) == split_fold(s@, i as int).0,
            cur@ == split_fold(s@, i as int).1,
        decreases n - i,
    {
        let c = s.get_char(i);
        let ghost prev_out = out@;
        if c == ' ' || c == '\t' || c == '\n' || c == '\r' {
            if has_cur {
                out.push(cur);
                cur = String::new();
                has_cur = false;
                proof {
                    assert(out@.map_values(|t: String| t@) =~= prev_out.map_values(
                        |t: String| t@,
                    ).push(split_fold(s@, i as int).1));
                }
            }
        } else {
            cur.push(c);
            has_cur = true;
        }
        i = i + 1;
    }
    if has_cur {
        let ghost prev_out = out@;
        out.push(cur);
        proof {
            assert(out@.map_values(|t: String| t@) =~= prev_out.map_values(|t: String| t@).push(
                split_fold(s@, s@.len() as int).1,
            ));
        }
    }
    out
}

/// A decimal digit character.
pub open spec fn is_ascii_digit(c: char) -> bool {
    48 <= c as int && c as int <= 57
}

/// The value of a digit run, read left to right and saturated at
/// 100000, or none when a non-digit appears.  The saturation point lies
/// above every value the record formats accept, so an overflowing run
/// is still recognized as too large.
pub open spec fn digits_value(s: Seq<char>, i: int) -> Option<int>
    decreases i,
{
    if i <= 0 {
        Some(0)
    } else {
        match digits_value(s, i - 1) {
            None => None,
            Some(v) => if is_ascii_digit(s[i - 1]) {
                if v > 65535 {
                    Some(100000)
                } else {
                    Some(v * 10 + (s[i - 1] as int - 48))
                }
            } else {
                None
            },
        }
    }
}

/// The number a token denotes: an optional leading plus sign, then one
/// or more digits; saturated at 100000.
pub open spec fn parse_num_spec(s: Seq<char>) -> Option<int> {
    if s.len() >= 2 && s[0] == '+' {
        digits_value(s.skip(1), s.len() - 1)
    } else if s.len() >= 1 {
        digits_value(s, s.len() as int)
    } else {
        None
    }
}

/// Read a token as a nonnegative number, saturated above 65535.
pub fn parse_num(s: &str) -> (r: Option<u32>)
    ensures
        r == match parse_num_spec(s@) {
            Some(v) => Some(v as u32),
            None => None::<u32>,
        },
{
    let n = s.unicode_len();
    if n == 0 {
        return None;
    }
    let start: usize = if n >= 2 && s.get_char(0) == '+' {
        1
    } else {
        0
    };
    let ghost digits = if start == 1 {
        s@.skip(1)
    } else {
        s@
    };
    let mut v: u32 = 0;
    let mut i: usize = start;
    while i < n
        invariant
            n == s@.len(),
            start <= i <= n,
            start == 0 || start == 1,
            (start == 1) == (n >= 2 && s@[0] == '+'),
            digits == (if start == 1 {
                s@.skip(1)
            } else {
                s@
            }),
            digits_value(digits, i - start) == Some(v as int),
            v <= 655359,
        decreases n - i,
    {
        let c = s.get_char(i);
        let cb = c as u32;
        if cb < 48 || cb > 57 {
            proof {
                assert(digits[i - start] == s@[i as int]);
                assert(digits_value(digits, i + 1 - start) is None);
                lemma_digits_none(digits, i + 1 - start, digits.len() as int);
                assert(digits.len() as int == n - start);
                assert(digits_value(digits, n - start) is None);
                assert(parse_num_spec(s@) is None);
            }
            return None;
        }
        proof {
            assert(digits[i - start] == s@[i as int]);
        }
        if v > 65535 {
            v = 100000;
        } else {
            v = v * 10 + (cb - 48);
        }
        i = i + 1;
    }
    Some(v)
}

/// A digit run's value stays below the saturation ceiling.
pub proof fn lemma_digits_value_bound(s: Seq<char>, i: int)
    ensures
        digits_value(s, i) matches Some(v) ==> 0 <= v <= 655359,
    decreases i,
{
    if i > 0 {
        lemma_digits_value_bound(s, i - 1);
    }
}

/// A failed digit stays failed as the run extends.
proof fn lemma_digits_none(s: Seq<char>, i: int, n: int)
    requires
        0 <= i <= n,
        digits_value(s, i) is None,
    ensures
        digits_value(s, n) is None,
    decreases n - i,
{
    if i < n {
        lemma_digits_none(s, i + 1, n);
    }
}


/// The string without its leading whitespace.
pub open spec fn trim_front(s: Seq<char>) -> Seq<char>
    decreases s.len(),
{
    if s.len() > 0 && is_ws(s[0]) {
        trim_front(s.drop_first())
    } else {
        s
    }
}

/// The string without its trailing whitespace.
pub open spec fn trim_back(s: Seq<char>) -> Seq<char>
    decreases s.len(),
{
    if s.len() > 0 && is_ws(s[s.len() - 1]) {
        trim_back(s.drop_last())
    } else {
        s
    }
}

/// The string without leading or trailing whitespace.
pub open spec fn trim_spec(s: Seq<char>) -> Seq<char> {
    trim_back(trim_front(s))
}

proof fn lemma_trim_front_skip(s: Seq<char>, a: int)
    requires
        0 <= a <= s.len(),
        forall|j: int| 0 <= j < a ==> is_ws(s[j]),
        a == s.len() || !is_ws(s[a]),
    ensures
        trim_front(s) == s.skip(a),
    decreases a,
{
    if a == 0 {
        assert(s.skip(0) =~= s);
    } else {
        assert(is_ws(s[0]));
        lemma_trim_front_skip(s.drop_first(), a - 1);
        assert(s.drop_first().skip(a - 1) =~= s.skip(a));
    }
}

proof fn lemma_trim_back_take(s: Seq<char>, b: int)
    requires
        0 <= b <= s.len(),
        forall|j: int| b <= j < s.len() ==> is_ws(s[j]),
        b == 0 || !is_ws(s[b - 1]),
    ensures
        trim_back(s) == s.take(b),
    decreases s.len() - b,
{
    if b == s.len() {
        assert(s.take(b) =~= s);
        if s.len() > 0 {
            assert(!is_ws(s[s.len() - 1]));
        }
    } else {
        assert(is_ws(s[s.len() - 1]));
        lemma_trim_back_take(s.drop_last(), b);
        assert(s.drop_last().take(b) =~= s.take(b));
    }
}

/// Copy a string without its leading and trailing whitespace.
pub fn trim_str(s: &str) -> (r: String)
    ensures
        r@ == trim_spec(s@),
{
    let n = s.unicode_len();
    let mut a: usize = 0;
    loop
        invariant
            n == s@.len(),
            a <= n,
            forall|j: int| 0 <= j < a ==> is_ws(s@[j]),
        ensures
            a <= n,
            forall|j: int| 0 <= j < a ==> is_ws(s@[j]),
            a == n || !is_ws(s@[a as int]),
        decreases n - a,
    {
        if a >= n {
            break;
        }
        let c = s.get_char(a);
        if !(c == ' ' || c == '\t' || c == '\n' || c == '\r') {
            break;
        }
        a = a + 1;
    }
    let mut b: usize = n;
    loop
        invariant
            n == s@.len(),
            a <= b <= n,
            forall|j: int| b <= j < n ==> is_ws(s@[j]),
        ensures
            a <= b <= n,
            forall|j: int| b <= j < n ==> is_ws(s@[j]),
            b == a || !is_ws(s@[b - 1]),
        decreases b,
    {
        if b <= a {
            break;
        }
        let c = s.get_char(b - 1);
        if !(c == ' ' || c == '\t' || c == '\n' || c == '\r') {
            break;
        }
        b = b - 1;
    }
    let mut out = String::new();
    let mut i: usize = a;
    while i < b
        invariant
            n == s@.len(),
            a <= i <= b <= n,
            out@ == s@.subrange(a as int, i as int),
        decreases b - i,
    {
        out.push(s.get_char(i));
        proof {
            assert(out@ =~= s@.subrange(a as int, i + 1));
        }
        i = i + 1;
    }
    proof {
        lemma_trim_front_skip(s@, a as int);
        if b == a {
            lemma_trim_back_take(s@.skip(a as int), 0);
        } else {
            assert(!is_ws(s@[b - 1]));
            lemma_trim_back_take(s@.skip(a as int), b - a);
        }
        assert(s@.skip(a as int).take(b - a) =~= s@.subrange(a as int, b as int));
        assert(out@ =~= trim_spec(s@));
    }
    out
}

/// The newline-separated segments of a string, empty segments dropped.
pub open spec fn lines_fold(s: Seq<char>, i: int) -> (Seq<Seq<char>>, Seq<char>)
    decreases i,
{
    if i <= 0 {
        (Seq::<Seq<char>>::empty(), Seq::<char>::empty())
    } else {
        let prev = lines_fold(s, i - 1);
        let c = s[i - 1];
        if c == '\n' {
            if prev.1.len() > 0 {
                (prev.0.push(prev.1), Seq::<char>::empty())
            } else {
                prev
            }
        } else {
            (prev.0, prev.1.push(c))
        }
    }
}

pub open spec fn split_lines_spec(s: Seq<char>) -> Seq<Seq<char>> {
    let st = lines_fold(s, s.len() as int);
    if st.1.len() > 0 {
        st.0.push(st.1)
    } else {
        st.0
    }
}

/// Split a string on newlines, dropping empty segments.
pub fn split_lines(s: &str) -> (r: Vec<String>)
    ensures
        r@.map_values(|t: String| t@) == split_lines_spec(s@),
{
    let n = s.unicode_len();
    let mut out: Vec<String> = Vec::new();
    let mut cur = String::new();
    let mut has_cur: bool = false;
    let mut i: usize = 0;
    while i < n
        invariant
            n == s@.len(),
            i <= n,
            has_cur == (cur@.len() > 0),
            out@.map_values(|t: String| t@) == lines_fold(s@, i as int).0,
            cur@ == lines_fold(s@, i as int).1,
        decreases n - i,
    {
        let c = s.get_char(i);
        let ghost prev_out = out@;
        if c == '\n' {
            if has_cur {
                out.push(cur);
                cur = String::new();
                has_cur = false;
                proof {
                    assert(out@.map_values(|t: String| t@) =~= prev_out.map_values(
                        |t: String| t@,
                    ).push(lines_fold(s@, i as int).1));
                }
            }
        } else {
            cur.push(c);
            has_cur = true;
        }
        i = i + 1;
    }
    if has_cur {
        let ghost prev_out = out@;
        out.push(cur);
        proof {
            assert(out@.map_values(|t: String| t@) =~= prev_out.map_values(|t: String| t@).push(
                lines_fold(s@, s@.len() as int).1,
            ));
        }
    }
    out
}

/// Lexicographic order on character sequences, read from position `i`.
pub open spec fn lex_lt_from(a: Seq<char>, b: Seq<char>, i: int) -> bool
    decreases a.len() + b.len() - i,
{
    if i >= a.len() && i >= b.len() {
        false
    } else if i >= a.len() {
        true
    } else if i >= b.len() {
        false
    } else if (a[i] as int) < (b[i] as int) {
        true
    } else if (a[i] as int) > (b[i] as int) {
        false
    } else {
        lex_lt_from(a, b, i + 1)
    }
}

/// Lexicographic order on character sequences.
pub open spec fn lex_lt(a: Seq<char>, b: Seq<char>) -> bool {
    lex_lt_from(a, b, 0)
}

/// Compare two strings lexicographically by character.
pub fn str_lex_lt(a: &str, b: &str) -> (r: bool)
    ensures
        r == lex_lt(a@, b@),
{
    let na = a.unicode_len();
    let nb = b.unicode_len();
    let mut i: usize = 0;
    loop
        invariant
            na == a@.len(),
            nb == b@.len(),
            i <= na,
            i <= nb,
            lex_lt(a@, b@) == lex_lt_from(a@, b@, i as int),
        decreases na + nb - i,
    {
        if i >= na && i >= nb {
            return false;
        }
        if i >= na {
            return true;
        }
        if i >= nb {
            return false;
        }
        let ca = a.get_char(i) as u32;
        let cb = b.get_char(i) as u32;
        if ca < cb {
            return true;
        }
        if ca > cb {
            return false;
        }
        i = i + 1;
    }
}


/// Character classes the record formats strip from token ends: 0 is
/// whitespace, 1 the header brackets, 2 the quote, 3 the annotations.
pub open spec fn in_class(k: int, c: char) -> bool {
    if k == 0 {
        is_ws(c)
    } else if k == 1 {
        c == '[' || c == ']'
    } else if k == 2 {
        c == '"'
    } else {
        c == '!' || c == '?'
    }
}

/// The string without its leading class-`k` characters.
pub open spec fn strip_front_k(k: int, s: Seq<char>) -> Seq<char>
    decreases s.len(),
{
    if s.len() > 0 && in_class(k, s[0]) {
        strip_front_k(k, s.drop_first())
    } else {
        s
    }
}

/// The string without its trailing class-`k` characters.
pub open spec fn strip_back_k(k: int, s: Seq<char>) -> Seq<char>
    decreases s.len(),
{
    if s.len() > 0 && in_class(k, s[s.len() - 1]) {
        strip_back_k(k, s.drop_last())
    } else {
        s
    }
}

proof fn lemma_strip_front_k_skip(k: int, s: Seq<char>, a: int)
    requires
        0 <= a <= s.len(),
        forall|j: int| 0 <= j < a ==> in_class(k, s[j]),
        a == s.len() || !in_class(k, s[a]),
    ensures
        strip_front_k(k, s) == s.skip(a),
    decreases a,
{
    if a == 0 {
        assert(s.skip(0) =~= s);
    } else {
        lemma_strip_front_k_skip(k, s.drop_first(), a - 1);
        assert(s.drop_first().skip(a - 1) =~= s.skip(a));
    }
}

proof fn lemma_strip_back_k_take(k: int, s: Seq<char>, b: int)
    requires
        0 <= b <= s.len(),
        forall|j: int| b <= j < s.len() ==> in_class(k, s[j]),
        b == 0 || !in_class(k, s[b - 1]),
    ensures
        strip_back_k(k, s) == s.take(b),
    decreases s.len() - b,
{
    if b == s.len() {
        assert(s.take(b) =~= s);
    } else {
        lemma_strip_back_k_take(k, s.drop_last(), b);
        assert(s.drop_last().take(b) =~= s.take(b));
    }
}

/// Does the character belong to the class?
fn class_test(k: u8, c: char) -> (r: bool)
    ensures
        r == in_class(k as int, c),
{
    if k == 0 {
        c == ' ' || c == '\t' || c == '\n' || c == '\r'
    } else if k == 1 {
        c == '[' || c == ']'
    } else if k == 2 {
        c == '"'
    } else {
        c == '!' || c == '?'
    }
}

/// Copy a string without the class-`k` characters at either end.
pub fn strip_both(s: &str, k: u8) -> (r: String)
    ensures
        r@ == strip_back_k(k as int, strip_front_k(k as int, s@)),
{
    let n = s.unicode_len();
    let mut a: usize = 0;
    loop
        invariant
            n == s@.len(),
            a <= n,
            forall|j: int| 0 <= j < a ==> in_class(k as int, s@[j]),
        ensures
            a <= n,
            forall|j: int| 0 <= j < a ==> in_class(k as int, s@[j]),
            a == n || !in_class(k as int, s@[a as int]),
        decreases n - a,
    {
        if a >= n {
            break;
        }
        if !class_test(k, s.get_char(a)) {
            break;
        }
        a = a + 1;
    }
    let mut b: usize = n;
    loop
        invariant
            n == s@.len(),
            a <= b <= n,
            forall|j: int| b <= j < n ==> in_class(k as int, s@[j]),
        ensures
            a <= b <= n,
            forall|j: int| b <= j < n ==> in_class(k as int, s@[j]),
            b == a || !in_class(k as int, s@[b - 1]),
        decreases b,
    {
        if b <= a {
            break;
        }
        if !class_test(k, s.get_char(b - 1)) {
            break;
        }
        b = b - 1;
    }
    let mut out = String::new();
    let mut i: usize = a;
    while i < b
        invariant
            n == s@.len(),
            a <= i <= b <= n,
            out@ == s@.subrange(a as int, i as int),
        decreases b - i,
    {
        out.push(s.get_char(i));
        proof {
            assert(out@ =~= s@.subrange(a as int, i + 1));
        }
        i = i + 1;
    }
    proof {
        lemma_strip_front_k_skip(k as int, s@, a as int);
        if b == a {
            lemma_strip_back_k_take(k as int, s@.skip(a as int), 0);
        } else {
            lemma_strip_back_k_take(k as int, s@.skip(a as int), b - a);
        }
        assert(s@.skip(a as int).take(b - a) =~= s@.subrange(a as int, b as int));
        assert(out@ =~= strip_back_k(k as int, strip_front_k(k as int, s@)));
    }
    out
}

/// Copy a string without the class-`k` characters at its end.
pub fn strip_end(s: &str, k: u8) -> (r: String)
    ensures
        r@ == strip_back_k(k as int, s@),
{
    let n = s.unicode_len();
    let mut b: usize = n;
    loop
        invariant
            n == s@.len(),
            b <= n,
            forall|j: int| b <= j < n ==> in_class(k as int, s@[j]),
        ensures
            b <= n,
            forall|j: int| b <= j < n ==> in_class(k as int, s@[j]),
            b == 0 || !in_class(k as int, s@[b - 1]),
        decreases b,
    {
        if b == 0 {
            break;
        }
        if !class_test(k, s.get_char(b - 1)) {
            break;
        }
        b = b - 1;
    }
    let mut out = String::new();
    let mut i: usize = 0;
    while i < b
        invariant
            n == s@.len(),
            i <= b <= n,
            out@ == s@.subrange(0, i as int),
        decreases b - i,
    {
        out.push(s.get_char(i));
        proof {
            assert(out@ =~= s@.subrange(0, i + 1));
        }
        i = i + 1;
    }
    proof {
        lemma_strip_back_k_take(k as int, s@, b as int);
        assert(s@.take(b as int) =~= s@.subrange(0, b as int));
        assert(out@ =~= strip_back_k(k as int, s@));
    }
    out
}

/// The position of the first space character, searching from `i`.
pub open spec fn first_space(s: Seq<char>, i: int) -> Option<int>
    decreases s.len() - i,
{
    if i < 0 || i >= s.len() {
        None
    } else if s[i] == ' ' {
        Some(i)
    } else {
        first_space(s, i + 1)
    }
}

/// Find the first space character.
pub fn find_space(s: &str) -> (r: Option<usize>)
    ensures
        r == match first_space(s@, 0) {
            Some(p) => Some(p as usize),
            None => None::<usize>,
        },
        r matches Some(p) ==> p < s@.len() && s@[p as int] == ' ',
        first_space(s@, 0) matches Some(q) ==> 0 <= q < s@.len(),
{
    let n = s.unicode_len();
    let mut i: usize = 0;
    while i < n
        invariant
            n == s@.len(),
            i <= n,
            first_space(s@, 0) == first_space(s@, i as int),
        decreases n - i,
    {
        if s.get_char(i) == ' ' {
            proof {
                assert(s@[i as int] == ' ');
                assert(first_space(s@, i as int) == Some(i as int));
            }
            return Some(i);
        }
        i = i + 1;
    }
    None
}

} // verus!
