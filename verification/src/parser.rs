use vstd::prelude::*;

use crate::actions::ActionEvent;
use crate::coord::Coord;
use crate::store::Piece;

verus! {

/// Index of the first occurrence of `ch` in `s`, or `-1` when absent.
pub open spec fn find_char(s: Seq<char>, ch: char) -> int
    decreases s.len(),
{
    if s.len() == 0 {
        -1
    } else if s[0] == ch {
        0
    } else if find_char(s.skip(1), ch) == -1 {
        -1
    } else {
        1 + find_char(s.skip(1), ch)
    }
}

/// An ASCII decimal digit.
pub open spec fn is_digit(c: char) -> bool {
    '0' as int <= c as int <= '9' as int
}

/// Numeric value of one digit character.
pub open spec fn digit_val(c: char) -> int {
    c as int - '0' as int
}

/// Whether every character of `s` is a digit.
pub open spec fn all_digits(s: Seq<char>) -> bool {
    forall|i: int| 0 <= i < s.len() ==> is_digit(#[trigger] s[i])
}

/// Value of a digit string read most-significant first.
pub open spec fn digits_val(s: Seq<char>) -> int
    decreases s.len(),
{
    if s.len() == 0 {
        0
    } else {
        digits_val(s.drop_last()) * 10 + digit_val(s.last())
    }
}

/// Mathematical reading of a signed decimal token: an optional `+` or
/// `-` sign followed by one or more digits; anything else is
/// malformed.
pub open spec fn spec_parse_int(s: Seq<char>) -> Option<int> {
    let signed = s.len() > 0 && (s[0] == '+' || s[0] == '-');
    let body = if signed {
        s.skip(1)
    } else {
        s
    };
    if body.len() > 0 && all_digits(body) {
        if s.len() > 0 && s[0] == '-' {
            Some(-digits_val(body))
        } else {
            Some(digits_val(body))
        }
    } else {
        None
    }
}

/// The same token narrowed to the machine's coordinate word: a
/// well-formed number outside the `isize` range is dropped, as the
/// host's overflow-checked parse drops it.
pub open spec fn spec_parse_isize(s: Seq<char>) -> Option<isize> {
    match spec_parse_int(s) {
        Some(v) => if isize::MIN <= v <= isize::MAX {
            Some(v as isize)
        } else {
            None
        },
        None => None,
    }
}

/// A coordinate token `x,y`: split at the first comma, both sides
/// signed decimal numbers.
pub open spec fn spec_parse_coord(s: Seq<char>) -> Option<Coord> {
    let ci = find_char(s, ',');
    if ci < 0 {
        None
    } else {
        match (spec_parse_isize(s.take(ci)), spec_parse_isize(s.skip(ci + 1))) {
            (Some(a), Some(b)) => Some(Coord(a, b)),
            _ => None,
        }
    }
}

/// Two coordinate tokens separated at the first space.
pub open spec fn spec_parse_coord_pair(s: Seq<char>) -> Option<(Coord, Coord)> {
    let sp = find_char(s, ' ');
    if sp < 0 {
        None
    } else {
        match (spec_parse_coord(s.take(sp)), spec_parse_coord(s.skip(sp + 1))) {
            (Some(a), Some(b)) => Some((a, b)),
            _ => None,
        }
    }
}

/// A piece keyword: `empty`, `blue`, `blue-special`, `red` or
/// `red-special`; the `-special` forms carry the promoted flag.
pub open spec fn spec_parse_piece(s: Seq<char>) -> Option<Option<Piece>> {
    if s =~= "empty"@ {
        Some(None)
    } else if s =~= "blue"@ {
        Some(Some(Piece::Blue(false)))
    } else if s =~= "blue-special"@ {
        Some(Some(Piece::Blue(true)))
    } else if s =~= "red"@ {
        Some(Some(Piece::Red(false)))
    } else if s =~= "red-special"@ {
        Some(Some(Piece::Red(true)))
    } else {
        None
    }
}

/// A coordinate token and a piece keyword separated at the first
/// space.
pub open spec fn spec_parse_set_body(s: Seq<char>) -> Option<(Coord, Option<Piece>)> {
    let sp = find_char(s, ' ');
    if sp < 0 {
        None
    } else {
        match (spec_parse_coord(s.take(sp)), spec_parse_piece(s.skip(sp + 1))) {
            (Some(c), Some(p)) => Some((c, p)),
            _ => None,
        }
    }
}

/// One line of the command grammar.  A `move ` or `shear ` prefix
/// takes two coordinates, a `set ` prefix takes a coordinate and a
/// piece keyword; any malformed line yields nothing at all.
pub open spec fn spec_parse_command(s: Seq<char>) -> Option<ActionEvent> {
    if s.len() >= 5 && s.take(5) =~= "move "@ {
        match spec_parse_coord_pair(s.skip(5)) {
            Some(p) => Some(ActionEvent::Move(p.0, p.1)),
            None => None,
        }
    } else if s.len() >= 6 && s.take(6) =~= "shear "@ {
        match spec_parse_coord_pair(s.skip(6)) {
            Some(p) => Some(ActionEvent::Shear(p.0, p.1)),
            None => None,
        }
    } else if s.len() >= 4 && s.take(4) =~= "set "@ {
        match spec_parse_set_body(s.skip(4)) {
            Some(p) => Some(ActionEvent::SetPiece(p.0, p.1)),
            None => None,
        }
    } else {
        None
    }
}

/// `find_char` yields `-1` or a valid position holding `ch`.
proof fn lemma_find_char_bounds(s: Seq<char>, ch: char)
    ensures
        find_char(s, ch) == -1 || (0 <= find_char(s, ch) < s.len() && s[find_char(s, ch)] == ch),
    decreases s.len(),
{
    if s.len() > 0 && s[0] != ch {
        lemma_find_char_bounds(s.skip(1), ch);
    }
}

/// No position before `find_char` holds `ch`.
proof fn lemma_find_char_first(s: Seq<char>, ch: char, i: int)
    requires
        0 <= i < s.len(),
        s[i] == ch,
    ensures
        0 <= find_char(s, ch) <= i,
    decreases s.len(),
{
    if s[0] != ch {
        lemma_find_char_first(s.skip(1), ch, i - 1);
    }
}

/// A digit string is non-negative, and reading more digits never
/// shrinks the value.
proof fn lemma_digits_val_mono(s: Seq<char>, m: int)
    requires
        0 <= m <= s.len(),
        all_digits(s),
    ensures
        digits_val(s) >= digits_val(s.take(m)) >= 0,
    decreases s.len(),
{
    if s.len() == 0 {
        assert(s.take(m) =~= s);
    } else if m == s.len() {
        assert(s.take(m) =~= s);
        lemma_digits_val_mono(s.drop_last(), s.len() - 1);
        assert(s.drop_last().take(s.len() - 1) =~= s.drop_last());
    } else {
        assert(all_digits(s.drop_last()));
        assert(s.drop_last().take(m) =~= s.take(m));
        lemma_digits_val_mono(s.drop_last(), m);
        assert(is_digit(s.last()));
    }
}

/// Signed decimal token within `[from, to)` of `s`, with the host's
/// overflow rule: a value outside the `isize` range is malformed.
fn parse_int_range(s: &str, from: usize, to: usize) -> (r: Option<isize>)
    requires
        from <= to <= s@.len(),
    ensures
        r == spec_parse_isize(s@.subrange(from as int, to as int)),
{
    let ghost sub = s@.subrange(from as int, to as int);
    if from == to {
        return None;
    }
    let first = s.get_char(from);
    proof {
        assert(sub[0] == s@[from as int]);
    }
    let neg = first == '-';
    let start = if first == '-' || first == '+' {
        from + 1
    } else {
        from
    };
    let ghost body = s@.subrange(start as int, to as int);
    proof {
        if start > from {
            assert(body =~= sub.skip(1));
        } else {
            assert(body =~= sub);
        }
    }
    if start == to {
        return None;
    }
    let cap: u128 = (isize::MAX as u128) + 1;
    let mut acc: u128 = 0;
    let mut i = start;
    proof {
        assert(body.take(0) =~= Seq::<char>::empty());
    }
    while i < to
        invariant
            from <= start <= i <= to <= s@.len(),
            sub == s@.subrange(from as int, to as int),
            body == s@.subrange(start as int, to as int),
            sub.len() > 0,
            body.len() > 0,
            start == from || start == from + 1,
            (start == from + 1) == (sub[0] == '-' || sub[0] == '+'),
            neg == (sub[0] == '-'),
            body == if start == from + 1 {
                sub.skip(1)
            } else {
                sub
            },
            cap == (isize::MAX as u128) + 1,
            all_digits(body.take(i - start)),
            acc == digits_val(body.take(i - start)),
            acc <= cap,
        decreases to - i,
    {
        let c = s.get_char(i);
        proof {
            assert(body[i - start] == s@[i as int]);
        }
        let d = c as u32;
        if d < '0' as u32 || d > '9' as u32 {
            proof {
                assert(!is_digit(body[i - start]));
                assert(!all_digits(body));
            }
            return None;
        }
        proof {
            assert(body.take(i - start + 1).drop_last() =~= body.take(i - start));
            assert(body.take(i - start + 1).last() == body[i - start]);
        }
        acc = acc * 10 + ((d - '0' as u32) as u128);
        if acc > cap {
            proof {
                if all_digits(body) {
                    lemma_digits_val_mono(body, i - start + 1);
                }
            }
            return None;
        }
        i += 1;
    }
    proof {
        assert(body.take(to - start) =~= body);
    }
    if neg {
        if acc == cap {
            Some(isize::MIN)
        } else {
            Some(-(acc as isize))
        }
    } else {
        if acc == cap {
            None
        } else {
            Some(acc as isize)
        }
    }
}

/// First occurrence of `ch` within `[from, to)` of `s`, as an
/// absolute position, phrased over the subrange's own indexing.
fn find_char_range(s: &str, from: usize, to: usize, ch: char) -> (r: Option<usize>)
    requires
        from <= to <= s@.len(),
    ensures
        ({
            let f = find_char(s@.subrange(from as int, to as int), ch);
            r == if f < 0 {
                Option::<usize>::None
            } else {
                Option::<usize>::Some((from + f) as usize)
            }
        }),
{
    let ghost sub = s@.subrange(from as int, to as int);
    proof {
        lemma_find_char_bounds(sub, ch);
    }
    let mut i = from;
    while i < to
        invariant
            from <= i <= to <= s@.len(),
            sub == s@.subrange(from as int, to as int),
            find_char(sub, ch) == -1 || find_char(sub, ch) >= i - from,
            find_char(sub, ch) == -1 || (0 <= find_char(sub, ch) < sub.len() && sub[find_char(
                sub,
                ch,
            )] == ch),
        decreases to - i,
    {
        let c = s.get_char(i);
        proof {
            assert(sub[i - from] == s@[i as int]);
        }
        if c == ch {
            proof {
                lemma_find_char_first(sub, ch, i - from);
            }
            return Some(i);
        }
        i += 1;
    }
    proof {
        if find_char(sub, ch) >= 0 {
            assert(sub[find_char(sub, ch)] == ch);
        }
    }
    None
}

/// Whether `[from, to)` of `s` spells exactly the keyword `kw`.
fn range_matches(s: &str, from: usize, to: usize, kw: &str) -> (r: bool)
    requires
        from <= to <= s@.len(),
    ensures
        r == (s@.subrange(from as int, to as int) == kw@),
{
    let ghost sub = s@.subrange(from as int, to as int);
    let m = kw.unicode_len();
    if to - from != m {
        return false;
    }
    let mut j: usize = 0;
    while j < m
        invariant
            0 <= j <= m,
            m == kw@.len(),
            to - from == m,
            from <= to <= s@.len(),
            sub == s@.subrange(from as int, to as int),
            forall|k: int| 0 <= k < j ==> sub[k] == kw@[k],
        decreases m - j,
    {
        let a = s.get_char(from + j);
        let b = kw.get_char(j);
        proof {
            assert(sub[j as int] == s@[from + j]);
        }
        if a != b {
            return false;
        }
        j += 1;
    }
    proof {
        assert(sub =~= kw@);
    }
    true
}

/// Coordinate token within `[from, to)` of `s`.
fn parse_coord_range(s: &str, from: usize, to: usize) -> (r: Option<Coord>)
    requires
        from <= to <= s@.len(),
    ensures
        r == spec_parse_coord(s@.subrange(from as int, to as int)),
{
    let ghost sub = s@.subrange(from as int, to as int);
    match find_char_range(s, from, to, ',') {
        None => None,
        Some(ci) => {
            proof {
                lemma_find_char_bounds(sub, ',');
                assert(sub.take(ci - from) =~= s@.subrange(from as int, ci as int));
                assert(sub.skip(ci - from + 1) =~= s@.subrange(ci as int + 1, to as int));
            }
            let a = parse_int_range(s, from, ci);
            match a {
                None => None,
                Some(a) => {
                    let b = parse_int_range(s, ci + 1, to);
                    match b {
                        None => None,
                        Some(b) => Some(Coord(a, b)),
                    }
                },
            }
        },
    }
}

/// Piece keyword within `[from, to)` of `s`.
fn parse_piece_range(s: &str, from: usize, to: usize) -> (r: Option<Option<Piece>>)
    requires
        from <= to <= s@.len(),
    ensures
        r == spec_parse_piece(s@.subrange(from as int, to as int)),
{
    if range_matches(s, from, to, "empty") {
        Some(None)
    } else if range_matches(s, from, to, "blue") {
        Some(Some(Piece::Blue(false)))
    } else if range_matches(s, from, to, "blue-special") {
        Some(Some(Piece::Blue(true)))
    } else if range_matches(s, from, to, "red") {
        Some(Some(Piece::Red(false)))
    } else if range_matches(s, from, to, "red-special") {
        Some(Some(Piece::Red(true)))
    } else {
        None
    }
}

/// Two coordinate tokens within `[from, to)` of `s`, separated at the
/// first space.
fn parse_coord_pair_range(s: &str, from: usize, to: usize) -> (r: Option<(Coord, Coord)>)
    requires
        from <= to <= s@.len(),
    ensures
        r == spec_parse_coord_pair(s@.subrange(from as int, to as int)),
{
    let ghost sub = s@.subrange(from as int, to as int);
    match find_char_range(s, from, to, ' ') {
        None => None,
        Some(sp) => {
            proof {
                lemma_find_char_bounds(sub, ' ');
                assert(sub.take(sp - from) =~= s@.subrange(from as int, sp as int));
                assert(sub.skip(sp - from + 1) =~= s@.subrange(sp as int + 1, to as int));
            }
            let a = parse_coord_range(s, from, sp);
            match a {
                None => None,
                Some(a) => {
                    let b = parse_coord_range(s, sp + 1, to);
                    match b {
                        None => None,
                        Some(b) => Some((a, b)),
                    }
                },
            }
        },
    }
}

/// Translates one line of text into a typed action.  `move` and
/// `shear` take an origin and an end coordinate, `set` a coordinate
/// and a piece keyword; a malformed line — wrong token count, bad
/// number, unknown keyword — yields no action and no error.
pub fn parse_command(line: &str) -> (r: Option<ActionEvent>)
    ensures
        r == spec_parse_command(line@),
{
    let n = line.unicode_len();
    if n >= 5 && range_matches(line, 0, 5, "move ") {
        proof {
            assert(line@.take(5) =~= line@.subrange(0, 5));
            assert(line@.skip(5) =~= line@.subrange(5, n as int));
        }
        match parse_coord_pair_range(line, 5, n) {
            Some(p) => Some(ActionEvent::Move(p.0, p.1)),
            None => None,
        }
    } else if n >= 6 && range_matches(line, 0, 6, "shear ") {
        proof {
            assert(line@.take(6) =~= line@.subrange(0, 6));
            assert(line@.skip(6) =~= line@.subrange(6, n as int));
            assert(line@.take(5) =~= line@.subrange(0, 5));
        }
        match parse_coord_pair_range(line, 6, n) {
            Some(p) => Some(ActionEvent::Shear(p.0, p.1)),
            None => None,
        }
    } else if n >= 4 && range_matches(line, 0, 4, "set ") {
        proof {
            assert(line@.take(4) =~= line@.subrange(0, 4));
            assert(line@.skip(4) =~= line@.subrange(4, n as int));
            if n >= 5 {
                assert(line@.take(5) =~= line@.subrange(0, 5));
            }
            if n >= 6 {
                assert(line@.take(6) =~= line@.subrange(0, 6));
            }
        }
        match parse_piece_set_body(line, 4, n) {
            Some(p) => Some(ActionEvent::SetPiece(p.0, p.1)),
            None => None,
        }
    } else {
        proof {
            if n >= 5 {
                assert(line@.take(5) =~= line@.subrange(0, 5));
            }
            if n >= 6 {
                assert(line@.take(6) =~= line@.subrange(0, 6));
            }
            if n >= 4 {
                assert(line@.take(4) =~= line@.subrange(0, 4));
            }
        }
        None
    }
}

/// Set-command body within `[from, to)` of `s`: a coordinate and a
/// piece keyword separated at the first space.
fn parse_piece_set_body(s: &str, from: usize, to: usize) -> (r: Option<(Coord, Option<Piece>)>)
    requires
        from <= to <= s@.len(),
    ensures
        r == spec_parse_set_body(s@.subrange(from as int, to as int)),
{
    let ghost sub = s@.subrange(from as int, to as int);
    match find_char_range(s, from, to, ' ') {
        None => None,
        Some(sp) => {
            proof {
                lemma_find_char_bounds(sub, ' ');
                assert(sub.take(sp - from) =~= s@.subrange(from as int, sp as int));
                assert(sub.skip(sp - from + 1) =~= s@.subrange(sp as int + 1, to as int));
            }
            let c = parse_coord_range(s, from, sp);
            match c {
                None => None,
                Some(c) => {
                    let p = parse_piece_range(s, sp + 1, to);
                    match p {
                        None => None,
                        Some(p) => Some((c, p)),
                    }
                },
            }
        },
    }
}

} // verus!
