use vstd::prelude::*;
use vstd::string::*;

use crate::board::Move;
use crate::coord::{Coord, Dim};
use crate::error::GameError;

verus! {

/// The letter that names the column `d`: `a` for the first, `j` for the
/// last.
pub open spec fn column_letter(d: Dim) -> char {
    match d {
        Dim::A => 'a',
        Dim::B => 'b',
        Dim::C => 'c',
        Dim::D => 'd',
        Dim::E => 'e',
        Dim::F => 'f',
        Dim::G => 'g',
        Dim::H => 'h',
        Dim::I => 'i',
        Dim::J => 'j',
    }
}

/// The digits that name the row `d`: `1` for the first, `10` for the last.
pub open spec fn row_digits(d: Dim) -> Seq<char> {
    match d {
        Dim::A => seq!['1'],
        Dim::B => seq!['2'],
        Dim::C => seq!['3'],
        Dim::D => seq!['4'],
        Dim::E => seq!['5'],
        Dim::F => seq!['6'],
        Dim::G => seq!['7'],
        Dim::H => seq!['8'],
        Dim::I => seq!['9'],
        Dim::J => seq!['1', '0'],
    }
}

/// The text of a square: its column letter, then its row number.
pub open spec fn coord_text(c: Coord) -> Seq<char> {
    seq![column_letter(c.0)] + row_digits(c.1)
}

/// The text of a move: origin, `-`, destination, `/`, arrow.
pub open spec fn move_text(m: Move) -> Seq<char> {
    coord_text(m.0) + seq!['-'] + coord_text(m.1) + seq!['/'] + coord_text(m.2)
}

/// The column that the letter `ch` names, if it names one.
pub open spec fn column_of(ch: char) -> Option<Dim> {
    if ch == 'a' {
        Some(Dim::A)
    } else if ch == 'b' {
        Some(Dim::B)
    } else if ch == 'c' {
        Some(Dim::C)
    } else if ch == 'd' {
        Some(Dim::D)
    } else if ch == 'e' {
        Some(Dim::E)
    } else if ch == 'f' {
        Some(Dim::F)
    } else if ch == 'g' {
        Some(Dim::G)
    } else if ch == 'h' {
        Some(Dim::H)
    } else if ch == 'i' {
        Some(Dim::I)
    } else if ch == 'j' {
        Some(Dim::J)
    } else {
        None
    }
}

/// The row that the digit `ch` names by itself, if it names one.
pub open spec fn row_of_digit(ch: char) -> Option<Dim> {
    if ch == '1' {
        Some(Dim::A)
    } else if ch == '2' {
        Some(Dim::B)
    } else if ch == '3' {
        Some(Dim::C)
    } else if ch == '4' {
        Some(Dim::D)
    } else if ch == '5' {
        Some(Dim::E)
    } else if ch == '6' {
        Some(Dim::F)
    } else if ch == '7' {
        Some(Dim::G)
    } else if ch == '8' {
        Some(Dim::H)
    } else if ch == '9' {
        Some(Dim::I)
    } else {
        None
    }
}

/// The row that the number `t` names, if it names one: a single digit from
/// `1` to `9`, or the two characters `10`.
pub open spec fn row_of(t: Seq<char>) -> Option<Dim> {
    if t.len() == 1 {
        row_of_digit(t[0])
    } else if t.len() == 2 && t[0] == '1' && t[1] == '0' {
        Some(Dim::J)
    } else {
        None
    }
}

/// The square that the text `t` names, if it names one: a column letter
/// followed by a row number, and nothing else.
pub open spec fn parse_coord(t: Seq<char>) -> Option<Coord> {
    if t.len() == 0 {
        None
    } else {
        match (column_of(t[0]), row_of(t.skip(1))) {
            (Some(x), Some(y)) => Some(Coord(x, y)),
            _ => None,
        }
    }
}

/// The index of the first `ch` in `s` at or after `from`, or the length of
/// `s` when there is none.
pub open spec fn find(s: Seq<char>, ch: char, from: int) -> int
    decreases s.len() - from,
{
    if from >= s.len() || s[from] == ch {
        from
    } else {
        find(s, ch, from + 1)
    }
}

/// Whether `ch` is white space: a character with the Unicode property
/// `White_Space`.
pub open spec fn is_space(ch: char) -> bool {
    let n = ch as u32;
    ||| 0x09 <= n <= 0x0d
    ||| n == 0x20
    ||| n == 0x85
    ||| n == 0xa0
    ||| n == 0x1680
    ||| 0x2000 <= n <= 0x200a
    ||| n == 0x2028
    ||| n == 0x2029
    ||| n == 0x202f
    ||| n == 0x205f
    ||| n == 0x3000
}

/// The index of the first character of `s` at or after `from` that is not
/// white space, or the length of `s` when there is none.
pub open spec fn skip_spaces(s: Seq<char>, from: int) -> int
    decreases s.len() - from,
{
    if from >= s.len() || !is_space(s[from]) {
        from
    } else {
        skip_spaces(s, from + 1)
    }
}

/// The index just past the last character of `s` before `to` that is not
/// white space, or zero when there is none.
pub open spec fn drop_spaces(s: Seq<char>, to: int) -> int
    decreases to,
{
    if to <= 0 || !is_space(s[to - 1]) {
        to
    } else {
        drop_spaces(s, to - 1)
    }
}

/// `s` without the white space at its two ends.
pub open spec fn trimmed(s: Seq<char>) -> Seq<char> {
    let lo = skip_spaces(s, 0);
    let hi = drop_spaces(s, s.len() as int);
    if lo < hi {
        s.subrange(lo, hi)
    } else {
        Seq::empty()
    }
}

/// The move that the text `s` names, if it names one.
///
/// White space at the two ends is ignored. What is left must be an origin,
/// a `-`, a destination, a `/` and an arrow, and nothing else: the origin
/// is what stands before the first `-`, the destination what stands
/// between it and the first `/` after it, the arrow all that follows. Each
/// of the three must name a square, so a further `-` or `/` anywhere
/// spoils the text.
pub open spec fn parse_move(s: Seq<char>) -> Option<Move> {
    let t = trimmed(s);
    let dash = find(t, '-', 0);
    if dash >= t.len() {
        None
    } else {
        let after = t.skip(dash + 1);
        let slash = find(after, '/', 0);
        if slash >= after.len() {
            None
        } else {
            match (
                parse_coord(t.take(dash)),
                parse_coord(after.take(slash)),
                parse_coord(after.skip(slash + 1)),
            ) {
                (Some(piece), Some(dest), Some(arrow)) => Some(Move(piece, dest, arrow)),
                _ => None,
            }
        }
    }
}

/// `find` returns the first index at or after `from` that holds `ch`.
pub proof fn find_is_first(s: Seq<char>, ch: char, from: int, k: int)
    requires
        0 <= from <= k <= s.len(),
        forall|j: int| from <= j < k ==> s[j] != ch,
        k == s.len() || s[k] == ch,
    ensures
        find(s, ch, from) == k,
    decreases k - from,
{
    if from < k {
        find_is_first(s, ch, from + 1, k);
    }
}

proof fn skip_spaces_is_first(s: Seq<char>, from: int, k: int)
    requires
        0 <= from <= k <= s.len(),
        forall|j: int| from <= j < k ==> is_space(s[j]),
        k == s.len() || !is_space(s[k]),
    ensures
        skip_spaces(s, from) == k,
    decreases k - from,
{
    if from < k {
        skip_spaces_is_first(s, from + 1, k);
    }
}

proof fn drop_spaces_is_last(s: Seq<char>, to: int, k: int)
    requires
        0 <= k <= to <= s.len(),
        forall|j: int| k <= j < to ==> is_space(s[j]),
        k == 0 || !is_space(s[k - 1]),
    ensures
        drop_spaces(s, to) == k,
    decreases to - k,
{
    if k < to {
        drop_spaces_is_last(s, to - 1, k);
    }
}

/// The characters of `text`, in order.
fn chars_of(text: &str) -> (v: Vec<char>)
    ensures
        v@ == text@,
{
    let mut v: Vec<char> = Vec::new();
    for ch in it: text.chars()
        invariant
            v@ == it.seq().take(it.index()),
    {
        proof {
            let before = v@;
            assert(before.push(ch) =~= it.seq().take(it.index() + 1));
        }
        v.push(ch);
    }
    v
}

fn is_space_char(ch: char) -> (b: bool)
    ensures
        b == is_space(ch),
{
    let n: u32 = ch as u32;
    (0x09 <= n && n <= 0x0d) || n == 0x20 || n == 0x85 || n == 0xa0 || n == 0x1680 || (0x2000 <= n
        && n <= 0x200a) || n == 0x2028 || n == 0x2029 || n == 0x202f || n == 0x205f || n == 0x3000
}

/// The bounds of `s` without the white space at its two ends.
fn trim_bounds(s: &Vec<char>) -> (bounds: (usize, usize))
    ensures
        bounds.0 <= bounds.1 <= s@.len(),
        s@.subrange(bounds.0 as int, bounds.1 as int) == trimmed(s@),
{
    let n: usize = s.len();
    let mut lo: usize = 0;
    while lo < n && is_space_char(s[lo])
        invariant
            lo <= n == s@.len(),
            forall|j: int| 0 <= j < lo ==> is_space(s@[j]),
        decreases n - lo,
    {
        lo += 1;
    }
    let mut hi: usize = n;
    while hi > lo && is_space_char(s[hi - 1])
        invariant
            lo <= hi <= n == s@.len(),
            forall|j: int| hi <= j < n ==> is_space(s@[j]),
        decreases hi,
    {
        hi -= 1;
    }
    proof {
        skip_spaces_is_first(s@, 0, lo as int);
        if hi > lo {
            drop_spaces_is_last(s@, n as int, hi as int);
        } else {
            if lo < n {
                drop_spaces_is_last(s@, n as int, lo as int + 1);
            } else {
                let k = drop_spaces(s@, n as int);
                drop_spaces_bound(s@, n as int);
            }
            assert(s@.subrange(lo as int, hi as int) =~= Seq::<char>::empty());
        }
    }
    (lo, hi)
}

proof fn drop_spaces_bound(s: Seq<char>, to: int)
    requires
        0 <= to <= s.len(),
    ensures
        0 <= drop_spaces(s, to) <= to,
    decreases to,
{
    if to > 0 && is_space(s[to - 1]) {
        drop_spaces_bound(s, to - 1);
    }
}

/// The index of the first `ch` in `s[from..to]`, or `to` when there is
/// none.
fn find_in(s: &Vec<char>, ch: char, from: usize, to: usize) -> (i: usize)
    requires
        from <= to <= s@.len(),
    ensures
        from <= i <= to,
        i - from == find(s@.subrange(from as int, to as int), ch, 0),
{
    let mut i: usize = from;
    while i < to && s[i] != ch
        invariant
            from <= i <= to <= s@.len(),
            forall|j: int| from <= j < i ==> s@[j] != ch,
        decreases to - i,
    {
        i += 1;
    }
    proof {
        find_is_first(s@.subrange(from as int, to as int), ch, 0, i - from);
    }
    i
}

fn column_from(ch: char) -> (r: Option<Dim>)
    ensures
        r == column_of(ch),
{
    if ch == 'a' {
        Some(Dim::A)
    } else if ch == 'b' {
        Some(Dim::B)
    } else if ch == 'c' {
        Some(Dim::C)
    } else if ch == 'd' {
        Some(Dim::D)
    } else if ch == 'e' {
        Some(Dim::E)
    } else if ch == 'f' {
        Some(Dim::F)
    } else if ch == 'g' {
        Some(Dim::G)
    } else if ch == 'h' {
        Some(Dim::H)
    } else if ch == 'i' {
        Some(Dim::I)
    } else if ch == 'j' {
        Some(Dim::J)
    } else {
        None
    }
}

fn row_from_digit(ch: char) -> (r: Option<Dim>)
    ensures
        r == row_of_digit(ch),
{
    if ch == '1' {
        Some(Dim::A)
    } else if ch == '2' {
        Some(Dim::B)
    } else if ch == '3' {
        Some(Dim::C)
    } else if ch == '4' {
        Some(Dim::D)
    } else if ch == '5' {
        Some(Dim::E)
    } else if ch == '6' {
        Some(Dim::F)
    } else if ch == '7' {
        Some(Dim::G)
    } else if ch == '8' {
        Some(Dim::H)
    } else if ch == '9' {
        Some(Dim::I)
    } else {
        None
    }
}

/// The square that `s[from..to]` names, if it names one.
fn parse_coord_in(s: &Vec<char>, from: usize, to: usize) -> (r: Option<Coord>)
    requires
        from <= to <= s@.len(),
    ensures
        r == parse_coord(s@.subrange(from as int, to as int)),
{
    let ghost t = s@.subrange(from as int, to as int);
    if to - from < 2 || to - from > 3 {
        return None;
    }
    assert(t.skip(1).len() == to - from - 1);
    assert(t[0] == s@[from as int]);
    assert(t.skip(1)[0] == s@[from + 1]);
    let row: Option<Dim> = if to - from == 2 {
        row_from_digit(s[from + 1])
    } else {
        assert(t.skip(1)[1] == s@[from + 2]);
        if s[from + 1] == '1' && s[from + 2] == '0' {
            Some(Dim::J)
        } else {
            None
        }
    };
    match (column_from(s[from]), row) {
        (Some(x), Some(y)) => Some(Coord(x, y)),
        _ => None,
    }
}

fn column_str(d: Dim) -> (s: &'static str)
    ensures
        s@ == seq![column_letter(d)],
{
    proof {
        reveal_strlit("a");
        reveal_strlit("b");
        reveal_strlit("c");
        reveal_strlit("d");
        reveal_strlit("e");
        reveal_strlit("f");
        reveal_strlit("g");
        reveal_strlit("h");
        reveal_strlit("i");
        reveal_strlit("j");
    }
    let s: &'static str = match d {
        Dim::A => "a",
        Dim::B => "b",
        Dim::C => "c",
        Dim::D => "d",
        Dim::E => "e",
        Dim::F => "f",
        Dim::G => "g",
        Dim::H => "h",
        Dim::I => "i",
        Dim::J => "j",
    };
    assert(s@ =~= seq![column_letter(d)]);
    s
}

fn row_str(d: Dim) -> (s: &'static str)
    ensures
        s@ == row_digits(d),
{
    proof {
        reveal_strlit("1");
        reveal_strlit("2");
        reveal_strlit("3");
        reveal_strlit("4");
        reveal_strlit("5");
        reveal_strlit("6");
        reveal_strlit("7");
        reveal_strlit("8");
        reveal_strlit("9");
        reveal_strlit("10");
    }
    let s: &'static str = match d {
        Dim::A => "1",
        Dim::B => "2",
        Dim::C => "3",
        Dim::D => "4",
        Dim::E => "5",
        Dim::F => "6",
        Dim::G => "7",
        Dim::H => "8",
        Dim::I => "9",
        Dim::J => "10",
    };
    assert(s@ =~= row_digits(d));
    s
}

impl Coord {
    /// The text of the square: its column letter, then its row number.
    pub fn notation(&self) -> (text: String)
        ensures
            text@ == coord_text(*self),
    {
        let mut text: String = String::new();
        text.append(column_str(self.0));
        text.append(row_str(self.1));
        assert(text@ =~= coord_text(*self));
        text
    }

    /// Reads a square from its text: a column letter from `a` to `j`
    /// followed by a row number from `1` to `10`. Any other text fails
    /// with `InvalidNotation`.
    pub fn parse(text: &str) -> (r: Result<Coord, GameError>)
        ensures
            r == match parse_coord(text@) {
                Some(c) => Ok::<Coord, GameError>(c),
                None => Err::<Coord, GameError>(GameError::InvalidNotation),
            },
    {
        let s: Vec<char> = chars_of(text);
        assert(s@.subrange(0, s@.len() as int) =~= text@);
        match parse_coord_in(&s, 0, s.len()) {
            Some(c) => Ok(c),
            None => Err(GameError::InvalidNotation),
        }
    }
}

impl Move {
    /// The text of the move: origin, `-`, destination, `/`, arrow.
    pub fn notation(&self) -> (text: String)
        ensures
            text@ == move_text(*self),
    {
        Move::notation_for(&self.0, &self.1, &self.2)
    }

    /// The text of the move of the piece on `piece` to `mov` that shoots
    /// at `arrow`.
    pub fn notation_for(piece: &Coord, mov: &Coord, arrow: &Coord) -> (text: String)
        ensures
            text@ == move_text(Move(*piece, *mov, *arrow)),
    {
        proof {
            reveal_strlit("-");
            reveal_strlit("/");
        }
        let mut text: String = String::new();
        text.append(column_str(piece.0));
        text.append(row_str(piece.1));
        text.append("-");
        text.append(column_str(mov.0));
        text.append(row_str(mov.1));
        text.append("/");
        text.append(column_str(arrow.0));
        text.append(row_str(arrow.1));
        assert("-"@ =~= seq!['-']);
        assert("/"@ =~= seq!['/']);
        assert(text@ =~= move_text(Move(*piece, *mov, *arrow)));
        text
    }

    /// Reads a move from its text; only the form of the text is judged,
    /// not the legality of the move. Text that names no move fails with
    /// `InvalidNotation`.
    pub fn parse_notation(notation: &str) -> (r: Result<Move, GameError>)
        ensures
            r == match parse_move(notation@) {
                Some(m) => Ok::<Move, GameError>(m),
                None => Err::<Move, GameError>(GameError::InvalidNotation),
            },
    {
        let s: Vec<char> = chars_of(notation);
        let (lo, hi) = trim_bounds(&s);
        let ghost t = trimmed(s@);
        let dash: usize = find_in(&s, '-', lo, hi);
        if dash >= hi {
            return Err(GameError::InvalidNotation);
        }
        let ghost after = t.skip(dash - lo + 1);
        assert(after =~= s@.subrange(dash + 1, hi as int));
        let slash: usize = find_in(&s, '/', dash + 1, hi);
        if slash >= hi {
            return Err(GameError::InvalidNotation);
        }
        assert(t.take(dash - lo) =~= s@.subrange(lo as int, dash as int));
        assert(after.take(slash - dash - 1) =~= s@.subrange(dash + 1, slash as int));
        assert(after.skip(slash - dash) =~= s@.subrange(slash + 1, hi as int));
        match (
            parse_coord_in(&s, lo, dash),
            parse_coord_in(&s, dash + 1, slash),
            parse_coord_in(&s, slash + 1, hi),
        ) {
            (Some(piece), Some(dest), Some(arrow)) => Ok(Move(piece, dest, arrow)),
            _ => Err(GameError::InvalidNotation),
        }
    }
}

/// The text of a square has two or three characters, none of them a
/// separator or white space, and reading it gives the square back.
pub proof fn coord_text_reads_back(c: Coord)
    ensures
        2 <= coord_text(c).len() <= 3,
        forall|j: int|
            0 <= j < coord_text(c).len() ==> (#[trigger] coord_text(c)[j]) != '-' && coord_text(
                c,
            )[j] != '/' && !is_space(coord_text(c)[j]),
        parse_coord(coord_text(c)) == Some(c),
{
    let t = coord_text(c);
    assert(t.skip(1) =~= row_digits(c.1));
    assert(t[0] == column_letter(c.0));
    assert forall|j: int| 0 <= j < t.len() implies (#[trigger] t[j]) != '-' && t[j] != '/'
        && !is_space(t[j]) by {
        if j > 0 {
            assert(t[j] == row_digits(c.1)[j - 1]);
        }
    }
}

/// Text that names a square is the text of that square.
pub proof fn coord_text_is_unique(t: Seq<char>, c: Coord)
    requires
        parse_coord(t) == Some(c),
    ensures
        coord_text(c) == t,
{
    assert(t.skip(1).len() == t.len() - 1);
    if t.len() == 2 {
        assert(t.skip(1)[0] == t[1]);
    } else {
        assert(t.skip(1)[0] == t[1]);
        assert(t.skip(1)[1] == t[2]);
    }
    assert(coord_text(c) =~= t);
}

/// Writing a move and reading the text gives the move back.
#[verifier::rlimit(30)]
pub proof fn move_text_reads_back(m: Move)
    ensures
        parse_move(move_text(m)) == Some(m),
{
    let a = coord_text(m.0);
    let b = coord_text(m.1);
    let c = coord_text(m.2);
    let s = move_text(m);
    coord_text_reads_back(m.0);
    coord_text_reads_back(m.1);
    coord_text_reads_back(m.2);
    assert(s.len() == a.len() + b.len() + c.len() + 2);
    assert(s[0] == a[0]);
    assert(s[s.len() - 1] == c[c.len() - 1]);
    assert(trimmed(s) == s) by {
        assert(skip_spaces(s, 0) == 0);
        assert(drop_spaces(s, s.len() as int) == s.len());
        assert(s.subrange(0, s.len() as int) =~= s);
    }
    let dash = a.len() as int;
    assert(find(s, '-', 0) == dash) by {
        assert forall|j: int| 0 <= j < dash implies s[j] != '-' by {
            assert(s[j] == a[j]);
        }
        assert(s[dash] == '-');
        find_is_first(s, '-', 0, dash);
    }
    assert(s.take(dash) =~= a);
    let after = s.skip(dash + 1);
    assert(after =~= b + seq!['/'] + c);
    let slash = b.len() as int;
    assert(find(after, '/', 0) == slash) by {
        assert forall|j: int| 0 <= j < slash implies after[j] != '/' by {
            assert(after[j] == b[j]);
        }
        assert(after[slash] == '/');
        find_is_first(after, '/', 0, slash);
    }
    assert(after.take(slash) =~= b);
    assert(after.skip(slash + 1) =~= c);
}

/// `find` stays within the text, and what it finds is the character
/// sought.
pub proof fn find_in_bounds(s: Seq<char>, ch: char, from: int)
    requires
        0 <= from <= s.len(),
    ensures
        from <= find(s, ch, from) <= s.len(),
        find(s, ch, from) < s.len() ==> s[find(s, ch, from)] == ch,
    decreases s.len() - from,
{
    if from < s.len() && s[from] != ch {
        find_in_bounds(s, ch, from + 1);
    }
}

/// Text that reads as a move is, but for white space at its two ends, the
/// text of that move.
#[verifier::rlimit(30)]
pub proof fn parsed_text_is_move_text(s: Seq<char>, m: Move)
    requires
        parse_move(s) == Some(m),
    ensures
        trimmed(s) == move_text(m),
{
    let t = trimmed(s);
    find_in_bounds(t, '-', 0);
    let dash = find(t, '-', 0);
    let after = t.skip(dash + 1);
    find_in_bounds(after, '/', 0);
    let slash = find(after, '/', 0);
    coord_text_is_unique(t.take(dash), m.0);
    coord_text_is_unique(after.take(slash), m.1);
    coord_text_is_unique(after.skip(slash + 1), m.2);
    assert(t =~= move_text(m));
}

/// A text names a move exactly when, but for white space at its two ends,
/// it is the text of that move.
pub proof fn a_move_is_named_by_its_text(s: Seq<char>, m: Move)
    ensures
        parse_move(s) == Some(m) <==> trimmed(s) == move_text(m),
{
    if parse_move(s) == Some(m) {
        parsed_text_is_move_text(s, m);
    }
    if trimmed(s) == move_text(m) {
        move_text_reads_back(m);
        move_text_is_trim(m);
    }
}

/// The text of a move has no white space at its ends.
pub proof fn move_text_is_trim(m: Move)
    ensures
        trimmed(move_text(m)) == move_text(m),
{
    let s = move_text(m);
    let a = coord_text(m.0);
    let c = coord_text(m.2);
    coord_text_reads_back(m.0);
    coord_text_reads_back(m.2);
    assert(s[0] == a[0]);
    assert(s[s.len() - 1] == c[c.len() - 1]);
    assert(skip_spaces(s, 0) == 0);
    assert(drop_spaces(s, s.len() as int) == s.len());
    assert(s.subrange(0, s.len() as int) =~= s);
}

/// Reading the text of a move and writing what was read gives the text
/// back.
pub proof fn move_text_round_trip(s: Seq<char>)
    requires
        exists|m: Move| s == move_text(m),
    ensures
        parse_move(s) is Some,
        move_text(parse_move(s)->0) == s,
{
    let m = choose|m: Move| s == move_text(m);
    move_text_reads_back(m);
}

} // verus!
