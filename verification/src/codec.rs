//! Text encoding and decoding of boards, for fixtures and tests.
//!
//! A board is written as one line per row between a leading and a
//! trailing newline: `.` (or `_` on input) for an empty cell, `b` for
//! Black and `w` for White. On input, blank lines and per-line
//! whitespace are ignored; the remaining line count and every line
//! length must equal the declared board size.

use crate::othello::{Board, Cell};
use vstd::prelude::*;

verus! {

/// The characters `str::trim` removes: the Unicode white-space set.
pub open spec fn is_space(c: char) -> bool {
    let u = c as u32;
    (0x9 <= u <= 0xD) || u == 0x20 || u == 0x85 || u == 0xA0 || u == 0x1680 || (0x2000 <= u
        <= 0x200A) || u == 0x2028 || u == 0x2029 || u == 0x202F || u == 0x205F || u == 0x3000
}

/// The length of the prefix of `s` before its first newline; the whole
/// length when `s` has none.
pub open spec fn first_nl(s: Seq<char>) -> nat
    decreases s.len(),
{
    if s.len() == 0 {
        0
    } else if s[0] == '\n' {
        0
    } else {
        1 + first_nl(s.drop_first())
    }
}

/// `s` split at every newline; the separators are consumed. Splitting
/// always yields at least one (possibly empty) segment.
pub open spec fn split_lines(s: Seq<char>) -> Seq<Seq<char>>
    decreases s.len(),
{
    let k = first_nl(s) as int;
    if k >= s.len() {
        seq![s]
    } else {
        seq![s.take(k)] + split_lines(s.skip(k + 1))
    }
}

/// `s` without leading white-space.
pub open spec fn trim_front(s: Seq<char>) -> Seq<char>
    decreases s.len(),
{
    if s.len() > 0 && is_space(s[0]) {
        trim_front(s.drop_first())
    } else {
        s
    }
}

/// `s` without trailing white-space.
pub open spec fn trim_back(s: Seq<char>) -> Seq<char>
    decreases s.len(),
{
    if s.len() > 0 && is_space(s.last()) {
        trim_back(s.drop_last())
    } else {
        s
    }
}

/// `s` without leading and trailing white-space, as `str::trim`.
pub open spec fn spec_trim(s: Seq<char>) -> Seq<char> {
    trim_back(trim_front(s))
}

/// Lines trimmed, blank lines dropped.
pub open spec fn clean_of(lines: Seq<Seq<char>>) -> Seq<Seq<char>> {
    lines.map_values(|l: Seq<char>| spec_trim(l)).filter(|l: Seq<char>| l.len() > 0)
}

/// The rows of an encoded board text: its lines, trimmed, with blank
/// lines dropped.
pub open spec fn clean_lines(s: Seq<char>) -> Seq<Seq<char>> {
    clean_of(split_lines(s))
}

/// The cell a character decodes to; `_` may emphasize an empty cell.
pub open spec fn char_cell(c: char) -> Option<Cell> {
    if c == '.' || c == '_' {
        Some(Cell::Empty)
    } else if c == 'w' {
        Some(Cell::White)
    } else if c == 'b' {
        Some(Cell::Black)
    } else {
        None
    }
}

/// Whether every character of a line decodes to a cell.
pub open spec fn row_ok(l: Seq<char>) -> bool {
    forall|i: int| 0 <= i < l.len() ==> (#[trigger] char_cell(l[i])) is Some
}

/// The index of the first character that decodes to no cell.
pub open spec fn first_bad(l: Seq<char>) -> nat
    decreases l.len(),
{
    if l.len() == 0 {
        0
    } else if char_cell(l[0]) is None {
        0
    } else {
        1 + first_bad(l.drop_first())
    }
}

/// The cells of a fully valid line.
pub open spec fn parse_row(l: Seq<char>) -> Seq<Cell> {
    l.map_values(|c: char| char_cell(c).unwrap())
}

/// Whether a line decodes to a full row of an `n`-sized board.
pub open spec fn row_good(l: Seq<char>, n: int) -> bool {
    row_ok(l) && l.len() == n
}

/// The index of the first line that does not decode to a full row.
pub open spec fn first_bad_row(rows: Seq<Seq<char>>, n: int) -> nat
    decreases rows.len(),
{
    if rows.len() == 0 {
        0
    } else if !row_good(rows[0], n) {
        0
    } else {
        1 + first_bad_row(rows.drop_first(), n)
    }
}

/// Whether `s` decodes to a board of size `n`.
pub open spec fn decode_ok(s: Seq<char>, n: int) -> bool {
    clean_lines(s).len() == n && forall|i: int|
        0 <= i < n ==> row_good(#[trigger] clean_lines(s)[i], n)
}

/// The error a failing decode reports: a wrong line count first; then,
/// scanning rows in order, an unknown character before a wrong length.
pub open spec fn spec_decode_err(s: Seq<char>, n: int) -> DecodeError {
    let rows = clean_lines(s);
    if rows.len() != n {
        DecodeError::UnmatchedOverallLength { expected: n as usize, got: rows.len() as usize }
    } else {
        let i = first_bad_row(rows, n) as int;
        let l = rows[i];
        if !row_ok(l) {
            DecodeError::UnknownChar(l[first_bad(l) as int])
        } else {
            DecodeError::UnmatchedLocalLength {
                at: i as usize,
                expected: n as usize,
                got: l.len() as usize,
            }
        }
    }
}

/// `first_nl` is pinned down by a scan that finds no earlier newline.
proof fn lemma_first_nl_at(t: Seq<char>, j: int)
    requires
        0 <= j <= t.len(),
        forall|i: int| 0 <= i < j ==> t[i] != '\n',
        j < t.len() ==> t[j] == '\n',
    ensures
        first_nl(t) == j,
    decreases j,
{
    if j > 0 {
        assert forall|i: int| 0 <= i < j - 1 implies t.drop_first()[i] != '\n' by {
            assert(t.drop_first()[i] == t[i + 1]);
        }
        if j - 1 < t.drop_first().len() {
            assert(t.drop_first()[j - 1] == t[j]);
        }
        lemma_first_nl_at(t.drop_first(), j - 1);
    }
}

/// `trim_front` removes exactly the scanned run of leading spaces.
proof fn lemma_trim_front_at(t: Seq<char>, a: int)
    requires
        0 <= a <= t.len(),
        forall|i: int| 0 <= i < a ==> is_space(t[i]),
        a < t.len() ==> !is_space(t[a]),
    ensures
        trim_front(t) == t.skip(a),
    decreases a,
{
    if a == 0 {
        assert(t.skip(0) =~= t);
    } else {
        assert forall|i: int| 0 <= i < a - 1 implies is_space(t.drop_first()[i]) by {
            assert(t.drop_first()[i] == t[i + 1]);
        }
        if a - 1 < t.drop_first().len() {
            assert(t.drop_first()[a - 1] == t[a]);
        }
        lemma_trim_front_at(t.drop_first(), a - 1);
        assert(t.drop_first().skip(a - 1) =~= t.skip(a));
    }
}

/// `trim_back` removes exactly the scanned run of trailing spaces.
proof fn lemma_trim_back_at(t: Seq<char>, b: int)
    requires
        0 <= b <= t.len(),
        forall|i: int| b <= i < t.len() ==> is_space(t[i]),
        b > 0 ==> !is_space(t[b - 1]),
    ensures
        trim_back(t) == t.take(b),
    decreases t.len(),
{
    if t.len() > 0 && is_space(t.last()) {
        assert(b < t.len());
        assert forall|i: int| b <= i < t.drop_last().len() implies is_space(t.drop_last()[i]) by {
            assert(t.drop_last()[i] == t[i]);
        }
        lemma_trim_back_at(t.drop_last(), b);
        assert(t.drop_last().take(b) =~= t.take(b));
    } else {
        assert(b == t.len());
        assert(t.take(b) =~= t);
    }
}

/// `first_bad` is pinned down by a scan that finds no earlier bad
/// character.
proof fn lemma_first_bad_at(l: Seq<char>, x: int)
    requires
        0 <= x <= l.len(),
        forall|i: int| 0 <= i < x ==> (#[trigger] char_cell(l[i])) is Some,
        x < l.len() ==> char_cell(l[x]) is None,
    ensures
        first_bad(l) == x,
    decreases x,
{
    if x > 0 {
        assert forall|i: int| 0 <= i < x - 1 implies (#[trigger] char_cell(
            l.drop_first()[i],
        )) is Some by {
            assert(l.drop_first()[i] == l[i + 1]);
        }
        if x - 1 < l.drop_first().len() {
            assert(l.drop_first()[x - 1] == l[x]);
        }
        assert(char_cell(l[0]) is Some);
        lemma_first_bad_at(l.drop_first(), x - 1);
    }
}

/// `first_bad_row` is pinned down by a scan that finds no earlier bad
/// row.
proof fn lemma_first_bad_row_at(rows: Seq<Seq<char>>, n: int, y: int)
    requires
        0 <= y <= rows.len(),
        forall|i: int| 0 <= i < y ==> row_good(#[trigger] rows[i], n),
        y < rows.len() ==> !row_good(rows[y], n),
    ensures
        first_bad_row(rows, n) == y,
    decreases y,
{
    if y > 0 {
        assert forall|i: int| 0 <= i < y - 1 implies row_good(
            #[trigger] rows.drop_first()[i],
            n,
        ) by {
            assert(rows.drop_first()[i] == rows[i + 1]);
        }
        if y - 1 < rows.drop_first().len() {
            assert(rows.drop_first()[y - 1] == rows[y]);
        }
        assert(row_good(rows[0], n));
        lemma_first_bad_row_at(rows.drop_first(), n, y - 1);
    }
}

/// Cleaning lines distributes over concatenation.
proof fn lemma_clean_of_add(a: Seq<Seq<char>>, b: Seq<Seq<char>>)
    ensures
        clean_of(a + b) == clean_of(a) + clean_of(b),
{
    let tr = |l: Seq<char>| spec_trim(l);
    let ne = |l: Seq<char>| l.len() > 0;
    assert((a + b).map_values(tr) =~= a.map_values(tr) + b.map_values(tr));
    Seq::filter_distributes_over_add(a.map_values(tr), b.map_values(tr), ne);
}

/// Cleaning a single line keeps its trimmed form unless it is blank.
proof fn lemma_clean_of_single(l: Seq<char>)
    ensures
        clean_of(seq![l]) == (if spec_trim(l).len() > 0 {
            seq![spec_trim(l)]
        } else {
            Seq::<Seq<char>>::empty()
        }),
{
    let tr = |ll: Seq<char>| spec_trim(ll);
    let ne = |ll: Seq<char>| ll.len() > 0;
    reveal_with_fuel(Seq::filter, 3);
    assert(seq![l].map_values(tr) =~= seq![spec_trim(l)]);
    assert(seq![spec_trim(l)].drop_last() =~= Seq::<Seq<char>>::empty());
    if spec_trim(l).len() > 0 {
        assert(clean_of(seq![l]) =~= seq![spec_trim(l)]);
    } else {
        assert(clean_of(seq![l]) =~= Seq::<Seq<char>>::empty());
    }
}

/// Cleaning no lines yields no rows.
proof fn lemma_clean_of_empty()
    ensures
        clean_of(Seq::<Seq<char>>::empty()) == Seq::<Seq<char>>::empty(),
{
    let tr = |ll: Seq<char>| spec_trim(ll);
    let ne = |ll: Seq<char>| ll.len() > 0;
    reveal_with_fuel(Seq::filter, 2);
    assert(Seq::<Seq<char>>::empty().map_values(tr) =~= Seq::<Seq<char>>::empty());
    assert(clean_of(Seq::<Seq<char>>::empty()) =~= Seq::<Seq<char>>::empty());
}

/// The character one cell encodes to.
pub open spec fn cell_char(c: Cell) -> char {
    match c {
        Cell::Empty => '.',
        Cell::Black => 'b',
        Cell::White => 'w',
    }
}

/// The encoding of one row of cells.
pub open spec fn encode_row(r: Seq<Cell>) -> Seq<char> {
    r.map_values(|c: Cell| cell_char(c))
}

/// The encodings of the rows of a grid, each followed by a newline.
pub open spec fn encode_rows(g: Seq<Seq<Cell>>) -> Seq<char>
    decreases g.len(),
{
    if g.len() == 0 {
        Seq::empty()
    } else {
        encode_rows(g.drop_last()) + encode_row(g.last()) + seq!['\n']
    }
}

/// The text encoding of a board: a leading newline, then each row on a
/// line of its own.
pub open spec fn spec_encode(b: Board) -> Seq<char> {
    seq!['\n'] + encode_rows(b.grid())
}

impl Board {
    /// Writes the board as text: one line per row between a leading
    /// and a trailing newline, `.` for empty, `b` for Black, `w` for
    /// White.
    pub fn encode(&self) -> (r: String)
        requires
            self.wf(),
        ensures
            r@ == spec_encode(*self),
    {
        let mut s = String::new();
        s.append("\n");
        proof {
            reveal_strlit("\n");
            assert(s@ =~= seq!['\n'] + encode_rows(self.grid().take(0)));
        }
        let mut y: usize = 0;
        while y < self.data.len()
            invariant
                self.wf(),
                y <= self.data@.len(),
                self.data@.len() == self.size,
                s@ == seq!['\n'] + encode_rows(self.grid().take(y as int)),
            decreases self.data@.len() - y,
        {
            proof {
                assert(self.grid()[y as int] == self.data@[y as int]@);
            }
            let row_len = self.data[y].len();
            let mut x: usize = 0;
            while x < row_len
                invariant
                    self.wf(),
                    y < self.data@.len(),
                    self.data@.len() == self.size,
                    row_len == self.grid()[y as int].len(),
                    x <= row_len,
                    s@ == seq!['\n'] + encode_rows(self.grid().take(y as int)) + encode_row(
                        self.grid()[y as int].take(x as int),
                    ),
                decreases row_len - x,
            {
                proof {
                    assert(self.grid()[y as int] == self.data@[y as int]@);
                }
                let c = self.data[y][x];
                match c {
                    Cell::Empty => s.append("."),
                    Cell::Black => s.append("b"),
                    Cell::White => s.append("w"),
                }
                proof {
                    reveal_strlit(".");
                    reveal_strlit("b");
                    reveal_strlit("w");
                    assert(s@ =~= seq!['\n'] + encode_rows(self.grid().take(y as int))
                        + encode_row(self.grid()[y as int].take(x as int + 1)));
                }
                x += 1;
            }
            s.append("\n");
            proof {
                reveal_strlit("\n");
                assert(self.grid()[y as int].take(row_len as int) =~= self.grid()[y as int]);
                assert(self.grid().take(y as int + 1).drop_last() =~= self.grid().take(y as int));
                assert(self.grid().take(y as int + 1).last() == self.grid()[y as int]);
                assert(s@ =~= seq!['\n'] + encode_rows(self.grid().take(y as int + 1)));
            }
            y += 1;
        }
        proof {
            assert(self.grid().take(self.data@.len() as int) =~= self.grid());
        }
        s
    }
}

/// Collects the characters of a string slice.
fn str_chars(s: &str) -> (r: Vec<char>)
    ensures
        r@ == s@,
{
    let n = s.unicode_len();
    let mut v: Vec<char> = Vec::new();
    let mut i: usize = 0;
    while i < n
        invariant
            i <= n,
            n == s@.len(),
            v@ == s@.take(i as int),
        decreases n - i,
    {
        v.push(s.get_char(i));
        proof {
            assert(s@.take(i as int + 1) =~= s@.take(i as int).push(s@[i as int]));
        }
        i += 1;
    }
    proof {
        assert(s@.take(n as int) =~= s@);
    }
    v
}

/// Whether `str::trim` would remove this character.
fn is_space_char(c: char) -> (r: bool)
    ensures
        r == is_space(c),
{
    let u = c as u32;
    (0x9 <= u && u <= 0xD) || u == 0x20 || u == 0x85 || u == 0xA0 || u == 0x1680 || (0x2000 <= u
        && u <= 0x200A) || u == 0x2028 || u == 0x2029 || u == 0x202F || u == 0x205F || u == 0x3000
}

/// The cell a character decodes to.
fn cell_of_char(c: char) -> (r: Option<Cell>)
    ensures
        r == char_cell(c),
{
    if c == '.' || c == '_' {
        Some(Cell::Empty)
    } else if c == 'w' {
        Some(Cell::White)
    } else if c == 'b' {
        Some(Cell::Black)
    } else {
        None
    }
}

impl Board {
    /// Reads a board of the declared size back from its text form:
    /// lines are trimmed, blank lines ignored; the remaining line
    /// count and every line length must equal `board_size`, and every
    /// character must name a cell.
    pub fn decode(serialized: &str, board_size: usize) -> (r: Result<Board, DecodeError>)
        requires
            board_size < 255,
        ensures
            r is Ok <==> decode_ok(serialized@, board_size as int),
            r matches Ok(b) ==> b.wf() && b.size == board_size && forall|y: int|
                0 <= y < board_size ==> (#[trigger] b.grid()[y]) == parse_row(
                    clean_lines(serialized@)[y],
                ),
            r matches Err(e) ==> e == spec_decode_err(serialized@, board_size as int),
    {
        let ghost s = serialized@;
        let cs = str_chars(serialized);
        let n = cs.len();
        let mut lines: Vec<Vec<char>> = Vec::new();
        let mut pos: usize = 0;
        proof {
            assert(s.skip(0) =~= s);
            lemma_clean_of_empty();
            assert(lines@.map_values(|v: Vec<char>| v@) =~= Seq::<Seq<char>>::empty());
        }
        while pos < n
            invariant
                cs@ == s,
                n == s.len(),
                pos <= n,
                lines@.map_values(|v: Vec<char>| v@) + clean_of(split_lines(s.skip(pos as int)))
                    == clean_lines(s),
            decreases n - pos,
        {
            let ghost lines0 = lines@.map_values(|v: Vec<char>| v@);
            let mut e = pos;
            while e < n && cs[e] != '\n'
                invariant
                    pos <= e <= n,
                    cs@ == s,
                    n == s.len(),
                    forall|i: int| pos <= i < e ==> s[i] != '\n',
                decreases n - e,
            {
                e += 1;
            }
            let mut a = pos;
            while a < e && is_space_char(cs[a])
                invariant
                    pos <= a <= e,
                    e <= n,
                    cs@ == s,
                    n == s.len(),
                    forall|i: int| pos <= i < a ==> is_space(s[i]),
                decreases e - a,
            {
                a += 1;
            }
            let mut bnd = e;
            while bnd > a && is_space_char(cs[bnd - 1])
                invariant
                    a <= bnd <= e,
                    e <= n,
                    cs@ == s,
                    n == s.len(),
                    forall|i: int| bnd <= i < e ==> is_space(s[i]),
                decreases bnd,
            {
                bnd -= 1;
            }
            let ghost line = s.subrange(pos as int, e as int);
            proof {
                let t = s.skip(pos as int);
                assert forall|i: int| 0 <= i < e - pos implies t[i] != '\n' by {
                    assert(t[i] == s[i + pos]);
                }
                if e < n {
                    assert(t[e as int - pos as int] == s[e as int]);
                }
                lemma_first_nl_at(t, e as int - pos as int);
                // the trimmed segment of this line is s[a..bnd]
                assert forall|i: int| 0 <= i < a - pos implies is_space(line[i]) by {
                    assert(line[i] == s[i + pos]);
                }
                if a < e {
                    assert(line[a as int - pos as int] == s[a as int]);
                }
                lemma_trim_front_at(line, a as int - pos as int);
                let fr = line.skip(a as int - pos as int);
                assert forall|i: int| bnd - a <= i < fr.len() implies is_space(fr[i]) by {
                    assert(fr[i] == s[i + a]);
                }
                if bnd > a {
                    assert(fr[bnd as int - a as int - 1] == s[bnd as int - 1]);
                }
                lemma_trim_back_at(fr, bnd as int - a as int);
                assert(spec_trim(line) =~= s.subrange(a as int, bnd as int));
            }
            if a < bnd {
                let mut row: Vec<char> = Vec::new();
                let mut i = a;
                while i < bnd
                    invariant
                        a <= i <= bnd,
                        bnd <= n,
                        cs@ == s,
                        n == s.len(),
                        row@ == s.subrange(a as int, i as int),
                    decreases bnd - i,
                {
                    row.push(cs[i]);
                    proof {
                        assert(s.subrange(a as int, i as int + 1) =~= s.subrange(
                            a as int,
                            i as int,
                        ).push(s[i as int]));
                    }
                    i += 1;
                }
                lines.push(row);
            }
            proof {
                let t = s.skip(pos as int);
                assert(t.take(e as int - pos as int) =~= line);
                let rest: Seq<char> = if e < n {
                    s.skip(e as int + 1)
                } else {
                    Seq::<char>::empty()
                };
                if e < n {
                    assert(t.skip(e as int - pos as int + 1) =~= s.skip(e as int + 1));
                    assert(split_lines(t) == seq![line] + split_lines(rest));
                } else {
                    assert(t =~= line);
                    assert(split_lines(t) == seq![line]);
                    assert(s.skip(n as int) =~= Seq::<char>::empty());
                    assert(seq![line] =~= seq![line] + Seq::<Seq<char>>::empty());
                    assert(split_lines(t) == seq![line] + split_lines(
                        rest,
                    ).skip(split_lines(rest).len() as int) + Seq::<Seq<char>>::empty());
                }
                lemma_clean_of_single(line);
                if e < n {
                    lemma_clean_of_add(seq![line], split_lines(rest));
                    assert(clean_of(split_lines(t)) == clean_of(seq![line]) + clean_of(
                        split_lines(rest),
                    ));
                } else {
                    // the remainder after this line is the empty text,
                    // whose single blank segment cleans to nothing
                    assert(split_lines(Seq::<char>::empty()) == seq![Seq::<char>::empty()]);
                    lemma_clean_of_single(Seq::<char>::empty());
                    assert(clean_of(split_lines(rest)) =~= Seq::<Seq<char>>::empty());
                    assert(clean_of(split_lines(t)) =~= clean_of(seq![line]) + clean_of(
                        split_lines(rest),
                    ));
                }
                if a < bnd {
                    assert(spec_trim(line).len() > 0);
                    assert(lines@.map_values(|v: Vec<char>| v@) =~= lines0 + seq![spec_trim(line)]);
                    assert(lines0 + clean_of(split_lines(t)) == clean_lines(s));
                    assert(lines@.map_values(|v: Vec<char>| v@) + clean_of(split_lines(rest)) =~= clean_lines(
                        s,
                    ));
                } else {
                    assert(spec_trim(line).len() == 0);
                    assert(clean_of(seq![line]) =~= Seq::<Seq<char>>::empty());
                    assert(lines@.map_values(|v: Vec<char>| v@) + clean_of(split_lines(rest)) =~= clean_lines(
                        s,
                    ));
                }
            }
            pos = if e < n {
                e + 1
            } else {
                n
            };
        }
        proof {
            assert(s.skip(n as int) =~= Seq::<char>::empty());
            assert(split_lines(Seq::<char>::empty()) == seq![Seq::<char>::empty()]);
            lemma_clean_of_single(Seq::<char>::empty());
            assert(lines@.map_values(|v: Vec<char>| v@) + Seq::<Seq<char>>::empty() =~= lines@.map_values(
                |v: Vec<char>| v@,
            ));
            assert(lines@.map_values(|v: Vec<char>| v@) == clean_lines(s));
        }
        if lines.len() != board_size {
            return Err(
                DecodeError::UnmatchedOverallLength { expected: board_size, got: lines.len() },
            );
        }
        let mut data: Vec<Vec<Cell>> = Vec::new();
        let mut y: usize = 0;
        while y < board_size
            invariant
                lines@.map_values(|v: Vec<char>| v@) == clean_lines(s),
                lines@.len() == board_size,
                board_size < 255,
                s == serialized@,
                y <= board_size,
                data@.len() == y,
                forall|i: int| 0 <= i < y ==> row_good(#[trigger] clean_lines(s)[i], board_size as int),
                forall|i: int| 0 <= i < y ==> (#[trigger] data@[i])@ == parse_row(clean_lines(s)[i]),
            decreases board_size - y,
        {
            let ghost l = clean_lines(s)[y as int];
            proof {
                assert(l == lines@[y as int]@);
            }
            let line_len = lines[y].len();
            let mut row: Vec<Cell> = Vec::new();
            let mut x: usize = 0;
            while x < line_len
                invariant
                    lines@.map_values(|v: Vec<char>| v@) == clean_lines(s),
                    lines@.len() == board_size,
                    board_size < 255,
                    s == serialized@,
                    y < board_size,
                    data@.len() == y,
                    forall|i: int|
                        0 <= i < y ==> row_good(#[trigger] clean_lines(s)[i], board_size as int),
                    forall|i: int|
                        0 <= i < y ==> (#[trigger] data@[i])@ == parse_row(clean_lines(s)[i]),
                    l == lines@[y as int]@,
                    line_len == l.len(),
                    x <= line_len,
                    forall|i: int| 0 <= i < x ==> (#[trigger] char_cell(l[i])) is Some,
                    row@ == parse_row(l.take(x as int)),
                decreases line_len - x,
            {
                let c = lines[y][x];
                match cell_of_char(c) {
                    Some(cell) => {
                        row.push(cell);
                        proof {
                            assert(parse_row(l.take(x as int + 1)) =~= parse_row(
                                l.take(x as int),
                            ).push(char_cell(l[x as int]).unwrap()));
                        }
                    },
                    None => {
                        proof {
                            lemma_first_bad_at(l, x as int);
                            assert(!row_ok(l));
                            lemma_first_bad_row_at(clean_lines(s), board_size as int, y as int);
                            assert(!row_good(clean_lines(s)[y as int], board_size as int));
                            assert(!decode_ok(s, board_size as int));
                        }
                        return Err(DecodeError::UnknownChar(c));
                    },
                }
                x += 1;
            }
            if row.len() != board_size {
                proof {
                    assert(l.take(line_len as int) =~= l);
                    assert(row_ok(l));
                    assert(!row_good(l, board_size as int));
                    lemma_first_bad_row_at(clean_lines(s), board_size as int, y as int);
                    assert(!decode_ok(s, board_size as int));
                }
                return Err(
                    DecodeError::UnmatchedLocalLength {
                        at: y,
                        expected: board_size,
                        got: row.len(),
                    },
                );
            }
            proof {
                assert(l.take(line_len as int) =~= l);
                assert(row_good(l, board_size as int));
            }
            data.push(row);
            y += 1;
        }
        let b = Board { size: board_size, data };
        proof {
            assert forall|yy: int| 0 <= yy < board_size implies (#[trigger] b.grid()[yy])
                == parse_row(clean_lines(s)[yy]) by {
                assert(b.grid()[yy] == b.data@[yy]@);
            }
            assert forall|yy: int| 0 <= yy < board_size implies (#[trigger] b.grid()[yy]).len()
                == board_size by {
                assert(b.grid()[yy] == parse_row(clean_lines(s)[yy]));
            }
            assert(decode_ok(s, board_size as int));
        }
        Ok(b)
    }
}

/// Every character of an encoded row is a cell character: not a
/// newline, not white-space, and it decodes back to its cell.
proof fn lemma_encode_row_chars(r: Seq<Cell>)
    ensures
        encode_row(r).len() == r.len(),
        forall|i: int|
            0 <= i < r.len() ==> (#[trigger] encode_row(r)[i]) != '\n' && !is_space(
                encode_row(r)[i],
            ) && char_cell(encode_row(r)[i]) == Some(r[i]),
{
    assert forall|i: int| 0 <= i < r.len() implies (#[trigger] encode_row(r)[i]) != '\n'
        && !is_space(encode_row(r)[i]) && char_cell(encode_row(r)[i]) == Some(r[i]) by {
        assert(encode_row(r)[i] == cell_char(r[i]));
    }
}

/// The row texts can also be peeled off an encoding from the front.
proof fn lemma_encode_rows_front(g: Seq<Seq<Cell>>)
    requires
        g.len() > 0,
    ensures
        encode_rows(g) == encode_row(g[0]) + seq!['\n'] + encode_rows(g.drop_first()),
    decreases g.len(),
{
    if g.len() == 1 {
        assert(g.drop_last() =~= Seq::<Seq<Cell>>::empty());
        assert(g.drop_first() =~= Seq::<Seq<Cell>>::empty());
        assert(encode_rows(g) =~= encode_row(g[0]) + seq!['\n'] + encode_rows(g.drop_first()));
    } else {
        lemma_encode_rows_front(g.drop_last());
        assert(g.drop_last()[0] == g[0]);
        assert(g.drop_last().drop_first() =~= g.drop_first().drop_last());
        assert(g.drop_first().last() == g.last());
        assert(encode_rows(g) =~= encode_row(g[0]) + seq!['\n'] + encode_rows(g.drop_first()));
    }
}

/// Splitting an encoding's row text yields one segment per row, plus
/// the empty segment after the final newline.
proof fn lemma_split_encode_rows(g: Seq<Seq<Cell>>)
    ensures
        split_lines(encode_rows(g)) == g.map_values(|r: Seq<Cell>| encode_row(r)) + seq![
            Seq::<char>::empty(),
        ],
    decreases g.len(),
{
    let enc = g.map_values(|r: Seq<Cell>| encode_row(r));
    if g.len() == 0 {
        assert(encode_rows(g) =~= Seq::<char>::empty());
        assert(split_lines(Seq::<char>::empty()) == seq![Seq::<char>::empty()]);
        assert(enc + seq![Seq::<char>::empty()] =~= seq![Seq::<char>::empty()]);
    } else {
        lemma_encode_rows_front(g);
        let head = encode_row(g[0]);
        let rest = encode_rows(g.drop_first());
        let s = encode_rows(g);
        lemma_encode_row_chars(g[0]);
        assert forall|i: int| 0 <= i < head.len() implies s[i] != '\n' by {
            assert(s[i] == head[i]);
        }
        assert(s[head.len() as int] == '\n');
        lemma_first_nl_at(s, head.len() as int);
        assert(s.take(head.len() as int) =~= head);
        assert(s.skip(head.len() as int + 1) =~= rest);
        lemma_split_encode_rows(g.drop_first());
        let enc_rest = g.drop_first().map_values(|r: Seq<Cell>| encode_row(r));
        assert(split_lines(s) == seq![head] + (enc_rest + seq![Seq::<char>::empty()]));
        assert forall|i: int| 0 <= i < g.len() - 1 implies #[trigger] enc_rest[i] == enc[i + 1] by {
            assert(g.drop_first()[i] == g[i + 1]);
        }
        assert(split_lines(s) =~= enc + seq![Seq::<char>::empty()]);
    }
}

/// Cleaning leaves rows alone when none is blank or padded.
proof fn lemma_clean_of_id(rows: Seq<Seq<char>>)
    requires
        forall|i: int|
            0 <= i < rows.len() ==> (#[trigger] rows[i]).len() > 0 && !is_space(rows[i][0])
                && !is_space(rows[i].last()),
    ensures
        clean_of(rows) == rows,
    decreases rows.len(),
{
    if rows.len() == 0 {
        lemma_clean_of_empty();
        assert(clean_of(rows) =~= rows);
    } else {
        assert(rows =~= rows.drop_last() + seq![rows.last()]);
        lemma_clean_of_add(rows.drop_last(), seq![rows.last()]);
        lemma_clean_of_single(rows.last());
        assert(trim_front(rows.last()) == rows.last());
        assert(trim_back(rows.last()) == rows.last());
        lemma_clean_of_id(rows.drop_last());
        assert(clean_of(rows) =~= rows);
    }
}

/// Round trip: decoding an encoded board accepts the text and
/// restores exactly the same grid.
pub proof fn lemma_encode_decode_round_trip(b: Board)
    requires
        b.wf(),
        b.size >= 1,
    ensures
        decode_ok(spec_encode(b), b.size as int),
        clean_lines(spec_encode(b)).len() == b.size,
        forall|y: int|
            0 <= y < b.size ==> parse_row(#[trigger] clean_lines(spec_encode(b))[y]) == b.grid()[y],
{
    let g = b.grid();
    let enc = g.map_values(|r: Seq<Cell>| encode_row(r));
    let s = spec_encode(b);
    assert(s[0] == '\n');
    lemma_first_nl_at(s, 0);
    assert(s.take(0) =~= Seq::<char>::empty());
    assert(s.skip(1) =~= encode_rows(g));
    assert(split_lines(s) == seq![Seq::<char>::empty()] + split_lines(encode_rows(g)));
    lemma_split_encode_rows(g);
    assert(split_lines(s) == seq![Seq::<char>::empty()] + (enc + seq![Seq::<char>::empty()]));
    lemma_clean_of_add(seq![Seq::<char>::empty()], enc + seq![Seq::<char>::empty()]);
    lemma_clean_of_add(enc, seq![Seq::<char>::empty()]);
    lemma_clean_of_single(Seq::<char>::empty());
    assert forall|i: int| 0 <= i < enc.len() implies (#[trigger] enc[i]).len() > 0 && !is_space(
        enc[i][0],
    ) && !is_space(enc[i].last()) by {
        lemma_encode_row_chars(g[i]);
        assert(enc[i] == encode_row(g[i]));
    }
    lemma_clean_of_id(enc);
    assert(clean_lines(s) =~= enc);
    assert forall|y: int| 0 <= y < b.size implies row_good(
        #[trigger] clean_lines(s)[y],
        b.size as int,
    ) && parse_row(clean_lines(s)[y]) == g[y] by {
        lemma_encode_row_chars(g[y]);
        assert(clean_lines(s)[y] == encode_row(g[y]));
        assert forall|i: int| 0 <= i < encode_row(g[y]).len() implies (#[trigger] char_cell(
            encode_row(g[y])[i],
        )) is Some by {
            assert(char_cell(encode_row(g[y])[i]) == Some(g[y][i]));
        }
        assert(parse_row(encode_row(g[y])) =~= g[y]);
    }
}

/// Why a board text was rejected.
#[derive(Debug, Clone, Copy, PartialEq, Eq, Structural)]
pub enum DecodeError {
    /// A character that names no cell, with the offending character.
    UnknownChar(char),
    /// The number of non-blank lines differs from the board size.
    UnmatchedOverallLength { expected: usize, got: usize },
    /// One line's length differs from the board size, with its index.
    UnmatchedLocalLength { at: usize, expected: usize, got: usize },
}

} // verus!
