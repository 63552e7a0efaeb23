use vstd::prelude::*;
use vstd::string::{StrSliceExecFns, StringExecFns};
use super::chars_reader::CharReader;
use super::{
    ParseError, Parser, decimal_string, is_ascii_digit, lemma_advance_add, lemma_advance_n, parse_decimal,
    with_default_err_msgs,
};
use crate::grid::{Board, Sudoku, SudokuCell, lemma_cell_index};

verus! {

/// A digit or an underscore: the characters a cell is written with.
pub fn is_cell_char(c: &char) -> (b: bool)
    ensures
        b == (is_ascii_digit(*c) || *c == '_'),
{
    ('0' <= *c && *c <= '9') || *c == '_'
}

/// The cell a token stands for: only underscores (or nothing) for an empty
/// cell, a non-empty run of digits whose value fits for a digit.
pub open spec fn cell_of(t: Seq<char>) -> Option<SudokuCell> {
    if forall|q: int| 0 <= q < t.len() ==> #[trigger] t[q] == '_' {
        Some(SudokuCell::Empty)
    } else if t.len() > 0 && (forall|q: int| 0 <= q < t.len() ==> is_ascii_digit(#[trigger] t[q]))
        && super::decimal_value(t) <= usize::MAX {
        Some(SudokuCell::Digit(super::decimal_value(t) as usize))
    } else {
        None
    }
}

/// The cell that a token of digits and underscores stands for: only
/// underscores (or nothing) for an empty cell, only digits for a digit.
pub fn cell_from_token(token: &String) -> (r: Option<SudokuCell>)
    requires
        forall|q: int| 0 <= q < token@.len() ==> is_ascii_digit(#[trigger] token@[q]) || token@[q] == '_',
    ensures
        r == cell_of(token@),
{
    let n = token.as_str().unicode_len();
    let mut all_blank = true;
    let mut all_digits = true;
    let mut i: usize = 0;
    while i < n
        invariant
            n == token@.len(),
            i <= n,
            all_blank == forall|q: int| 0 <= q < i ==> #[trigger] token@[q] == '_',
            all_digits == forall|q: int| 0 <= q < i ==> is_ascii_digit(#[trigger] token@[q]),
        decreases n - i,
    {
        let c = token.as_str().get_char(i);
        if c != '_' {
            all_blank = false;
        }
        if !('0' <= c && c <= '9') {
            all_digits = false;
        }
        i += 1;
    }
    if all_blank {
        return Some(SudokuCell::Empty);
    }
    if !all_digits {
        return None;
    }
    match parse_decimal(token) {
        Some(v) => Some(SudokuCell::Digit(v)),
        None => None,
    }
}

/// The text of the tokens laid out between the gaps: `gaps[0]`, `tokens[0]`,
/// `gaps[1]`, ..., `tokens[k - 1]`, `gaps[k]`.
pub open spec fn joined(tokens: Seq<Seq<char>>, gaps: Seq<Seq<char>>) -> Seq<char>
    decreases tokens.len(),
{
    if tokens.len() == 0 {
        if gaps.len() > 0 {
            gaps[0]
        } else {
            seq![]
        }
    } else {
        joined(tokens.drop_last(), gaps.drop_last()) + tokens.last() + gaps.last()
    }
}

/// Space within a line, possibly empty.
pub open spec fn all_space(g: Seq<char>) -> bool {
    forall|q: int| 0 <= q < g.len() ==> super::inline_space(#[trigger] g[q])
}

/// A gap between two tokens: space, at least one character of it, possibly
/// followed by a carriage return.
pub open spec fn separator(g: Seq<char>) -> bool {
    ||| g.len() > 0 && all_space(g)
    ||| g.len() > 1 && g.last() == '\r' && all_space(g.drop_last())
}

/// `gaps` can lay out `k` tokens on a line: space before the first and after
/// the last, separators between them.
pub open spec fn gaps_ok(gaps: Seq<Seq<char>>, k: int) -> bool {
    &&& gaps.len() == k + 1
    &&& all_space(gaps[0])
    &&& all_space(gaps[k])
    &&& forall|i: int| 0 < i < k ==> separator(#[trigger] gaps[i])
}

/// The texts of the tokens.
pub open spec fn texts(tokens: Seq<String>) -> Seq<Seq<char>> {
    tokens.map_values(|t: String| t@)
}

/// Where a line starts: a trailing fault met at the start is reported first.
pub open spec fn line_base(c: super::Cursor) -> super::Cursor {
    if c.rest.len() == 0 {
        super::fault_taken(c)
    } else {
        c
    }
}

/// Reading `m` characters from `base` reached `after`, and they were the
/// tokens laid out between `gaps` on one line, ended by a line break (`\n` or
/// `\r\n`) or by the end of the input.
pub open spec fn reads_line(base: super::Cursor, after: super::Cursor, tokens: Seq<Seq<char>>, gaps: Seq<Seq<char>>, m: nat) -> bool {
    let text = joined(tokens, gaps);
    &&& gaps_ok(gaps, tokens.len() as int)
    &&& m <= base.rest.len()
    &&& after == super::advance_n(base, m)
    &&& {
        ||| (base.rest.take(m as int) == text && m == base.rest.len() && !base.fault)
        ||| base.rest.take(m as int) == text + seq!['\n']
        ||| base.rest.take(m as int) == text + seq!['\r', '\n']
    }
}

/// From `base` to `after`, one line was read, holding `tokens`.
pub open spec fn line_read(base: super::Cursor, after: super::Cursor, tokens: Seq<Seq<char>>) -> bool {
    exists|gaps: Seq<Seq<char>>, m: nat| #[trigger] reads_line(base, after, tokens, gaps, m)
}

/// Reads one line of cells: tokens of digits and underscores separated by
/// space, up to a line break or the end of the input.
#[verifier::rlimit(60)]
fn match_line(parser: &mut Parser) -> (r: Result<Vec<String>, String>)
    requires
        old(parser).wf(),
    ensures
        final(parser).wf(),
        old(parser)@.rest.len() == 0 && !old(parser)@.fault ==> r is Err,
        r matches Ok(tokens) ==> line_read(line_base(old(parser)@), final(parser)@, texts(tokens@)),
        r matches Ok(tokens) ==> tokens@.len() > 0 && forall|k: int| 0 <= k < tokens@.len() ==> forall|q: int|
            0 <= q < (#[trigger] tokens@[k])@.len() ==> is_ascii_digit(#[trigger] tokens@[k]@[q]) || tokens@[k]@[q] == '_',
{
    if let Ok(true) = parser.try_match_eof() {
        let mut m = String::from_str("I expected to see more lines of sudoku, but the file ended.\n");
        m.append("Is your board not square?");
        return Err(m);
    }
    let ghost base = parser@;
    proof {
        assert(base == line_base(old(parser)@));
        lemma_advance_n(base, 0);
    }
    let r = parser.eat_space();
    with_default_err_msgs(r, parser)?;
    let ghost mut gaps: Seq<Seq<char>> = seq![];
    let ghost mut c: nat = 0;
    proof {
        let k = choose|k: nat| {
            &&& k <= base.rest.len()
            &&& forall|q: int| 0 <= q < k ==> #[trigger] super::inline_space(base.rest[q])
            &&& r is Ok ==> {
                &&& parser@ == super::advance_n(base, k)
                &&& (k == base.rest.len() ==> !base.fault)
                &&& (k < base.rest.len() ==> !super::inline_space(base.rest[k as int]))
                &&& r == Ok::<bool, ParseError>(k > 0)
            }
            &&& r is Err ==> k == base.rest.len() && base.fault && r == Err::<bool, ParseError>(ParseError::NotUtf8)
        };
        lemma_advance_n(base, k);
        c = k;
        gaps = seq![base.rest.take(k as int)];
        assert(all_space(gaps[0]));
    }
    let mut tokens: Vec<String> = Vec::new();
    loop
        invariant
            parser.wf(),
            old(parser)@.rest.len() > 0 || old(parser)@.fault,
            base == line_base(old(parser)@),
            c <= base.rest.len(),
            parser@ == super::advance_n(base, c),
            parser@.rest == base.rest.skip(c as int),
            parser@.fault == base.fault,
            gaps.len() == tokens@.len() + 1,
            all_space(gaps[0]),
            forall|i: int| 0 < i < gaps.len() ==> separator(#[trigger] gaps[i]),
            base.rest.take(c as int) == joined(texts(tokens@), gaps),
            forall|k: int| 0 <= k < tokens@.len() ==> forall|q: int|
                0 <= q < (#[trigger] tokens@[k])@.len() ==> is_ascii_digit(#[trigger] tokens@[k]@[q]) || tokens@[k]@[q] == '_',
        decreases parser@.rest.len(),
    {
        let ghost at_start = parser@;
        let next = match parser.collect_predicate(is_cell_char) {
            Ok(s) => s,
            Err(err) => {
                return Err(parser.default_err_msg(err));
            },
        };
        proof {
            assert forall|q: int| 0 <= q < next@.len() implies is_ascii_digit(#[trigger] next@[q]) || next@[q] == '_' by {
                assert(is_cell_char.ensures((&next@[q],), true));
            }
            lemma_advance_n(at_start, next@.len());
            lemma_advance_add(base, c, next@.len());
        }
        let ghost before = tokens@;
        tokens.push(next);
        proof {
            assert forall|k: int| 0 <= k < tokens@.len() implies forall|q: int|
                0 <= q < (#[trigger] tokens@[k])@.len() ==> is_ascii_digit(#[trigger] tokens@[k]@[q]) || tokens@[k]@[q] == '_' by {
                if k < before.len() {
                    assert(tokens@[k] == before[k]);
                }
            }
        }
        let ghost c1 = c + next@.len();
        let ghost after_token = parser@;
        let r = parser.eat_space();
        let space_after = with_default_err_msgs(r, parser)?;
        let ghost w: Seq<char>;
        proof {
            let k = choose|k: nat| {
                &&& k <= after_token.rest.len()
                &&& forall|q: int| 0 <= q < k ==> #[trigger] super::inline_space(after_token.rest[q])
                &&& r is Ok ==> {
                    &&& parser@ == super::advance_n(after_token, k)
                    &&& (k == after_token.rest.len() ==> !after_token.fault)
                    &&& (k < after_token.rest.len() ==> !super::inline_space(after_token.rest[k as int]))
                    &&& r == Ok::<bool, ParseError>(k > 0)
                }
                &&& r is Err ==> k == after_token.rest.len() && after_token.fault && r == Err::<bool, ParseError>(ParseError::NotUtf8)
            };
            lemma_advance_n(after_token, k);
            lemma_advance_add(base, c1, k);
            w = after_token.rest.take(k as int);
            assert(all_space(w));
            let tv = texts(tokens@);
            assert(texts(before).push(next@) =~= tv);
            assert(tv.drop_last() =~= texts(before));
            assert(gaps.push(w).drop_last() =~= gaps);
            assert(joined(tv, gaps.push(w)) == joined(texts(before), gaps) + next@ + w);
            assert(base.rest.take((c1 + k) as int) =~= base.rest.take(c as int) + next@ + w);
            gaps = gaps.push(w);
            c = c1 + k;
            assert(parser@.rest =~= base.rest.skip(c as int));
        }
        let r = parser.try_match_eof();
        if with_default_err_msgs(r, parser)? {
            proof {
                assert(gaps_ok(gaps, tokens@.len() as int));
                assert(base.rest.take(c as int) == joined(texts(tokens@), gaps) && c == base.rest.len() && !base.fault);
                assert(parser@ == super::advance_n(base, c));
                let b2 = line_base(old(parser)@);
                assert(reads_line(b2, parser@, texts(tokens@), gaps, c));
                assert(line_read(b2, parser@, texts(tokens@)));
            }
            return Ok(tokens);
        }
        let ghost before_cr = parser@;
        let r = parser.try_match('\r');
        let cr = with_default_err_msgs(r, parser)?;
        let ghost after_cr = parser@;
        proof {
            assert(before_cr == super::advance_n(base, c));
            if cr {
                assert(before_cr.rest[0] == '\r');
                assert(base.rest[c as int] == '\r');
                assert(after_cr == super::advance_n(base, c + 1));
                assert(after_cr.rest =~= base.rest.skip((c + 1) as int));
            } else {
                assert(after_cr == before_cr);
            }
        }
        let r = parser.try_match('\n');
        if with_default_err_msgs(r, parser)? {
            proof {
                assert(gaps_ok(gaps, tokens@.len() as int));
                let text = joined(texts(tokens@), gaps);
                if cr {
                    assert(after_cr.rest[0] == '\n');
                    assert(base.rest[(c + 1) as int] == '\n');
                    assert(parser@ == super::advance_n(base, c + 2));
                    assert(base.rest.take((c + 2) as int) =~= base.rest.take(c as int) + seq!['\r', '\n']);
                    assert(base.rest.take((c + 2) as int) == text + seq!['\r', '\n']);
                    let b2 = line_base(old(parser)@);
                    assert(reads_line(b2, parser@, texts(tokens@), gaps, (c + 2) as nat));
                assert(line_read(b2, parser@, texts(tokens@)));
                } else {
                    assert(after_cr.rest[0] == '\n');
                    assert(base.rest[c as int] == '\n');
                    assert(parser@ == super::advance_n(base, c + 1));
                    assert(base.rest.take((c + 1) as int) =~= base.rest.take(c as int) + seq!['\n']);
                    assert(base.rest.take((c + 1) as int) == text + seq!['\n']);
                    let b2 = line_base(old(parser)@);
                    assert(reads_line(b2, parser@, texts(tokens@), gaps, (c + 1) as nat));
                assert(line_read(b2, parser@, texts(tokens@)));
                }
            }
            return Ok(tokens);
        }
        if !space_after {
            return Err(parser.err(String::from_str("Expected a space or a line break after a number.")));
        }
        proof {
            if cr {
                let last = gaps.len() - 1;
                let g2 = gaps.update(last, gaps[last] + seq!['\r']);
                assert(g2.drop_last() =~= gaps.drop_last());
                assert(gaps[last] + seq!['\r'] =~= gaps[last].push('\r'));
                assert((gaps[last] + seq!['\r']).drop_last() =~= gaps[last]);
                assert(base.rest.take((c + 1) as int) =~= base.rest.take(c as int) + seq!['\r']);
                let tv = texts(tokens@);
                assert(joined(tv, gaps) == joined(tv.drop_last(), gaps.drop_last()) + tv.last() + gaps.last());
                assert(joined(tv, g2) == joined(tv.drop_last(), g2.drop_last()) + tv.last() + g2.last());
                assert(joined(tv, g2) =~= joined(tv, gaps) + seq!['\r']);
                gaps = g2;
                c = c + 1;
            }
            assert(parser@.rest =~= base.rest.skip(c as int));
        }
    }
}

/// "Sorry, I don't know how to read '<token>' as a cell."
fn unreadable_cell(token: &String) -> String {
    let mut m = String::from_str("Sorry, I don't know how to read '");
    m.append(token.as_str());
    m.append("' as a cell.");
    m
}

/// The message for a digit outside 1..=N.
fn digit_out_of_range(box_side: usize, d: usize, side: usize) -> String {
    let mut m = String::from_str("Your sudoku has boxes of ");
    m.append(decimal_string(box_side).as_str());
    m.append("x");
    m.append(decimal_string(box_side).as_str());
    m.append(", but you wrote ");
    m.append(decimal_string(d).as_str());
    m.append(" in one of them. Please use values from 1 to ");
    m.append(decimal_string(side).as_str());
    m.append(".");
    m
}

/// The cell a token stands for, with its digit in 1..=`side`.
fn read_cell(token: &String, box_side: usize, side: usize) -> (r: Result<SudokuCell, String>)
    requires
        forall|q: int| 0 <= q < token@.len() ==> is_ascii_digit(#[trigger] token@[q]) || token@[q] == '_',
    ensures
        r matches Ok(SudokuCell::Digit(d)) ==> 1 <= d <= side,
        r matches Ok(c) ==> cell_of(token@) == Some(c),
{
    match cell_from_token(token) {
        None => Err(unreadable_cell(token)),
        Some(SudokuCell::Empty) => Ok(SudokuCell::Empty),
        Some(SudokuCell::Digit(d)) => {
            if d == 0 || d > side {
                Err(digit_out_of_range(box_side, d, side))
            } else {
                Ok(SudokuCell::Digit(d))
            }
        },
    }
}

/// The cell expected at (`r`, `c`) from the token lines: the cell of the
/// token there, empty where the line is short.
pub open spec fn expected(lines: Seq<Seq<Seq<char>>>, r: int, c: int) -> SudokuCell {
    if 0 <= r < lines.len() && 0 <= c < lines[r].len() {
        match cell_of(lines[r][c]) {
            Some(x) => x,
            None => SudokuCell::Empty,
        }
    } else {
        SudokuCell::Empty
    }
}

/// From `start`, the N lines `lines` were read one after the other (the
/// cursors `curs` between them), the first with N tokens and none with more,
/// every token a cell, and only space followed; `g` holds those cells.
pub open spec fn board_layout(start: super::Cursor, lines: Seq<Seq<Seq<char>>>, curs: Seq<super::Cursor>, g: Board) -> bool {
    let n = g.side as int;
    &&& lines.len() == n
    &&& curs.len() == n + 1
    &&& curs[0] == start
    &&& forall|i: int| 0 <= i < n ==> line_read(line_base(curs[i]), curs[i + 1], #[trigger] lines[i])
    &&& lines[0].len() == n
    &&& forall|i: int| 0 <= i < n ==> (#[trigger] lines[i]).len() <= n
    &&& forall|i: int, c: int| 0 <= i < n && 0 <= c < lines[i].len() ==> cell_of(#[trigger] lines[i][c]) is Some
    &&& forall|r: int, c: int| 0 <= r < n && 0 <= c < n ==> #[trigger] g.at(r, c) == expected(lines, r, c)
    &&& all_space(curs[n].rest)
    &&& !curs[n].fault
}

/// The text from `start` on reads as the board `g`.
pub open spec fn reads_board(start: super::Cursor, g: Board) -> bool {
    exists|lines: Seq<Seq<Seq<char>>>, curs: Seq<super::Cursor>| #[trigger] board_layout(start, lines, curs, g)
}

/// Reads a board: N lines of N cells each, a cell being a number in 1..=N
/// or underscores for an empty one, separated by space. N must be a perfect
/// square; a line after the first may hold fewer cells, the rest of it
/// staying empty. Space may follow the last line; nothing else may.
pub fn parse(reader: CharReader) -> (r: Result<Sudoku, String>)
    requires
        reader.wf(),
    ensures
        r matches Ok(s) ==> s@.square() && s@.digits_in_range() && s@.side >= 1,
        r matches Ok(s) ==> reads_board(
            super::Cursor {
                rest: super::chars_reader::decoded(reader.rest()).0,
                fault: super::chars_reader::decoded(reader.rest()).1,
                line: 0,
                column: 0,
            },
            s@,
        ),
{
    let mut parser = Parser::from_reader(reader);
    let ghost start = parser@;

    // The first line gives the size of the board.
    let first_line = match_line(&mut parser)?;
    let ghost mut lines: Seq<Seq<Seq<char>>> = seq![texts(first_line@)];
    let ghost mut curs: Seq<super::Cursor> = seq![start, parser@];
    let side = first_line.len();
    if side == 0 {
        let mut m = String::from_str("I don't know how to solve a 0 by 0 board! ");
        m.append("Maybe it's already trivially solved?");
        return Err(m);
    }
    let cells = match side.checked_mul(side) {
        Some(c) => c,
        None => {
            return Err(String::from_str("Your board is too large."));
        },
    };
    let mut sudoku = Sudoku::empty(side);
    let box_side = sudoku.box_side();
    if box_side * box_side != side {
        let mut m = String::from_str("Your board side length needs to be a perfect square, ");
        m.append("or you can't define boxes well. ");
        m.append("I counted ");
        m.append(decimal_string(side).as_str());
        m.append(" columns.");
        return Err(m);
    }
    let ghost n = side as int;
    proof {
        assert forall|r: int, c: int| 0 <= r < n && 0 <= c < n implies #[trigger] sudoku@.at(r, c) == SudokuCell::Empty by {
            lemma_cell_index(n, r, c);
        }
    }

    let mut i: usize = 0;
    while i < side
        invariant
            sudoku@.square(),
            sudoku@.side == side,
            n == side,
            sudoku@.box_side == box_side,
            sudoku@.digits_in_range(),
            side == first_line@.len(),
            i <= side,
            lines == seq![texts(first_line@)],
            forall|k: int| 0 <= k < first_line@.len() ==> forall|q: int|
                0 <= q < (#[trigger] first_line@[k])@.len() ==> is_ascii_digit(#[trigger] first_line@[k]@[q]) || first_line@[k]@[q] == '_',
            forall|c: int| 0 <= c < i ==> cell_of(#[trigger] lines[0][c]) is Some,
            forall|r: int, c: int| 0 <= r < n && 0 <= c < n ==> #[trigger] sudoku@.at(r, c) == if r == 0 && c < i {
                expected(lines, r, c)
            } else {
                SudokuCell::Empty
            },
        decreases side - i,
    {
        let d = read_cell(&first_line[i], box_side, side)?;
        let ghost before = sudoku@;
        proof {
            lemma_cell_index(side as int, 0, i as int);
            assert(lines[0][i as int] == first_line@[i as int]@);
        }
        sudoku.set(0, i, d);
        proof {
            assert forall|r: int, c: int| 0 <= r < n && 0 <= c < n implies #[trigger] sudoku@.at(r, c) == if r == 0 && c < i + 1 {
                expected(lines, r, c)
            } else {
                SudokuCell::Empty
            } by {
                lemma_cell_index(n, r, c);
                if r == 0 && c == i {
                } else {
                    assert(r * n + c != i as int);
                    assert(sudoku@.at(r, c) == before.at(r, c));
                }
            }
        }
        i += 1;
    }

    // The other lines.
    let mut line: usize = 1;
    while line < side
        invariant
            parser.wf(),
            sudoku@.square(),
            sudoku@.side == side,
            n == side,
            sudoku@.box_side == box_side,
            sudoku@.digits_in_range(),
            1 <= line <= side,
            lines.len() == line,
            curs.len() == line + 1,
            curs[0] == start,
            parser@ == curs[line as int],
            lines[0].len() == n,
            forall|k: int| 0 <= k < line ==> line_read(line_base(curs[k]), curs[k + 1], #[trigger] lines[k]),
            forall|k: int| 0 <= k < line ==> (#[trigger] lines[k]).len() <= n,
            forall|k: int, c: int| 0 <= k < line && 0 <= c < lines[k].len() ==> cell_of(#[trigger] lines[k][c]) is Some,
            forall|r: int, c: int| 0 <= r < n && 0 <= c < n ==> #[trigger] sudoku@.at(r, c) == if r < line {
                expected(lines, r, c)
            } else {
                SudokuCell::Empty
            },
        decreases side - line,
    {
        let ghost at_line = parser@;
        let tokens = match_line(&mut parser)?;
        proof {
            lines = lines.push(texts(tokens@));
            curs = curs.push(parser@);
        }
        let mut i: usize = 0;
        while i < tokens.len()
            invariant
                sudoku@.square(),
                sudoku@.side == side,
                n == side,
                sudoku@.box_side == box_side,
                sudoku@.digits_in_range(),
                line < side,
                i <= tokens@.len(),
                i <= side,
                lines.len() == line + 1,
                lines[line as int] == texts(tokens@),
                forall|k: int| 0 <= k < tokens@.len() ==> forall|q: int|
                    0 <= q < (#[trigger] tokens@[k])@.len() ==> is_ascii_digit(#[trigger] tokens@[k]@[q]) || tokens@[k]@[q] == '_',
                forall|k: int, c: int| 0 <= k < line && 0 <= c < lines[k].len() ==> cell_of(#[trigger] lines[k][c]) is Some,
                forall|c: int| 0 <= c < i ==> cell_of(#[trigger] lines[line as int][c]) is Some,
                forall|r: int, c: int| 0 <= r < n && 0 <= c < n ==> #[trigger] sudoku@.at(r, c) == if r < line || (r == line && c < i) {
                    expected(lines, r, c)
                } else {
                    SudokuCell::Empty
                },
            decreases tokens@.len() - i,
        {
            if i >= side {
                let mut m = String::from_str("There are too many elements on line ");
                m.append(decimal_string(line).as_str());
                m.append("!");
                return Err(m);
            }
            let d = read_cell(&tokens[i], box_side, side)?;
            let ghost before = sudoku@;
            proof {
                lemma_cell_index(side as int, line as int, i as int);
                assert(lines[line as int][i as int] == tokens@[i as int]@);
            }
            sudoku.set(line, i, d);
            proof {
                assert forall|r: int, c: int| 0 <= r < n && 0 <= c < n implies #[trigger] sudoku@.at(r, c) == if r < line || (r == line && c < i + 1) {
                    expected(lines, r, c)
                } else {
                    SudokuCell::Empty
                } by {
                    lemma_cell_index(n, r, c);
                    if r == line && c == i {
                    } else {
                        assert(r * n + c != line * n + i);
                        assert(sudoku@.at(r, c) == before.at(r, c));
                    }
                }
            }
            i += 1;
        }
        proof {
            assert forall|r: int, c: int| 0 <= r < n && 0 <= c < n implies #[trigger] sudoku@.at(r, c) == if r < line + 1 {
                expected(lines, r, c)
            } else {
                SudokuCell::Empty
            } by {
                if r == line && c >= i {
                    assert(expected(lines, r, c) == SudokuCell::Empty);
                }
            }
            assert forall|k: int| 0 <= k < line + 1 implies line_read(line_base(curs[k]), curs[k + 1], #[trigger] lines[k]) by {
                if k == line {
                    assert(curs[k] == at_line);
                }
            }
        }
        line += 1;
    }

    // Only space may follow.
    let ghost after_lines = parser@;
    let r = parser.eat_space();
    with_default_err_msgs(r, &parser)?;
    match parser.expect_eof() {
        Ok(()) => {},
        Err(_) => {
            let mut m = String::from_str("Finished parsing the sudoku puzzle, ");
            m.append("but there's non-whitespace remaining in the file.");
            m.append("Is your board not square?");
            return Err(parser.err(m));
        },
    }
    proof {
        let k = choose|k: nat| {
            &&& k <= after_lines.rest.len()
            &&& forall|q: int| 0 <= q < k ==> #[trigger] super::inline_space(after_lines.rest[q])
            &&& r is Ok ==> {
                &&& parser@ == super::advance_n(after_lines, k)
                &&& (k == after_lines.rest.len() ==> !after_lines.fault)
                &&& (k < after_lines.rest.len() ==> !super::inline_space(after_lines.rest[k as int]))
                &&& r == Ok::<bool, ParseError>(k > 0)
            }
            &&& r is Err ==> k == after_lines.rest.len() && after_lines.fault && r == Err::<bool, ParseError>(ParseError::NotUtf8)
        };
        lemma_advance_n(after_lines, k);
        assert(k == after_lines.rest.len());
        assert(all_space(curs[n].rest));
        assert(board_layout(start, lines, curs, sudoku@));
    }
    Ok(sudoku)
}

} // verus!
