use crate::grid::{
    candidates_of, entry_ok, grid_view, grid_wf, lemma_position, CellView, Entry, Grid, SIZE,
};
use crate::solver::{is_solved, SolveError};
use vstd::prelude::*;

verus! {

/// A line without the carriage return that ends it, if any.
pub open spec fn strip_cr(l: Seq<char>) -> Seq<char> {
    if l.len() > 0 && l.last() == '\r' {
        l.drop_last()
    } else {
        l
    }
}

/// The pieces of `s` between line feeds, in order; a carriage return just
/// before a line feed belongs to the line ending.
pub open spec fn pieces(s: Seq<char>) -> Seq<Seq<char>>
    decreases s.len(),
{
    if s.len() == 0 {
        seq![Seq::<char>::empty()]
    } else {
        let p = pieces(s.drop_last());
        if s.last() == '\n' {
            p.update(p.len() - 1, strip_cr(p.last())).push(Seq::<char>::empty())
        } else {
            p.update(p.len() - 1, p.last().push(s.last()))
        }
    }
}

/// The lines of a text: the final line ending is optional.
pub open spec fn text_lines(s: Seq<char>) -> Seq<Seq<char>> {
    let p = pieces(s);
    if p.last().len() == 0 {
        p.drop_last()
    } else {
        p
    }
}

/// The value of a digit character.
pub open spec fn char_digit(c: char) -> int {
    c as int - '0' as int
}

/// What a character of the puzzle text means: `1` to `9` a given digit, any
/// other character an unknown square with every candidate.
pub open spec fn cell_of_char(c: char) -> CellView {
    if '1' <= c && c <= '9' {
        CellView::Fixed(char_digit(c))
    } else {
        CellView::Unknown(Set::new(|d: int| 1 <= d <= 9))
    }
}

/// The grid a puzzle text stands for: exactly 9 lines of exactly 9 characters.
pub open spec fn parse_model(s: Seq<char>) -> Result<Seq<CellView>, SolveError> {
    let ls = text_lines(s);
    if ls.len() == 9 && forall|l: int| 0 <= l < 9 ==> #[trigger] ls[l].len() == 9 {
        Ok(Seq::new(81, |i: int| cell_of_char(ls[i / 9][i % 9])))
    } else {
        Err(SolveError::Format)
    }
}

/// There is always at least one piece.
proof fn lemma_pieces_nonempty(s: Seq<char>)
    ensures
        pieces(s).len() >= 1,
    decreases s.len(),
{
    if s.len() > 0 {
        lemma_pieces_nonempty(s.drop_last());
    }
}

/// Relies on `str::chars`: the characters of the text, in order.
#[verifier::external_body]
fn chars_of(s: &str) -> (v: Vec<char>)
    ensures
        v@ == s@,
{
    s.chars().collect()
}

/// The square a character of the puzzle text stands for.
fn entry_of_char(c: char) -> (e: Entry)
    ensures
        entry_ok(e),
        e@ == cell_of_char(c),
{
    if '1' <= c && c <= '9' {
        Entry::Num(c as u32 - '0' as u32)
    } else {
        let flags: [bool; 9] = [true, true, true, true, true, true, true, true, true];
        assert(candidates_of(flags@) =~= Set::new(|d: int| 1 <= d <= 9));
        Entry::Empty(flags)
    }
}

/// Splits a text into its lines.
fn split_lines(chars: &Vec<char>) -> (ls: Vec<Vec<char>>)
    ensures
        ls@.map_values(|l: Vec<char>| l@) == text_lines(chars@),
{
    let mut done: Vec<Vec<char>> = Vec::new();
    let mut cur: Vec<char> = Vec::new();
    let n = chars.len();
    for i in 0..n
        invariant
            n == chars@.len(),
            pieces(chars@.take(i as int)) == done@.map_values(|l: Vec<char>| l@).push(cur@),
    {
        let c = chars[i];
        let ghost before = chars@.take(i as int);
        let ghost p = pieces(before);
        proof {
            assert(chars@.take(i + 1).drop_last() == before);
            lemma_pieces_nonempty(before);
        }
        if c == '\n' {
            let k = cur.len();
            if k > 0 && cur[k - 1] == '\r' {
                cur.pop();
            }
            assert(cur@ == strip_cr(p.last()));
            done.push(cur);
            cur = Vec::new();
            assert(pieces(chars@.take(i + 1)) =~= done@.map_values(|l: Vec<char>| l@).push(cur@));
        } else {
            cur.push(c);
            assert(pieces(chars@.take(i + 1)) =~= done@.map_values(|l: Vec<char>| l@).push(cur@));
        }
    }
    assert(chars@.take(n as int) == chars@);
    if cur.len() > 0 {
        done.push(cur);
        assert(done@.map_values(|l: Vec<char>| l@) =~= text_lines(chars@));
    } else {
        assert(done@.map_values(|l: Vec<char>| l@) =~= text_lines(chars@));
    }
    done
}

} // verus!

verus! {

/// Reads a puzzle: 9 lines of 9 characters, where `1` to `9` is a given digit
/// and any other character an unknown square.
pub fn parse_contents(contents: &str) -> (r: Result<Grid, SolveError>)
    ensures
        match r {
            Ok(g) => grid_wf(g) && parse_model(contents@) == Ok::<Seq<CellView>, SolveError>(
                grid_view(g),
            ),
            Err(e) => parse_model(contents@) == Err::<Seq<CellView>, SolveError>(e),
        },
{
    let chars = chars_of(contents);
    let lines = split_lines(&chars);
    let ghost ls = text_lines(contents@);
    assert(lines@.len() == ls.len());
    let mut cells: Vec<Entry> = Vec::new();
    let count = lines.len();
    for l in 0..count
        invariant
            count == lines@.len(),
            ls == text_lines(contents@),
            ls == lines@.map_values(|v: Vec<char>| v@),
            cells@.len() == 9 * l,
            forall|j: int| 0 <= j < l ==> #[trigger] ls[j].len() == 9,
            forall|i: int|
                0 <= i < 9 * l ==> entry_ok(#[trigger] cells@[i]) && cells@[i]@ == cell_of_char(
                    ls[i / 9][i % 9],
                ),
    {
        let line = &lines[l];
        assert(line@ == ls[l as int]);
        if line.len() != 9 {
            assert(ls[l as int].len() != 9);
            return Err(SolveError::Format);
        }
        for c in 0..SIZE
            invariant
                l < count,
                count == ls.len(),
                line@ == ls[l as int],
                line@.len() == 9,
                cells@.len() == 9 * l + c,
                forall|i: int|
                    0 <= i < 9 * l + c ==> entry_ok(#[trigger] cells@[i]) && cells@[i]@
                        == cell_of_char(ls[i / 9][i % 9]),
        {
            proof {
                lemma_position(l as int, c as int);
            }
            cells.push(entry_of_char(line[c]));
        }
    }
    let ghost all = cells@;
    match Grid::from_vec(cells) {
        Ok(g) => {
            assert(count == 9) by (nonlinear_arith)
                requires
                    all.len() == 81,
                    all.len() == 9 * count,
            ;
            assert(grid_view(g) =~= Seq::new(81, |i: int| cell_of_char(ls[i / 9][i % 9])));
            Ok(g)
        },
        Err(_) => {
            assert(count != 9);
            Err(SolveError::Format)
        },
    }
}

} // verus!

verus! {

/// The character of a digit from 1 to 9.
pub open spec fn digit_char(d: int) -> char {
    if d == 1 {
        '1'
    } else if d == 2 {
        '2'
    } else if d == 3 {
        '3'
    } else if d == 4 {
        '4'
    } else if d == 5 {
        '5'
    } else if d == 6 {
        '6'
    } else if d == 7 {
        '7'
    } else if d == 8 {
        '8'
    } else {
        '9'
    }
}

/// The character of a fixed square.
pub open spec fn cell_char(c: CellView) -> char {
    match c {
        CellView::Fixed(d) => digit_char(d),
        CellView::Unknown(_) => '_',
    }
}

/// Row `r` of the grid as text.
pub open spec fn row_text(s: Seq<CellView>, r: int) -> Seq<char> {
    Seq::new(9, |c: int| cell_char(s[9 * r + c]))
}

/// The first `n` rows as text, one line each, joined by line feeds.
pub open spec fn rows_text(s: Seq<CellView>, n: nat) -> Seq<char>
    decreases n,
{
    if n == 0 {
        Seq::<char>::empty()
    } else if n == 1 {
        row_text(s, 0)
    } else {
        rows_text(s, (n - 1) as nat).push('\n') + row_text(s, n - 1)
    }
}

/// A solved grid as text: 9 lines of 9 digits, with no line feed after the last.
pub open spec fn render(s: Seq<CellView>) -> Seq<char> {
    rows_text(s, 9)
}

/// The text of one digit.
fn digit_str(d: u32) -> (t: &'static str)
    requires
        1 <= d <= 9,
    ensures
        t@ == seq![digit_char(d as int)],
{
    proof {
        reveal_strlit("1");
        reveal_strlit("2");
        reveal_strlit("3");
        reveal_strlit("4");
        reveal_strlit("5");
        reveal_strlit("6");
        reveal_strlit("7");
        reveal_strlit("8");
        reveal_strlit("9");
    }
    if d == 1 {
        "1"
    } else if d == 2 {
        "2"
    } else if d == 3 {
        "3"
    } else if d == 4 {
        "4"
    } else if d == 5 {
        "5"
    } else if d == 6 {
        "6"
    } else if d == 7 {
        "7"
    } else if d == 8 {
        "8"
    } else {
        "9"
    }
}

/// Writes a solved grid as 9 lines of 9 digits, with no line feed after the last.
pub fn unparse_sudoku(sudoku: Grid) -> (r: String)
    requires
        grid_wf(sudoku),
        is_solved(grid_view(sudoku)),
    ensures
        r@ == render(grid_view(sudoku)),
{
    let ghost s = grid_view(sudoku);
    let mut output = String::new();
    for r in 0..SIZE
        invariant
            grid_wf(sudoku),
            s == grid_view(sudoku),
            is_solved(s),
            output@ == rows_text(s, r as nat),
    {
        let ghost head = if r == 0 {
            Seq::<char>::empty()
        } else {
            rows_text(s, r as nat).push('\n')
        };
        if r > 0 {
            let ghost prev = output@;
            output.append("\n");
            proof {
                reveal_strlit("\n");
            }
            assert("\n"@ =~= seq!['\n']);
            assert(output@ =~= prev.push('\n'));
        }
        assert(output@ =~= head + row_text(s, r as int).take(0));
        for c in 0..SIZE
            invariant
                grid_wf(sudoku),
                s == grid_view(sudoku),
                is_solved(s),
                r < 9,
                output@ == head + row_text(s, r as int).take(c as int),
        {
            proof {
                lemma_position(r as int, c as int);
            }
            if let Entry::Num(d) = sudoku.at(r, c) {
                output.append(digit_str(d));
                assert(row_text(s, r as int).take(c + 1) =~= row_text(s, r as int).take(
                    c as int,
                ).push(digit_char(d as int)));
            } else {
                assert(s[9 * r + c] is Fixed);
            }
        }
        assert(row_text(s, r as int).take(9) == row_text(s, r as int));
        assert(output@ == rows_text(s, (r + 1) as nat));
    }
    output
}

} // verus!

verus! {

/// Appending characters other than a line feed extends the last piece.
proof fn lemma_pieces_append(x: Seq<char>, b: Seq<char>)
    requires
        forall|j: int| 0 <= j < b.len() ==> b[j] != '\n',
    ensures
        pieces(x + b) == pieces(x).update(pieces(x).len() - 1, pieces(x).last() + b),
    decreases b.len(),
{
    lemma_pieces_nonempty(x);
    if b.len() == 0 {
        assert(x + b == x);
        assert(pieces(x).last() + b == pieces(x).last());
        assert(pieces(x).update(pieces(x).len() - 1, pieces(x).last()) =~= pieces(x));
    } else {
        let b1 = b.drop_last();
        lemma_pieces_append(x, b1);
        assert((x + b).drop_last() == x + b1);
        assert((x + b).last() == b.last());
        lemma_pieces_nonempty(x + b1);
        assert(pieces(x).last() + b =~= (pieces(x).last() + b1).push(b.last()));
        assert(pieces(x + b) =~= pieces(x).update(pieces(x).len() - 1, pieces(x).last() + b));
    }
}

/// A fixed square is written as a digit character.
proof fn lemma_digit_char(d: int)
    requires
        1 <= d <= 9,
    ensures
        '1' <= digit_char(d) && digit_char(d) <= '9',
        char_digit(digit_char(d)) == d,
{
}

/// The rows of a solved grid, written as text, split back into those rows.
proof fn lemma_pieces_rows(s: Seq<CellView>, n: nat)
    requires
        1 <= n <= 9,
        s.len() == 81,
        forall|i: int| 0 <= i < 81 ==> (#[trigger] s[i] matches CellView::Fixed(d) && 1 <= d <= 9),
    ensures
        pieces(rows_text(s, n)) == Seq::new(n, |l: int| row_text(s, l)),
    decreases n,
{
    assert forall|l: int, c: int| 0 <= l < 9 && 0 <= c < 9 implies '1' <= #[trigger] row_text(s, l)[c]
        && row_text(s, l)[c] <= '9' by {
        crate::grid::lemma_unit_indices(l, c);
        if let CellView::Fixed(d) = s[9 * l + c] {
            lemma_digit_char(d);
        }
    }
    if n == 1 {
        lemma_pieces_append(Seq::<char>::empty(), row_text(s, 0));
        assert(pieces(Seq::<char>::empty()) == seq![Seq::<char>::empty()]);
        assert(Seq::<char>::empty() + row_text(s, 0) =~= row_text(s, 0));
        assert(pieces(rows_text(s, 1)) =~= Seq::new(1, |l: int| row_text(s, l)));
    } else {
        let prev = rows_text(s, (n - 1) as nat);
        lemma_pieces_rows(s, (n - 1) as nat);
        let p = pieces(prev);
        let q = pieces(prev.push('\n'));
        assert(prev.push('\n').drop_last() == prev);
        let last = row_text(s, n - 2);
        assert(last.last() != '\r');
        assert(strip_cr(last) == last);
        assert(q =~= Seq::new((n - 1) as nat, |l: int| row_text(s, l)).push(Seq::<char>::empty()));
        lemma_pieces_append(prev.push('\n'), row_text(s, n - 1));
        assert(Seq::<char>::empty() + row_text(s, n - 1) =~= row_text(s, n - 1));
        assert(pieces(rows_text(s, n)) =~= Seq::new(n, |l: int| row_text(s, l)));
    }
}

/// Reading the text of a solved grid gives the grid back.
pub proof fn lemma_parse_render(s: Seq<CellView>)
    requires
        s.len() == 81,
        forall|i: int| 0 <= i < 81 ==> (#[trigger] s[i] matches CellView::Fixed(d) && 1 <= d <= 9),
    ensures
        parse_model(render(s)) == Ok::<Seq<CellView>, SolveError>(s),
{
    lemma_pieces_rows(s, 9);
    let ls = text_lines(render(s));
    assert(ls == Seq::new(9, |l: int| row_text(s, l)));
    assert forall|i: int| 0 <= i < 81 implies cell_of_char(ls[i / 9][i % 9]) == #[trigger] s[i] by {
        lemma_position(i / 9, i % 9);
        if let CellView::Fixed(d) = s[i] {
            lemma_digit_char(d);
        }
    }
    assert(Seq::new(81, |i: int| cell_of_char(ls[i / 9][i % 9])) =~= s);
}

} // verus!
