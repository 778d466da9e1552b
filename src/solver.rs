use crate::grid::{
    block_of, candidates_of, column_of, committed, entry_ok, grid_cells, grid_view, grid_wf,
    lemma_position, lemma_unit_indices, row_of, single_flag, CellView, Entry, Grid, CELLS, SIZE,
};
use vstd::prelude::*;

verus! {

/// The digits held by the fixed squares of a unit (a row, a column or a block).
pub open spec fn fixed_digits(u: Seq<CellView>) -> Set<int> {
    Set::new(|d: int| exists|j: int| 0 <= j < u.len() && u[j] == CellView::Fixed(d))
}

/// Number of the block that holds square `i`; blocks are numbered row-major.
pub open spec fn block_number(i: int) -> int {
    3 * ((i / 9) / 3) + (i % 9) / 3
}

/// Digits fixed in the row, the column or the block of square `i`.
pub open spec fn seen_from(s: Seq<CellView>, i: int) -> Set<int> {
    fixed_digits(row_of(s, i / 9)).union(fixed_digits(column_of(s, i % 9))).union(
        fixed_digits(block_of(s, block_number(i))),
    )
}

/// Square `i` after elimination against the grid `s`: an unknown square loses
/// every digit fixed in its row, column or block; a fixed one stays.
pub open spec fn eliminated(s: Seq<CellView>, i: int) -> CellView {
    match s[i] {
        CellView::Unknown(cs) => CellView::Unknown(cs.difference(seen_from(s, i))),
        CellView::Fixed(d) => CellView::Fixed(d),
    }
}

/// One elimination pass: every square is narrowed against the same grid `s`.
pub open spec fn eliminate_all(s: Seq<CellView>) -> Seq<CellView> {
    Seq::new(81, |i: int| eliminated(s, i))
}

/// Clears the flag of every digit that is fixed in `unit`.
fn clear_seen(flags: [bool; 9], unit: &Vec<Entry>) -> (r: [bool; 9])
    requires
        forall|j: int| 0 <= j < unit@.len() ==> entry_ok(#[trigger] unit@[j]),
    ensures
        candidates_of(r@) == candidates_of(flags@).difference(
            fixed_digits(unit@.map_values(|e: Entry| e@)),
        ),
{
    let mut out = flags;
    let n = unit.len();
    for j in 0..n
        invariant
            n == unit@.len(),
            forall|k: int| 0 <= k < unit@.len() ==> entry_ok(#[trigger] unit@[k]),
            candidates_of(out@) == candidates_of(flags@).difference(
                fixed_digits(unit@.take(j as int).map_values(|e: Entry| e@)),
            ),
    {
        let e = unit[j];
        let ghost before = out@;
        if let Entry::Num(d) = e {
            out[(d - 1) as usize] = false;
        }
        proof {
            let prev = unit@.take(j as int).map_values(|e: Entry| e@);
            let next = unit@.take(j + 1).map_values(|e: Entry| e@);
            assert(next == prev.push(e@));
            assert forall|x: int| fixed_digits(next).contains(x) <==> fixed_digits(
                prev,
            ).contains(x) || e@ == CellView::Fixed(x) by {
                if fixed_digits(prev).contains(x) {
                    let w = choose|w: int| 0 <= w < prev.len() && prev[w] == CellView::Fixed(x);
                    assert(next[w] == prev[w]);
                }
                if e@ == CellView::Fixed(x) {
                    assert(next[j as int] == e@);
                }
                if fixed_digits(next).contains(x) {
                    let w = choose|w: int| 0 <= w < next.len() && next[w] == CellView::Fixed(x);
                    if w < j {
                        assert(prev[w] == next[w]);
                    }
                }
            }
            assert forall|x: int| candidates_of(out@).contains(x) <==> candidates_of(
                before,
            ).contains(x) && e@ != CellView::Fixed(x) by {
                if 1 <= x <= 9 {
                    assert(out@[x - 1] == (before[x - 1] && e@ != CellView::Fixed(x)));
                }
            }
            assert(candidates_of(before) == candidates_of(flags@).difference(fixed_digits(prev)));
            assert forall|x: int| candidates_of(out@).contains(x) <==> candidates_of(
                flags@,
            ).difference(fixed_digits(next)).contains(x) by {
                assert(candidates_of(before).contains(x) <==> candidates_of(flags@).contains(x)
                    && !fixed_digits(prev).contains(x));
            }
            assert(candidates_of(out@) =~= candidates_of(flags@).difference(fixed_digits(next)));
        }
    }
    assert(unit@.take(n as int) == unit@);
    out
}

} // verus!

verus! {

/// Taking the view of each cell commutes with picking out a row, a column or a block.
proof fn lemma_units_view(g: Grid, k: int)
    requires
        grid_wf(g),
        0 <= k < 9,
    ensures
        row_of(grid_cells(g), k).map_values(|e: Entry| e@) == row_of(grid_view(g), k),
        column_of(grid_cells(g), k).map_values(|e: Entry| e@) == column_of(grid_view(g), k),
        block_of(grid_cells(g), k).map_values(|e: Entry| e@) == block_of(grid_view(g), k),
        forall|j: int| 0 <= j < 9 ==> entry_ok(#[trigger] row_of(grid_cells(g), k)[j]),
        forall|j: int| 0 <= j < 9 ==> entry_ok(#[trigger] column_of(grid_cells(g), k)[j]),
        forall|j: int| 0 <= j < 9 ==> entry_ok(#[trigger] block_of(grid_cells(g), k)[j]),
{
    assert forall|j: int| 0 <= j < 9 implies 0 <= 9 * k + j < 81 && 0 <= 9 * j + k < 81 && 0
        <= #[trigger] crate::grid::block_index(k, j) < 81 by {
        lemma_unit_indices(k, j);
    }
    assert(row_of(grid_cells(g), k).map_values(|e: Entry| e@) =~= row_of(grid_view(g), k));
    assert(column_of(grid_cells(g), k).map_values(|e: Entry| e@) =~= column_of(grid_view(g), k));
    assert(block_of(grid_cells(g), k).map_values(|e: Entry| e@) =~= block_of(grid_view(g), k));
}

/// The square at `(r, c)` of `snap` after elimination against `snap`.
fn eliminate_at(snap: &Grid, r: usize, c: usize) -> (e: Entry)
    requires
        grid_wf(*snap),
        r < 9,
        c < 9,
    ensures
        entry_ok(e),
        e@ == eliminated(grid_view(*snap), 9 * r + c),
{
    proof {
        lemma_position(r as int, c as int);
    }
    let e = snap.at(r, c);
    match e {
        Entry::Num(_) => e,
        Entry::Empty(flags) => {
            let b = 3 * (r / 3) + c / 3;
            proof {
                lemma_units_view(*snap, r as int);
                lemma_units_view(*snap, c as int);
                lemma_units_view(*snap, b as int);
            }
            let row = snap.row_entries(r);
            let flags = clear_seen(flags, &row);
            let column = snap.column_entries(c);
            let mut flags = clear_seen(flags, &column);
            if let Some(block) = snap.block_entries(b) {
                flags = clear_seen(flags, &block);
            }
            let out = Entry::Empty(flags);
            proof {
                let s = grid_view(*snap);
                let i = 9 * r + c;
                assert(s[i as int] == e@);
                assert(candidates_of(flags@) =~= candidates_of(e->Empty_0@).difference(seen_from(s, i as int)));
            }
            out
        },
    }
}

/// Narrows the candidates of the square at `(line_nr, col_nr)` by the digits
/// fixed in its row, its column and its block; a fixed square is left as it is.
pub fn analyze(line_nr: usize, col_nr: usize, sudoku: Grid) -> (r: Grid)
    requires
        grid_wf(sudoku),
        line_nr < 9,
        col_nr < 9,
    ensures
        grid_wf(r),
        grid_view(r) == grid_view(sudoku).update(
            9 * line_nr + col_nr,
            eliminated(grid_view(sudoku), 9 * line_nr + col_nr),
        ),
{
    let mut sudoku = sudoku;
    let snap = sudoku.snapshot();
    let e = eliminate_at(&snap, line_nr, col_nr);
    sudoku.put(line_nr, col_nr, e);
    proof {
        assert(grid_view(sudoku) =~= grid_view(snap).update(9 * line_nr + col_nr, e@));
    }
    sudoku
}

} // verus!

verus! {

/// The commit rule on what a square means: an unknown square whose candidates
/// are a single digit becomes that digit.
pub open spec fn commit_cell(c: CellView) -> CellView {
    match c {
        CellView::Unknown(cs) => if exists|d: int| cs == set![d] {
            CellView::Fixed(choose|d: int| cs == set![d])
        } else {
            c
        },
        CellView::Fixed(d) => CellView::Fixed(d),
    }
}

/// One commit pass over the whole grid.
pub open spec fn commit_all(s: Seq<CellView>) -> Seq<CellView> {
    s.map_values(|c: CellView| commit_cell(c))
}

/// The commit of a square, seen through its meaning.
proof fn lemma_committed_view(e: Entry)
    requires
        entry_ok(e),
    ensures
        entry_ok(committed(e)),
        committed(e)@ == commit_cell(e@),
{
    if let Entry::Empty(flags) = e {
        let cs = candidates_of(flags@);
        if exists|k: int| single_flag(flags@, k) {
            let k = choose|k: int| single_flag(flags@, k);
            assert(cs =~= set![k + 1]);
            let d = choose|d: int| cs == set![d];
            assert(set![k + 1].contains(d));
        } else if exists|d: int| cs == set![d] {
            let d = choose|d: int| cs == set![d];
            assert(cs.contains(d));
            assert forall|j: int| 0 <= j < 9 && j != d - 1 implies !flags@[j] by {
                if flags@[j] {
                    assert(cs.contains(j + 1));
                }
            }
            assert(single_flag(flags@, d - 1));
        }
    }
}

/// Replaces every unknown square that has exactly one candidate left by that digit.
fn commit_grid(sudoku: Grid) -> (r: Grid)
    requires
        grid_wf(sudoku),
    ensures
        grid_wf(r),
        grid_view(r) == commit_all(grid_view(sudoku)),
{
    let mut sudoku = sudoku;
    let ghost before = sudoku;
    sudoku.commit_each();
    proof {
        assert forall|i: int| 0 <= i < 81 implies entry_ok(#[trigger] grid_cells(sudoku)[i])
            && grid_cells(sudoku)[i]@ == commit_cell(grid_cells(before)[i]@) by {
            lemma_committed_view(grid_cells(before)[i]);
        }
        assert(grid_view(sudoku) =~= commit_all(grid_view(before)));
    }
    sudoku
}

/// One elimination pass: every square is narrowed against a snapshot of the
/// grid taken before the pass, so the order of the squares does not matter.
fn eliminate_pass(sudoku: Grid) -> (r: Grid)
    requires
        grid_wf(sudoku),
    ensures
        grid_wf(r),
        grid_view(r) == eliminate_all(grid_view(sudoku)),
{
    let mut sudoku = sudoku;
    let snap = sudoku.snapshot();
    let ghost s = grid_view(snap);
    for i in 0..CELLS
        invariant
            grid_wf(snap),
            s == grid_view(snap),
            grid_wf(sudoku),
            forall|j: int| 0 <= j < i ==> #[trigger] grid_view(sudoku)[j] == eliminated(s, j),
            forall|j: int| i <= j < 81 ==> #[trigger] grid_cells(sudoku)[j] == grid_cells(snap)[j],
    {
        let r = i / 9;
        let c = i % 9;
        proof {
            lemma_position(r as int, c as int);
        }
        let e = eliminate_at(&snap, r, c);
        let ghost prev = sudoku;
        sudoku.put(r, c, e);
        proof {
            assert forall|j: int| 0 <= j < i + 1 implies #[trigger] grid_view(sudoku)[j]
                == eliminated(s, j) by {
                if j < i {
                    assert(grid_view(prev)[j] == eliminated(s, j));
                }
            }
        }
    }
    proof {
        assert(grid_view(sudoku) =~= eliminate_all(s));
    }
    sudoku
}

} // verus!

verus! {

/// Why a puzzle was not solved.
#[derive(Clone, Copy, Debug, PartialEq, Eq)]
pub enum SolveError {
    /// The text is not 9 lines of 9 characters.
    Format,
    /// Elimination left a square without candidates, or forced two squares of
    /// one row, column or block to the same digit.
    Contradiction,
    /// The round limit was reached with squares still unknown.
    Stalled,
}

/// The most rounds of elimination and commit that `solve` runs.
pub const ROUND_LIMIT: usize = 20;

/// Some square has no candidate left.
pub open spec fn dead_end(s: Seq<CellView>) -> bool {
    exists|i: int| 0 <= i < s.len() && s[i] == CellView::Unknown(Set::<int>::empty())
}

/// No two fixed squares of the unit hold the same digit.
pub open spec fn distinct_fixed(u: Seq<CellView>) -> bool {
    forall|a: int, b: int| 0 <= a < b < u.len() && u[a] is Fixed ==> u[a] != u[b]
}

/// Row `k`, column `k` and block `k` each hold distinct fixed digits.
pub open spec fn units_distinct_at(s: Seq<CellView>, k: int) -> bool {
    &&& distinct_fixed(row_of(s, k))
    &&& distinct_fixed(column_of(s, k))
    &&& distinct_fixed(block_of(s, k))
}

/// No row, column or block holds two fixed squares with the same digit.
pub open spec fn units_distinct(s: Seq<CellView>) -> bool {
    forall|k: int| 0 <= k < 9 ==> #[trigger] units_distinct_at(s, k)
}

/// Every square is fixed.
pub open spec fn is_solved(s: Seq<CellView>) -> bool {
    forall|i: int| 0 <= i < s.len() ==> s[i] is Fixed
}

/// The commit step: it fails when a square has no candidate left, or when
/// the commit leaves two equal digits in a row, column or block.
pub open spec fn commit_step(e: Seq<CellView>) -> Result<Seq<CellView>, SolveError> {
    if dead_end(e) {
        Err(SolveError::Contradiction)
    } else if units_distinct(commit_all(e)) {
        Ok(commit_all(e))
    } else {
        Err(SolveError::Contradiction)
    }
}

/// One round: an elimination pass, then the commit step.
pub open spec fn round(s: Seq<CellView>) -> Result<Seq<CellView>, SolveError> {
    commit_step(eliminate_all(s))
}

/// Rounds run on `s` until it is solved, a round fails, or `fuel` rounds have run.
pub open spec fn run_rounds(s: Seq<CellView>, fuel: nat) -> Result<Seq<CellView>, SolveError>
    decreases fuel,
{
    if is_solved(s) {
        if units_distinct(s) {
            Ok(s)
        } else {
            Err(SolveError::Contradiction)
        }
    } else if fuel == 0 {
        Err(SolveError::Stalled)
    } else {
        match round(s) {
            Ok(n) => run_rounds(n, (fuel - 1) as nat),
            Err(e) => Err(e),
        }
    }
}

/// What solving the grid `s` yields.
pub open spec fn solve_outcome(s: Seq<CellView>) -> Result<Seq<CellView>, SolveError> {
    run_rounds(s, ROUND_LIMIT as nat)
}

/// No flag is set.
fn no_candidates(flags: [bool; 9]) -> (b: bool)
    ensures
        b == (candidates_of(flags@) == Set::<int>::empty()),
{
    for k in 0..9
        invariant
            forall|j: int| 0 <= j < k ==> !flags@[j],
    {
        if flags[k] {
            assert(candidates_of(flags@).contains(k + 1));
            return false;
        }
    }
    assert(candidates_of(flags@) =~= Set::<int>::empty());
    true
}

/// Some square of the grid has no candidate left.
fn has_dead_end(g: &Grid) -> (b: bool)
    requires
        grid_wf(*g),
    ensures
        b == dead_end(grid_view(*g)),
{
    for i in 0..CELLS
        invariant
            grid_wf(*g),
            forall|j: int|
                0 <= j < i ==> #[trigger] grid_view(*g)[j] != CellView::Unknown(
                    Set::<int>::empty(),
                ),
    {
        proof {
            lemma_position((i / 9) as int, (i % 9) as int);
        }
        if let Entry::Empty(flags) = g.at(i / 9, i % 9) {
            if no_candidates(flags) {
                assert(grid_view(*g)[i as int] == CellView::Unknown(Set::<int>::empty()));
                return true;
            }
        }
    }
    false
}

/// Some square of the grid is still unknown.
fn has_unknown(g: &Grid) -> (b: bool)
    requires
        grid_wf(*g),
    ensures
        b == !is_solved(grid_view(*g)),
{
    for i in 0..CELLS
        invariant
            grid_wf(*g),
            forall|j: int| 0 <= j < i ==> #[trigger] grid_view(*g)[j] is Fixed,
    {
        proof {
            lemma_position((i / 9) as int, (i % 9) as int);
        }
        if let Entry::Empty(_) = g.at(i / 9, i % 9) {
            assert(!(grid_view(*g)[i as int] is Fixed));
            return true;
        }
    }
    false
}

/// No two fixed squares of the unit hold the same digit.
fn unit_distinct(u: &Vec<Entry>) -> (b: bool)
    ensures
        b == distinct_fixed(u@.map_values(|e: Entry| e@)),
{
    let ghost v = u@.map_values(|e: Entry| e@);
    let n = u.len();
    for a in 0..n
        invariant
            n == u@.len(),
            v == u@.map_values(|e: Entry| e@),
            forall|x: int, y: int| 0 <= x < a && x < y < n && v[x] is Fixed ==> v[x] != v[y],
    {
        if let Entry::Num(x) = u[a] {
            for b in a + 1..n
                invariant
                    n == u@.len(),
                    a < n,
                    v == u@.map_values(|e: Entry| e@),
                    u@[a as int] == Entry::Num(x),
                    forall|y: int| a < y < b ==> v[a as int] != v[y],
            {
                if let Entry::Num(y) = u[b] {
                    if x == y {
                        assert(v[a as int] == CellView::Fixed(x as int));
                        assert(v[b as int] == CellView::Fixed(y as int));
                        return false;
                    }
                }
            }
        }
    }
    true
}

/// No row, column or block of the grid holds two fixed squares with the same digit.
fn grid_distinct(g: &Grid) -> (b: bool)
    requires
        grid_wf(*g),
    ensures
        b == units_distinct(grid_view(*g)),
{
    for k in 0..9usize
        invariant
            grid_wf(*g),
            forall|j: int| 0 <= j < k ==> #[trigger] units_distinct_at(grid_view(*g), j),
    {
        proof {
            lemma_units_view(*g, k as int);
        }
        let ghost s = grid_view(*g);
        if !unit_distinct(&g.row_entries(k)) {
            assert(!units_distinct_at(s, k as int));
            return false;
        }
        if !unit_distinct(&g.column_entries(k)) {
            assert(!units_distinct_at(s, k as int));
            return false;
        }
        if let Some(block) = g.block_entries(k) {
            if !unit_distinct(&block) {
                assert(!units_distinct_at(s, k as int));
                return false;
            }
        }
    }
    true
}

} // verus!

verus! {

/// One round on the grid: elimination, then commit.
fn run_round(sudoku: Grid) -> (r: Result<Grid, SolveError>)
    requires
        grid_wf(sudoku),
    ensures
        match r {
            Ok(g) => grid_wf(g) && round(grid_view(sudoku)) == Ok::<Seq<CellView>, SolveError>(
                grid_view(g),
            ),
            Err(e) => round(grid_view(sudoku)) == Err::<Seq<CellView>, SolveError>(e),
        },
{
    let narrowed = eliminate_pass(sudoku);
    update_sudoku(narrowed)
}

/// The commit step: replaces every unknown square that has exactly one
/// candidate left by that digit. Fails with a contradiction when some square
/// has no candidate left, or when the result holds two equal digits in a row,
/// column or block.
pub fn update_sudoku(sudoku: Grid) -> (r: Result<Grid, SolveError>)
    requires
        grid_wf(sudoku),
    ensures
        match r {
            Ok(g) => grid_wf(g) && commit_step(grid_view(sudoku)) == Ok::<
                Seq<CellView>,
                SolveError,
            >(grid_view(g)),
            Err(e) => commit_step(grid_view(sudoku)) == Err::<Seq<CellView>, SolveError>(e),
        },
{
    if has_dead_end(&sudoku) {
        return Err(SolveError::Contradiction);
    }
    let next = commit_grid(sudoku);
    if grid_distinct(&next) {
        Ok(next)
    } else {
        Err(SolveError::Contradiction)
    }
}

/// Solves the puzzle by rounds of elimination and commit, until no square is
/// unknown; fails on a contradiction (including a full grid with two equal
/// digits in a row, column or block), or once `ROUND_LIMIT` rounds have left
/// squares unknown.
pub fn solve(sudoku: Grid) -> (r: Result<Grid, SolveError>)
    requires
        grid_wf(sudoku),
    ensures
        match r {
            Ok(g) => grid_wf(g) && solve_outcome(grid_view(sudoku)) == Ok::<
                Seq<CellView>,
                SolveError,
            >(grid_view(g)),
            Err(e) => solve_outcome(grid_view(sudoku)) == Err::<Seq<CellView>, SolveError>(e),
        },
{
    let ghost start = grid_view(sudoku);
    let mut grid = sudoku;
    let mut rounds: usize = 0;
    while has_unknown(&grid)
        invariant
            grid_wf(grid),
            rounds <= ROUND_LIMIT,
            start == grid_view(sudoku),
            run_rounds(grid_view(grid), (ROUND_LIMIT - rounds) as nat) == solve_outcome(start),
        decreases ROUND_LIMIT - rounds,
    {
        let ghost cur = grid_view(grid);
        let ghost fuel = (ROUND_LIMIT - rounds) as nat;
        if rounds == ROUND_LIMIT {
            assert(run_rounds(cur, fuel) == Err::<Seq<CellView>, SolveError>(SolveError::Stalled));
            return Err(SolveError::Stalled);
        }
        match run_round(grid) {
            Ok(next) => {
                grid = next;
                assert(run_rounds(cur, fuel) == run_rounds(grid_view(grid), (fuel - 1) as nat));
            },
            Err(e) => {
                assert(run_rounds(cur, fuel) == Err::<Seq<CellView>, SolveError>(e));
                return Err(e);
            },
        }
        rounds = rounds + 1;
    }
    if grid_distinct(&grid) {
        Ok(grid)
    } else {
        Err(SolveError::Contradiction)
    }
}

} // verus!

verus! {

/// What comes out of the rounds without failure is solved.
pub proof fn lemma_run_rounds_solved(s: Seq<CellView>, fuel: nat)
    ensures
        run_rounds(s, fuel) matches Ok(t) ==> is_solved(t),
    decreases fuel,
{
    if !is_solved(s) && fuel > 0 {
        if let Ok(n) = round(s) {
            lemma_run_rounds_solved(n, (fuel - 1) as nat);
        }
    }
}

impl SolveError {
    /// The message for the error.
    pub open spec fn text(self) -> Seq<char> {
        match self {
            SolveError::Format => "Expected a 9x9 sudoku: 9 lines of 9 characters!"@,
            SolveError::Contradiction => "The puzzle contradicts itself!"@,
            SolveError::Stalled => "Could not find solution!"@,
        }
    }

    /// The message for the error.
    pub fn message(&self) -> (r: String)
        ensures
            r@ == self.text(),
    {
        match self {
            SolveError::Format => String::from_str("Expected a 9x9 sudoku: 9 lines of 9 characters!"),
            SolveError::Contradiction => String::from_str("The puzzle contradicts itself!"),
            SolveError::Stalled => String::from_str("Could not find solution!"),
        }
    }
}

} // verus!
