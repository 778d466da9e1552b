use crate::grid::{block_of, column_of, grid_cells, grid_view, lemma_unit_indices, row_of, CellView, Grid};
use crate::solver::{
    commit_all, commit_cell, distinct_fixed, eliminate_all, units_distinct_at, eliminated, is_solved,
    lemma_run_rounds_solved, round, run_rounds, solve_outcome, units_distinct, SolveError,
    ROUND_LIMIT,
};
use crate::text::{cell_of_char, lemma_parse_render, parse_model, render, text_lines};
use vstd::prelude::*;

verus! {

/// Solving depends on the squares of the grid alone: two grids with the same
/// squares have the same outcome, the same solution or the same error.
pub proof fn solve_is_deterministic(a: Grid, b: Grid)
    requires
        grid_cells(a) == grid_cells(b),
    ensures
        solve_outcome(grid_view(a)) == solve_outcome(grid_view(b)),
{
}

/// A round never grows a candidate set: an unknown square that is still
/// unknown after the round has a subset of its candidates, and a fixed square
/// keeps its digit.
pub proof fn round_only_shrinks(s: Seq<CellView>)
    requires
        s.len() == 81,
    ensures
        round(s) matches Ok(n) ==> n.len() == 81 && forall|i: int|
            0 <= i < 81 ==> {
                &&& (s[i] matches CellView::Unknown(before) ==> (n[i] matches CellView::Unknown(
                    after,
                ) ==> after.subset_of(before)))
                &&& (s[i] is Fixed ==> #[trigger] n[i] == s[i])
            },
{
    let e = eliminate_all(s);
    assert forall|i: int| 0 <= i < 81 implies {
        &&& (s[i] matches CellView::Unknown(before) ==> (commit_all(e)[i] matches CellView::Unknown(
            after,
        ) ==> after.subset_of(before)))
        &&& (s[i] is Fixed ==> #[trigger] commit_all(e)[i] == s[i])
    } by {
        assert(e[i] == eliminated(s, i));
        assert(commit_all(e)[i] == commit_cell(e[i]));
    }
}

/// A unit whose fixed squares are those of another unit, unchanged, keeps its
/// digits distinct.
proof fn lemma_distinct_kept(u: Seq<CellView>, v: Seq<CellView>)
    requires
        distinct_fixed(u),
        v.len() == u.len(),
        forall|j: int| 0 <= j < v.len() && (#[trigger] v[j]) is Fixed ==> v[j] == u[j],
    ensures
        distinct_fixed(v),
{
    assert forall|a: int, b: int| 0 <= a < b < v.len() && v[a] is Fixed implies v[a] != v[b] by {
        if v[a] == v[b] {
            assert(u[a] == v[a] && u[b] == v[b]);
        }
    }
}

/// Elimination fixes no square, so a grid whose rows, columns and blocks hold
/// distinct digits still does after an elimination pass.
pub proof fn elimination_keeps_units_distinct(s: Seq<CellView>)
    requires
        s.len() == 81,
        units_distinct(s),
    ensures
        units_distinct(eliminate_all(s)),
{
    let e = eliminate_all(s);
    assert forall|k: int| 0 <= k < 9 implies #[trigger] units_distinct_at(e, k) by {
        assert forall|j: int| 0 <= j < 9 implies {
            &&& (#[trigger] row_of(e, k)[j] is Fixed ==> row_of(e, k)[j] == row_of(s, k)[j])
            &&& (column_of(e, k)[j] is Fixed ==> column_of(e, k)[j] == column_of(s, k)[j])
            &&& (block_of(e, k)[j] is Fixed ==> block_of(e, k)[j] == block_of(s, k)[j])
        } by {
            lemma_unit_indices(k, j);
        }
        assert(units_distinct_at(s, k));
        lemma_distinct_kept(row_of(s, k), row_of(e, k));
        lemma_distinct_kept(column_of(s, k), column_of(e, k));
        lemma_distinct_kept(block_of(s, k), block_of(e, k));
    }
    assert(units_distinct(e));
}

/// Every grid that a successful round hands on has distinct digits in each
/// row, column and block.
pub proof fn round_keeps_units_distinct(s: Seq<CellView>)
    ensures
        round(s) matches Ok(n) ==> units_distinct(n),
{
}

/// Whatever grid the rounds hand back has distinct digits in each row,
/// column and block.
pub proof fn rounds_keep_units_distinct(s: Seq<CellView>, fuel: nat)
    ensures
        run_rounds(s, fuel) matches Ok(t) ==> units_distinct(t),
    decreases fuel,
{
    if fuel > 0 {
        if let Ok(n) = round(s) {
            rounds_keep_units_distinct(n, (fuel - 1) as nat);
        }
    }
}

} // verus!

verus! {

/// The solution that `solve` hands back has distinct digits in each row,
/// column and block.
pub proof fn solution_keeps_units_distinct(s: Seq<CellView>)
    ensures
        solve_outcome(s) matches Ok(t) ==> units_distinct(t),
{
    rounds_keep_units_distinct(s, ROUND_LIMIT as nat);
}

/// How many rounds are run on `s` with at most `fuel` of them allowed.
pub open spec fn rounds_taken(s: Seq<CellView>, fuel: nat) -> nat
    decreases fuel,
{
    if is_solved(s) || fuel == 0 {
        0
    } else {
        match round(s) {
            Ok(n) => 1 + rounds_taken(n, (fuel - 1) as nat),
            Err(_) => 1,
        }
    }
}

/// The rounds never run past the limit they are given.
pub proof fn rounds_within_fuel(s: Seq<CellView>, fuel: nat)
    ensures
        rounds_taken(s, fuel) <= fuel,
    decreases fuel,
{
    if !is_solved(s) && fuel > 0 {
        if let Ok(n) = round(s) {
            rounds_within_fuel(n, (fuel - 1) as nat);
        }
    }
}

/// Solving any grid runs at most `ROUND_LIMIT` rounds.
pub proof fn solve_within_round_limit(s: Seq<CellView>)
    ensures
        rounds_taken(s, ROUND_LIMIT as nat) <= ROUND_LIMIT,
{
    rounds_within_fuel(s, ROUND_LIMIT as nat);
}

/// A grid of 81 squares whose fixed digits run from 1 to 9 and whose
/// candidates are digits from 1 to 9.
pub open spec fn digits_in_range(s: Seq<CellView>) -> bool {
    &&& s.len() == 81
    &&& forall|i: int|
        0 <= i < 81 ==> match #[trigger] s[i] {
            CellView::Fixed(d) => 1 <= d <= 9,
            CellView::Unknown(cs) => forall|d: int| cs.contains(d) ==> 1 <= d <= 9,
        }
}

/// Rounds keep every digit from 1 to 9.
proof fn lemma_rounds_keep_digits(s: Seq<CellView>, fuel: nat)
    requires
        digits_in_range(s),
    ensures
        run_rounds(s, fuel) matches Ok(t) ==> digits_in_range(t),
    decreases fuel,
{
    if !is_solved(s) && fuel > 0 {
        if let Ok(n) = round(s) {
            let e = eliminate_all(s);
            assert forall|i: int| 0 <= i < 81 implies match #[trigger] n[i] {
                CellView::Fixed(d) => 1 <= d <= 9,
                CellView::Unknown(cs) => forall|d: int| cs.contains(d) ==> 1 <= d <= 9,
            } by {
                assert(e[i] == eliminated(s, i));
                assert(n[i] == commit_cell(e[i]));
                if let CellView::Unknown(cs) = e[i] {
                    if exists|d: int| cs == set![d] {
                        let d = choose|d: int| cs == set![d];
                        assert(cs.contains(d));
                    }
                }
            }
            lemma_rounds_keep_digits(n, (fuel - 1) as nat);
        }
    }
}

/// The solution of a puzzle text, written out and read back, is the same
/// solution, so writing it again gives the same text.
pub proof fn solution_text_round_trip(text: Seq<char>)
    requires
        parse_model(text) is Ok,
        solve_outcome(parse_model(text)->Ok_0) is Ok,
    ensures
        ({
            let g = solve_outcome(parse_model(text)->Ok_0)->Ok_0;
            &&& parse_model(render(g)) == Ok::<Seq<CellView>, SolveError>(g)
            &&& render(parse_model(render(g))->Ok_0) == render(g)
        }),
{
    let p = parse_model(text)->Ok_0;
    let ls = text_lines(text);
    assert forall|i: int| 0 <= i < 81 implies match #[trigger] p[i] {
        CellView::Fixed(d) => 1 <= d <= 9,
        CellView::Unknown(cs) => forall|d: int| cs.contains(d) ==> 1 <= d <= 9,
    } by {
        assert(p[i] == cell_of_char(ls[i / 9][i % 9]));
    }
    lemma_rounds_keep_digits(p, ROUND_LIMIT as nat);
    lemma_run_rounds_solved(p, ROUND_LIMIT as nat);
    let g = solve_outcome(p)->Ok_0;
    assert forall|i: int| 0 <= i < 81 implies (#[trigger] g[i] matches CellView::Fixed(d) && 1
        <= d <= 9) by {
        assert(g[i] is Fixed);
    }
    lemma_parse_render(g);
}

} // verus!

verus! {

/// The grid after `k` rounds on `s`, or the error of the round that failed.
pub open spec fn advance(s: Seq<CellView>, k: nat) -> Result<Seq<CellView>, SolveError>
    decreases k,
{
    if k == 0 {
        Ok(s)
    } else {
        match round(s) {
            Ok(n) => advance(n, (k - 1) as nat),
            Err(e) => Err(e),
        }
    }
}

/// Propagation is stuck on `t`: squares are still unknown, and a round
/// changes nothing.
pub open spec fn stuck(t: Seq<CellView>) -> bool {
    !is_solved(t) && round(t) == Ok::<Seq<CellView>, SolveError>(t)
}

/// A round on a solved grid either fails or gives the grid back.
proof fn lemma_round_of_solved(s: Seq<CellView>)
    requires
        s.len() == 81,
        is_solved(s),
    ensures
        round(s) is Err || round(s) == Ok::<Seq<CellView>, SolveError>(s),
{
    let e = eliminate_all(s);
    assert forall|i: int| 0 <= i < 81 implies #[trigger] e[i] == s[i] by {
        assert(e[i] == eliminated(s, i));
    }
    assert(e =~= s);
    assert(commit_all(e) =~= s);
}

/// Rounds on a solved grid never lead to another grid.
proof fn lemma_advance_solved(s: Seq<CellView>, k: nat)
    requires
        s.len() == 81,
        is_solved(s),
    ensures
        advance(s, k) matches Ok(t) ==> t == s,
    decreases k,
{
    if k > 0 {
        lemma_round_of_solved(s);
        lemma_advance_solved(s, (k - 1) as nat);
    }
}

/// A grid on which propagation is stuck stalls, whatever the number of
/// rounds allowed.
proof fn lemma_stuck_stalls(t: Seq<CellView>, fuel: nat)
    requires
        stuck(t),
    ensures
        run_rounds(t, fuel) == Err::<Seq<CellView>, SolveError>(SolveError::Stalled),
    decreases fuel,
{
    if fuel > 0 {
        lemma_stuck_stalls(t, (fuel - 1) as nat);
    }
}

/// A puzzle beyond elimination stalls: when the rounds, within the limit,
/// reach a grid on which propagation is stuck, the outcome is `Stalled`,
/// never a solution.
pub proof fn stuck_puzzle_stalls(s: Seq<CellView>, k: nat, fuel: nat)
    requires
        s.len() == 81,
        k <= fuel,
        advance(s, k) matches Ok(t) && stuck(t),
    ensures
        run_rounds(s, fuel) == Err::<Seq<CellView>, SolveError>(SolveError::Stalled),
    decreases k,
{
    let t = advance(s, k)->Ok_0;
    if k == 0 {
        lemma_stuck_stalls(s, fuel);
    } else {
        if is_solved(s) {
            lemma_advance_solved(s, k);
            assert(false);
        }
        let n = round(s)->Ok_0;
        assert(n.len() == 81);
        stuck_puzzle_stalls(n, (k - 1) as nat, (fuel - 1) as nat);
    }
}

/// So `solve` stalls on such a puzzle when the stuck grid comes within
/// `ROUND_LIMIT` rounds.
pub proof fn solve_stalls_when_stuck(s: Seq<CellView>, k: nat)
    requires
        s.len() == 81,
        k <= ROUND_LIMIT,
        advance(s, k) matches Ok(t) && stuck(t),
    ensures
        solve_outcome(s) == Err::<Seq<CellView>, SolveError>(SolveError::Stalled),
{
    stuck_puzzle_stalls(s, k, ROUND_LIMIT as nat);
}

} // verus!
