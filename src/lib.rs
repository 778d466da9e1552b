pub mod grid;
pub mod solver;
pub mod text;
pub mod laws;

use crate::grid::grid_view;
use crate::solver::{lemma_run_rounds_solved, solve, solve_outcome, SolveError};
use crate::text::{parse_contents, parse_model, render, unparse_sudoku};
use vstd::prelude::*;

verus! {

/// What solving a puzzle text yields: the solution as text, or the error.
pub open spec fn run_outcome(text: Seq<char>) -> Result<Seq<char>, SolveError> {
    match parse_model(text) {
        Ok(p) => match solve_outcome(p) {
            Ok(g) => Ok(render(g)),
            Err(e) => Err(e),
        },
        Err(e) => Err(e),
    }
}

/// Reads a puzzle text, solves it, and writes the solution as text; on failure
/// the error's message.
pub fn run(contents: &str) -> (r: Result<String, String>)
    ensures
        match r {
            Ok(out) => run_outcome(contents@) == Ok::<Seq<char>, SolveError>(out@),
            Err(msg) => run_outcome(contents@) is Err && msg@ == run_outcome(
                contents@,
            )->Err_0.text(),
        },
{
    let parsed = match parse_contents(contents) {
        Ok(g) => g,
        Err(e) => {
            return Err(e.message());
        },
    };
    let ghost start = grid_view(parsed);
    let solved = match solve(parsed) {
        Ok(g) => g,
        Err(e) => {
            return Err(e.message());
        },
    };
    proof {
        lemma_run_rounds_solved(start, 20);
    }
    Ok(unparse_sudoku(solved))
}

} // verus!
