use sudoku_solver::grid::Entry::{Empty, Num};
use sudoku_solver::grid::{Entry, Grid, CELLS, SIZE};
use sudoku_solver::run;
use sudoku_solver::solver::{analyze, solve, update_sudoku, SolveError, ROUND_LIMIT};
use sudoku_solver::text::{parse_contents, unparse_sudoku};

const PUZZLE: &str = "\
__75__6_3
43___6__5
6_81_9_27
2_645____
__1_6_34_
7____8_5_
8__7__13_
_74_2_59_
1_93_5___";

const SOLUTION: &str = "\
917542683
432876915
658139427
296453871
581267349
743918256
865794132
374621598
129385764";

fn open() -> Entry {
    Entry::Empty([true; 9])
}

fn pattern_row() -> Vec<Entry> {
    vec![open(), open(), Num(7), Num(5), open(), open(), Num(6), open(), Num(3)]
}

fn pattern_grid() -> Vec<Entry> {
    let mut v = vec![];
    for _ in 0..9 {
        v.append(&mut pattern_row());
    }
    v
}

#[test]
fn test_whole_solution() {
    let result = run(PUZZLE).unwrap();
    assert_eq!(result, SOLUTION);
}

#[test]
fn test_parsing() {
    let contents = "\
__75__6_3
__75__6_3
__75__6_3
__75__6_3
__75__6_3
__75__6_3
__75__6_3
__75__6_3
__75__6_3";
    let expected = pattern_grid();
    assert_eq!(expected.len(), 81);
    let result = parse_contents(contents).unwrap();
    assert_eq!(result.to_entries(), expected);
}

#[test]
fn test_analyze() {
    let mut sudoku = Grid::from_entries(pattern_grid()).unwrap();
    sudoku.set(2, 0, Num(9));
    sudoku.set(8, 8, Num(9));
    sudoku.set(8, 6, Num(8));
    sudoku.set(7, 7, Num(2));
    sudoku.set(7, 6, Num(5));
    sudoku.set(6, 6, Num(7));
    sudoku.set(6, 7, Num(1));
    sudoku.set(6, 8, Num(6));
    sudoku = analyze(0, 0, sudoku);
    sudoku = analyze(8, 7, sudoku);
    assert_eq!(
        sudoku.get(0, 0),
        Empty([true, true, false, true, false, false, false, true, false])
    );
    assert_eq!(
        sudoku.get(8, 7),
        Empty([false, false, false, true, false, false, false, false, false])
    );
}

#[test]
fn analyze_leaves_a_fixed_square() {
    let sudoku = Grid::from_entries(pattern_grid()).unwrap();
    let sudoku = analyze(0, 2, sudoku);
    assert_eq!(sudoku.get(0, 2), Entry::Num(7));
}

#[test]
fn analyze_touches_only_its_square() {
    let sudoku = Grid::from_entries(pattern_grid()).unwrap();
    let sudoku = analyze(4, 4, sudoku);
    assert_eq!(sudoku.get(4, 5), open());
    assert_eq!(
        sudoku.get(4, 4),
        Empty([true, true, false, true, false, false, false, true, true])
    );
}

fn single(d: usize) -> Entry {
    let mut flags = [false; 9];
    flags[d - 1] = true;
    Empty(flags)
}

#[test]
fn update_commits_a_single_candidate() {
    let mut g = parse_contents(PUZZLE).unwrap();
    g.set(0, 0, single(9));
    g.set(0, 1, Empty([false, true, false, true, false, false, false, false, false]));
    let g = update_sudoku(g).unwrap();
    assert_eq!(g.get(0, 0), Num(9));
    assert_eq!(
        g.get(0, 1),
        Empty([false, true, false, true, false, false, false, false, false])
    );
    assert_eq!(g.get(0, 2), Num(7));
    assert_eq!(g.get(0, 4), open());
}

#[test]
fn update_reports_a_square_without_candidates() {
    let mut g = parse_contents(PUZZLE).unwrap();
    g.set(0, 4, Empty([false; 9]));
    assert_eq!(update_sudoku(g).err(), Some(SolveError::Contradiction));
}

#[test]
fn update_reports_two_peers_forced_to_one_digit() {
    let mut g = parse_contents(PUZZLE).unwrap();
    g.set(0, 0, single(9));
    g.set(0, 1, single(9));
    assert_eq!(update_sudoku(g).err(), Some(SolveError::Contradiction));
}

#[test]
fn update_reports_repeated_givens() {
    let g = Grid::from_entries(pattern_grid()).unwrap();
    assert_eq!(update_sudoku(g).err(), Some(SolveError::Contradiction));
}

#[test]
fn a_full_grid_with_a_repeated_digit_is_a_contradiction() {
    let text = "111111111\n".repeat(9);
    assert_eq!(solve(parse_contents(&text).unwrap()).err(), Some(SolveError::Contradiction));
    assert_eq!(run(&text), Err(SolveError::Contradiction.message()));
    let swapped = SOLUTION.replacen("91", "19", 1).replacen("43", "34", 1);
    assert_eq!(run(&swapped), Err(SolveError::Contradiction.message()));
}

#[test]
fn solve_gives_the_solution_grid() {
    let g = solve(parse_contents(PUZZLE).unwrap()).unwrap();
    assert_eq!(unparse_sudoku(g), SOLUTION);
}

#[test]
fn solving_twice_gives_the_same_answer() {
    let a = solve(parse_contents(PUZZLE).unwrap()).unwrap().to_entries();
    let b = solve(parse_contents(PUZZLE).unwrap()).unwrap().to_entries();
    assert_eq!(a, b);
    let hard = "1____7_9_\n_3__2___8\n__96__5__\n__53__9__\n_1__8___2\n6____4___\n3______1_\n_4______7\n__7___3__";
    assert_eq!(run(hard), run(hard));
}

#[test]
fn solution_text_parses_back_to_itself() {
    let out = run(PUZZLE).unwrap();
    let again = parse_contents(&out).unwrap();
    assert_eq!(unparse_sudoku(again), out);
}

#[test]
fn a_solved_grid_is_returned_as_it_is() {
    assert_eq!(run(SOLUTION), Ok(SOLUTION.to_string()));
}

#[test]
fn a_short_line_is_a_format_error() {
    let text = "__75__6_3\n43___6__5\n6_81_9_2\n2_645____\n__1_6_34_\n7____8_5_\n8__7__13_\n_74_2_59_\n1_93_5___";
    assert!(matches!(parse_contents(text), Err(SolveError::Format)));
    assert_eq!(run(text), Err(SolveError::Format.message()));
}

#[test]
fn eight_lines_are_a_format_error() {
    let text = "__75__6_3\n43___6__5\n6_81_9_27\n2_645____\n__1_6_34_\n7____8_5_\n8__7__13_\n_74_2_59_";
    assert!(matches!(parse_contents(text), Err(SolveError::Format)));
}

#[test]
fn ten_lines_are_a_format_error() {
    let text = format!("{}\n_________", PUZZLE);
    assert!(matches!(parse_contents(&text), Err(SolveError::Format)));
}

#[test]
fn empty_text_is_a_format_error() {
    assert!(matches!(parse_contents(""), Err(SolveError::Format)));
}

#[test]
fn trailing_newline_and_crlf_are_accepted() {
    let with_newline = format!("{}\n", PUZZLE);
    assert_eq!(run(&with_newline), Ok(SOLUTION.to_string()));
    let crlf = PUZZLE.replace('\n', "\r\n");
    assert_eq!(run(&crlf), Ok(SOLUTION.to_string()));
}

#[test]
fn zero_is_a_blank() {
    let text = PUZZLE.replace('_', "0");
    assert_eq!(run(&text), Ok(SOLUTION.to_string()));
    let g = parse_contents(&text).unwrap();
    assert_eq!(g.get(0, 0), open());
    assert_eq!(g.get(0, 2), Entry::Num(7));
}

#[test]
fn a_puzzle_beyond_naked_singles_stalls() {
    let hard = "1____7_9_\n_3__2___8\n__96__5__\n__53__9__\n_1__8___2\n6____4___\n3______1_\n_4______7\n__7___3__";
    assert_eq!(run(hard), Err(SolveError::Stalled.message()));
    let g = parse_contents(hard).unwrap();
    assert_eq!(solve(g).err(), Some(SolveError::Stalled));
}

#[test]
fn an_empty_grid_stalls() {
    let blank = "_________\n".repeat(9);
    assert_eq!(solve(parse_contents(&blank).unwrap()).err(), Some(SolveError::Stalled));
    assert_eq!(ROUND_LIMIT, 20);
}

#[test]
fn a_square_without_candidates_is_a_contradiction() {
    let text = "_12345678\n9________\n_________\n_________\n_________\n_________\n_________\n_________\n_________";
    assert_eq!(solve(parse_contents(text).unwrap()).err(), Some(SolveError::Contradiction));
}

#[test]
fn repeated_givens_are_a_contradiction() {
    let text = "55_______\n_________\n_________\n_________\n_________\n_________\n_________\n_________\n_________";
    assert_eq!(solve(parse_contents(text).unwrap()).err(), Some(SolveError::Contradiction));
    assert_eq!(run(text), Err(SolveError::Contradiction.message()));
}

#[test]
fn wrong_number_of_entries_is_refused() {
    assert_eq!(CELLS, SIZE * SIZE);
    assert!(matches!(Grid::from_entries(vec![open(); CELLS - 1]), Err(SolveError::Format)));
    assert!(matches!(Grid::from_entries(vec![open(); CELLS + 1]), Err(SolveError::Format)));
    assert!(Grid::from_entries(vec![open(); CELLS]).is_ok());
}

#[test]
fn error_messages() {
    assert_eq!(SolveError::Stalled.message(), "Could not find solution!");
    assert_eq!(SolveError::Contradiction.message(), "The puzzle contradicts itself!");
    assert_eq!(
        SolveError::Format.message(),
        "Expected a 9x9 sudoku: 9 lines of 9 characters!"
    );
}
