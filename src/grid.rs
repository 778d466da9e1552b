use crate::solver::SolveError;
use ndarray::Array2;
use vstd::prelude::*;

verus! {

#[verifier::external_type_specification]
#[verifier::external_body]
pub struct ExShapeError(ndarray::ShapeError);

/// Side length of the grid.
pub const SIZE: usize = 9;

/// Number of squares in the grid.
pub const CELLS: usize = 81;

/// One square of the puzzle: a fixed digit, or the candidate digits that are
/// still possible (flag `k` stands for digit `k + 1`).
#[derive(Clone, Copy, Debug, PartialEq, Eq)]
pub enum Entry {
    Num(u32),
    Empty([bool; 9]),
}

/// What a square means: a fixed digit, or a set of candidate digits.
pub enum CellView {
    Fixed(int),
    Unknown(Set<int>),
}

/// The digits whose flag is set.
pub open spec fn candidates_of(flags: Seq<bool>) -> Set<int> {
    Set::new(|d: int| 1 <= d <= 9 && flags[d - 1])
}

impl View for Entry {
    type V = CellView;

    open spec fn view(&self) -> CellView {
        match *self {
            Entry::Num(d) => CellView::Fixed(d as int),
            Entry::Empty(flags) => CellView::Unknown(candidates_of(flags@)),
        }
    }
}

/// A fixed square holds a digit from 1 to 9.
pub open spec fn entry_ok(e: Entry) -> bool {
    match e {
        Entry::Num(d) => 1 <= d <= 9,
        Entry::Empty(_) => true,
    }
}

/// The 9 x 9 grid, stored row-major in an ndarray matrix.
#[verifier::external_body]
pub struct Grid {
    cells: Array2<Entry>,
}

/// The squares of a grid in row-major order.
pub uninterp spec fn grid_cells(g: Grid) -> Seq<Entry>;

/// Cells of row `r`, left to right.
pub open spec fn row_of<T>(s: Seq<T>, r: int) -> Seq<T> {
    Seq::new(9, |j: int| s[9 * r + j])
}

/// Cells of column `c`, top to bottom.
pub open spec fn column_of<T>(s: Seq<T>, c: int) -> Seq<T> {
    Seq::new(9, |i: int| s[9 * i + c])
}

/// Position in the grid of the `j`-th cell (row-major) of block `b`; blocks are
/// numbered row-major too.
pub open spec fn block_index(b: int, j: int) -> int {
    9 * (3 * (b / 3) + j / 3) + 3 * (b % 3) + j % 3
}

/// Cells of block `b`, row-major within the block.
pub open spec fn block_of<T>(s: Seq<T>, b: int) -> Seq<T> {
    Seq::new(9, |j: int| s[block_index(b, j)])
}

impl Grid {
    /// Relies on ndarray's `Array::from_shape_vec`: a row-major `(9, 9)` shape
    /// is accepted exactly when the vector holds 81 elements, and the matrix
    /// then holds them in the vector's order.
    #[verifier::external_body]
    pub(crate) fn from_vec(v: Vec<Entry>) -> (r: Result<Grid, ndarray::ShapeError>)
        ensures
            r is Ok <==> v@.len() == 81,
            r matches Ok(g) ==> grid_cells(g) == v@,
    {
        Array2::from_shape_vec((9, 9), v).map(|cells| Grid { cells })
    }

    /// Relies on ndarray's indexing by `(row, column)` of a 9 x 9 matrix.
    #[verifier::external_body]
    pub(crate) fn at(&self, r: usize, c: usize) -> (e: Entry)
        requires
            r < 9,
            c < 9,
        ensures
            e == grid_cells(*self)[9 * r + c],
    {
        self.cells[(r, c)]
    }

    /// Relies on ndarray's mutable indexing by `(row, column)` of a 9 x 9 matrix.
    #[verifier::external_body]
    pub(crate) fn put(&mut self, r: usize, c: usize, e: Entry)
        requires
            r < 9,
            c < 9,
        ensures
            grid_cells(*final(self)) == grid_cells(*old(self)).update(9 * r + c, e),
    {
        self.cells[(r, c)] = e;
    }

    /// Relies on ndarray's `Clone` for an owned matrix of `Copy` elements.
    #[verifier::external_body]
    pub(crate) fn snapshot(&self) -> (g: Grid)
        ensures
            grid_cells(g) == grid_cells(*self),
    {
        Grid { cells: self.cells.clone() }
    }

    /// Relies on ndarray's `row`: the view of row `r`, left to right.
    #[verifier::external_body]
    pub(crate) fn row_entries(&self, r: usize) -> (v: Vec<Entry>)
        requires
            r < 9,
        ensures
            v@ == row_of(grid_cells(*self), r as int),
    {
        self.cells.row(r).to_vec()
    }

    /// Relies on ndarray's `column`: the view of column `c`, top to bottom.
    #[verifier::external_body]
    pub(crate) fn column_entries(&self, c: usize) -> (v: Vec<Entry>)
        requires
            c < 9,
        ensures
            v@ == column_of(grid_cells(*self), c as int),
    {
        self.cells.column(c).to_vec()
    }

    /// Relies on ndarray's `exact_chunks((3, 3))`: its iterator yields the nine
    /// 3 x 3 blocks row-major, and each block's elements come row-major.
    #[verifier::external_body]
    pub(crate) fn block_entries(&self, b: usize) -> (v: Option<Vec<Entry>>)
        ensures
            v is Some <==> b < 9,
            v matches Some(w) ==> w@ == block_of(grid_cells(*self), b as int),
    {
        self.cells.exact_chunks((3, 3)).into_iter().nth(b).map(|blk| blk.iter().copied().collect())
    }
}

} // verus!

verus! {

/// A well-formed grid: 81 squares, each fixed one holding a digit from 1 to 9.
pub open spec fn grid_wf(g: Grid) -> bool {
    &&& grid_cells(g).len() == 81
    &&& forall|i: int| 0 <= i < 81 ==> entry_ok(#[trigger] grid_cells(g)[i])
}

/// What the squares of a grid mean, row-major.
pub open spec fn grid_view(g: Grid) -> Seq<CellView> {
    grid_cells(g).map_values(|e: Entry| e@)
}

/// Square `9 * r + c` lies in row `r` and column `c`.
pub proof fn lemma_position(r: int, c: int)
    requires
        0 <= r,
        0 <= c < 9,
    ensures
        (9 * r + c) / 9 == r,
        (9 * r + c) % 9 == c,
{
    assert((9 * r + c) / 9 == r && (9 * r + c) % 9 == c) by (nonlinear_arith)
        requires
            0 <= r,
            0 <= c < 9,
    ;
}

} // verus!

verus! {

/// Flag `k` is the only flag set.
pub open spec fn single_flag(flags: Seq<bool>, k: int) -> bool {
    &&& 0 <= k < 9
    &&& flags[k]
    &&& forall|j: int| 0 <= j < 9 && j != k ==> !flags[j]
}

/// The commit rule on one square: an unknown square with exactly one candidate
/// becomes that digit; any other square stays as it is.
pub open spec fn committed(e: Entry) -> Entry {
    match e {
        Entry::Empty(flags) => if exists|k: int| single_flag(flags@, k) {
            Entry::Num(((choose|k: int| single_flag(flags@, k)) + 1) as u32)
        } else {
            e
        },
        Entry::Num(_) => e,
    }
}

/// Applies the commit rule to one square.
pub fn commit_entry(e: Entry) -> (r: Entry)
    ensures
        r == committed(e),
{
    match e {
        Entry::Num(_) => e,
        Entry::Empty(flags) => {
            let mut count: usize = 0;
            let mut pos: usize = 0;
            let ghost mut second: int = 0;
            for k in 0..9
                invariant
                    count <= k,
                    count == 0 ==> forall|j: int| 0 <= j < k ==> !flags@[j],
                    count >= 1 ==> pos < k && flags@[pos as int],
                    count == 1 ==> forall|j: int| 0 <= j < k && j != pos ==> !flags@[j],
                    count >= 2 ==> 0 <= second < k && second != pos && flags@[second],
            {
                if flags[k] {
                    if count == 0 {
                        pos = k;
                    } else if count == 1 {
                        proof {
                            second = k as int;
                        }
                    }
                    count = count + 1;
                }
            }
            if count == 1 {
                assert(single_flag(flags@, pos as int));
                proof {
                    let k = choose|k: int| single_flag(flags@, k);
                    assert(k == pos);
                }
                Entry::Num((pos + 1) as u32)
            } else {
                assert(!exists|k: int| single_flag(flags@, k)) by {
                    if count >= 2 {
                        assert forall|k: int| !single_flag(flags@, k) by {
                            if single_flag(flags@, k) {
                                assert(k == pos || k == second);
                            }
                        }
                    }
                }
                e
            }
        },
    }
}

impl Grid {
    /// Relies on ndarray's `map_inplace`: the closure is applied once to every
    /// element, so each square is replaced by the commit of its value.
    #[verifier::external_body]
    pub(crate) fn commit_each(&mut self)
        ensures
            grid_cells(*final(self)) == grid_cells(*old(self)).map_values(|e: Entry| committed(e)),
    {
        self.cells.map_inplace(|e| *e = commit_entry(*e));
    }
}

} // verus!

verus! {

impl Grid {
    /// A grid of the squares given row-major; a format error unless there are
    /// exactly 81.
    pub fn from_entries(v: Vec<Entry>) -> (r: Result<Grid, SolveError>)
        ensures
            r is Ok <==> v@.len() == 81,
            r matches Ok(g) ==> grid_cells(g) == v@,
            r matches Err(e) ==> e == SolveError::Format,
    {
        match Grid::from_vec(v) {
            Ok(g) => Ok(g),
            Err(_) => Err(SolveError::Format),
        }
    }

    /// The square at row `r`, column `c`.
    pub fn get(&self, r: usize, c: usize) -> (e: Entry)
        requires
            r < 9,
            c < 9,
        ensures
            e == grid_cells(*self)[9 * r + c],
    {
        self.at(r, c)
    }

    /// Replaces the square at row `r`, column `c`.
    pub fn set(&mut self, r: usize, c: usize, e: Entry)
        requires
            r < 9,
            c < 9,
        ensures
            grid_cells(*final(self)) == grid_cells(*old(self)).update(9 * r + c, e),
    {
        self.put(r, c, e);
    }

    /// The 81 squares, row-major.
    pub fn to_entries(&self) -> (v: Vec<Entry>)
        requires
            grid_cells(*self).len() == 81,
        ensures
            v@ == grid_cells(*self),
    {
        let mut v: Vec<Entry> = Vec::new();
        for i in 0..CELLS
            invariant
                grid_cells(*self).len() == 81,
                v@ == grid_cells(*self).take(i as int),
        {
            proof {
                lemma_position((i / 9) as int, (i % 9) as int);
            }
            v.push(self.at(i / 9, i % 9));
            assert(v@ =~= grid_cells(*self).take(i + 1));
        }
        assert(grid_cells(*self).take(81) == grid_cells(*self));
        v
    }
}

} // verus!

verus! {

/// The `j`-th cell of row, column or block `k` lies inside the grid.
pub proof fn lemma_unit_indices(k: int, j: int)
    requires
        0 <= k < 9,
        0 <= j < 9,
    ensures
        0 <= 9 * k + j < 81,
        0 <= 9 * j + k < 81,
        0 <= block_index(k, j) < 81,
{
    assert(0 <= 9 * k + j < 81 && 0 <= 9 * j + k < 81) by (nonlinear_arith)
        requires
            0 <= k < 9,
            0 <= j < 9,
    ;
    assert(0 <= block_index(k, j) < 81) by (nonlinear_arith)
        requires
            0 <= k < 9,
            0 <= j < 9,
    ;
}

} // verus!
