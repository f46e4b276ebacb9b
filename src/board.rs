//! The board: a 9×9 grid whose cells are empty or hold a digit 1–9, the
//! Sudoku rule queries on it, and the backtracking solver.
use vstd::prelude::*;

verus! {

/// The mathematical model of a board: nine rows of nine cells.
pub type Grid = Seq<Seq<Option<u8>>>;

/// Every coordinate lies in 0..9.
pub open spec fn in_range(r: int, c: int) -> bool {
    0 <= r < 9 && 0 <= c < 9
}

/// The grid has nine rows of nine cells, and every filled cell holds 1–9.
pub open spec fn grid_wf(g: Grid) -> bool {
    &&& g.len() == 9
    &&& forall|r: int| 0 <= r < 9 ==> #[trigger] g[r].len() == 9
    &&& forall|r: int, c: int|
        in_range(r, c) && (#[trigger] g[r][c]) is Some ==> 1 <= g[r][c]->0 <= 9
}

/// Two cells lie in the same 3×3 box.
pub open spec fn same_box(r1: int, c1: int, r2: int, c2: int) -> bool {
    r1 / 3 == r2 / 3 && c1 / 3 == c2 / 3
}

/// Two distinct cells share a row, a column or a box.
pub open spec fn peers(r1: int, c1: int, r2: int, c2: int) -> bool {
    &&& !(r1 == r2 && c1 == c2)
    &&& (r1 == r2 || c1 == c2 || same_box(r1, c1, r2, c2))
}

/// The cells of row `r`, left to right.
pub open spec fn row_of(g: Grid, r: int) -> Seq<Option<u8>> {
    g[r]
}

/// The cells of column `c`, top to bottom.
pub open spec fn column_of(g: Grid, c: int) -> Seq<Option<u8>> {
    Seq::new(9, |r: int| g[r][c])
}

/// The row of the `k`-th cell, in row-major order, of the box that holds row `r`.
pub open spec fn box_row(r: int, k: int) -> int {
    3 * (r / 3) + k / 3
}

/// The column of the `k`-th cell, in row-major order, of the box that holds column `c`.
pub open spec fn box_col(c: int, k: int) -> int {
    3 * (c / 3) + k % 3
}

/// The cells of the 3×3 box that holds `(r, c)`, in row-major order.
pub open spec fn box_of(g: Grid, r: int, c: int) -> Seq<Option<u8>> {
    Seq::new(9, |k: int| g[box_row(r, k)][box_col(c, k)])
}

/// Digit `d` stands somewhere in the row, the column or the box of `(r, c)`.
pub open spec fn occurs(g: Grid, r: int, c: int, d: u8) -> bool {
    row_of(g, r).contains(Some(d)) || column_of(g, c).contains(Some(d)) || box_of(g, r, c).contains(
        Some(d),
    )
}

/// The cell `(r, c)` is empty, or no peer of it holds its digit.
pub open spec fn entry_ok(g: Grid, r: int, c: int) -> bool {
    g[r][c] is None || forall|r2: int, c2: int|
        in_range(r2, c2) && peers(r, c, r2, c2) ==> #[trigger] g[r2][c2] != g[r][c]
}

/// Every cell of the grid satisfies the rules.
pub open spec fn valid_grid(g: Grid) -> bool {
    forall|r: int, c: int| in_range(r, c) ==> #[trigger] entry_ok(g, r, c)
}

/// No cell of the grid is empty.
pub open spec fn all_filled(g: Grid) -> bool {
    forall|r: int, c: int| in_range(r, c) ==> (#[trigger] g[r][c]) is Some
}

/// The grid is filled and satisfies the rules.
pub open spec fn complete(g: Grid) -> bool {
    valid_grid(g) && all_filled(g)
}

/// `(r, c)` is the first empty cell of the grid in row-major order.
pub open spec fn is_first_empty(g: Grid, r: int, c: int) -> bool {
    &&& in_range(r, c)
    &&& g[r][c] is None
    &&& forall|r2: int, c2: int|
        in_range(r2, c2) && (r2 < r || (r2 == r && c2 < c)) ==> (#[trigger] g[r2][c2]) is Some
}

/// The grid with the cell `(r, c)` replaced.
pub open spec fn set_cell(g: Grid, r: int, c: int, v: Option<u8>) -> Grid {
    g.update(r, g[r].update(c, v))
}

/// How many of the first `n` cells of a row are empty.
pub open spec fn empties_in_row(row: Seq<Option<u8>>, n: int) -> nat
    decreases n,
{
    if n <= 0 {
        0
    } else {
        empties_in_row(row, n - 1) + if row[n - 1] is None {
            1nat
        } else {
            0nat
        }
    }
}

/// How many cells of the first `n` rows are empty.
pub open spec fn empties_in_rows(g: Grid, n: int) -> nat
    decreases n,
{
    if n <= 0 {
        0
    } else {
        empties_in_rows(g, n - 1) + empties_in_row(g[n - 1], 9)
    }
}

/// How many cells of the grid are empty.
pub open spec fn empty_count(g: Grid) -> nat {
    empties_in_rows(g, 9)
}

/// The first solution that the backtracking search reaches from `g`, when it
/// tries the digits after `k` in the first empty cell.
///
/// A grid that is complete is its own solution. Otherwise the search takes
/// the first empty cell in row-major order and tries the digits in ascending
/// order: a digit that its row, column or box already holds is skipped; each
/// other one is placed and the search goes on from there; the first solution
/// found wins.
pub open spec fn search_from(g: Grid, k: int) -> Option<Grid>
    decreases empty_count(g), 9 - k,
    via search_from_decreases
{
    if !grid_wf(g) || k < 0 {
        None
    } else if complete(g) {
        Some(g)
    } else if !exists|r: int, c: int| is_first_empty(g, r, c) {
        None
    } else if k >= 9 {
        None
    } else {
        let (r, c) = choose|r: int, c: int| is_first_empty(g, r, c);
        let d = (k + 1) as u8;
        let next = set_cell(g, r, c, Some(d));
        if !occurs(g, r, c, d) && entry_ok(next, r, c) {
            match search_from(next, 0) {
                Some(s) => Some(s),
                None => search_from(g, k + 1),
            }
        } else {
            search_from(g, k + 1)
        }
    }
}

#[via_fn]
proof fn search_from_decreases(g: Grid, k: int) {
    if grid_wf(g) && k >= 0 && !complete(g) && (exists|r: int, c: int| is_first_empty(g, r, c))
        && k < 9 {
        let (r, c) = choose|r: int, c: int| is_first_empty(g, r, c);
        lemma_fill_decreases(g, r, c, Some((k + 1) as u8));
    }
}

/// The solution that `solve` returns for a board whose model is `g`.
pub open spec fn solution(g: Grid) -> Option<Grid> {
    search_from(g, 0)
}

/// Filling one cell of a row changes the count of its empty cells by one.
proof fn lemma_row_fill(row: Seq<Option<u8>>, c: int, v: Option<u8>, n: int)
    requires
        0 <= c < row.len(),
        row[c] is None,
        v is Some,
        0 <= n <= row.len(),
    ensures
        empties_in_row(row.update(c, v), n) + (if c < n {
            1nat
        } else {
            0nat
        }) == empties_in_row(row, n),
    decreases n,
{
    if n > 0 {
        lemma_row_fill(row, c, v, n - 1);
    }
}

/// Filling one empty cell lowers the count of empty cells by one.
proof fn lemma_fill_decreases(g: Grid, r: int, c: int, v: Option<u8>)
    requires
        grid_wf(g),
        in_range(r, c),
        g[r][c] is None,
        v is Some,
    ensures
        empty_count(set_cell(g, r, c, v)) + 1 == empty_count(g),
{
    lemma_row_fill(g[r], c, v, 9);
    lemma_rows_fill(g, r, c, v, 9);
}

/// Filling one empty cell of row `r` changes the count over the first `n`
/// rows by one when `r < n`.
proof fn lemma_rows_fill(g: Grid, r: int, c: int, v: Option<u8>, n: int)
    requires
        grid_wf(g),
        in_range(r, c),
        g[r][c] is None,
        v is Some,
        0 <= n <= 9,
        empties_in_row(g[r].update(c, v), 9) + 1 == empties_in_row(g[r], 9),
    ensures
        empties_in_rows(set_cell(g, r, c, v), n) + (if r < n {
            1nat
        } else {
            0nat
        }) == empties_in_rows(g, n),
    decreases n,
{
    if n > 0 {
        lemma_rows_fill(g, r, c, v, n - 1);
    }
}

/// Where the cell at position `k` of the box of `(r, c)` lies, and back.
proof fn lemma_box_position(r: int, c: int)
    requires
        in_range(r, c),
    ensures
        forall|k: int|
            #![trigger box_row(r, k)]
            0 <= k < 9 ==> {
                &&& in_range(box_row(r, k), box_col(c, k))
                &&& same_box(r, c, box_row(r, k), box_col(c, k))
                &&& (box_row(r, k) == r && box_col(c, k) == c) <==> k == 3 * (r % 3) + c % 3
            },
        forall|r2: int, c2: int|
            #![trigger same_box(r, c, r2, c2)]
            in_range(r2, c2) && same_box(r, c, r2, c2) ==> {
                let k = 3 * (r2 % 3) + c2 % 3;
                &&& 0 <= k < 9
                &&& box_row(r, k) == r2
                &&& box_col(c, k) == c2
            },
{
}

/// Some position of `s` other than `skip` holds `v`.
pub open spec fn holds_elsewhere(s: Seq<Option<u8>>, skip: int, v: Option<u8>) -> bool {
    exists|k: int| 0 <= k < s.len() && k != skip && #[trigger] s[k] == v
}

/// Clears in `mask` the bit of each digit that `cells` holds.
fn strike_present(mask: &mut [bool; 9], cells: &[Option<u8>; 9])
    requires
        forall|k: int| 0 <= k < 9 && (#[trigger] cells@[k]) is Some ==> 1 <= cells@[k]->0 <= 9,
    ensures
        forall|d: int|
            0 <= d < 9 ==> #[trigger] final(mask)@[d] == (old(mask)@[d] && !cells@.contains(
                Some((d + 1) as u8),
            )),
{
    let ghost start = mask@;
    let mut k: usize = 0;
    while k < 9
        invariant
            0 <= k <= 9,
            forall|i: int| 0 <= i < 9 && (#[trigger] cells@[i]) is Some ==> 1 <= cells@[i]->0 <= 9,
            forall|d: int|
                0 <= d < 9 ==> #[trigger] mask@[d] == (start[d] && !exists|i: int|
                    0 <= i < k && #[trigger] cells@[i] == Some((d + 1) as u8)),
        decreases 9 - k,
    {
        if let Some(x) = cells[k] {
            mask[(x - 1) as usize] = false;
        }
        k += 1;
    }
}

/// Whether a position of `cells` other than `skip` holds `v`.
fn holds_other(cells: &[Option<u8>; 9], skip: usize, v: Option<u8>) -> (r: bool)
    ensures
        r == holds_elsewhere(cells@, skip as int, v),
{
    let mut k: usize = 0;
    while k < 9
        invariant
            0 <= k <= 9,
            forall|i: int| 0 <= i < k && i != skip ==> cells@[i] != v,
        decreases 9 - k,
    {
        if k != skip && cells[k] == v {
            return true;
        }
        k += 1;
    }
    false
}

/// A coordinate pair on the board.
pub struct Index(pub usize, pub usize);

/// A 9×9 Sudoku board.
#[derive(Clone, Copy, PartialEq, Eq, Debug)]
pub struct Board {
    cells: [[Option<u8>; 9]; 9],
}

impl View for Board {
    type V = Grid;

    closed spec fn view(&self) -> Grid {
        Seq::new(9, |r: int| self.cells@[r]@)
    }
}

/// The cell that a raw value stands for: 0 is empty, anything else a digit.
pub open spec fn cell_of(v: u8) -> Option<u8> {
    if v == 0 {
        None
    } else {
        Some(v)
    }
}

impl Board {
    /// The board is well formed: nine rows of nine cells holding digits 1–9.
    pub open spec fn wf(&self) -> bool {
        grid_wf(self@)
    }

    /// Builds a board from raw values, 0 standing for an empty cell.
    pub fn new(board: &[[u8; 9]; 9]) -> (r: Board)
        requires
            forall|i: int, j: int| in_range(i, j) ==> board@[i]@[j] <= 9,
        ensures
            r.wf(),
            forall|i: int, j: int| in_range(i, j) ==> #[trigger] r@[i][j] == cell_of(board@[i]@[j]),
    {
        let mut cells: [[Option<u8>; 9]; 9] = [[None; 9]; 9];
        let mut i: usize = 0;
        while i < 9
            invariant
                0 <= i <= 9,
                forall|a: int, b: int| 0 <= a < i && 0 <= b < 9 ==> #[trigger] cells@[a]@[b] == cell_of(board@[a]@[b]),
            decreases 9 - i,
        {
            let mut row: [Option<u8>; 9] = [None; 9];
            let mut j: usize = 0;
            while j < 9
                invariant
                    0 <= j <= 9,
                    0 <= i < 9,
                    forall|b: int| 0 <= b < j ==> #[trigger] row@[b] == cell_of(board@[i as int]@[b]),
                decreases 9 - j,
            {
                let v = board[i][j];
                row[j] = if v == 0 { None } else { Some(v) };
                j += 1;
            }
            cells[i] = row;
            i += 1;
        }
        Board { cells }
    }

    /// The value at a cell.
    pub fn get_cell(&self, index: &Index) -> (r: Option<u8>)
        requires
            in_range(index.0 as int, index.1 as int),
        ensures
            r == self@[index.0 as int][index.1 as int],
    {
        self.cells[index.0][index.1]
    }

    /// Sets a cell: 0 empties it, any other value is written as a digit.
    pub fn update_cell(&mut self, index: &Index, value: u8)
        requires
            in_range(index.0 as int, index.1 as int),
        ensures
            final(self)@ == set_cell(old(self)@, index.0 as int, index.1 as int, cell_of(value)),
    {
        let mut row = self.cells[index.0];
        row[index.1] = if value == 0 { None } else { Some(value) };
        self.cells[index.0] = row;
        proof {
            assert(final(self)@ =~= set_cell(old(self)@, index.0 as int, index.1 as int, cell_of(value)));
        }
    }

    /// The cells of a row, left to right.
    pub fn get_row(&self, row: usize) -> (r: [Option<u8>; 9])
        requires
            row < 9,
        ensures
            r@ == row_of(self@, row as int),
    {
        self.cells[row]
    }

    /// The cells of a column, top to bottom.
    pub fn get_column(&self, column: usize) -> (r: [Option<u8>; 9])
        requires
            column < 9,
        ensures
            r@ == column_of(self@, column as int),
    {
        let mut column_array: [Option<u8>; 9] = [None; 9];
        let mut i: usize = 0;
        while i < 9
            invariant
                0 <= i <= 9,
                column < 9,
                forall|k: int| 0 <= k < i ==> #[trigger] column_array@[k] == self@[k][column as int],
            decreases 9 - i,
        {
            column_array[i] = self.cells[i][column];
            i += 1;
        }
        assert(column_array@ =~= column_of(self@, column as int));
        column_array
    }

    /// The cells of the 3×3 box that holds the index, in row-major order.
    pub fn get_subgrid(&self, index: &Index) -> (r: [Option<u8>; 9])
        requires
            in_range(index.0 as int, index.1 as int),
        ensures
            r@ == box_of(self@, index.0 as int, index.1 as int),
    {
        let top = index.0 / 3 * 3;
        let left = index.1 / 3 * 3;
        let mut subgrid: [Option<u8>; 9] = [None; 9];
        let mut i: usize = 0;
        while i < 3
            invariant
                0 <= i <= 3,
                in_range(index.0 as int, index.1 as int),
                top == 3 * (index.0 / 3),
                left == 3 * (index.1 / 3),
                forall|k: int|
                    0 <= k < 3 * i ==> #[trigger] subgrid@[k] == box_of(self@, index.0 as int, index.1 as int)[k],
            decreases 3 - i,
        {
            let mut j: usize = 0;
            while j < 3
                invariant
                    0 <= i < 3,
                    0 <= j <= 3,
                    in_range(index.0 as int, index.1 as int),
                    top == 3 * (index.0 / 3),
                    left == 3 * (index.1 / 3),
                    forall|k: int|
                        0 <= k < 3 * i + j ==> #[trigger] subgrid@[k] == box_of(self@, index.0 as int, index.1 as int)[k],
                decreases 3 - j,
            {
                subgrid[i * 3 + j] = self.cells[top + i][left + j];
                j += 1;
            }
            i += 1;
        }
        assert(subgrid@ =~= box_of(self@, index.0 as int, index.1 as int));
        subgrid
    }

    /// For each digit 1–9, whether it is absent from the row, the column and
    /// the box of the index.
    pub fn valid_entries(&self, index: &Index) -> (r: [bool; 9])
        requires
            self.wf(),
            in_range(index.0 as int, index.1 as int),
        ensures
            forall|d: int|
                0 <= d < 9 ==> #[trigger] r@[d] == !occurs(
                    self@,
                    index.0 as int,
                    index.1 as int,
                    (d + 1) as u8,
                ),
    {
        let mut possible_entries: [bool; 9] = [true; 9];
        let row = self.get_row(index.0);
        let column = self.get_column(index.1);
        let subgrid = self.get_subgrid(index);
        proof {
            lemma_box_position(index.0 as int, index.1 as int);
        }
        strike_present(&mut possible_entries, &row);
        strike_present(&mut possible_entries, &column);
        strike_present(&mut possible_entries, &subgrid);
        possible_entries
    }

    /// Whether the cell at the index is empty, or its digit stands nowhere
    /// else in its row, its column and its box.
    pub fn is_valid_entry(&self, index: &Index) -> (r: bool)
        requires
            self.wf(),
            in_range(index.0 as int, index.1 as int),
        ensures
            r == entry_ok(self@, index.0 as int, index.1 as int),
    {
        let element = self.get_cell(index);
        if element.is_none() {
            return true;
        }
        let ghost g = self@;
        let ghost (i, j) = (index.0 as int, index.1 as int);
        let row = self.get_row(index.0);
        let column = self.get_column(index.1);
        let subgrid = self.get_subgrid(index);
        proof {
            lemma_box_position(i, j);
        }
        let own = index.0 % 3 * 3 + index.1 % 3;
        let clash = holds_other(&row, index.1, element) || holds_other(&column, index.0, element)
            || holds_other(&subgrid, own, element);
        proof {
            if clash {
                if holds_elsewhere(row@, j, element) {
                    let k = choose|k: int| 0 <= k < 9 && k != j && #[trigger] row@[k] == element;
                    assert(peers(i, j, i, k) && g[i][k] == g[i][j]);
                } else if holds_elsewhere(column@, i, element) {
                    let k = choose|k: int| 0 <= k < 9 && k != i && #[trigger] column@[k] == element;
                    assert(peers(i, j, k, j) && g[k][j] == g[i][j]);
                } else {
                    let k = choose|k: int| 0 <= k < 9 && k != own && #[trigger] subgrid@[k] == element;
                    assert(peers(i, j, box_row(i, k), box_col(j, k)));
                    assert(g[box_row(i, k)][box_col(j, k)] == g[i][j]);
                }
                assert(!entry_ok(g, i, j));
            } else {
                assert forall|r2: int, c2: int|
                    in_range(r2, c2) && peers(i, j, r2, c2) implies #[trigger] g[r2][c2] != g[i][j] by {
                    if r2 == i {
                        assert(row@[c2] == g[r2][c2]);
                    } else if c2 == j {
                        assert(column@[r2] == g[r2][c2]);
                    } else {
                        assert(same_box(i, j, r2, c2));
                        let k = 3 * (r2 % 3) + c2 % 3;
                        assert(subgrid@[k] == g[r2][c2]);
                    }
                }
            }
        }
        !clash
    }

    /// Whether every cell satisfies the rules.
    pub fn is_valid_board(&self) -> (r: bool)
        requires
            self.wf(),
        ensures
            r == valid_grid(self@),
    {
        let mut i: usize = 0;
        while i < 9
            invariant
                0 <= i <= 9,
                self.wf(),
                forall|a: int, b: int| 0 <= a < i && 0 <= b < 9 ==> #[trigger] entry_ok(self@, a, b),
            decreases 9 - i,
        {
            let mut j: usize = 0;
            while j < 9
                invariant
                    0 <= i < 9,
                    0 <= j <= 9,
                    self.wf(),
                    forall|a: int, b: int|
                        (0 <= a < i && 0 <= b < 9) || (a == i && 0 <= b < j) ==> #[trigger] entry_ok(
                            self@,
                            a,
                            b,
                        ),
                decreases 9 - j,
            {
                if !self.is_valid_entry(&Index(i, j)) {
                    return false;
                }
                j += 1;
            }
            i += 1;
        }
        true
    }

    /// The first empty cell in row-major order, if any.
    pub fn next_empty(&self) -> (r: Option<Index>)
        ensures
            match r {
                Some(idx) => is_first_empty(self@, idx.0 as int, idx.1 as int),
                None => all_filled(self@),
            },
    {
        let mut i: usize = 0;
        while i < 9
            invariant
                0 <= i <= 9,
                forall|a: int, b: int| 0 <= a < i && 0 <= b < 9 ==> (#[trigger] self@[a][b]) is Some,
            decreases 9 - i,
        {
            let mut j: usize = 0;
            while j < 9
                invariant
                    0 <= i < 9,
                    0 <= j <= 9,
                    forall|a: int, b: int|
                        (0 <= a < i && 0 <= b < 9) || (a == i && 0 <= b < j) ==> (#[trigger] self@[a][b]) is Some,
                decreases 9 - j,
            {
                if self.cells[i][j].is_none() {
                    return Some(Index(i, j));
                }
                j += 1;
            }
            i += 1;
        }
        None
    }

    /// Whether the board is filled and satisfies the rules.
    pub fn is_complete(&self) -> (r: bool)
        requires
            self.wf(),
        ensures
            r == complete(self@),
    {
        self.is_valid_board() && self.next_empty().is_none()
    }
}

/// The first empty cell in row-major order is unique.
proof fn lemma_first_empty_unique(g: Grid, r1: int, c1: int, r2: int, c2: int)
    requires
        is_first_empty(g, r1, c1),
        is_first_empty(g, r2, c2),
    ensures
        r1 == r2 && c1 == c2,
{
    assert(g[r1][c1] is None && g[r2][c2] is None);
}

/// Solves the board by backtracking.
///
/// On success the board is left holding the solution, and a copy of it is
/// returned. When there is none, the board is left as it was and `None` comes
/// back. A solution exists exactly when some filled grid that satisfies the
/// rules keeps the board's digits; the one returned is the first that the
/// search reaches.
pub fn solve(board: &mut Board) -> (r: Option<Board>)
    requires
        old(board).wf(),
    ensures
        final(board).wf(),
        r is None <==> solution(old(board)@) is None,
        r is None <==> !has_completion(old(board)@),
        r matches Some(b) ==> complete(b@) && extends(old(board)@, b@),
        match r {
            Some(b) => solution(old(board)@) == Some(b@) && final(board)@ == b@,
            None => final(board)@ == old(board)@,
        },
    decreases empty_count(board@),
{
    let ghost g = board@;
    proof {
        lemma_solution_iff_completion(g);
        lemma_solution_sound(g);
    }
    if board.is_complete() {
        return Some(*board);
    }
    let next_empty = match board.next_empty() {
        Some(idx) => idx,
        None => return None,
    };
    let ghost (r, c) = (next_empty.0 as int, next_empty.1 as int);
    proof {
        let (r1, c1) = choose|r1: int, c1: int| is_first_empty(g, r1, c1);
        lemma_first_empty_unique(g, r, c, r1, c1);
        assert(set_cell(g, r, c, g[r][c]) =~~= g);
    }
    let possible_entries = board.valid_entries(&next_empty);
    let mut i: usize = 0;
    while i < 9
        invariant
            0 <= i <= 9,
            g == old(board)@,
            solution(g) is Some <==> has_completion(g),
            solution(g) matches Some(s) ==> complete(s) && extends(g, s),
            is_first_empty(g, r, c),
            next_empty.0 == r && next_empty.1 == c,
            grid_wf(g),
            board.wf(),
            board@ == set_cell(g, r, c, board@[r][c]),
            search_from(g, i as int) == solution(g),
            forall|d: int|
                0 <= d < 9 ==> #[trigger] possible_entries@[d] == !occurs(g, r, c, (d + 1) as u8),
        decreases 9 - i,
    {
        let ghost next = set_cell(g, r, c, Some((i + 1) as u8));
        proof {
            assert(!complete(g));
            assert(search_from(g, i as int) == if !occurs(g, r, c, (i + 1) as u8) && entry_ok(
                next,
                r,
                c,
            ) {
                match search_from(next, 0) {
                    Some(s) => Some(s),
                    None => search_from(g, i + 1),
                }
            } else {
                search_from(g, i + 1)
            });
        }
        if possible_entries[i] {
            board.update_cell(&next_empty, (i + 1) as u8);
            assert(board@ =~~= next);
            if board.is_valid_entry(&next_empty) {
                proof {
                    lemma_fill_decreases(g, r, c, Some((i + 1) as u8));
                }
                if let Some(b) = solve(board) {
                    return Some(b);
                }
            }
        }
        proof {
            assert(board@ =~~= set_cell(g, r, c, board@[r][c]));
        }
        i += 1;
    }
    board.update_cell(&next_empty, 0);
    assert(board@ =~~= g);
    None
}

/// No two cells of any row hold the same digit.
pub open spec fn rows_distinct(g: Grid) -> bool {
    forall|r: int, c1: int, c2: int|
        0 <= r < 9 && 0 <= c1 < 9 && 0 <= c2 < 9 && c1 != c2 && (#[trigger] g[r][c1]) is Some
            ==> g[r][c1] != #[trigger] g[r][c2]
}

/// No two cells of any column hold the same digit.
pub open spec fn columns_distinct(g: Grid) -> bool {
    forall|c: int, r1: int, r2: int|
        0 <= c < 9 && 0 <= r1 < 9 && 0 <= r2 < 9 && r1 != r2 && (#[trigger] g[r1][c]) is Some
            ==> g[r1][c] != #[trigger] g[r2][c]
}

/// No two cells of any 3×3 box hold the same digit.
pub open spec fn boxes_distinct(g: Grid) -> bool {
    forall|r: int, c: int, k1: int, k2: int|
        in_range(r, c) && 0 <= k1 < 9 && 0 <= k2 < 9 && k1 != k2 && (#[trigger] box_of(g, r, c)[k1])
            is Some ==> box_of(g, r, c)[k1] != #[trigger] box_of(g, r, c)[k2]
}

/// The grid holds `g`'s digits where `g` has one.
pub open spec fn extends(g: Grid, s: Grid) -> bool {
    forall|r: int, c: int| in_range(r, c) && (#[trigger] g[r][c]) is Some ==> s[r][c] == g[r][c]
}

/// A grid satisfies the rules exactly when no digit stands twice in a row, a
/// column or a box.
pub proof fn lemma_valid_iff_units_distinct(g: Grid)
    requires
        grid_wf(g),
    ensures
        valid_grid(g) <==> (rows_distinct(g) && columns_distinct(g) && boxes_distinct(g)),
{
    if valid_grid(g) {
        assert forall|r: int, c1: int, c2: int|
            0 <= r < 9 && 0 <= c1 < 9 && 0 <= c2 < 9 && c1 != c2 && (#[trigger] g[r][c1]) is Some
                implies g[r][c1] != #[trigger] g[r][c2] by {
            assert(entry_ok(g, r, c1));
            assert(peers(r, c1, r, c2));
        }
        assert forall|c: int, r1: int, r2: int|
            0 <= c < 9 && 0 <= r1 < 9 && 0 <= r2 < 9 && r1 != r2 && (#[trigger] g[r1][c]) is Some
                implies g[r1][c] != #[trigger] g[r2][c] by {
            assert(entry_ok(g, r1, c));
            assert(peers(r1, c, r2, c));
        }
        assert forall|r: int, c: int, k1: int, k2: int|
            in_range(r, c) && 0 <= k1 < 9 && 0 <= k2 < 9 && k1 != k2 && (#[trigger] box_of(
                g,
                r,
                c,
            )[k1]) is Some implies box_of(g, r, c)[k1] != #[trigger] box_of(g, r, c)[k2] by {
            lemma_box_position(r, c);
            let (ra, ca) = (box_row(r, k1), box_col(c, k1));
            let (rb, cb) = (box_row(r, k2), box_col(c, k2));
            assert(entry_ok(g, ra, ca));
            assert(k1 / 3 != k2 / 3 || k1 % 3 != k2 % 3);
            assert(peers(ra, ca, rb, cb));
        }
    }
    if rows_distinct(g) && columns_distinct(g) && boxes_distinct(g) {
        assert forall|r: int, c: int| in_range(r, c) implies #[trigger] entry_ok(g, r, c) by {
            if g[r][c] is Some {
                assert forall|r2: int, c2: int|
                    in_range(r2, c2) && peers(r, c, r2, c2) implies #[trigger] g[r2][c2] != g[r][c] by {
                    if r2 == r {
                        assert(g[r][c] != g[r][c2]);
                    } else if c2 == c {
                        assert(g[r][c] != g[r2][c]);
                    } else {
                        lemma_box_position(r, c);
                        let k1 = 3 * (r % 3) + c % 3;
                        let k2 = 3 * (r2 % 3) + c2 % 3;
                        assert(same_box(r, c, r2, c2));
                        assert(box_of(g, r, c)[k1] == g[r][c]);
                        assert(box_of(g, r, c)[k2] == g[r2][c2]);
                    }
                }
            }
        }
    }
}

/// A board that is already complete is its own solution.
pub proof fn lemma_solution_of_complete(g: Grid)
    requires
        grid_wf(g),
        complete(g),
    ensures
        solution(g) == Some(g),
{
}

/// Filling an empty cell keeps a rule violation elsewhere.
proof fn lemma_fill_keeps_invalid(g: Grid, r: int, c: int, v: Option<u8>)
    requires
        grid_wf(g),
        !valid_grid(g),
        in_range(r, c),
        g[r][c] is None,
    ensures
        !valid_grid(set_cell(g, r, c, v)),
{
    let next = set_cell(g, r, c, v);
    let (ra, ca) = choose|ra: int, ca: int| in_range(ra, ca) && !#[trigger] entry_ok(g, ra, ca);
    let (rb, cb) = choose|rb: int, cb: int|
        in_range(rb, cb) && peers(ra, ca, rb, cb) && #[trigger] g[rb][cb] == g[ra][ca];
    assert(next[ra][ca] == g[ra][ca]);
    assert(next[rb][cb] == g[rb][cb]);
    assert(!entry_ok(next, ra, ca));
}

/// The search from a grid that breaks the rules finds nothing.
proof fn lemma_search_invalid(g: Grid, k: int)
    requires
        grid_wf(g),
        !valid_grid(g),
    ensures
        search_from(g, k) is None,
    decreases empty_count(g), 9 - k,
{
    if k >= 0 && (exists|r: int, c: int| is_first_empty(g, r, c)) && k < 9 {
        let (r, c) = choose|r: int, c: int| is_first_empty(g, r, c);
        let next = set_cell(g, r, c, Some((k + 1) as u8));
        lemma_fill_decreases(g, r, c, Some((k + 1) as u8));
        lemma_fill_keeps_invalid(g, r, c, Some((k + 1) as u8));
        lemma_fill_wf(g, r, c, (k + 1) as u8);
        lemma_search_invalid(next, 0);
        lemma_search_invalid(g, k + 1);
    }
}

/// Writing a digit into a cell keeps the grid well formed.
proof fn lemma_fill_wf(g: Grid, r: int, c: int, d: u8)
    requires
        grid_wf(g),
        in_range(r, c),
        1 <= d <= 9,
    ensures
        grid_wf(set_cell(g, r, c, Some(d))),
{
    let next = set_cell(g, r, c, Some(d));
    assert forall|a: int, b: int| in_range(a, b) && (#[trigger] next[a][b]) is Some implies 1
        <= next[a][b]->0 <= 9 by {
        if a != r || b != c {
            assert(next[a][b] == g[a][b]);
        }
    }
}

/// A board that breaks the rules has no solution.
pub proof fn lemma_no_solution_when_invalid(g: Grid)
    requires
        grid_wf(g),
        !valid_grid(g),
    ensures
        solution(g) is None,
{
    lemma_search_invalid(g, 0);
}

/// Whatever the search finds is well formed, complete and keeps the given
/// digits.
proof fn lemma_search_sound(g: Grid, k: int)
    requires
        grid_wf(g),
    ensures
        search_from(g, k) matches Some(s) ==> grid_wf(s) && complete(s) && extends(g, s),
    decreases empty_count(g), 9 - k,
{
    if k >= 0 && !complete(g) && (exists|r: int, c: int| is_first_empty(g, r, c)) && k < 9 {
        let (r, c) = choose|r: int, c: int| is_first_empty(g, r, c);
        let next = set_cell(g, r, c, Some((k + 1) as u8));
        lemma_fill_decreases(g, r, c, Some((k + 1) as u8));
        lemma_fill_wf(g, r, c, (k + 1) as u8);
        lemma_search_sound(next, 0);
        lemma_search_sound(g, k + 1);
        if let Some(s) = search_from(next, 0) {
            assert forall|a: int, b: int| in_range(a, b) && (#[trigger] g[a][b]) is Some implies s[a][b]
                == g[a][b] by {
                assert(next[a][b] == g[a][b]);
            }
        }
    }
}

/// A solution is filled, satisfies the rules and keeps every given digit.
pub proof fn lemma_solution_sound(g: Grid)
    requires
        grid_wf(g),
    ensures
        solution(g) matches Some(s) ==> complete(s) && extends(g, s),
{
    lemma_search_sound(g, 0);
}

/// Solving the same board twice gives the same outcome.
pub proof fn lemma_solve_deterministic(g1: Grid, g2: Grid)
    requires
        g1 == g2,
    ensures
        solution(g1) == solution(g2),
{
}

/// Some filled grid that satisfies the rules keeps `g`'s digits.
pub open spec fn has_completion(g: Grid) -> bool {
    exists|s: Grid| grid_wf(s) && complete(s) && #[trigger] extends(g, s)
}

/// Scanning in row-major order from position `p`, past filled cells only,
/// reaches an empty cell that lies at or after `p`.
proof fn lemma_scan_to_empty(g: Grid, p: int, r: int, c: int)
    requires
        0 <= p <= 9 * r + c,
        in_range(r, c),
        g[r][c] is None,
        forall|r2: int, c2: int| in_range(r2, c2) && 9 * r2 + c2 < p ==> (#[trigger] g[r2][c2]) is Some,
    ensures
        exists|r1: int, c1: int| is_first_empty(g, r1, c1),
    decreases 81 - p,
{
    let (r0, c0) = (p / 9, p % 9);
    assert(in_range(r0, c0));
    if g[r0][c0] is None {
        assert forall|r2: int, c2: int|
            in_range(r2, c2) && (r2 < r0 || (r2 == r0 && c2 < c0)) implies (#[trigger] g[r2][c2]) is Some by {
            assert(9 * r2 + c2 < p);
        }
        assert(is_first_empty(g, r0, c0));
    } else {
        assert forall|r2: int, c2: int|
            in_range(r2, c2) && 9 * r2 + c2 < p + 1 implies (#[trigger] g[r2][c2]) is Some by {
            if 9 * r2 + c2 == p {
                assert(r2 == r0 && c2 == c0);
            }
        }
        lemma_scan_to_empty(g, p + 1, r, c);
    }
}

/// A grid with an empty cell has a first one.
proof fn lemma_first_empty_exists(g: Grid, r: int, c: int)
    requires
        in_range(r, c),
        g[r][c] is None,
    ensures
        exists|r1: int, c1: int| is_first_empty(g, r1, c1),
{
    lemma_scan_to_empty(g, 0, r, c);
}

/// The search from `g` that tries digits after `k` finds a solution when some
/// completion of `g` holds a digit above `k` in the first empty cell.
proof fn lemma_search_finds(g: Grid, k: int, s: Grid)
    requires
        grid_wf(g),
        grid_wf(s),
        complete(s),
        extends(g, s),
        0 <= k,
        forall|r: int, c: int| #[trigger] is_first_empty(g, r, c) ==> s[r][c]->0 > k,
    ensures
        search_from(g, k) is Some,
    decreases empty_count(g), 9 - k,
{
    if complete(g) {
        return;
    }
    if all_filled(g) {
        assert forall|r: int, c: int| in_range(r, c) implies #[trigger] entry_ok(g, r, c) by {
            assert(entry_ok(s, r, c));
            assert forall|r2: int, c2: int|
                in_range(r2, c2) && peers(r, c, r2, c2) implies #[trigger] g[r2][c2] != g[r][c] by {
                assert(s[r2][c2] != s[r][c]);
            }
        }
        assert(false);
    }
    let (re, ce) = choose|re: int, ce: int| in_range(re, ce) && (#[trigger] g[re][ce]) is None;
    lemma_first_empty_exists(g, re, ce);
    let (r, c) = choose|r: int, c: int| is_first_empty(g, r, c);
    let d = s[r][c]->0;
    assert(k < 9);
    let next = set_cell(g, r, c, Some((k + 1) as u8));
    lemma_fill_decreases(g, r, c, Some((k + 1) as u8));
    lemma_fill_wf(g, r, c, (k + 1) as u8);
    if d == k + 1 {
        lemma_box_position(r, c);
        assert(entry_ok(s, r, c));
        assert forall|i: int| 0 <= i < 9 implies #[trigger] row_of(g, r)[i] != Some(d) by {
            if g[r][i] is Some {
                assert(s[r][i] == g[r][i]);
                assert(peers(r, c, r, i));
            }
        }
        assert forall|i: int| 0 <= i < 9 implies #[trigger] column_of(g, c)[i] != Some(d) by {
            if g[i][c] is Some {
                assert(s[i][c] == g[i][c]);
                assert(peers(r, c, i, c));
            }
        }
        assert forall|i: int| 0 <= i < 9 implies #[trigger] box_of(g, r, c)[i] != Some(d) by {
            let (r2, c2) = (box_row(r, i), box_col(c, i));
            if g[r2][c2] is Some {
                assert(s[r2][c2] == g[r2][c2]);
                assert(peers(r, c, r2, c2));
            }
        }
        assert(!occurs(g, r, c, d));
        assert forall|r2: int, c2: int|
            in_range(r2, c2) && peers(r, c, r2, c2) implies #[trigger] next[r2][c2] != next[r][c] by {
            assert(next[r2][c2] == g[r2][c2]);
            if g[r2][c2] is Some {
                assert(s[r2][c2] == g[r2][c2]);
            }
        }
        assert(entry_ok(next, r, c));
        assert forall|a: int, b: int| in_range(a, b) && (#[trigger] next[a][b]) is Some implies s[a][b]
            == next[a][b] by {
            if a != r || b != c {
                assert(next[a][b] == g[a][b]);
            }
        }
        assert forall|a: int, b: int| #[trigger] is_first_empty(next, a, b) implies s[a][b]->0 > 0 by {
            assert(s[a][b] is Some);
        }
        lemma_search_finds(next, 0, s);
    } else {
        assert forall|a: int, b: int| #[trigger] is_first_empty(g, a, b) implies s[a][b]->0 > k + 1 by {
            lemma_first_empty_unique(g, a, b, r, c);
        }
        lemma_search_finds(g, k + 1, s);
    }
}

/// A board has a solution exactly when some filled grid that satisfies the
/// rules keeps its digits.
pub proof fn lemma_solution_iff_completion(g: Grid)
    requires
        grid_wf(g),
    ensures
        solution(g) is Some <==> has_completion(g),
{
    lemma_search_sound(g, 0);
    if let Some(s) = solution(g) {
        assert(extends(g, s));
    }
    if has_completion(g) {
        let s = choose|s: Grid| grid_wf(s) && complete(s) && #[trigger] extends(g, s);
        assert forall|r: int, c: int| #[trigger] is_first_empty(g, r, c) implies s[r][c]->0 > 0 by {
            assert(s[r][c] is Some);
        }
        lemma_search_finds(g, 0, s);
    }
}

} // verus!
