use vstd::prelude::*;

verus! {

/// One of the 81 grid positions: an optional digit 1-9 together with the
/// row and column the position lies in.
#[derive(Clone, Copy, Debug)]
pub struct Cell {
    pub number: Option<u8>,
    pub row: usize,
    pub column: usize,
}

/// Row index (0-8) of a linear position.
pub open spec fn row_of(pos: int) -> int {
    pos / 9
}

/// Column index (0-8) of a linear position.
pub open spec fn col_of(pos: int) -> int {
    pos % 9
}

/// Region index (0-8) of a linear position: one of the nine disjoint
/// 3x3 blocks, numbered in row-major order of blocks.
pub open spec fn region_of(pos: int) -> int {
    (pos / 27) * 3 + (pos % 9) / 3
}

/// Two distinct positions constrain each other iff they share a row, a
/// column or a region.
pub open spec fn same_group(i: int, j: int) -> bool {
    row_of(i) == row_of(j) || col_of(i) == col_of(j) || region_of(i) == region_of(j)
}

/// A cell content is either empty or a digit 1-9.
pub open spec fn digit_ok(n: Option<u8>) -> bool {
    n is Some ==> 1 <= n->Some_0 <= 9
}

/// Placing `d` at `pos` duplicates no digit already in the row of `pos`
/// (the cell at `pos` itself is not compared).
pub open spec fn row_safe(g: Seq<Option<u8>>, pos: int, d: u8) -> bool {
    forall|j: int|
        0 <= j < 81 && j != pos && row_of(j) == row_of(pos) ==> (#[trigger] g[j]) != Some(d)
}

/// Placing `d` at `pos` duplicates no digit already in the column of `pos`.
pub open spec fn column_safe(g: Seq<Option<u8>>, pos: int, d: u8) -> bool {
    forall|j: int|
        0 <= j < 81 && j != pos && col_of(j) == col_of(pos) ==> (#[trigger] g[j]) != Some(d)
}

/// Placing `d` at `pos` duplicates no digit already in the region of `pos`.
pub open spec fn region_safe(g: Seq<Option<u8>>, pos: int, d: u8) -> bool {
    forall|j: int|
        0 <= j < 81 && j != pos && region_of(j) == region_of(pos) ==> (#[trigger] g[j]) != Some(d)
}

/// Placing `d` at `pos` violates no row, column or region constraint
/// against the other currently filled cells.
pub open spec fn safe_at(g: Seq<Option<u8>>, pos: int, d: u8) -> bool {
    row_safe(g, pos, d) && column_safe(g, pos, d) && region_safe(g, pos, d)
}

/// Every one of the 81 cells holds a digit.
pub open spec fn all_filled(g: Seq<Option<u8>>) -> bool {
    forall|i: int| 0 <= i < 81 ==> (#[trigger] g[i]) is Some
}

/// No row, column or region holds the same digit twice.
pub open spec fn no_group_duplicates(g: Seq<Option<u8>>) -> bool {
    forall|i: int, j: int|
        0 <= i < 81 && 0 <= j < 81 && i != j && same_group(i, j) && (#[trigger] g[i]) is Some
            ==> g[i] != (#[trigger] g[j])
}

/// Every filled cell holds a digit 1-9.
pub open spec fn digits_ok(g: Seq<Option<u8>>) -> bool {
    forall|i: int| 0 <= i < 81 ==> digit_ok(#[trigger] g[i])
}

/// A fully solved grid: every cell filled with a digit 1-9, and no
/// duplicate within any row, column or region.
pub open spec fn solved(g: Seq<Option<u8>>) -> bool {
    g.len() == 81 && all_filled(g) && digits_ok(g) && no_group_duplicates(g)
}

/// `h` keeps every digit that `g` already holds (it may fill empty cells).
pub open spec fn extends(g: Seq<Option<u8>>, h: Seq<Option<u8>>) -> bool {
    forall|i: int| 0 <= i < 81 && (#[trigger] g[i]) is Some ==> h[i] == g[i]
}

/// `h` arises from `g` by clearing some filled cells and nothing else.
pub open spec fn shrinks(g: Seq<Option<u8>>, h: Seq<Option<u8>>) -> bool {
    forall|i: int|
        0 <= i < 81 ==> (#[trigger] h[i]) == g[i] || (g[i] is Some && h[i] is None)
}

/// Number of empty cells of the grid.
pub open spec fn count_empty(g: Seq<Option<u8>>) -> nat
    decreases g.len(),
{
    if g.len() == 0 {
        0
    } else {
        (if g[0] is None {
            1nat
        } else {
            0nat
        }) + count_empty(g.drop_first())
    }
}

/// The cell at index `k` of the given list is the first one, in list
/// order, whose grid position is empty.
pub open spec fn first_empty_of(g: Seq<Option<u8>>, cells: Seq<&Cell>, k: int) -> bool {
    &&& 0 <= k < cells.len()
    &&& g[cells[k].row as int * 9 + cells[k].column as int] is None
    &&& forall|j: int|
        0 <= j < k ==> g[(#[trigger] cells[j]).row as int * 9 + cells[j].column as int] is Some
}

/// A grid never has more empty cells than cells.
pub proof fn lemma_count_empty_le_len(g: Seq<Option<u8>>)
    ensures
        count_empty(g) <= g.len(),
    decreases g.len(),
{
    if g.len() > 0 {
        lemma_count_empty_le_len(g.drop_first());
    }
}

/// Overwriting one cell changes the number of empty cells exactly as the
/// old and new content of that cell dictate.
pub proof fn lemma_count_empty_update(g: Seq<Option<u8>>, i: int, n: Option<u8>)
    requires
        0 <= i < g.len(),
    ensures
        count_empty(g.update(i, n)) + (if g[i] is None {
            1nat
        } else {
            0nat
        }) == count_empty(g) + (if n is None {
            1nat
        } else {
            0nat
        }),
    decreases g.len(),
{
    if i == 0 {
        assert(g.update(0, n).drop_first() =~= g.drop_first());
    } else {
        assert(g.update(i, n).drop_first() =~= g.drop_first().update(i - 1, n));
        lemma_count_empty_update(g.drop_first(), i - 1, n);
    }
}

impl Cell {
    /// Linear position of this cell: `row * 9 + column`.
    pub fn get_position(&self) -> (pos: usize)
        requires
            self.row < 9,
            self.column < 9,
        ensures
            pos == self.row * 9 + self.column,
            pos < 81,
            row_of(pos as int) == self.row,
            col_of(pos as int) == self.column,
    {
        proof {
            lemma_position_arith(self.row as int, self.column as int);
        }
        self.row * 9 + self.column
    }
}

/// Row and column are recovered from `row * 9 + column` by division and
/// remainder.
pub proof fn lemma_position_arith(r: int, c: int)
    requires
        0 <= r < 9,
        0 <= c < 9,
    ensures
        row_of(r * 9 + c) == r,
        col_of(r * 9 + c) == c,
{
    assert((r * 9 + c) / 9 == r && (r * 9 + c) % 9 == c) by (nonlinear_arith)
        requires
            0 <= r < 9,
            0 <= c < 9,
    ;
}

/// The Sudoku generator's state: the 81-cell grid in row-major order,
/// and the digits removed so far by the hole poker.
#[derive(Debug)]
pub struct App {
    pub sudoku_matrix: Vec<Cell>,
    pub removed_values: Option<Vec<u8>>,
}

impl View for App {
    type V = Seq<Option<u8>>;

    /// The mathematical grid: the sequence of the 81 cell contents.
    open spec fn view(&self) -> Seq<Option<u8>> {
        self.sudoku_matrix@.map(|i: int, c: Cell| c.number)
    }
}

impl App {
    /// Structural invariant: 81 cells, each knowing its own row and
    /// column, each holding a digit 1-9 or nothing.
    pub open spec fn wf(self) -> bool {
        &&& self.sudoku_matrix@.len() == 81
        &&& forall|i: int|
            0 <= i < 81 ==> {
                let c = #[trigger] self.sudoku_matrix@[i];
                c.row as int == row_of(i) && c.column as int == col_of(i) && digit_ok(c.number)
            }
    }

    /// The digit (if any) at a linear position.
    pub fn number_at(&self, position: usize) -> (n: Option<u8>)
        requires
            self.wf(),
            position < 81,
        ensures
            n == self@[position as int],
    {
        self.sudoku_matrix[position].number
    }

    /// Write a digit (or emptiness) into one cell.
    pub fn set_number(&mut self, position: usize, number: Option<u8>)
        requires
            old(self).wf(),
            position < 81,
            digit_ok(number),
        ensures
            final(self).wf(),
            final(self)@ == old(self)@.update(position as int, number),
            final(self).removed_values == old(self).removed_values,
    {
        let c = self.sudoku_matrix[position];
        self.sudoku_matrix.set(position, Cell { number, row: c.row, column: c.column });
        proof {
            assert(self@ =~= old(self)@.update(position as int, number));
        }
    }

    /// An independent deep copy of the grid, for a disposable solver trial.
    pub fn duplicate(&self) -> (r: App)
        requires
            self.wf(),
        ensures
            r.wf(),
            r@ == self@,
            r.removed_values is None,
    {
        let mut sudoku_matrix: Vec<Cell> = Vec::new();
        let mut i: usize = 0;
        while i < 81
            invariant
                self.wf(),
                i <= 81,
                sudoku_matrix@.len() == i,
                forall|k: int| 0 <= k < i ==> sudoku_matrix@[k] == self.sudoku_matrix@[k],
            decreases 81 - i,
        {
            sudoku_matrix.push(self.sudoku_matrix[i]);
            i += 1;
        }
        let r = App { sudoku_matrix, removed_values: None };
        proof {
            assert(r.sudoku_matrix@ =~= self.sudoku_matrix@);
            assert(r@ =~= self@);
        }
        r
    }
}

/// Content of one byte of the textual grid dump: the ASCII digit for a
/// filled cell, an ASCII dot for an empty one.
pub open spec fn dump_byte(n: Option<u8>) -> u8 {
    if n is Some {
        (48 + n->Some_0) as u8
    } else {
        46u8
    }
}

impl App {
    /// True iff the cell's digit appears at no other position of the
    /// cell's row.
    pub fn check_row(&self, cell: &Cell) -> (r: bool)
        requires
            self.wf(),
            cell.row < 9,
            cell.column < 9,
            cell.number is Some,
        ensures
            r == row_safe(self@, cell.row as int * 9 + cell.column as int, cell.number->Some_0),
    {
        let d = cell.number.unwrap();
        let pos = cell.get_position();
        let row_beginning: usize = cell.row * 9;
        let mut k: usize = 0;
        while k < 9
            invariant
                self.wf(),
                k <= 9,
                cell.row < 9,
                cell.column < 9,
                cell.number == Some(d),
                pos == cell.row * 9 + cell.column,
                row_beginning == cell.row * 9,
                forall|j: int|
                    row_beginning <= j < row_beginning + k && j != pos ==> (#[trigger] self@[j])
                        != Some(d),
            decreases 9 - k,
        {
            let idx = row_beginning + k;
            if idx != pos {
                if let Some(x) = self.sudoku_matrix[idx].number {
                    if x == d {
                        proof {
                            assert(self@[idx as int] == self.sudoku_matrix@[idx as int].number);
                            lemma_position_arith(cell.row as int, k as int);
                            lemma_position_arith(cell.row as int, cell.column as int);
                        }
                        return false;
                    }
                }
            }
            k += 1;
        }
        proof {
            lemma_position_arith(cell.row as int, cell.column as int);
            assert forall|j: int|
                0 <= j < 81 && j != pos && row_of(j) == row_of(pos as int) implies (
            #[trigger] self@[j]) != Some(d) by {
                assert(j == (j / 9) * 9 + j % 9);
                assert(row_beginning <= j < row_beginning + 9);
            };
        }
        true
    }

    /// True iff the cell's digit appears at no other position of the
    /// cell's column.
    pub fn check_column(&self, cell: &Cell) -> (r: bool)
        requires
            self.wf(),
            cell.row < 9,
            cell.column < 9,
            cell.number is Some,
        ensures
            r == column_safe(
                self@,
                cell.row as int * 9 + cell.column as int,
                cell.number->Some_0,
            ),
    {
        let d = cell.number.unwrap();
        let pos = cell.get_position();
        let mut k: usize = 0;
        while k < 9
            invariant
                self.wf(),
                k <= 9,
                cell.row < 9,
                cell.column < 9,
                cell.number == Some(d),
                pos == cell.row * 9 + cell.column,
                forall|j: int|
                    0 <= j < 81 && j != pos && col_of(j) == cell.column as int && row_of(j) < k
                        ==> (#[trigger] self@[j]) != Some(d),
            decreases 9 - k,
        {
            let idx = k * 9 + cell.column;
            if idx != pos {
                if let Some(x) = self.sudoku_matrix[idx].number {
                    if x == d {
                        proof {
                            assert(self@[idx as int] == self.sudoku_matrix@[idx as int].number);
                            lemma_position_arith(k as int, cell.column as int);
                            lemma_position_arith(cell.row as int, cell.column as int);
                        }
                        return false;
                    }
                }
            }
            proof {
                lemma_position_arith(k as int, cell.column as int);
                assert forall|j: int|
                    0 <= j < 81 && j != pos && col_of(j) == cell.column as int && row_of(j) < k
                        + 1 implies (#[trigger] self@[j]) != Some(d) by {
                    assert(j == (j / 9) * 9 + j % 9);
                };
            }
            k += 1;
        }
        proof {
            lemma_position_arith(cell.row as int, cell.column as int);
            assert forall|j: int|
                0 <= j < 81 && j != pos && col_of(j) == col_of(pos as int) implies (
            #[trigger] self@[j]) != Some(d) by {
                assert(row_of(j) < 9);
            };
        }
        true
    }

    /// True iff the cell's digit appears at no other position of the
    /// cell's 3x3 region.
    pub fn check_region(&self, cell: &Cell) -> (r: bool)
        requires
            self.wf(),
            cell.row < 9,
            cell.column < 9,
            cell.number is Some,
        ensures
            r == region_safe(
                self@,
                cell.row as int * 9 + cell.column as int,
                cell.number->Some_0,
            ),
    {
        let d = cell.number.unwrap();
        let pos = cell.get_position();
        let region = (pos / 27) * 3 + (pos % 9) / 3;
        let mut j: usize = 0;
        while j < 81
            invariant
                self.wf(),
                j <= 81,
                cell.row < 9,
                cell.column < 9,
                cell.number == Some(d),
                pos == cell.row * 9 + cell.column,
                pos < 81,
                region == region_of(pos as int),
                forall|i: int|
                    0 <= i < j && i != pos && region_of(i) == region_of(pos as int) ==> (
                    #[trigger] self@[i]) != Some(d),
            decreases 81 - j,
        {
            if j != pos && (j / 27) * 3 + (j % 9) / 3 == region {
                if let Some(x) = self.sudoku_matrix[j].number {
                    if x == d {
                        proof {
                            assert(self@[j as int] == self.sudoku_matrix@[j as int].number);
                        }
                        return false;
                    }
                }
            }
            j += 1;
        }
        true
    }

    /// True iff placing the cell's digit at the cell's position violates
    /// no row, column or region constraint against the other filled cells.
    pub fn safe_to_place(&self, cell: &Cell) -> (r: bool)
        requires
            self.wf(),
            cell.row < 9,
            cell.column < 9,
            cell.number is Some,
        ensures
            r == safe_at(self@, cell.row as int * 9 + cell.column as int, cell.number->Some_0),
    {
        self.check_column(cell) && self.check_row(cell) && self.check_region(cell)
    }

    /// The first empty cell of the grid in linear order, as an unfilled
    /// copy; `None` when the grid is complete.
    pub fn scan_next_cell(&mut self) -> (r: Option<Cell>)
        requires
            old(self).wf(),
        ensures
            *final(self) == *old(self),
            match r {
                None => all_filled(old(self)@),
                Some(c) => {
                    &&& c.number is None
                    &&& c.row < 9
                    &&& c.column < 9
                    &&& old(self)@[c.row as int * 9 + c.column as int] is None
                    &&& forall|j: int|
                        0 <= j < c.row as int * 9 + c.column as int ==> (#[trigger] old(
                            self,
                        )@[j]) is Some
                },
            },
    {
        let mut i: usize = 0;
        while i < 81
            invariant
                self.wf(),
                *self == *old(self),
                i <= 81,
                forall|j: int| 0 <= j < i ==> (#[trigger] self@[j]) is Some,
            decreases 81 - i,
        {
            let c = self.sudoku_matrix[i];
            proof {
                assert(self@[i as int] == self.sudoku_matrix@[i as int].number);
                assert(c.row as int * 9 + c.column as int == i as int);
            }
            if c.number.is_none() {
                return Some(Cell { number: None, row: c.row, column: c.column });
            }
            i += 1;
        }
        None
    }

    /// True iff the grid is fully solved: every cell filled and no row,
    /// column or region holding a digit twice.
    pub fn is_solved(&self) -> (r: bool)
        requires
            self.wf(),
        ensures
            r == solved(self@),
    {
        let mut i: usize = 0;
        while i < 81
            invariant
                self.wf(),
                i <= 81,
                forall|k: int| 0 <= k < i ==> (#[trigger] self@[k]) is Some,
                forall|k: int|
                    0 <= k < i ==> safe_at(self@, k, (#[trigger] self@[k])->Some_0),
            decreases 81 - i,
        {
            let cell = self.sudoku_matrix[i];
            proof {
                assert(self@[i as int] == self.sudoku_matrix@[i as int].number);
                assert(cell.row as int * 9 + cell.column as int == i as int);
            }
            match cell.number {
                None => {
                    return false;
                },
                Some(d) => {
                    if !self.safe_to_place(&cell) {
                        proof {
                            let pos = i as int;
                            assert(self@[pos] == Some(d));
                            if !row_safe(self@, pos, d) {
                                assert(exists|j: int|
                                    0 <= j < 81 && j != pos && row_of(j) == row_of(pos) && (
                                    #[trigger] self@[j]) == Some(d));
                                let j = choose|j: int|
                                    0 <= j < 81 && j != pos && row_of(j) == row_of(pos) && (
                                    #[trigger] self@[j]) == Some(d);
                                assert(same_group(pos, j));
                                assert(!no_group_duplicates(self@));
                            } else if !column_safe(self@, pos, d) {
                                assert(exists|j: int|
                                    0 <= j < 81 && j != pos && col_of(j) == col_of(pos) && (
                                    #[trigger] self@[j]) == Some(d));
                                let j = choose|j: int|
                                    0 <= j < 81 && j != pos && col_of(j) == col_of(pos) && (
                                    #[trigger] self@[j]) == Some(d);
                                assert(same_group(pos, j));
                                assert(!no_group_duplicates(self@));
                            } else {
                                assert(exists|j: int|
                                    0 <= j < 81 && j != pos && region_of(j) == region_of(pos) && (
                                    #[trigger] self@[j]) == Some(d));
                                let j = choose|j: int|
                                    0 <= j < 81 && j != pos && region_of(j) == region_of(pos) && (
                                    #[trigger] self@[j]) == Some(d);
                                assert(same_group(pos, j));
                                assert(!no_group_duplicates(self@));
                            }
                        }
                        return false;
                    }
                },
            }
            i += 1;
        }
        proof {
            assert forall|i: int, j: int|
                0 <= i < 81 && 0 <= j < 81 && i != j && same_group(i, j) && (
                #[trigger] self@[i]) is Some implies self@[i] != (#[trigger] self@[j]) by {
                let d = self@[i]->Some_0;
                assert(safe_at(self@, i, d));
                assert(self@[j] != Some(d));
            };
            assert forall|i: int| 0 <= i < 81 implies digit_ok(#[trigger] self@[i]) by {
                assert(self@[i] == self.sudoku_matrix@[i].number);
            };
        }
        true
    }

    /// True iff the filled cells are mutually consistent: no row, column
    /// or region holds a digit twice.  Empty cells are ignored, so this
    /// also accepts partial grids.
    pub fn is_consistent(&self) -> (r: bool)
        requires
            self.wf(),
        ensures
            r == no_group_duplicates(self@),
    {
        let mut i: usize = 0;
        while i < 81
            invariant
                self.wf(),
                i <= 81,
                forall|k: int|
                    0 <= k < i && (#[trigger] self@[k]) is Some ==> safe_at(
                        self@,
                        k,
                        self@[k]->Some_0,
                    ),
            decreases 81 - i,
        {
            let cell = self.sudoku_matrix[i];
            proof {
                assert(self@[i as int] == self.sudoku_matrix@[i as int].number);
                assert(cell.row as int * 9 + cell.column as int == i as int);
            }
            if let Some(d) = cell.number {
                if !self.safe_to_place(&cell) {
                    proof {
                        let pos = i as int;
                        assert(self@[pos] == Some(d));
                        if !row_safe(self@, pos, d) {
                            assert(exists|j: int|
                                0 <= j < 81 && j != pos && row_of(j) == row_of(pos) && (
                                #[trigger] self@[j]) == Some(d));
                            let j = choose|j: int|
                                0 <= j < 81 && j != pos && row_of(j) == row_of(pos) && (
                                #[trigger] self@[j]) == Some(d);
                            assert(same_group(pos, j));
                            assert(!no_group_duplicates(self@));
                        } else if !column_safe(self@, pos, d) {
                            assert(exists|j: int|
                                0 <= j < 81 && j != pos && col_of(j) == col_of(pos) && (
                                #[trigger] self@[j]) == Some(d));
                            let j = choose|j: int|
                                0 <= j < 81 && j != pos && col_of(j) == col_of(pos) && (
                                #[trigger] self@[j]) == Some(d);
                            assert(same_group(pos, j));
                            assert(!no_group_duplicates(self@));
                        } else {
                            assert(exists|j: int|
                                0 <= j < 81 && j != pos && region_of(j) == region_of(pos) && (
                                #[trigger] self@[j]) == Some(d));
                            let j = choose|j: int|
                                0 <= j < 81 && j != pos && region_of(j) == region_of(pos) && (
                                #[trigger] self@[j]) == Some(d);
                            assert(same_group(pos, j));
                            assert(!no_group_duplicates(self@));
                        }
                    }
                    return false;
                }
            }
            i += 1;
        }
        proof {
            assert forall|i: int, j: int|
                0 <= i < 81 && 0 <= j < 81 && i != j && same_group(i, j) && (
                #[trigger] self@[i]) is Some implies self@[i] != (#[trigger] self@[j]) by {
                let d = self@[i]->Some_0;
                assert(safe_at(self@, i, d));
                assert(self@[j] != Some(d));
            };
        }
        true
    }

    /// The textual grid dump: one byte per cell in row-major order (a
    /// digit for a filled cell, a dot for an empty one), then a newline.
    pub fn as_text(&self) -> (r: Vec<u8>)
        requires
            self.wf(),
        ensures
            r@.len() == 82,
            forall|i: int| 0 <= i < 81 ==> (#[trigger] r@[i]) == dump_byte(self@[i]),
            r@[81] == 10u8,
    {
        let mut out: Vec<u8> = Vec::new();
        let mut i: usize = 0;
        while i < 81
            invariant
                self.wf(),
                i <= 81,
                out@.len() == i,
                forall|k: int| 0 <= k < i ==> (#[trigger] out@[k]) == dump_byte(self@[k]),
            decreases 81 - i,
        {
            proof {
                assert(self@[i as int] == self.sudoku_matrix@[i as int].number);
            }
            match self.sudoku_matrix[i].number {
                Some(num) => out.push(48 + num),
                None => out.push(46),
            }
            i += 1;
        }
        out.push(10);
        out
    }

    /// Runtime check of the structural invariant, for unverified callers
    /// that must guard their calls into the library.
    pub fn is_well_formed(&self) -> (r: bool)
        ensures
            r == self.wf(),
    {
        if self.sudoku_matrix.len() != 81 {
            return false;
        }
        let mut i: usize = 0;
        while i < 81
            invariant
                i <= 81,
                self.sudoku_matrix@.len() == 81,
                forall|k: int|
                    0 <= k < i ==> {
                        let c = #[trigger] self.sudoku_matrix@[k];
                        c.row as int == row_of(k) && c.column as int == col_of(k) && digit_ok(
                            c.number,
                        )
                    },
            decreases 81 - i,
        {
            let c = self.sudoku_matrix[i];
            if c.row != i / 9 || c.column != i % 9 {
                return false;
            }
            if let Some(d) = c.number {
                if d < 1 || d > 9 {
                    return false;
                }
            }
            i += 1;
        }
        true
    }

    /// The first of the given cells, in the order given, whose grid
    /// position is empty.
    pub fn next_empty_cell<'a>(&'a self, vec: Vec<&'a Cell>) -> (r: Option<&'a Cell>)
        requires
            self.wf(),
            forall|k: int|
                0 <= k < vec@.len() ==> (#[trigger] vec@[k]).row < 9 && vec@[k].column < 9,
        ensures
            match r {
                None => forall|k: int|
                    0 <= k < vec@.len() ==> self@[(#[trigger] vec@[k]).row as int * 9
                        + vec@[k].column as int] is Some,
                Some(c) => {
                    &&& c.row < 9
                    &&& c.column < 9
                    &&& self@[c.row as int * 9 + c.column as int] is None
                    &&& exists|k: int|
                        #[trigger] first_empty_of(self@, vec@, k) && vec@[k] == c
                },
            },
    {
        let mut k: usize = 0;
        while k < vec.len()
            invariant
                self.wf(),
                k <= vec@.len(),
                forall|m: int|
                    0 <= m < vec@.len() ==> (#[trigger] vec@[m]).row < 9 && vec@[m].column < 9,
                forall|j: int|
                    0 <= j < k ==> self@[(#[trigger] vec@[j]).row as int * 9
                        + vec@[j].column as int] is Some,
            decreases vec@.len() - k,
        {
            let c = vec[k];
            let pos = c.get_position();
            if self.sudoku_matrix[pos].number.is_none() {
                proof {
                    assert(self@[pos as int] == self.sudoku_matrix@[pos as int].number);
                    assert(first_empty_of(self@, vec@, k as int));
                }
                return Some(c);
            }
            proof {
                assert(self@[pos as int] == self.sudoku_matrix@[pos as int].number);
            }
            k += 1;
        }
        None
    }
}

impl Default for App {
    /// The empty grid: 81 cells, none filled, nothing removed yet.
    fn default() -> (app: Self)
        ensures
            app.wf(),
            app@.len() == 81,
            forall|i: int| 0 <= i < 81 ==> (#[trigger] app@[i]) is None,
            app.removed_values is None,
    {
        let mut sudoku_matrix: Vec<Cell> = Vec::new();
        let mut i: usize = 0;
        while i < 81
            invariant
                i <= 81,
                sudoku_matrix@.len() == i,
                forall|k: int|
                    0 <= k < i ==> {
                        let c = #[trigger] sudoku_matrix@[k];
                        c.number is None && c.row as int == row_of(k) && c.column as int == col_of(
                            k,
                        )
                    },
            decreases 81 - i,
        {
            sudoku_matrix.push(Cell { number: None, row: i / 9, column: i % 9 });
            i += 1;
        }
        App { sudoku_matrix, removed_values: None }
    }
}

} // verus!
