use vstd::prelude::*;
use crate::sudoku_cell::SudokuCell;
use vstd::string::*;
use crate::sudoku_values::{SudokuValues, digit_str, digit_text};

verus! {

/// The puzzle: 81 cells in row-major order, and the presence sets of the nine rows,
/// nine columns and nine subgrids.
pub struct SudokuGrid {
    pub cells: Vec<SudokuCell>,
    pub rows: Vec<SudokuValues>,
    pub cols: Vec<SudokuValues>,
    pub subgrids: Vec<SudokuValues>,
}

/// The contents of a grid as mathematical sequences.
pub struct GridView {
    pub cells: Seq<SudokuCell>,
    pub rows: Seq<SudokuValues>,
    pub cols: Seq<SudokuValues>,
    pub subgrids: Seq<SudokuValues>,
}

impl View for SudokuGrid {
    type V = GridView;

    open spec fn view(&self) -> GridView {
        GridView { cells: self.cells@, rows: self.rows@, cols: self.cols@, subgrids: self.subgrids@ }
    }
}

/// The 3x3 block that holds row `r` and column `c`, numbered 0 to 8 in row-major order.
pub open spec fn block_of(r: int, c: int) -> int {
    (r / 3) * 3 + c / 3
}

/// The unit of kind `kind` that holds cell `c`: its row for 0, its column for 1,
/// its subgrid otherwise.
pub open spec fn unit_of(c: SudokuCell, kind: int) -> int {
    if kind == 0 {
        c.row as int
    } else if kind == 1 {
        c.col as int
    } else {
        c.subgrid as int
    }
}

/// Whether two cells lie in a common row, column or subgrid.
pub open spec fn shares_unit(a: SudokuCell, b: SudokuCell) -> bool {
    a.row == b.row || a.col == b.col || a.subgrid == b.subgrid
}

/// Whether a cell sits at index `i` of the row-major order and holds nothing but a digit.
pub open spec fn well_placed(c: SudokuCell, i: int) -> bool {
    &&& c.row == i / 9
    &&& c.col == i % 9
    &&& c.subgrid == block_of(i / 9, i % 9)
    &&& (c.cur_val matches Some(v) ==> 1 <= v <= 9)
}

/// A cell in the grid's text: its digit, or `*` while it has none.
pub open spec fn glyph(c: SudokuCell) -> Seq<char> {
    match c.cur_val {
        Some(v) => digit_text(v as int),
        None => "*"@,
    }
}

impl GridView {
    /// The text of the first `n` cells: each glyph followed by a comma, and a line break
    /// after every ninth cell.
    pub open spec fn text_upto(self, n: int) -> Seq<char>
        decreases n,
    {
        if n <= 0 {
            Seq::empty()
        } else {
            self.text_upto(n - 1) + glyph(self.cells[n - 1]) + ","@ + if n % 9 == 0 { "\n"@ } else { Seq::empty() }
        }
    }

    /// The presence set of unit `u` of kind `kind` (0 row, 1 column, 2 subgrid).
    pub open spec fn presence(self, kind: int, u: int) -> SudokuValues {
        if kind == 0 {
            self.rows[u]
        } else if kind == 1 {
            self.cols[u]
        } else {
            self.subgrids[u]
        }
    }

    /// Whether some cell of unit `u` of kind `kind` holds digit `v`.
    pub open spec fn placed_in(self, kind: int, u: int, v: int) -> bool {
        exists|j: int| 0 <= j < self.cells.len() && unit_of(#[trigger] self.cells[j], kind) == u && self.cells[j].cur_val == Some(v as usize)
    }

    /// A grid under construction: its cells so far (at most 81) sit at their places, and
    /// every presence set records exactly the digits assigned in its unit.
    pub open spec fn partial_wf(self) -> bool {
        &&& self.cells.len() <= 81
        &&& self.rows.len() == 9
        &&& self.cols.len() == 9
        &&& self.subgrids.len() == 9
        &&& forall|i: int| 0 <= i < self.cells.len() ==> well_placed(#[trigger] self.cells[i], i)
        &&& forall|kind: int, u: int, d: int|
            0 <= kind < 3 && 0 <= u < 9 && 0 <= d < 9 ==>
                (#[trigger] self.presence(kind, u).has(d) <==> self.placed_in(kind, u, d + 1))
    }

    /// Well-formedness: a complete grid of 81 cells.
    pub open spec fn wf(self) -> bool {
        &&& self.cells.len() == 81
        &&& self.partial_wf()
    }

    /// Every cell holds a digit.
    pub open spec fn is_solved(self) -> bool {
        forall|i: int| 0 <= i < 81 ==> (#[trigger] self.cells[i]).cur_val is Some
    }

    /// No digit is assigned twice in any row, column or subgrid.
    pub open spec fn consistent(self) -> bool {
        forall|i: int, j: int|
            0 <= i < 81 && 0 <= j < 81 && i != j && shares_unit(#[trigger] self.cells[i], #[trigger] self.cells[j])
                && self.cells[i].cur_val is Some ==> self.cells[i].cur_val != self.cells[j].cur_val
    }

    /// Every candidate of every open cell is absent from the cell's three units.
    pub open spec fn fresh(self) -> bool {
        forall|i: int, d: int|
            0 <= i < 81 && 0 <= d < 9 && self.cells[i].is_open() && #[trigger] self.cells[i].candidate(d) ==> self.digit_free(i, d)
    }

    /// Digit `d + 1` is absent from the row, the column and the subgrid of cell `i`.
    pub open spec fn digit_free(self, i: int, d: int) -> bool {
        let c = self.cells[i];
        !self.rows[c.row as int].has(d) && !self.cols[c.col as int].has(d) && !self.subgrids[c.subgrid as int].has(d)
    }

    /// The number of open cells among the first `n`.
    pub open spec fn open_count_upto(self, n: int) -> nat
        decreases n,
    {
        if n <= 0 {
            0
        } else {
            self.open_count_upto(n - 1) + if self.cells[n - 1].is_open() { 1nat } else { 0nat }
        }
    }

    /// The number of open cells of the grid.
    pub open spec fn open_count(self) -> nat {
        self.open_count_upto(81)
    }

    /// `self` is reached from `prev` by solving only: a cell assigned in `prev` is left
    /// as it was; no cell gains a candidate; and a cell assigned since `prev` holds one of
    /// its own candidates (so one of its candidates in `prev`).
    pub open spec fn refines(self, prev: GridView) -> bool {
        &&& forall|i: int| 0 <= i < 81 && (#[trigger] prev.cells[i]).cur_val is Some ==> self.cells[i] == prev.cells[i]
        &&& forall|i: int, d: int|
            0 <= i < 81 && 0 <= d < 9 && #[trigger] self.cells[i].candidate(d) ==> prev.cells[i].candidate(d)
        &&& forall|i: int| 0 <= i < 81 && prev.cells[i].is_open() && (#[trigger] self.cells[i]).cur_val is Some
            ==> self.cells[i].candidate(self.cells[i].cur_val->Some_0 - 1)
    }

    /// `next` is `self` with cell `c` added at the end, its digit (if any) recorded in
    /// its three presence sets.
    pub open spec fn appends(self, next: GridView, c: SudokuCell) -> bool {
        &&& next.cells == self.cells.push(c)
        &&& next.rows.len() == 9
        &&& next.cols.len() == 9
        &&& next.subgrids.len() == 9
        &&& forall|kind: int, u: int|
            0 <= kind < 3 && 0 <= u < 9 ==> (#[trigger] next.presence(kind, u)).values@ == match c.cur_val {
                Some(v) => if u == unit_of(c, kind) {
                    self.presence(kind, u).values@.update(v - 1, true)
                } else {
                    self.presence(kind, u).values@
                },
                None => self.presence(kind, u).values@,
            }
    }

    /// `next` is `self` with digit `v` written into cell `i` and recorded in the cell's
    /// three presence sets; nothing else changes.
    pub open spec fn assigns(self, next: GridView, i: int, v: int) -> bool {
        let c = self.cells[i];
        &&& next.cells.len() == 81
        &&& next.cells[i].cur_val == Some(v as usize)
        &&& next.cells[i].row == c.row
        &&& next.cells[i].col == c.col
        &&& next.cells[i].subgrid == c.subgrid
        &&& next.cells[i].possible_vals == c.possible_vals
        &&& forall|j: int| 0 <= j < 81 && j != i ==> next.cells[j] == #[trigger] self.cells[j]
        &&& next.rows.len() == 9
        &&& next.cols.len() == 9
        &&& next.subgrids.len() == 9
        &&& forall|kind: int, u: int|
            0 <= kind < 3 && 0 <= u < 9 ==> (#[trigger] next.presence(kind, u)).values@ == if u == unit_of(c, kind) {
                self.presence(kind, u).values@.update(v - 1, true)
            } else {
                self.presence(kind, u).values@
            }
    }
}

impl SudokuGrid {
    /// A grid with no cells yet and 27 empty presence sets, ready to receive rows.
    pub fn new() -> (grid: Self)
        ensures
            grid.cells@.len() == 0,
            grid@.rows.len() == 9,
            grid@.cols.len() == 9,
            grid@.subgrids.len() == 9,
            forall|kind: int, u: int, d: int| 0 <= kind < 3 && 0 <= u < 9 && 0 <= d < 9 ==> !(#[trigger] grid@.presence(kind, u).has(d)),
    {
        let mut grid = SudokuGrid {
            cells: Vec::with_capacity(81),
            rows: Vec::with_capacity(9),
            cols: Vec::with_capacity(9),
            subgrids: Vec::with_capacity(9),
        };
        for _i in 0..9usize
            invariant
                grid.cells@.len() == 0,
                grid.rows@.len() == _i,
                grid.cols@.len() == _i,
                grid.subgrids@.len() == _i,
                forall|u: int, d: int| 0 <= u < _i && 0 <= d < 9 ==> !(#[trigger] grid.rows@[u].has(d)),
                forall|u: int, d: int| 0 <= u < _i && 0 <= d < 9 ==> !(#[trigger] grid.cols@[u].has(d)),
                forall|u: int, d: int| 0 <= u < _i && 0 <= d < 9 ==> !(#[trigger] grid.subgrids@[u].has(d)),
        {
            grid.rows.push(SudokuValues::new(false));
            grid.cols.push(SudokuValues::new(false));
            grid.subgrids.push(SudokuValues::new(false));
        }
        assert forall|kind: int, u: int, d: int| 0 <= kind < 3 && 0 <= u < 9 && 0 <= d < 9 implies !(#[trigger] grid@.presence(kind, u).has(d)) by {
            if kind == 0 {
                assert(!grid.rows@[u].has(d));
            } else if kind == 1 {
                assert(!grid.cols@[u].has(d));
            } else {
                assert(!grid.subgrids@[u].has(d));
            }
        }
        grid
    }

    /// The subgrid (3x3 block, numbered in row-major order) of row `row` and column `col`;
    /// rows and columns past the eighth count as the last block row and block column.
    pub fn get_subgrid(row: usize, col: usize) -> (s: usize)
        ensures
            s < 9,
            s == block_of(if row < 9 { row as int } else { 8 }, if col < 9 { col as int } else { 8 }),
    {
        if row < 3 {
            if col < 3 {
                0
            } else if col < 6 {
                1
            } else {
                2
            }
        } else if row < 6 {
            if col < 3 {
                3
            } else if col < 6 {
                4
            } else {
                5
            }
        } else {
            if col < 3 {
                6
            } else if col < 6 {
                7
            } else {
                8
            }
        }
    }

    /// The grid as text, one line per row: each cell's digit, or `*` for an open cell,
    /// followed by a comma.
    pub fn to_text(&self) -> (r: String)
        requires
            self@.wf(),
        ensures
            r@ == self@.text_upto(81),
    {
        let mut output = String::new();
        let mut row_counter: usize = 0;
        for i in 0..81usize
            invariant
                self@.wf(),
                output@ == self@.text_upto(i as int),
                row_counter == i % 9,
        {
            let cell = self.cells[i];
            assert(well_placed(cell, i as int));
            match cell.cur_val {
                Some(x) => output.append(digit_str(x)),
                None => output.append("*"),
            }
            output.append(",");
            row_counter += 1;
            if row_counter == 9 {
                row_counter = 0;
                output.append("\n");
            }
            assert(output@ =~= self@.text_upto(i + 1));
        }
        output
    }

    /// A deep copy of the grid.
    pub fn clone_grid(&self) -> (r: Self)
        ensures
            r@ == self@,
    {
        let mut cells: Vec<SudokuCell> = Vec::with_capacity(self.cells.len());
        for i in 0..self.cells.len()
            invariant
                cells@ == self.cells@.take(i as int),
        {
            cells.push(self.cells[i]);
            assert(cells@ =~= self.cells@.take(i + 1));
        }
        assert(cells@ =~= self.cells@);
        SudokuGrid {
            cells,
            rows: Self::clone_units(&self.rows),
            cols: Self::clone_units(&self.cols),
            subgrids: Self::clone_units(&self.subgrids),
        }
    }

    fn clone_units(units: &Vec<SudokuValues>) -> (r: Vec<SudokuValues>)
        ensures
            r@ == units@,
    {
        let mut r: Vec<SudokuValues> = Vec::with_capacity(units.len());
        for i in 0..units.len()
            invariant
                r@ == units@.take(i as int),
        {
            r.push(units[i]);
            assert(r@ =~= units@.take(i + 1));
        }
        assert(r@ =~= units@);
        r
    }

    /// Adds `cell` after the cells already there and marks its digit, if it has one,
    /// present in its row, column and subgrid.
    pub(crate) fn append_cell(&mut self, cell: SudokuCell)
        requires
            old(self)@.partial_wf(),
            old(self)@.cells.len() < 81,
            well_placed(cell, old(self)@.cells.len() as int),
        ensures
            old(self)@.appends(final(self)@, cell),
            final(self)@.partial_wf(),
    {
        let ghost g = self@;
        if let Some(v) = cell.cur_val {
            let mut r = self.rows[cell.row];
            r.set(v - 1, true);
            self.rows.set(cell.row, r);
            let mut c = self.cols[cell.col];
            c.set(v - 1, true);
            self.cols.set(cell.col, c);
            let mut s = self.subgrids[cell.subgrid];
            s.set(v - 1, true);
            self.subgrids.set(cell.subgrid, s);
        }
        self.cells.push(cell);
        let ghost n = self@;
        assert forall|kind: int, u: int| 0 <= kind < 3 && 0 <= u < 9 implies (#[trigger] n.presence(kind, u)).values@
            == match cell.cur_val {
                Some(v) => if u == unit_of(cell, kind) {
                    g.presence(kind, u).values@.update(v - 1, true)
                } else {
                    g.presence(kind, u).values@
                },
                None => g.presence(kind, u).values@,
            } by {
            if kind == 0 {
            } else if kind == 1 {
            } else {
            }
        }
        proof {
            lemma_append(g, n, cell);
        }
    }

    /// Writes digit `v` into cell `i` and marks it present in the cell's row, column
    /// and subgrid.
    pub(crate) fn place_digit(&mut self, i: usize, v: usize)
        requires
            old(self)@.wf(),
            i < 81,
            1 <= v <= 9,
        ensures
            old(self)@.assigns(final(self)@, i as int, v as int),
    {
        let ghost g = self@;
        let mut cell = self.cells[i];
        assert(well_placed(cell, i as int));
        cell.cur_val = Some(v);
        self.cells.set(i, cell);
        let mut r = self.rows[cell.row];
        r.set(v - 1, true);
        self.rows.set(cell.row, r);
        let mut c = self.cols[cell.col];
        c.set(v - 1, true);
        self.cols.set(cell.col, c);
        let mut s = self.subgrids[cell.subgrid];
        s.set(v - 1, true);
        self.subgrids.set(cell.subgrid, s);
        let ghost n = self@;
        assert forall|kind: int, u: int| 0 <= kind < 3 && 0 <= u < 9 implies (#[trigger] n.presence(kind, u)).values@
            == if u == unit_of(g.cells[i as int], kind) {
                g.presence(kind, u).values@.update(v - 1, true)
            } else {
                g.presence(kind, u).values@
            } by {
            if kind == 0 {
            } else if kind == 1 {
            } else {
            }
        }
    }

    /// The index of the first open cell, or `None` when every cell holds a digit.
    pub(crate) fn get_next_unsolved_cell_index(&self) -> (r: Option<usize>)
        requires
            self@.wf(),
        ensures
            match r {
                Some(i) => i < 81 && self@.cells[i as int].is_open() && forall|j: int| 0 <= j < i ==> !(#[trigger] self@.cells[j]).is_open(),
                None => self@.is_solved(),
            },
    {
        let mut index: usize = 0;
        while index < 81
            invariant
                self@.wf(),
                index <= 81,
                forall|j: int| 0 <= j < index ==> !(#[trigger] self@.cells[j]).is_open(),
            decreases 81 - index,
        {
            if self.cells[index].cur_val.is_none() {
                return Some(index);
            }
            index += 1;
        }
        None
    }

    /// Overwrites the digits, candidates and presence sets of this grid with those of `grid`.
    pub fn copy_over_grid(&mut self, grid: &SudokuGrid)
        requires
            old(self)@.wf(),
            grid@.wf(),
        ensures
            final(self)@ == grid@,
    {
        for i in 0..81usize
            invariant
                self.cells@.len() == 81,
                grid@.wf(),
                forall|j: int| 0 <= j < 81 ==> well_placed(#[trigger] self.cells@[j], j),
                forall|j: int| 0 <= j < i ==> self.cells@[j] == grid.cells@[j],
                self.rows@ == old(self).rows@,
                self.cols@ == old(self).cols@,
                self.subgrids@ == old(self).subgrids@,
        {
            let mut cell = self.cells[i];
            let from = grid.cells[i];
            cell.cur_val = from.cur_val;
            cell.possible_vals = from.possible_vals;
            assert(well_placed(from, i as int) && well_placed(self.cells@[i as int], i as int));
            self.cells.set(i, cell);
        }
        for i in 0..9usize
            invariant
                self.cells@.len() == 81,
                grid@.wf(),
                self.rows@.len() == 9,
                self.cols@.len() == 9,
                self.subgrids@.len() == 9,
                forall|j: int| 0 <= j < 81 ==> self.cells@[j] == grid.cells@[j],
                forall|j: int| 0 <= j < i ==> self.rows@[j] == grid.rows@[j] && self.cols@[j] == grid.cols@[j] && self.subgrids@[j] == grid.subgrids@[j],
        {
            self.rows.set(i, grid.rows[i]);
            self.cols.set(i, grid.cols[i]);
            self.subgrids.set(i, grid.subgrids[i]);
        }
        assert(self.cells@ =~= grid.cells@);
        assert(self.rows@ =~= grid.rows@);
        assert(self.cols@ =~= grid.cols@);
        assert(self.subgrids@ =~= grid.subgrids@);
    }
}

/// Counting open cells: a grid whose open cells were all open in `a` has no more of
/// them, and strictly fewer where some cell open in `a` is assigned in `b`.
pub proof fn lemma_open_count_mono(a: GridView, b: GridView, n: int, k: int)
    requires
        0 <= n <= 81,
        forall|j: int| 0 <= j < n && (#[trigger] b.cells[j]).is_open() ==> a.cells[j].is_open(),
    ensures
        b.open_count_upto(n) <= a.open_count_upto(n),
        0 <= k < n && a.cells[k].is_open() && !b.cells[k].is_open() ==> b.open_count_upto(n) < a.open_count_upto(n),
    decreases n,
{
    if n > 0 {
        lemma_open_count_mono(a, b, n - 1, k);
    }
}

/// At most `n` of the first `n` cells are open, and none is exactly when each is assigned.
pub proof fn lemma_open_count_bound(g: GridView, n: int)
    requires
        0 <= n,
    ensures
        g.open_count_upto(n) <= n,
        g.open_count_upto(n) == 0 <==> forall|j: int| 0 <= j < n ==> !(#[trigger] g.cells[j]).is_open(),
    decreases n,
{
    if n > 0 {
        lemma_open_count_bound(g, n - 1);
    }
}

/// Writing a digit into one cell leaves every other cell as it was and keeps every
/// digit already present in that cell's units.
pub proof fn lemma_assign_keeps_present(g: GridView, n: GridView, i: int, v: int, k: int, e: int)
    requires
        g.wf(),
        g.assigns(n, i, v),
        1 <= v <= 9,
        0 <= i < 81,
        0 <= k < 81,
        k != i,
        0 <= e < 9,
        !g.digit_free(k, e),
    ensures
        n.cells[k] == g.cells[k],
        !n.digit_free(k, e),
{
    let c = g.cells[k];
    assert(well_placed(c, k));
    assert(n.cells[k] == g.cells[k]);
    assert(c.row < 9 && c.col < 9);
    let units = seq![c.row as int, c.col as int, c.subgrid as int];
    assert forall|kind: int| 0 <= kind < 3 && #[trigger] g.presence(kind, units[kind]).has(e)
        implies n.presence(kind, units[kind]).has(e) by {
        let gv = g.presence(kind, units[kind]).values@;
        assert(gv.len() == 9);
        assert(units[kind] == unit_of(c, kind) || units[kind] != unit_of(c, kind));
        if units[kind] == unit_of(g.cells[i], kind) {
            assert(n.presence(kind, units[kind]).values@ == gv.update(v - 1, true));
        } else {
            assert(n.presence(kind, units[kind]).values@ == gv);
        }
    }
    assert(g.presence(0, units[0]) == g.rows[c.row as int] && n.presence(0, units[0]) == n.rows[c.row as int]);
    assert(g.presence(1, units[1]) == g.cols[c.col as int] && n.presence(1, units[1]) == n.cols[c.col as int]);
    assert(g.presence(2, units[2]) == g.subgrids[c.subgrid as int] && n.presence(2, units[2]) == n.subgrids[c.subgrid as int]);
}

/// Being reached by solving only is transitive.
pub proof fn lemma_refines_trans(a: GridView, b: GridView, c: GridView)
    requires
        a.refines(b),
        b.refines(c),
    ensures
        a.refines(c),
{
    assert forall|i: int, d: int|
        0 <= i < 81 && 0 <= d < 9 && a.cells[i].is_open() && #[trigger] a.cells[i].candidate(d) implies c.cells[i].candidate(d) by {
        if b.cells[i].cur_val is Some {
            assert(a.cells[i].cur_val == b.cells[i].cur_val);
        }
        assert(b.cells[i].candidate(d));
    }
}

/// A grid reached by solving only has no more open cells.
pub proof fn lemma_refines_count(a: GridView, b: GridView)
    requires
        a.refines(b),
    ensures
        a.open_count() <= b.open_count(),
{
    assert forall|j: int| 0 <= j < 81 && (#[trigger] a.cells[j]).is_open() implies b.cells[j].is_open() by {
        if b.cells[j].cur_val is Some {
            assert(a.cells[j].cur_val == b.cells[j].cur_val);
        }
    }
    lemma_open_count_mono(b, a, 81, 0);
}

/// A grid that differs from a well-formed one in the candidates of its cells alone is
/// well-formed too, has as many open cells, and is consistent when the first one is.
pub proof fn lemma_same_placement(a: GridView, b: GridView)
    requires
        a.wf(),
        b.cells.len() == 81,
        b.rows == a.rows,
        b.cols == a.cols,
        b.subgrids == a.subgrids,
        forall|j: int| 0 <= j < 81 ==> (#[trigger] b.cells[j]).cur_val == a.cells[j].cur_val && b.cells[j].row == a.cells[j].row
            && b.cells[j].col == a.cells[j].col && b.cells[j].subgrid == a.cells[j].subgrid,
    ensures
        b.wf(),
        b.open_count() == a.open_count(),
        a.consistent() ==> b.consistent(),
{
    assert forall|j: int| 0 <= j < 81 implies well_placed(#[trigger] b.cells[j], j) by {
        assert(well_placed(a.cells[j], j));
    }
    assert forall|kind: int, u: int, d: int| 0 <= kind < 3 && 0 <= u < 9 && 0 <= d < 9 implies
        (#[trigger] b.presence(kind, u).has(d) <==> b.placed_in(kind, u, d + 1)) by {
        assert(b.presence(kind, u) == a.presence(kind, u));
        if a.placed_in(kind, u, d + 1) {
            let j = choose|j: int| 0 <= j < 81 && unit_of(#[trigger] a.cells[j], kind) == u && a.cells[j].cur_val == Some((d + 1) as usize);
            assert(unit_of(b.cells[j], kind) == unit_of(a.cells[j], kind));
        }
        if b.placed_in(kind, u, d + 1) {
            let j = choose|j: int| 0 <= j < 81 && unit_of(#[trigger] b.cells[j], kind) == u && b.cells[j].cur_val == Some((d + 1) as usize);
            assert(unit_of(b.cells[j], kind) == unit_of(a.cells[j], kind));
        }
    }
    lemma_open_count_mono(a, b, 81, 0);
    lemma_open_count_mono(b, a, 81, 0);
    if a.consistent() {
        assert forall|p: int, q: int|
            0 <= p < 81 && 0 <= q < 81 && p != q && shares_unit(#[trigger] b.cells[p], #[trigger] b.cells[q])
                && b.cells[p].cur_val is Some implies b.cells[p].cur_val != b.cells[q].cur_val by {
            assert(shares_unit(a.cells[p], a.cells[q]));
        }
    }
}

/// Adding a well-placed cell to a grid under construction, and recording its digit,
/// keeps the grid well-formed.
pub proof fn lemma_append(g: GridView, n: GridView, c: SudokuCell)
    requires
        g.partial_wf(),
        g.cells.len() < 81,
        well_placed(c, g.cells.len() as int),
        g.appends(n, c),
    ensures
        n.partial_wf(),
{
    let last = g.cells.len() as int;
    assert forall|j: int| 0 <= j < n.cells.len() implies well_placed(#[trigger] n.cells[j], j) by {
        if j < last {
            assert(n.cells[j] == g.cells[j]);
        }
    }
    assert forall|kind: int, u: int, d: int| 0 <= kind < 3 && 0 <= u < 9 && 0 <= d < 9 implies
        (#[trigger] n.presence(kind, u).has(d) <==> n.placed_in(kind, u, d + 1)) by {
        if c.cur_val == Some((d + 1) as usize) && u == unit_of(c, kind) {
            assert(n.presence(kind, u).has(d));
            assert(unit_of(n.cells[last], kind) == u && n.cells[last].cur_val == Some((d + 1) as usize));
        } else {
            assert(n.presence(kind, u).has(d) == g.presence(kind, u).has(d));
            if g.placed_in(kind, u, d + 1) {
                let j = choose|j: int| 0 <= j < g.cells.len() && unit_of(#[trigger] g.cells[j], kind) == u && g.cells[j].cur_val == Some((d + 1) as usize);
                assert(n.cells[j] == g.cells[j]);
            }
            if n.placed_in(kind, u, d + 1) {
                let j = choose|j: int| 0 <= j < n.cells.len() && unit_of(#[trigger] n.cells[j], kind) == u && n.cells[j].cur_val == Some((d + 1) as usize);
                assert(j != last);
                assert(n.cells[j] == g.cells[j]);
            }
        }
    }
}

/// Writing a digit into an open cell, and into its presence sets, keeps the grid
/// well-formed, solves that one cell, and keeps the grid consistent when the digit was
/// absent from the cell's units.
pub proof fn lemma_assign(g: GridView, n: GridView, i: int, v: int)
    requires
        g.wf(),
        0 <= i < 81,
        g.cells[i].is_open(),
        1 <= v <= 9,
        g.cells[i].candidate(v - 1),
        g.assigns(n, i, v),
    ensures
        n.wf(),
        n.refines(g),
        n.open_count() < g.open_count(),
        g.consistent() && g.digit_free(i, v - 1) ==> n.consistent(),
{
    let c = g.cells[i];
    assert forall|j: int| 0 <= j < 81 implies well_placed(#[trigger] n.cells[j], j) by {
        if j != i {
            assert(n.cells[j] == g.cells[j]);
        } else {
            assert(well_placed(g.cells[i], i));
        }
    }
    assert forall|kind: int, u: int, d: int| 0 <= kind < 3 && 0 <= u < 9 && 0 <= d < 9 implies
        (#[trigger] n.presence(kind, u).has(d) <==> n.placed_in(kind, u, d + 1)) by {
        assert(unit_of(n.cells[i], kind) == unit_of(c, kind));
        if u == unit_of(c, kind) && d == v - 1 {
            assert(n.presence(kind, u).has(d));
            assert(n.placed_in(kind, u, d + 1)) by {
                assert(unit_of(n.cells[i], kind) == u && n.cells[i].cur_val == Some((d + 1) as usize));
            }
        } else {
            assert(n.presence(kind, u).has(d) == g.presence(kind, u).has(d));
            if g.placed_in(kind, u, d + 1) {
                let j = choose|j: int| 0 <= j < 81 && unit_of(#[trigger] g.cells[j], kind) == u && g.cells[j].cur_val == Some((d + 1) as usize);
                assert(j != i);
                assert(n.cells[j] == g.cells[j]);
            }
            if n.placed_in(kind, u, d + 1) {
                let j = choose|j: int| 0 <= j < 81 && unit_of(#[trigger] n.cells[j], kind) == u && n.cells[j].cur_val == Some((d + 1) as usize);
                assert(j != i);
                assert(n.cells[j] == g.cells[j]);
            }
        }
    }
    lemma_open_count_mono(g, n, 81, i);
    assert(n.cells[i].candidate(v - 1));
    if g.consistent() && g.digit_free(i, v - 1) {
        assert forall|p: int, q: int|
            0 <= p < 81 && 0 <= q < 81 && p != q && shares_unit(#[trigger] n.cells[p], #[trigger] n.cells[q])
                && n.cells[p].cur_val is Some implies n.cells[p].cur_val != n.cells[q].cur_val by {
            if p != i && q != i {
                assert(n.cells[p] == g.cells[p] && n.cells[q] == g.cells[q]);
            } else {
                let o = if p == i { q } else { p };
                assert(n.cells[o] == g.cells[o]);
                if g.cells[o].cur_val == Some(v as usize) {
                    let kind = if c.row == g.cells[o].row { 0int } else if c.col == g.cells[o].col { 1int } else { 2int };
                    assert(unit_of(g.cells[o], kind) == unit_of(c, kind));
                    assert(g.placed_in(kind, unit_of(c, kind), v));
                    assert(g.presence(kind, unit_of(c, kind)).has(v - 1));
                }
            }
        }
    }
}

} // verus!
