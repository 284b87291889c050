use vstd::prelude::*;
use crate::sudoku_cell::SudokuCell;
use crate::completion::{lemma_solution_completes, lemma_completion_assign, lemma_completion_free, lemma_completion_recandidate, lemma_hidden_single_forced};
use crate::sudoku_grid::{
    GridView, SudokuGrid, lemma_assign, lemma_assign_keeps_present, lemma_open_count_bound, lemma_refines_count, lemma_refines_trans, lemma_same_placement,
    shares_unit,
};
use crate::sudoku_values::{SudokuValues, lemma_count_at_least, lemma_count_none, lemma_count_upto_mono};

verus! {

/// How many rounds of propagation, deduction and guessing one level of the search runs
/// before it gives up.
pub const MAX_ITERATIONS: usize = 100;

/// A digit struck from an open cell's candidates never returns to them, and is never
/// the digit the cell is later given, through any run of the search that starts from that
/// state (`solve_grid_helper` ensures `refines`).
pub proof fn lemma_pruned_digit_stays_out(pruned: GridView, later: GridView, i: int, d: int)
    requires
        later.refines(pruned),
        0 <= i < 81,
        0 <= d < 9,
        pruned.cells[i].is_open(),
        !pruned.cells[i].candidate(d),
    ensures
        !later.cells[i].candidate(d),
        later.cells[i].cur_val != Some((d + 1) as usize),
{
    if later.cells[i].cur_val == Some((d + 1) as usize) {
        assert(later.cells[i].candidate(d));
    }
}

/// What narrowing a cell's candidates left it with.
enum Possibilities {
    /// A single candidate, now committed.
    One,
    /// Two candidates or more.
    Many,
    /// No candidate at all: the current assignment cannot be completed.
    Zero,
}

/// The candidates of `cell` once every digit present in `row`, `col` or `subgrid` is
/// removed: digit `d + 1` stays if and only if it was a candidate and is in none of them.
pub open spec fn narrowed(cell: SudokuCell, row: SudokuValues, col: SudokuValues, subgrid: SudokuValues, d: int) -> bool {
    cell.candidate(d) && !row.has(d) && !col.has(d) && !subgrid.has(d)
}

impl GridView {
    /// Cell `k` is open and none of its candidates is absent from its row, column and
    /// subgrid.
    pub open spec fn dead_cell(self, k: int) -> bool {
        &&& 0 <= k < 81
        &&& self.cells[k].is_open()
        &&& forall|e: int| 0 <= e < 9 && #[trigger] self.cells[k].candidate(e) ==> !self.digit_free(k, e)
    }

    /// Cell `j` is another cell sharing a unit with cell `ci` and lists digit `k + 1`.
    pub open spec fn peer_lists(self, ci: int, j: int, k: int) -> bool {
        j != ci && shares_unit(self.cells[j], self.cells[ci]) && self.cells[j].candidate(k)
    }

    /// Among the first `n` cells, how many peers of cell `ci` list digit `k + 1`; a peer
    /// that shares several units with `ci` counts once.
    pub open spec fn peer_tally(self, ci: int, k: int, n: int) -> nat
        decreases n,
    {
        if n <= 0 {
            0
        } else {
            self.peer_tally(ci, k, n - 1) + if self.peer_lists(ci, n - 1, k) { 1nat } else { 0nat }
        }
    }

    /// Digit `k + 1` is a candidate of cell `ci` and of none of its peers.
    pub open spec fn hidden_single(self, ci: int, k: int) -> bool {
        self.cells[ci].candidate(k) && self.peer_tally(ci, k, 81) == 0
    }
}

impl SudokuGrid {
    /// Solves the puzzle: `Ok` with every cell assigned exactly when the grid repeats no
    /// digit and some assignment completes it, `Err` otherwise.
    ///
    /// A grid that repeats a digit in a row, column or subgrid is rejected. A solved grid
    /// keeps every digit of the input and repeats none; a complete grid without repeats
    /// comes back unchanged.
    pub fn solve_grid(self) -> (r: Result<Self, String>)
        requires
            self@.wf(),
        ensures
            match r {
                Ok(g) => g@.wf() && g@.is_solved() && g@.refines(self@) && g@.consistent(),
                Err(e) => e@ == "Unable to solve this puzzle"@,
            },
            !self@.consistent() ==> r is Err,
            self@.is_solved() && self@.consistent() ==> (r matches Ok(g) && g@ == self@),
            (r is Ok) == (self@.consistent() && self@.has_completion()),
            forall|k: int| #[trigger] self@.dead_cell(k) ==> r is Err,
    {
        let mut grid = self;
        if grid.solve_grid_helper(false, 0) {
            proof {
                lemma_solution_completes(self@, grid@);
            }
            Ok(grid)
        } else {
            Err("Unable to solve this puzzle".to_owned())
        }
    }

    /// Whether some digit is assigned to two cells of one row, column or subgrid.
    pub fn has_repeated_digit(&self) -> (r: bool)
        requires
            self@.wf(),
        ensures
            r == !self@.consistent(),
    {
        for p in 0..81usize
            invariant
                self@.wf(),
                forall|a: int, b: int|
                    0 <= a < p && 0 <= b < 81 && a != b && shares_unit(#[trigger] self@.cells[a], #[trigger] self@.cells[b])
                        && self@.cells[a].cur_val is Some ==> self@.cells[a].cur_val != self@.cells[b].cur_val,
        {
            for q in 0..81usize
                invariant
                    self@.wf(),
                    p < 81,
                    forall|a: int, b: int|
                        0 <= a < p && 0 <= b < 81 && a != b && shares_unit(#[trigger] self@.cells[a], #[trigger] self@.cells[b])
                            && self@.cells[a].cur_val is Some ==> self@.cells[a].cur_val != self@.cells[b].cur_val,
                    forall|b: int|
                        0 <= b < q && p != b && shares_unit(self@.cells[p as int], #[trigger] self@.cells[b])
                            && self@.cells[p as int].cur_val is Some ==> self@.cells[p as int].cur_val != self@.cells[b].cur_val,
            {
                let a = self.cells[p];
                let b = self.cells[q];
                if p != q && (a.row == b.row || a.col == b.col || a.subgrid == b.subgrid) {
                    if let Some(x) = a.cur_val {
                        if let Some(y) = b.cur_val {
                            if x == y {
                                return true;
                            }
                        }
                    }
                }
            }
        }
        false
    }

    /// Solves the grid in place and tells whether it succeeded.
    ///
    /// A grid that already repeats a digit in a row, column or subgrid is rejected as it is.
    /// Each round narrows candidates to a fixed point (naked singles), then commits at most
    /// one hidden single; a round that commits nothing on an incomplete grid guesses the
    /// candidates of the first open cell in ascending order on a copy, solving the copy
    /// recursively. A guess that succeeds is adopted; one that fails is struck from the
    /// cell's candidates. A level gives up after `MAX_ITERATIONS` rounds, and every guess
    /// solves one more cell, so the search ends.
    ///
    /// Every deduction is forced, so any completion of the grid survives it, and the
    /// guesses try every candidate: a consistent grid that has a completion is always
    /// solved, well within the round limit. An open cell without a usable candidate fails
    /// the call.
    ///
    /// `is_guess` and `clone_num` (the guess depth) describe the call for diagnostics and
    /// do not affect the result.
    pub fn solve_grid_helper(&mut self, is_guess: bool, clone_num: usize) -> (solved: bool)
        requires
            old(self)@.wf(),
        ensures
            final(self)@.wf(),
            final(self)@.refines(old(self)@),
            solved ==> final(self)@.is_solved(),
            !old(self)@.consistent() ==> !solved && final(self)@ == old(self)@,
            solved ==> final(self)@.consistent(),
            old(self)@.consistent() ==> final(self)@.consistent(),
            old(self)@.is_solved() && old(self)@.consistent() ==> solved && final(self)@ == old(self)@,
            solved == (old(self)@.consistent() && old(self)@.has_completion()),
            forall|k: int| #[trigger] old(self)@.dead_cell(k) ==> !solved,
        decreases old(self)@.open_count(),
    {
        let ghost start = self@;
        if self.has_repeated_digit() {
            return false;
        }
        let ghost cc = choose|c: Seq<int>| start.is_completion(c);
        let ghost compl = start.is_completion(cc);
        let ghost dk = choose|k: int| start.dead_cell(k);
        let ghost dead = start.dead_cell(dk);
        assert forall|k: int| #[trigger] start.dead_cell(k) implies dead by {}
        let mut complete: bool = false;
        let mut iterations: usize = 0;
        let mut some_change: bool = true;

        while !complete && iterations < MAX_ITERATIONS
            invariant
                start == old(self)@,
                start.wf(),
                start.consistent(),
                self@.wf(),
                self@.refines(start),
                start.consistent() ==> self@.consistent(),
                complete ==> self@.is_solved(),
                !some_change ==> self@.fresh(),
                start.is_solved() ==> self@ == start && (iterations == 0 || complete),
                start.has_completion() ==> compl,
                compl == start.is_completion(cc),
                compl ==> self@.is_completion(cc) || self@.is_solved(),
                forall|k: int| #[trigger] start.dead_cell(k) ==> dead,
                dead == start.dead_cell(dk),
                dead ==> iterations == 0 && some_change && !complete && self@ == start,
                compl ==> complete || iterations + self@.open_count() <= start.open_count() + if self@.is_solved() { 1int } else { 0int },
                iterations <= MAX_ITERATIONS,
            decreases MAX_ITERATIONS - iterations,
        {
            complete = true;
            let ghost round_start = self@;
            // Naked singles, to a fixed point.
            while some_change
                invariant
                    start == old(self)@,
                    start.wf(),
                    start.consistent(),
                    self@.wf(),
                    self@.refines(start),
                    start.consistent() ==> self@.consistent(),
                    !some_change ==> self@.fresh(),
                    start.is_solved() ==> self@ == start && complete,
                    round_start.is_solved() ==> self@ == round_start && complete,
                    compl == start.is_completion(cc),
                    start.has_completion() ==> compl,
                    compl ==> self@.is_completion(cc) || self@.is_solved(),
                    self@.open_count() <= round_start.open_count(),
                    dead == start.dead_cell(dk),
                    dead ==> some_change && self@ == start,
                decreases self@.open_count() + if some_change { 1nat } else { 0nat },
            {
                some_change = false;
                let ghost pass_start = self@;
                for i in 0..81usize
                    invariant
                        start == old(self)@,
                        start.wf(),
                        start.consistent(),
                        self@.wf(),
                        self@.refines(start),
                        self@.refines(pass_start),
                        start.consistent() ==> self@.consistent(),
                        start.is_solved() ==> self@ == start && complete,
                        round_start.is_solved() ==> self@ == round_start && complete,
                        compl == start.is_completion(cc),
                        start.has_completion() ==> compl,
                        compl ==> self@.is_completion(cc) || self@.is_solved(),
                        pass_start.open_count() <= round_start.open_count(),
                        dead == start.dead_cell(dk),
                        dead ==> i <= dk && self@.dead_cell(dk),
                        self@.open_count() <= pass_start.open_count(),
                        some_change ==> self@.open_count() < pass_start.open_count(),
                        !some_change ==> self@.rows == pass_start.rows && self@.cols == pass_start.cols
                            && self@.subgrids == pass_start.subgrids,
                        !some_change ==> forall|j: int, d: int|
                            0 <= j < i && 0 <= d < 9 && self@.cells[j].is_open() && #[trigger] self@.cells[j].candidate(d)
                                ==> self@.digit_free(j, d),
                {
                    if self.cells[i].cur_val.is_none() {
                        let ghost g0 = self@;
                        let row = self.cells[i].row;
                        let col = self.cells[i].col;
                        let subgrid = self.cells[i].subgrid;
                        assert(crate::sudoku_grid::well_placed(g0.cells[i as int], i as int));
                        let mut cell = self.cells[i];
                        let mut r = self.rows[row];
                        let mut c = self.cols[col];
                        let mut s = self.subgrids[subgrid];
                        let p = Self::calc_possibilities_in_cell(&mut cell, &mut r, &mut c, &mut s);
                        let ghost narrowed_cell = SudokuCell { cur_val: None, ..cell };
                        let ghost g1 = GridView { cells: g0.cells.update(i as int, narrowed_cell), ..g0 };
                        proof {
                            lemma_same_placement(g0, g1);
                            assert forall|d: int| 0 <= d < 9 && #[trigger] narrowed_cell.candidate(d) implies g0.cells[i as int].candidate(d) by {
                                assert(cell.candidate(d));
                            }
                            assert(g1.refines(g0));
                            if compl && !g0.is_solved() {
                                let k = cc[i as int] - 1;
                                lemma_completion_free(g0, cc, i as int);
                                assert(cell.candidate(k) == narrowed(g0.cells[i as int], g0.rows[row as int], g0.cols[col as int], g0.subgrids[subgrid as int], k));
                                assert(narrowed_cell.candidate(k));
                                lemma_count_at_least(cell.possible_vals, k, 9, 9);
                                lemma_completion_recandidate(g0, g1, cc, i as int);
                            }
                            if dead && i == dk {
                                assert forall|e: int| 0 <= e < 9 implies !#[trigger] cell.possible_vals.has(e) by {
                                    assert(cell.candidate(e) == narrowed(g0.cells[i as int], g0.rows[row as int], g0.cols[col as int], g0.subgrids[subgrid as int], e));
                                    assert(g0.cells[dk].candidate(e) ==> !g0.digit_free(dk, e));
                                }
                                lemma_count_none(cell.possible_vals, 9);
                            }
                            if dead && i < dk {
                                assert(g1.cells[dk] == g0.cells[dk]);
                                assert forall|e: int| 0 <= e < 9 && #[trigger] g1.cells[dk].candidate(e) implies !g1.digit_free(dk, e) by {
                                    assert(g0.cells[dk].candidate(e));
                                }
                            }
                        }
                        self.cells.set(i, cell);
                        self.rows.set(row, r);
                        self.cols.set(col, c);
                        self.subgrids.set(subgrid, s);
                        match p {
                            Possibilities::One => {
                                proof {
                                    let v = cell.cur_val.unwrap() as int;
                                    assert forall|kind: int, u: int| 0 <= kind < 3 && 0 <= u < 9 implies (#[trigger] self@.presence(kind, u)).values@
                                        == if u == crate::sudoku_grid::unit_of(g1.cells[i as int], kind) {
                                            g1.presence(kind, u).values@.update(v - 1, true)
                                        } else {
                                            g1.presence(kind, u).values@
                                        } by {
                                        if kind == 0 {
                                        } else if kind == 1 {
                                        } else {
                                        }
                                    }
                                    assert(g1.assigns(self@, i as int, v));
                                    lemma_assign(g1, self@, i as int, v);
                                    lemma_refines_trans(self@, g1, g0);
                                    lemma_refines_trans(self@, g0, start);
                                    lemma_refines_trans(self@, g0, pass_start);
                                    if compl && !g0.is_solved() {
                                        let k = cc[i as int] - 1;
                                        if v - 1 < k {
                                            lemma_count_at_least(cell.possible_vals, v - 1, k, 9);
                                        } else if k < v - 1 {
                                            lemma_count_at_least(cell.possible_vals, k, v - 1, 9);
                                        }
                                        lemma_completion_assign(g1, self@, cc, i as int);
                                    }
                                    if dead {
                                        assert forall|e: int| 0 <= e < 9 && #[trigger] self@.cells[dk].candidate(e) implies !self@.digit_free(dk, e) by {
                                            lemma_assign_keeps_present(g1, self@, i as int, v, dk, e);
                                            assert(g1.cells[dk].candidate(e));
                                        }
                                        assert(self@.cells[dk] == g1.cells[dk]);
                                    }
                                }
                                some_change = true;
                            },
                            Possibilities::Many => {
                                assert(cell == narrowed_cell);
                                assert(self@.cells =~= g1.cells);
                                assert(self@.rows =~= g1.rows);
                                assert(self@.cols =~= g1.cols);
                                assert(self@.subgrids =~= g1.subgrids);
                                proof {
                                    lemma_refines_trans(self@, g0, start);
                                    lemma_refines_trans(self@, g0, pass_start);
                                }
                                complete = false;
                            },
                            Possibilities::Zero => {
                                assert(cell == narrowed_cell);
                                assert(self@.cells =~= g1.cells);
                                assert(self@.rows =~= g1.rows);
                                assert(self@.cols =~= g1.cols);
                                assert(self@.subgrids =~= g1.subgrids);
                                proof {
                                    lemma_refines_trans(self@, g0, start);
                                }
                                return false;
                            },
                        }
                    }
                }
            }

            // Hidden singles: commit the first one found.
            let mut i: usize = 0;
            while i < 81 && !some_change
                invariant
                    start.wf(),
                    start.consistent(),
                    self@.wf(),
                    self@.refines(start),
                    start.consistent() ==> self@.consistent(),
                    !some_change ==> self@.fresh(),
                    start.is_solved() ==> self@ == start && complete && !some_change,
                    round_start.is_solved() ==> self@ == round_start && complete && !some_change,
                    compl == start.is_completion(cc),
                    compl ==> self@.is_completion(cc) || self@.is_solved(),
                    self@.open_count() <= round_start.open_count(),
                    some_change ==> self@.open_count() < round_start.open_count(),
                    complete ==> !some_change && forall|j: int| 0 <= j < i ==> !(#[trigger] self@.cells[j]).is_open(),
                    i <= 81,
                decreases 81 - i,
            {
                if self.cells[i].cur_val.is_none() {
                    match self.compare_cell_against_other_cells(i) {
                        Some(v) => {
                            let ghost g0 = self@;
                            self.place_digit(i, v);
                            proof {
                                assert(g0.cells[i as int].candidate(v - 1));
                                lemma_assign(g0, self@, i as int, v as int);
                                lemma_refines_trans(self@, g0, start);
                                if compl && !g0.is_solved() {
                                    lemma_hidden_single_forced(g0, cc, i as int, v - 1);
                                    lemma_completion_assign(g0, self@, cc, i as int);
                                }
                            }
                            some_change = true;
                            complete = false;
                        },
                        None => {
                            complete = false;
                        },
                    }
                }
                i += 1;
            }

            // No progress on an incomplete grid: guess.
            if !some_change && !complete {
                let mut clone_grid = self.clone_grid();
                proof {
                    lemma_refines_count(self@, start);
                }
                match clone_grid.get_next_unsolved_cell_index() {
                    Some(s) => {
                        let mut found = false;
                        let mut d: usize = 0;
                        while d < 9 && !found
                            invariant
                                start == old(self)@,
                                start.wf(),
                                start.consistent(),
                                self@.wf(),
                                self@.refines(start),
                                start.consistent() ==> self@.consistent(),
                                self@.fresh(),
                                !found ==> clone_grid@ == self@ && self@.cells[s as int].is_open(),
                                found ==> self@.is_solved(),
                                s < 81,
                                d <= 9,
                                start.open_count() >= self@.open_count(),
                                compl == start.is_completion(cc),
                                compl && !found ==> self@.is_completion(cc) && d <= cc[s as int] - 1,
                            decreases 9 - d,
                        {
                            if clone_grid.cells[s].possible_vals.get(d) {
                                let ghost g0 = self@;
                                clone_grid.place_digit(s, d + 1);
                                proof {
                                    assert(g0.cells[s as int].candidate(d as int));
                                    assert(g0.digit_free(s as int, d as int));
                                    lemma_assign(g0, clone_grid@, s as int, d + 1);
                                    if compl && !found && d + 1 == cc[s as int] {
                                        lemma_completion_assign(g0, clone_grid@, cc, s as int);
                                        assert(clone_grid@.has_completion());
                                    }
                                }
                                let ghost guessed = clone_grid@;
                                if clone_grid.solve_grid_helper(true, clone_num.saturating_add(1)) {
                                    self.copy_over_grid(&clone_grid);
                                    proof {
                                        lemma_refines_trans(self@, guessed, g0);
                                        lemma_refines_trans(self@, g0, start);
                                        lemma_refines_count(self@, start);
                                    }
                                    found = true;
                                } else {
                                    let mut cell = self.cells[s];
                                    cell.possible_vals.set(d, false);
                                    self.cells.set(s, cell);
                                    proof {
                                        assert forall|e: int| 0 <= e < 9 && #[trigger] cell.candidate(e) implies g0.cells[s as int].candidate(e) by {
                                            assert(cell.possible_vals.values@[e] == (e != d && g0.cells[s as int].possible_vals.values@[e]));
                                        }
                                        lemma_same_placement(g0, self@);
                                        assert(self@.refines(g0));
                                        lemma_refines_trans(self@, g0, start);
                                        if compl && !found {
                                            assert(cell.possible_vals.values@[cc[s as int] - 1] == g0.cells[s as int].possible_vals.values@[cc[s as int] - 1]);
                                            lemma_completion_recandidate(g0, self@, cc, s as int);
                                        }
                                    }
                                    clone_grid.copy_over_grid(&self);
                                }
                            } else {
                                assert(!(compl && !found && d + 1 == cc[s as int]));
                            }
                            d += 1;
                        }
                        assert(compl ==> self@.is_solved());
                    },
                    None => {
                        assert(self@.is_solved());
                    },
                }
            }
            proof {
                lemma_open_count_bound(round_start, 81);
                lemma_open_count_bound(self@, 81);
                if compl && !complete {
                    if !round_start.is_solved() {
                        assert(round_start.open_count() >= 1);
                    }
                    if some_change {
                        assert(iterations + 1 + self@.open_count() <= start.open_count());
                    } else {
                        assert(self@.is_solved());
                    }
                }
            }
            iterations += 1;
        }
        proof {
            lemma_open_count_bound(start, 81);
            lemma_open_count_bound(self@, 81);
            if complete {
                lemma_solution_completes(start, self@);
            }
        }
        complete
    }

    /// Removes from the cell's candidates every digit present in its row, column or
    /// subgrid; then commits the candidate if exactly one is left, marking it present in
    /// the three units.
    fn calc_possibilities_in_cell(
        cell: &mut SudokuCell,
        row: &mut SudokuValues,
        col: &mut SudokuValues,
        subgrid: &mut SudokuValues,
    ) -> (r: Possibilities)
        ensures
            forall|d: int| 0 <= d < 9 ==> #[trigger] final(cell).candidate(d) == narrowed(*old(cell), *old(row), *old(col), *old(subgrid), d),
            final(cell).row == old(cell).row,
            final(cell).col == old(cell).col,
            final(cell).subgrid == old(cell).subgrid,
            (r is Zero) == (final(cell).possible_vals.count() == 0),
            (r is One) == (final(cell).possible_vals.count() == 1),
            (r is Many) == (final(cell).possible_vals.count() >= 2),
            !(r is One) ==> final(cell).cur_val == old(cell).cur_val && *final(row) == *old(row) && *final(col) == *old(col)
                && *final(subgrid) == *old(subgrid),
            r is One ==> (final(cell).cur_val matches Some(v) && 1 <= v <= 9 && final(cell).candidate(v - 1)
                && final(row).values@ == old(row).values@.update(v - 1, true)
                && final(col).values@ == old(col).values@.update(v - 1, true)
                && final(subgrid).values@ == old(subgrid).values@.update(v - 1, true)),
    {
        for i in 0..9usize
            invariant
                forall|d: int| 0 <= d < i ==> #[trigger] cell.candidate(d) == narrowed(*old(cell), *old(row), *old(col), *old(subgrid), d),
                forall|d: int| i <= d < 9 ==> #[trigger] cell.candidate(d) == old(cell).candidate(d),
                cell.row == old(cell).row,
                cell.col == old(cell).col,
                cell.subgrid == old(cell).subgrid,
                cell.cur_val == old(cell).cur_val,
                *row == *old(row),
                *col == *old(col),
                *subgrid == *old(subgrid),
        {
            let ghost prev = *cell;
            assert(prev.candidate(i as int) == old(cell).candidate(i as int));
            let b = cell.possible_vals.get(i) && !row.get(i) && !col.get(i) && !subgrid.get(i);
            cell.possible_vals.set(i, b);
            assert forall|d: int| 0 <= d < 9 && d != i implies #[trigger] cell.candidate(d) == prev.candidate(d) by {
                assert(cell.possible_vals.values@[d] == prev.possible_vals.values@[d]);
            }
        }
        let mut count: usize = 0;
        let mut new_val_index: usize = 0;
        for i in 0..9usize
            invariant
                count == cell.possible_vals.count_upto(i as int),
                count <= 1,
                new_val_index < 9,
                count == 1 ==> cell.candidate(new_val_index as int),
                forall|d: int| 0 <= d < 9 ==> #[trigger] cell.candidate(d) == narrowed(*old(cell), *old(row), *old(col), *old(subgrid), d),
                cell.row == old(cell).row,
                cell.col == old(cell).col,
                cell.subgrid == old(cell).subgrid,
                cell.cur_val == old(cell).cur_val,
                *row == *old(row),
                *col == *old(col),
                *subgrid == *old(subgrid),
        {
            if cell.possible_vals.get(i) {
                count += 1;
                new_val_index = i;
            }
            if count > 1 {
                proof {
                    lemma_count_upto_mono(cell.possible_vals, i + 1, 9);
                }
                return Possibilities::Many;
            }
        }
        if count == 0 {
            return Possibilities::Zero;
        }
        let ghost prev = *cell;
        cell.cur_val = Some(new_val_index + 1);
        assert forall|d: int| 0 <= d < 9 implies #[trigger] cell.candidate(d) == prev.candidate(d) by {}
        row.set(new_val_index, true);
        col.set(new_val_index, true);
        subgrid.set(new_val_index, true);
        Possibilities::One
    }

    /// Looks for a hidden single at cell `cell_index`: the least digit that is a candidate
    /// of the cell and of none of the other cells sharing a row, column or subgrid with it.
    fn compare_cell_against_other_cells(&self, cell_index: usize) -> (r: Option<usize>)
        requires
            self@.wf(),
            cell_index < 81,
        ensures
            match r {
                Some(v) => 1 <= v <= 9 && self@.hidden_single(cell_index as int, v - 1)
                    && forall|k: int| 0 <= k < v - 1 ==> !#[trigger] self@.hidden_single(cell_index as int, k),
                None => forall|k: int| 0 <= k < 9 ==> !#[trigger] self@.hidden_single(cell_index as int, k),
            },
    {
        let ghost g = self@;
        let main_cell = self.cells[cell_index];
        let cur_row = main_cell.row;
        let cur_col = main_cell.col;
        let cur_sub = main_cell.subgrid;

        let mut val_counts: [usize; 9] = [0; 9];
        for j in 0..81usize
            invariant
                g == self@,
                g.wf(),
                cell_index < 81,
                main_cell == g.cells[cell_index as int],
                cur_row == main_cell.row,
                cur_col == main_cell.col,
                cur_sub == main_cell.subgrid,
                forall|k: int| 0 <= k < 9 ==> #[trigger] val_counts@[k] == g.peer_tally(cell_index as int, k, j as int),
                forall|k: int| 0 <= k < 9 ==> #[trigger] val_counts@[k] <= j,
        {
            let cmp_cell = self.cells[j];
            if j != cell_index && (cmp_cell.row == cur_row || cmp_cell.col == cur_col || cmp_cell.subgrid == cur_sub) {
                for k in 0..9usize
                    invariant
                        g == self@,
                        j < 81,
                        cmp_cell == g.cells[j as int],
                        g.peer_lists(cell_index as int, j as int, 0) == cmp_cell.candidate(0),
                        forall|l: int| 0 <= l < 9 ==> #[trigger] g.peer_lists(cell_index as int, j as int, l) == cmp_cell.candidate(l),
                        forall|l: int| 0 <= l < k ==> #[trigger] val_counts@[l] == g.peer_tally(cell_index as int, l, j + 1),
                        forall|l: int| k <= l < 9 ==> #[trigger] val_counts@[l] == g.peer_tally(cell_index as int, l, j as int),
                        forall|l: int| 0 <= l < 9 ==> #[trigger] val_counts@[l] <= j + 1,
                        forall|l: int| k <= l < 9 ==> #[trigger] val_counts@[l] <= j,
                {
                    if cmp_cell.possible_vals.get(k) {
                        val_counts[k] = val_counts[k] + 1;
                    }
                }
            } else {
                assert forall|l: int| 0 <= l < 9 implies #[trigger] val_counts@[l] == g.peer_tally(cell_index as int, l, j + 1) by {
                    assert(!g.peer_lists(cell_index as int, j as int, l));
                }
            }
        }
        for v in 0..9usize
            invariant
                g == self@,
                cell_index < 81,
                main_cell == g.cells[cell_index as int],
                forall|k: int| 0 <= k < 9 ==> #[trigger] val_counts@[k] == g.peer_tally(cell_index as int, k, 81),
                forall|k: int| 0 <= k < v ==> !#[trigger] g.hidden_single(cell_index as int, k),
        {
            if main_cell.possible_vals.get(v) {
                if val_counts[v] == 0 {
                    return Some(v + 1);
                }
            }
        }
        None
    }
}

} // verus!
