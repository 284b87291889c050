use vstd::prelude::*;
use vstd::set_lib::{lemma_int_range, lemma_len_subset, lemma_map_size, set_int_range};
use crate::sudoku_grid::{GridView, shares_unit, unit_of, well_placed};

verus! {

impl GridView {
    /// `c` fills the grid: one digit 1 to 9 per cell, equal to the digit of every assigned
    /// cell and a candidate of every open cell, with no digit twice in a row, column or
    /// subgrid.
    pub open spec fn is_completion(self, c: Seq<int>) -> bool {
        &&& c.len() == 81
        &&& forall|i: int| 0 <= i < 81 ==> 1 <= #[trigger] c[i] <= 9
        &&& forall|i: int| 0 <= i < 81 ==> match (#[trigger] self.cells[i]).cur_val {
            Some(v) => c[i] == v,
            None => self.cells[i].candidate(c[i] - 1),
        }
        &&& forall|i: int, j: int|
            0 <= i < 81 && 0 <= j < 81 && i != j && shares_unit(#[trigger] self.cells[i], #[trigger] self.cells[j]) ==> c[i] != c[j]
    }

    /// The digits of the cells, 0 for an open cell.
    pub open spec fn digits(self) -> Seq<int> {
        Seq::new(81, |i: int| match self.cells[i].cur_val {
            Some(v) => v as int,
            None => 0,
        })
    }

    /// Some assignment completes the grid.
    pub open spec fn has_completion(self) -> bool {
        exists|c: Seq<int>| self.is_completion(c)
    }
}

/// A consistent solved grid reached from `s` by solving only is a completion of `s`.
pub proof fn lemma_solution_completes(s: GridView, g: GridView)
    requires
        s.wf(),
        g.wf(),
        g.is_solved(),
        g.consistent(),
        g.refines(s),
    ensures
        s.is_completion(g.digits()),
        s.has_completion(),
{
    let c = g.digits();
    assert forall|i: int| 0 <= i < 81 implies 1 <= #[trigger] c[i] <= 9 by {
        assert(well_placed(g.cells[i], i));
    }
    assert forall|i: int| 0 <= i < 81 implies match (#[trigger] s.cells[i]).cur_val {
        Some(v) => c[i] == v,
        None => s.cells[i].candidate(c[i] - 1),
    } by {
        assert(g.cells[i].cur_val is Some);
        if s.cells[i].is_open() {
            assert(g.cells[i].candidate(g.cells[i].cur_val->Some_0 - 1));
        } else {
            assert(g.cells[i] == s.cells[i]);
        }
    }
    assert forall|i: int, j: int|
        0 <= i < 81 && 0 <= j < 81 && i != j && shares_unit(#[trigger] s.cells[i], #[trigger] s.cells[j]) implies c[i] != c[j] by {
        assert(well_placed(g.cells[i], i) && well_placed(s.cells[i], i));
        assert(well_placed(g.cells[j], j) && well_placed(s.cells[j], j));
        assert(shares_unit(g.cells[i], g.cells[j]));
        assert(g.cells[i].cur_val is Some);
    }
    assert(s.is_completion(c));
}

/// Nine pairwise different digits from 1 to 9 include every digit.
proof fn lemma_nine_digits_cover(f: spec_fn(int) -> int, k: int)
    requires
        1 <= k <= 9,
        forall|t: int| 0 <= t < 9 ==> 1 <= #[trigger] f(t) <= 9,
        forall|a: int, b: int| 0 <= a < 9 && 0 <= b < 9 && a != b ==> #[trigger] f(a) != #[trigger] f(b),
    ensures
        exists|t: int| 0 <= t < 9 && #[trigger] f(t) == k,
{
    if !(exists|t: int| 0 <= t < 9 && #[trigger] f(t) == k) {
        let x = set_int_range(0, 9);
        lemma_int_range(0, 9);
        let y = x.map(f);
        lemma_map_size(x, y, f);
        let z = set_int_range(1, 10).remove(k);
        lemma_int_range(1, 10);
        assert forall|v: int| y.contains(v) implies z.contains(v) by {
            let t = choose|t: int| x.contains(t) && f(t) == v;
        }
        lemma_len_subset(y, z);
    }
}

/// The digit a completion gives an open cell is absent from the cell's row, column and
/// subgrid.
pub proof fn lemma_completion_free(g: GridView, c: Seq<int>, i: int)
    requires
        g.wf(),
        g.is_completion(c),
        0 <= i < 81,
        g.cells[i].is_open(),
    ensures
        g.digit_free(i, c[i] - 1),
{
    let ci = g.cells[i];
    let d = c[i] - 1;
    assert(well_placed(ci, i));
    assert(1 <= c[i] <= 9);
    assert forall|kind: int| 0 <= kind < 3 implies !(#[trigger] g.presence(kind, unit_of(ci, kind))).has(d) by {
        if g.presence(kind, unit_of(ci, kind)).has(d) {
            assert(g.placed_in(kind, unit_of(ci, kind), d + 1));
            let j = choose|j: int| 0 <= j < g.cells.len() && unit_of(#[trigger] g.cells[j], kind) == unit_of(ci, kind)
                && g.cells[j].cur_val == Some((d + 1) as usize);
            assert(shares_unit(g.cells[i], g.cells[j]));
            assert(c[j] == d + 1);
        }
    }
    assert(g.presence(0, unit_of(ci, 0)) == g.rows[ci.row as int]);
    assert(g.presence(1, unit_of(ci, 1)) == g.cols[ci.col as int]);
    assert(g.presence(2, unit_of(ci, 2)) == g.subgrids[ci.subgrid as int]);
}

/// Changing one open cell's candidates, keeping its place and the completion's digit
/// among them, keeps the completion.
pub proof fn lemma_completion_recandidate(g: GridView, n: GridView, c: Seq<int>, i: int)
    requires
        g.is_completion(c),
        0 <= i < 81,
        g.cells[i].is_open(),
        n.cells.len() == 81,
        forall|j: int| 0 <= j < 81 && j != i ==> n.cells[j] == #[trigger] g.cells[j],
        n.cells[i].is_open(),
        n.cells[i].row == g.cells[i].row,
        n.cells[i].col == g.cells[i].col,
        n.cells[i].subgrid == g.cells[i].subgrid,
        n.cells[i].candidate(c[i] - 1),
    ensures
        n.is_completion(c),
{
    assert forall|p: int, q: int|
        0 <= p < 81 && 0 <= q < 81 && p != q && shares_unit(#[trigger] n.cells[p], #[trigger] n.cells[q]) implies c[p] != c[q] by {
        assert(shares_unit(g.cells[p], g.cells[q]));
    }
    assert forall|j: int| 0 <= j < 81 implies match (#[trigger] n.cells[j]).cur_val {
        Some(v) => c[j] == v,
        None => n.cells[j].candidate(c[j] - 1),
    } by {
        if j != i {
            assert(n.cells[j] == g.cells[j]);
        }
    }
}

/// Writing the completion's own digit into an open cell keeps the completion.
pub proof fn lemma_completion_assign(g: GridView, n: GridView, c: Seq<int>, i: int)
    requires
        g.is_completion(c),
        0 <= i < 81,
        g.cells[i].is_open(),
        g.assigns(n, i, c[i]),
    ensures
        n.is_completion(c),
{
    assert(1 <= c[i] <= 9);
    assert forall|p: int, q: int|
        0 <= p < 81 && 0 <= q < 81 && p != q && shares_unit(#[trigger] n.cells[p], #[trigger] n.cells[q]) implies c[p] != c[q] by {
        assert(shares_unit(g.cells[p], g.cells[q]));
    }
    assert forall|j: int| 0 <= j < 81 implies match (#[trigger] n.cells[j]).cur_val {
        Some(v) => c[j] == v,
        None => n.cells[j].candidate(c[j] - 1),
    } by {
        if j != i {
            assert(n.cells[j] == g.cells[j]);
        }
    }
}

/// A peer that lists the digit makes the tally positive.
proof fn lemma_tally_pos(g: GridView, ci: int, k: int, j: int, n: int)
    requires
        0 <= j < n,
        g.peer_lists(ci, j, k),
    ensures
        g.peer_tally(ci, k, n) >= 1,
    decreases n,
{
    if n - 1 != j {
        lemma_tally_pos(g, ci, k, j, n - 1);
    }
}

/// A hidden single, found while every candidate is absent from its cell's units, is the
/// digit that every completion gives the cell.
pub proof fn lemma_hidden_single_forced(g: GridView, c: Seq<int>, i: int, k: int)
    requires
        g.wf(),
        g.fresh(),
        g.is_completion(c),
        0 <= i < 81,
        0 <= k < 9,
        g.cells[i].is_open(),
        g.hidden_single(i, k),
    ensures
        c[i] == k + 1,
{
    if c[i] != k + 1 {
        let r = i / 9;
        assert(well_placed(g.cells[i], i));
        assert forall|t: int| 0 <= t < 9 implies (#[trigger] g.cells[r * 9 + t]).row == r by {
            assert((r * 9 + t) / 9 == r) by (nonlinear_arith)
                requires 0 <= t < 9, 0 <= r < 9;
            assert(well_placed(g.cells[r * 9 + t], r * 9 + t));
        }
        let f = |t: int| c[r * 9 + t];
        assert forall|a: int, b: int| 0 <= a < 9 && 0 <= b < 9 && a != b implies #[trigger] f(a) != #[trigger] f(b) by {
            assert(g.cells[r * 9 + a].row == r && g.cells[r * 9 + b].row == r);
            assert(shares_unit(g.cells[r * 9 + a], g.cells[r * 9 + b]));
        }
        assert forall|t: int| 0 <= t < 9 implies 1 <= #[trigger] f(t) <= 9 by {
            assert(1 <= c[r * 9 + t] <= 9);
        }
        lemma_nine_digits_cover(f, k + 1);
        let t = choose|t: int| 0 <= t < 9 && #[trigger] f(t) == k + 1;
        let j = r * 9 + t;
        assert(g.cells[j].row == r);
        assert(j != i);
        assert(shares_unit(g.cells[j], g.cells[i]));
        if g.cells[j].is_open() {
            assert(g.cells[j].candidate(k));
            assert(g.peer_lists(i, j, k));
            lemma_tally_pos(g, i, k, j, 81);
        } else {
            assert(g.cells[j].cur_val == Some((k + 1) as usize));
            assert(unit_of(g.cells[j], 0) == r);
            assert(g.placed_in(0, r, k + 1));
            assert(g.presence(0, r).has(k));
            assert(g.cells[i].candidate(k));
            assert(g.digit_free(i, k));
        }
    }
}

} // verus!
