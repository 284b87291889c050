use vstd::prelude::*;
use vstd::string::*;
use crate::sudoku_values::{SudokuValues, digit_str, digit_text};

verus! {

/// One square of the grid: its place, the digit assigned to it (if any), and the
/// digits still possible for it while it is unassigned.
#[derive(Clone, Copy)]
pub struct SudokuCell {
    pub cur_val: Option<usize>,
    pub row: usize,
    pub col: usize,
    pub subgrid: usize,
    pub possible_vals: SudokuValues,
}

impl SudokuCell {
    /// Whether the cell holds no digit yet.
    pub open spec fn is_open(&self) -> bool {
        self.cur_val is None
    }

    /// Whether digit `d + 1` is still a candidate of the cell.
    pub open spec fn candidate(&self, d: int) -> bool {
        self.possible_vals.has(d)
    }

    /// The cell as text: its row, column and subgrid counted from 1, then its digit, or
    /// the text of its candidate set while it has none.
    pub open spec fn text(&self) -> Seq<char> {
        "Row: "@ + digit_text(self.row + 1) + " Column: "@ + digit_text(self.col + 1) + " Subgrid: "@ + digit_text(self.subgrid + 1)
            + match self.cur_val {
            Some(v) => " Value: "@ + digit_text(v as int),
            None => " Possible Values: "@ + self.possible_vals.text(),
        }
    }

    /// Renders the cell as `text` describes.
    pub fn to_text(&self) -> (r: String)
        requires
            self.row < 9,
            self.col < 9,
            self.subgrid < 9,
            self.cur_val matches Some(v) ==> v <= 9,
        ensures
            r@ == self.text(),
    {
        let mut s = String::new();
        s.append("Row: ");
        s.append(digit_str(self.row + 1));
        s.append(" Column: ");
        s.append(digit_str(self.col + 1));
        s.append(" Subgrid: ");
        s.append(digit_str(self.subgrid + 1));
        match self.cur_val {
            Some(v) => {
                s.append(" Value: ");
                s.append(digit_str(v));
            },
            None => {
                s.append(" Possible Values: ");
                let p = self.possible_vals.to_text();
                s.append(p.as_str());
            },
        }
        assert(s@ =~= self.text());
        s
    }

    /// A blank cell at row `r`, column `c` and subgrid `s`, with every digit open.
    pub fn new(r: usize, c: usize, s: usize) -> (cell: Self)
        ensures
            cell.cur_val is None,
            cell.row == r,
            cell.col == c,
            cell.subgrid == s,
            forall|d: int| 0 <= d < 9 ==> cell.candidate(d),
    {
        SudokuCell { cur_val: None, row: r, col: c, subgrid: s, possible_vals: SudokuValues::new(true) }
    }
}

} // verus!
