use vstd::prelude::*;
use vstd::string::*;
use crate::sudoku_cell::SudokuCell;
use crate::sudoku_grid::{SudokuGrid, block_of, well_placed};
use crate::sudoku_values::SudokuValues;

verus! {

/// The fields of `s` between commas, from left to right; a line without a comma is one
/// field, and an empty line is one empty field.
pub open spec fn split_commas(s: Seq<char>) -> Seq<Seq<char>>
    decreases s.len(),
{
    if s.len() == 0 {
        seq![Seq::empty()]
    } else {
        let prev = split_commas(s.drop_last());
        if s.last() == ',' {
            prev.push(Seq::empty())
        } else {
            prev.update(prev.len() - 1, prev.last().push(s.last()))
        }
    }
}

/// Whether `c` is one of the decimal digits `0` to `9`.
pub open spec fn is_digit(c: char) -> bool {
    '0' <= c && c <= '9'
}

/// The value of a string of decimal digits.
pub open spec fn digits_value(t: Seq<char>) -> nat
    decreases t.len(),
{
    if t.len() == 0 {
        0
    } else {
        digits_value(t.drop_last()) * 10 + ((t.last() as u32) - ('0' as u32)) as nat
    }
}

/// The digits of a field once a leading `+` is set aside.
pub open spec fn unsigned_part(t: Seq<char>) -> Seq<char> {
    if t.len() > 0 && t[0] == '+' {
        t.drop_first()
    } else {
        t
    }
}

/// The unsigned integer that a field spells: an optional `+` and then one or more decimal
/// digits, whose value fits in a `usize`. Anything else spells none.
pub open spec fn field_number(t: Seq<char>) -> Option<nat> {
    let ds = unsigned_part(t);
    if ds.len() > 0 && (forall|k: int| 0 <= k < ds.len() ==> is_digit(#[trigger] ds[k])) && digits_value(ds) <= usize::MAX {
        Some(digits_value(ds))
    } else {
        None
    }
}

/// The digit that a field gives its cell: the number it spells when that is 1 to 9;
/// a field that spells no number leaves the cell blank.
pub open spec fn field_digit(t: Seq<char>) -> Option<usize> {
    match field_number(t) {
        Some(v) => if 1 <= v <= 9 {
            Some(v as usize)
        } else {
            None
        },
        None => None,
    }
}

/// A field that spells a number outside 1 to 9.
pub open spec fn field_out_of_range(t: Seq<char>) -> bool {
    field_number(t) matches Some(v) && !(1 <= v <= 9)
}

/// A line that describes a row: at least nine fields, none of the first nine out of range.
pub open spec fn line_ok(l: Seq<char>) -> bool {
    split_commas(l).len() >= 9 && forall|c: int| 0 <= c < 9 ==> !field_out_of_range(#[trigger] split_commas(l)[c])
}

/// The message that rejects a line that is not `line_ok`.
pub open spec fn line_error(l: Seq<char>) -> Seq<char> {
    if split_commas(l).len() < 9 {
        "All lines must have 9 characters"@
    } else {
        "Values must be numbers between 1 and 9."@
    }
}

/// A cell built from field `t`: a given digit with no candidates left, or a blank with
/// all nine open.
pub open spec fn cell_from_field(cell: SudokuCell, t: Seq<char>) -> bool {
    &&& cell.cur_val == field_digit(t)
    &&& forall|d: int| 0 <= d < 9 ==> #[trigger] cell.candidate(d) == (field_digit(t) is None)
}

/// Why a list of lines is no puzzle, with message `e`: the first of the first nine lines
/// that is not `line_ok`, else more than nine lines, else fewer than nine.
pub open spec fn grid_error(lines: Seq<String>, e: Seq<char>) -> bool {
    let n = if lines.len() < 9 { lines.len() as int } else { 9 };
    ||| exists|k: int|
        0 <= k < n && !line_ok(#[trigger] lines[k]@) && (forall|m: int| 0 <= m < k ==> line_ok(#[trigger] lines[m]@))
            && e == line_error(lines[k]@)
    ||| (forall|m: int| 0 <= m < n ==> line_ok(#[trigger] lines[m]@)) && lines.len() > 9 && e == "Too many lines"@
    ||| (forall|m: int| 0 <= m < n ==> line_ok(#[trigger] lines[m]@)) && lines.len() < 9 && e == "Too few lines"@
}

proof fn lemma_split_nonempty(s: Seq<char>)
    ensures
        split_commas(s).len() >= 1,
    decreases s.len(),
{
    if s.len() > 0 {
        lemma_split_nonempty(s.drop_last());
    }
}

/// Splits `line` at every comma.
fn split_fields(line: &str) -> (fields: Vec<Vec<char>>)
    ensures
        fields@.len() == split_commas(line@).len(),
        forall|k: int| 0 <= k < fields@.len() ==> (#[trigger] fields@[k])@ == split_commas(line@)[k],
{
    let n = line.unicode_len();
    let mut done: Vec<Vec<char>> = Vec::new();
    let mut current: Vec<char> = Vec::new();
    for i in 0..n
        invariant
            n == line@.len(),
            done@.len() + 1 == split_commas(line@.take(i as int)).len(),
            forall|k: int| 0 <= k < done@.len() ==> (#[trigger] done@[k])@ == split_commas(line@.take(i as int))[k],
            current@ == split_commas(line@.take(i as int)).last(),
    {
        let c = line.get_char(i);
        proof {
            assert(line@.take(i + 1).drop_last() =~= line@.take(i as int));
            lemma_split_nonempty(line@.take(i as int));
        }
        if c == ',' {
            done.push(current);
            current = Vec::new();
            assert(current@ =~= Seq::<char>::empty());
        } else {
            current.push(c);
        }
    }
    done.push(current);
    assert(line@.take(n as int) =~= line@);
    done
}

/// Reads a field as `str::parse::<usize>` does: `Some` of its value when it spells an
/// unsigned integer that fits in a `usize`, `None` otherwise.
fn parse_field(t: &Vec<char>) -> (r: Option<usize>)
    ensures
        match field_number(t@) {
            Some(v) => r == Some(v as usize),
            None => r is None,
        },
{
    let len = t.len();
    let start: usize = if len > 0 && t[0] == '+' { 1 } else { 0 };
    let ghost ds = unsigned_part(t@);
    assert(ds =~= t@.subrange(start as int, len as int));
    if start == len {
        return None;
    }
    let mut value: usize = 0;
    let mut overflow = false;
    for k in start..len
        invariant
            start <= k <= len,
            len == t@.len(),
            ds == unsigned_part(t@),
            ds =~= t@.subrange(start as int, len as int),
            forall|m: int| 0 <= m < k - start ==> is_digit(#[trigger] ds[m]),
            !overflow ==> value == digits_value(ds.take(k - start)),
            overflow ==> digits_value(ds.take(k - start)) > usize::MAX,
    {
        let c = t[k];
        if !('0' <= c && c <= '9') {
            assert(!is_digit(ds[k - start]));
            return None;
        }
        let digit = ((c as u32) - ('0' as u32)) as usize;
        proof {
            assert(ds.take(k - start + 1).drop_last() =~= ds.take(k - start));
            assert(ds.take(k - start + 1).last() == c);
        }
        if !overflow {
            match value.checked_mul(10) {
                Some(m) => match m.checked_add(digit) {
                    Some(x) => value = x,
                    None => overflow = true,
                },
                None => overflow = true,
            }
        }
    }
    assert(ds.take(len - start) =~= ds);
    if overflow {
        None
    } else {
        Some(value)
    }
}

impl SudokuGrid {
    /// Reads a puzzle from its nine lines: in each, nine comma-separated fields, each a
    /// digit 1 to 9 or anything that spells no number (a blank). Fields after the ninth
    /// are ignored.
    pub fn parse_grid(lines: &Vec<String>) -> (r: Result<SudokuGrid, String>)
        ensures
            match r {
                Ok(g) => lines@.len() == 9 && (forall|k: int| 0 <= k < 9 ==> line_ok(#[trigger] lines@[k]@)) && g@.wf()
                    && forall|row: int, col: int| 0 <= row < 9 && 0 <= col < 9
                        ==> cell_from_field(#[trigger] g@.cells[row * 9 + col], split_commas(lines@[row]@)[col]),
                Err(e) => grid_error(lines@, e@),
            },
    {
        let mut sudoku_grid = SudokuGrid::new();
        let mut row_num: usize = 0;
        proof {
            assert forall|kind: int, u: int, d: int| 0 <= kind < 3 && 0 <= u < 9 && 0 <= d < 9 implies
                (#[trigger] sudoku_grid@.presence(kind, u).has(d) <==> sudoku_grid@.placed_in(kind, u, d + 1)) by {}
        }
        for k in 0..lines.len()
            invariant
                row_num == k,
                k <= 9,
                sudoku_grid@.partial_wf(),
                sudoku_grid@.cells.len() == 9 * k,
                forall|m: int| 0 <= m < k ==> line_ok(#[trigger] lines@[m]@),
                forall|row: int, col: int| 0 <= row < k && 0 <= col < 9
                    ==> cell_from_field(#[trigger] sudoku_grid@.cells[row * 9 + col], split_commas(lines@[row]@)[col]),
        {
            if row_num < 9 {
                let ghost before = sudoku_grid@;
                match sudoku_grid.parse_line(lines[k].as_str(), row_num) {
                    Ok(_) => {
                        assert forall|row: int, col: int| 0 <= row < k + 1 && 0 <= col < 9 implies
                            cell_from_field(#[trigger] sudoku_grid@.cells[row * 9 + col], split_commas(lines@[row]@)[col]) by {
                            if row < k {
                                assert(sudoku_grid@.cells[row * 9 + col] == before.cells[row * 9 + col]);
                            }
                        }
                        row_num += 1;
                    },
                    Err(s) => {
                        assert(!line_ok(lines@[k as int]@));
                        return Err(s);
                    },
                }
            } else {
                return Err("Too many lines".to_owned());
            }
        }
        if row_num < 9 {
            return Err("Too few lines".to_owned());
        }
        Ok(sudoku_grid)
    }

    /// Reads one line of the puzzle into row `row_num`, after the rows already read.
    /// A rejected line leaves the grid as it was.
    fn parse_line(&mut self, line: &str, row_num: usize) -> (r: Result<(), String>)
        requires
            old(self)@.partial_wf(),
            old(self)@.cells.len() == 9 * row_num,
            row_num < 9,
        ensures
            match r {
                Ok(_) => line_ok(line@) && final(self)@.partial_wf() && final(self)@.cells.len() == old(self)@.cells.len() + 9
                    && (forall|j: int| 0 <= j < old(self)@.cells.len() ==> #[trigger] final(self)@.cells[j] == old(self)@.cells[j])
                    && forall|col: int| 0 <= col < 9
                        ==> cell_from_field(#[trigger] final(self)@.cells[row_num * 9 + col], split_commas(line@)[col]),
                Err(e) => !line_ok(line@) && e@ == line_error(line@) && final(self)@ == old(self)@,
            },
    {
        let chars = split_fields(line);
        if chars.len() < 9 {
            return Err("All lines must have 9 characters".to_owned());
        }
        let ghost fields = split_commas(line@);
        let mut values: Vec<Option<usize>> = Vec::with_capacity(9);
        for col_index in 0..9usize
            invariant
                chars@.len() == fields.len(),
                fields.len() >= 9,
                fields == split_commas(line@),
                forall|k: int| 0 <= k < chars@.len() ==> (#[trigger] chars@[k])@ == fields[k],
                values@.len() == col_index,
                forall|c: int| 0 <= c < col_index ==> !field_out_of_range(#[trigger] fields[c]),
                forall|c: int| 0 <= c < col_index ==> #[trigger] values@[c] == field_digit(fields[c]),
        {
            let v = parse_field(&chars[col_index]);
            if let Some(x) = v {
                if x < 1 || x > 9 {
                    assert(field_out_of_range(fields[col_index as int]));
                    return Err("Values must be numbers between 1 and 9.".to_owned());
                }
            }
            values.push(v);
        }
        let ghost start = self@;
        for col_index in 0..9usize
            invariant
                start == old(self)@,
                row_num < 9,
                start.cells.len() == 9 * row_num,
                fields == split_commas(line@),
                values@.len() == 9,
                forall|c: int| 0 <= c < 9 ==> #[trigger] values@[c] == field_digit(fields[c]),
                self@.partial_wf(),
                self@.cells.len() == 9 * row_num + col_index,
                forall|j: int| 0 <= j < start.cells.len() ==> #[trigger] self@.cells[j] == start.cells[j],
                forall|col: int| 0 <= col < col_index ==> cell_from_field(#[trigger] self@.cells[row_num * 9 + col], fields[col]),
        {
            let subgrid_index = SudokuGrid::get_subgrid(row_num, col_index);
            let new_cell = match values[col_index] {
                Some(v) => SudokuCell {
                    cur_val: Some(v),
                    row: row_num,
                    col: col_index,
                    subgrid: subgrid_index,
                    possible_vals: SudokuValues::new(false),
                },
                None => SudokuCell::new(row_num, col_index, subgrid_index),
            };
            let ghost i = 9 * row_num + col_index;
            assert(i / 9 == row_num && i % 9 == col_index) by (nonlinear_arith)
                requires i == 9 * row_num + col_index, col_index < 9;
            assert(well_placed(new_cell, i));
            let ghost before = self@;
            self.append_cell(new_cell);
            assert(self@.cells[i] == new_cell);
            assert forall|j: int| 0 <= j < i implies #[trigger] self@.cells[j] == before.cells[j] by {}
        }
        Ok(())
    }
}

} // verus!
