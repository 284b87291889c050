use sudoku::{SudokuCell, SudokuGrid, SudokuValues};

fn nine_blank_lines() -> Vec<String> {
    vec![",,,,,,,,".to_string(); 9]
}

#[test]
fn parses_givens_and_blanks() {
    let mut lines = nine_blank_lines();
    lines[0] = "5,3,,,7,,,,".to_string();
    let grid = SudokuGrid::parse_grid(&lines).expect("should parse");
    assert_eq!(grid.cells.len(), 81);
    assert_eq!(grid.cells[0].cur_val, Some(5));
    assert_eq!(grid.cells[1].cur_val, Some(3));
    assert_eq!(grid.cells[2].cur_val, None);
    assert_eq!(grid.cells[0].possible_vals.values, [false; 9]);
    assert_eq!(grid.cells[2].possible_vals.values, [true; 9]);
    assert!(grid.rows[0].values[4]);
    assert!(grid.cols[0].values[4]);
    assert!(grid.subgrids[0].values[2]);
    assert!(grid.subgrids[1].values[6]);
    assert!(!grid.rows[1].values[4]);
}

#[test]
fn cells_know_their_place() {
    let grid = SudokuGrid::parse_grid(&nine_blank_lines()).expect("should parse");
    let cell = grid.cells[5 * 9 + 7];
    assert_eq!((cell.row, cell.col, cell.subgrid), (5, 7, 5));
    let cell = grid.cells[8 * 9 + 2];
    assert_eq!((cell.row, cell.col, cell.subgrid), (8, 2, 6));
}

#[test]
fn fields_that_spell_no_number_are_blank() {
    let mut lines = nine_blank_lines();
    lines[0] = "x, 5,-5,99999999999999999999999,+,*,,a1,5 ".to_string();
    let grid = SudokuGrid::parse_grid(&lines).expect("should parse");
    for c in 0..9 {
        assert_eq!(grid.cells[c].cur_val, None);
    }
}

#[test]
fn plus_sign_and_leading_zeros_are_read() {
    let mut lines = nine_blank_lines();
    lines[0] = "+5,05,0009,,,,,,".to_string();
    let grid = SudokuGrid::parse_grid(&lines).expect("should parse");
    assert_eq!(grid.cells[0].cur_val, Some(5));
    assert_eq!(grid.cells[1].cur_val, Some(5));
    assert_eq!(grid.cells[2].cur_val, Some(9));
}

#[test]
fn fields_after_the_ninth_are_ignored() {
    let mut lines = nine_blank_lines();
    lines[0] = ",,,,,,,,4,17,x".to_string();
    let grid = SudokuGrid::parse_grid(&lines).expect("should parse");
    assert_eq!(grid.cells[8].cur_val, Some(4));
}

#[test]
fn short_line_is_rejected() {
    let mut lines = nine_blank_lines();
    lines[3] = "1,2,3,4,5,6,7,8".to_string();
    let result = SudokuGrid::parse_grid(&lines);
    assert_eq!(result.err(), Some("All lines must have 9 characters".to_string()));
}

#[test]
fn zero_is_out_of_range() {
    let mut lines = nine_blank_lines();
    lines[2] = "0,,,,,,,,".to_string();
    let result = SudokuGrid::parse_grid(&lines);
    assert_eq!(result.err(), Some("Values must be numbers between 1 and 9.".to_string()));
}

#[test]
fn ten_is_out_of_range() {
    let mut lines = nine_blank_lines();
    lines[8] = ",,,,,,,,10".to_string();
    let result = SudokuGrid::parse_grid(&lines);
    assert_eq!(result.err(), Some("Values must be numbers between 1 and 9.".to_string()));
}

#[test]
fn first_bad_line_decides_the_error() {
    let mut lines = nine_blank_lines();
    lines[1] = "12,,,,,,,,".to_string();
    lines[4] = "1,2".to_string();
    let result = SudokuGrid::parse_grid(&lines);
    assert_eq!(result.err(), Some("Values must be numbers between 1 and 9.".to_string()));
}

#[test]
fn ten_lines_are_too_many() {
    let mut lines = nine_blank_lines();
    lines.push(String::new());
    let result = SudokuGrid::parse_grid(&lines);
    assert_eq!(result.err(), Some("Too many lines".to_string()));
}

#[test]
fn eight_lines_are_too_few() {
    let mut lines = nine_blank_lines();
    lines.pop();
    let result = SudokuGrid::parse_grid(&lines);
    assert_eq!(result.err(), Some("Too few lines".to_string()));
}

#[test]
fn no_lines_are_too_few() {
    let result = SudokuGrid::parse_grid(&Vec::new());
    assert_eq!(result.err(), Some("Too few lines".to_string()));
}

#[test]
fn new_grid_is_empty() {
    let grid = SudokuGrid::new();
    assert!(grid.cells.is_empty());
    assert_eq!(grid.rows.len(), 9);
    assert_eq!(grid.cols.len(), 9);
    assert_eq!(grid.subgrids.len(), 9);
    assert!(grid.rows.iter().all(|r| r.values == [false; 9]));
}

#[test]
fn values_new_fills_every_bit() {
    assert_eq!(SudokuValues::new(true).values, [true; 9]);
    assert_eq!(SudokuValues::new(false).values, [false; 9]);
}

#[test]
fn values_get_and_set() {
    let mut v = SudokuValues::new(false);
    v.set(3, true);
    assert!(v.get(3));
    assert!(!v.get(2));
    assert_eq!(v.values, [false, false, false, true, false, false, false, false, false]);
}

#[test]
fn values_render_their_digits() {
    let mut v = SudokuValues::new(false);
    v.set(0, true);
    v.set(8, true);
    assert_eq!(v.to_text(), "Cell Data: [1, 9, ]");
    assert_eq!(SudokuValues::new(false).to_text(), "Cell Data: []");
}

#[test]
fn new_cell_is_open() {
    let cell = SudokuCell::new(4, 7, 5);
    assert_eq!(cell.cur_val, None);
    assert_eq!((cell.row, cell.col, cell.subgrid), (4, 7, 5));
    assert_eq!(cell.possible_vals.values, [true; 9]);
}

#[test]
fn cells_render_value_or_candidates() {
    let mut cell = SudokuCell::new(0, 1, 0);
    cell.possible_vals.set(1, false);
    assert_eq!(
        cell.to_text(),
        "Row: 1 Column: 2 Subgrid: 1 Possible Values: Cell Data: [1, 3, 4, 5, 6, 7, 8, 9, ]"
    );
    cell.cur_val = Some(6);
    assert_eq!(cell.to_text(), "Row: 1 Column: 2 Subgrid: 1 Value: 6");
}

#[test]
fn subgrid_of_any_row_and_column() {
    assert_eq!(SudokuGrid::get_subgrid(0, 0), 0);
    assert_eq!(SudokuGrid::get_subgrid(4, 7), 5);
    assert_eq!(SudokuGrid::get_subgrid(8, 2), 6);
    assert_eq!(SudokuGrid::get_subgrid(20, 4), 7);
    assert_eq!(SudokuGrid::get_subgrid(usize::MAX, usize::MAX), 8);
}
