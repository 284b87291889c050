use sudoku::SudokuGrid;

fn lines_of(puzzle: &str) -> Vec<String> {
    let digits: Vec<char> = puzzle.chars().collect();
    assert_eq!(digits.len(), 81);
    let mut lines = Vec::new();
    for r in 0..9 {
        let fields: Vec<String> = (0..9)
            .map(|c| {
                let d = digits[r * 9 + c];
                if d == '0' { String::new() } else { d.to_string() }
            })
            .collect();
        lines.push(fields.join(","));
    }
    lines
}

fn grid_of(puzzle: &str) -> SudokuGrid {
    SudokuGrid::parse_grid(&lines_of(puzzle)).expect("puzzle should parse")
}

fn digits_of(grid: &SudokuGrid) -> String {
    grid.cells
        .iter()
        .map(|c| match c.cur_val {
            Some(v) => char::from(b'0' + v as u8),
            None => '0',
        })
        .collect()
}

fn is_valid_solution(digits: &str) -> bool {
    let d: Vec<u32> = digits.chars().map(|c| c.to_digit(10).unwrap_or(0)).collect();
    if d.len() != 81 || d.iter().any(|&x| x < 1 || x > 9) {
        return false;
    }
    for u in 0..9 {
        let mut row = [false; 10];
        let mut col = [false; 10];
        let mut sub = [false; 10];
        for k in 0..9 {
            let r = d[u * 9 + k] as usize;
            let c = d[k * 9 + u] as usize;
            let s = d[((u / 3) * 3 + k / 3) * 9 + (u % 3) * 3 + k % 3] as usize;
            if row[r] || col[c] || sub[s] {
                return false;
            }
            row[r] = true;
            col[c] = true;
            sub[s] = true;
        }
    }
    true
}

const CLASSIC: &str =
    "530070000600195000098000060800060003400803001700020006060000280000419005000080079";
const CLASSIC_SOLUTION: &str =
    "534678912672195348198342567859761423426853791713924856961537284287419635345286179";


#[test]
fn solves_classic_puzzle() {
    let solved = grid_of(CLASSIC).solve_grid().expect("puzzle should solve");
    assert_eq!(digits_of(&solved), CLASSIC_SOLUTION);
}

fn check_seventeen(puzzle: &str) {
    assert_eq!(puzzle.chars().filter(|&c| c != '0').count(), 17);
    let solved = grid_of(puzzle).solve_grid().expect("puzzle should solve");
    let digits = digits_of(&solved);
    assert!(is_valid_solution(&digits));
    for (given, got) in puzzle.chars().zip(digits.chars()) {
        if given != '0' {
            assert_eq!(given, got);
        }
    }
}

#[test]
fn solves_seventeen_clue_puzzle_one() {
    check_seventeen("000000012003600000000007000410020000000500300700000600280000040000300500000000000");
}

#[test]
fn solves_seventeen_clue_puzzle_two() {
    check_seventeen("000000012008030000000000040120500000000004700060000000507000300000620000000100000");
}

#[test]
fn duplicate_givens_in_a_row_are_unsolvable() {
    // The classic solution with row 0 reduced to two 5s and the 5 of row 3 blanked.
    let mut digits: Vec<char> = CLASSIC_SOLUTION.chars().collect();
    digits[0] = '5';
    digits[1] = '5';
    for c in 2..9 {
        digits[c] = '0';
    }
    digits[3 * 9 + 1] = '0';
    let puzzle: String = digits.into_iter().collect();
    let result = grid_of(&puzzle).solve_grid();
    assert_eq!(result.err(), Some("Unable to solve this puzzle".to_string()));
}

#[test]
fn empty_grid_gives_a_valid_completion_or_fails() {
    let empty = "0".repeat(81);
    match grid_of(&empty).solve_grid() {
        Ok(g) => assert!(is_valid_solution(&digits_of(&g))),
        Err(e) => assert_eq!(e, "Unable to solve this puzzle"),
    }
}

#[test]
fn solved_grid_comes_back_unchanged() {
    let grid = grid_of(CLASSIC_SOLUTION);
    let before: Vec<_> = grid.cells.iter().map(|c| (c.cur_val, c.possible_vals.values)).collect();
    let solved = grid.solve_grid().expect("a complete grid is solved");
    let after: Vec<_> = solved.cells.iter().map(|c| (c.cur_val, c.possible_vals.values)).collect();
    assert_eq!(before, after);
    assert_eq!(digits_of(&solved), CLASSIC_SOLUTION);
}

#[test]
fn complete_grid_with_repeats_is_rejected() {
    let ones = "1".repeat(81);
    let result = grid_of(&ones).solve_grid();
    assert_eq!(result.err(), Some("Unable to solve this puzzle".to_string()));
}

#[test]
fn complete_grid_with_one_repeated_given_is_rejected() {
    let puzzle = "113456789456789123789123456214365897365897214897214365531642978642978531978531642";
    let result = grid_of(puzzle).solve_grid();
    assert_eq!(result.err(), Some("Unable to solve this puzzle".to_string()));
}

#[test]
fn repeated_givens_in_an_open_grid_are_rejected() {
    let mut puzzle = "0".repeat(81);
    puzzle.replace_range(0..2, "55");
    let result = grid_of(&puzzle).solve_grid();
    assert_eq!(result.err(), Some("Unable to solve this puzzle".to_string()));
}

#[test]
fn single_blank_is_filled_by_propagation() {
    let mut digits: Vec<char> = CLASSIC_SOLUTION.chars().collect();
    digits[40] = '0';
    let puzzle: String = digits.into_iter().collect();
    let mut grid = grid_of(&puzzle);
    assert!(grid.solve_grid_helper(false, 0));
    assert_eq!(digits_of(&grid), CLASSIC_SOLUTION);
    assert_eq!(grid.cells[40].cur_val, Some(5));
}

#[test]
fn contradiction_in_givens_fails() {
    // Column 4 is blank but for a 5 in row 0, and row 4 lacks only a 5: cell (4, 4) is left
    // with no candidate.
    let mut digits: Vec<char> = CLASSIC_SOLUTION.chars().collect();
    digits[40] = '0';
    digits[4] = '5';
    digits[13] = '0';
    digits[22] = '0';
    digits[31] = '0';
    digits[49] = '0';
    digits[58] = '0';
    digits[67] = '0';
    digits[76] = '0';
    let puzzle: String = digits.into_iter().collect();
    let result = grid_of(&puzzle).solve_grid();
    assert!(result.is_err());
}

#[test]
fn solved_grid_renders_digits() {
    let solved = grid_of(CLASSIC).solve_grid().expect("puzzle should solve");
    let text = solved.to_text();
    let first_line = text.lines().next().unwrap();
    assert_eq!(first_line, "5,3,4,6,7,8,9,1,2,");
    assert_eq!(text.lines().count(), 9);
    assert!(text.ends_with("1,7,9,\n"));
}

#[test]
fn open_cells_render_as_stars() {
    let grid = grid_of(CLASSIC);
    let text = grid.to_text();
    assert_eq!(text.lines().next().unwrap(), "5,3,*,*,7,*,*,*,*,");
}

