use sudoku::grid::GRID_SIZE;
use sudoku::Sudoku;

const PUZZLE: &str =
    "073060201605000000009070000931050600080006003050300708000703002300900100200045000";
const SOLVED: &str =
    "873569241625134987149278356931857624782496513456321798598713462364982175217645839";
const HARD: &str =
    "800000000003600000070090200050007000000045700000100030001000068008500010090000400";
const PARTIAL: &str =
    "073060201605000000009070000901050000080006003050300708000703002000900100200045000";

fn board(text: &str) -> [usize; GRID_SIZE] {
    let mut grid = [0usize; GRID_SIZE];
    for (pos, b) in text.bytes().enumerate() {
        grid[pos] = (b - b'0') as usize;
    }
    grid
}

fn marked(text: &str) -> Sudoku {
    let mut s = Sudoku::new();
    s.initialize_with_array(board(text));
    s.do_markup();
    s
}

#[test]
fn lone_cell_finds_the_only_place() {
    let s = marked(PUZZLE);
    // in the fourth row only cell 32 can take a 7
    assert_eq!(s.lone_cell(3, 7), Some(32));
}

#[test]
fn lone_cell_is_none_without_a_place() {
    let s = marked(PUZZLE);
    // the first row holds 1, 2, 3, 6 and 7 already
    for value in [1, 2, 3, 6, 7] {
        assert_eq!(s.lone_cell(0, value), None);
    }
}

#[test]
fn lone_cell_is_none_with_several_places() {
    let s = marked(PUZZLE);
    assert_eq!(s.lone_cell(0, 4), None);
    assert_eq!(s.lone_cell(0, 5), None);
    assert_eq!(s.lone_cell(0, 9), None);
    assert_eq!(s.lone_cell(1, 7), None);
}

#[test]
fn lone_cell_on_empty_grid_is_none() {
    let mut s = Sudoku::new();
    s.do_markup();
    for unit in 0..27 {
        for value in 1..10 {
            assert_eq!(s.lone_cell(unit, value), None);
        }
    }
}

#[test]
fn lone_cell_in_column_and_block() {
    let mut grid = [0usize; GRID_SIZE];
    // the 5 of the first column and of the first block can only go to cell 0;
    // the first row has three more places for it
    grid[13] = 5; // second row
    grid[23] = 5; // third row
    grid[28] = 5; // second column, below the block
    grid[56] = 5; // third column, below the block
    let mut s = Sudoku::new();
    s.initialize_with_array(grid);
    s.do_markup();
    assert_eq!(s.lone_cell(18, 5), Some(0));
    assert_eq!(s.lone_cell(0, 5), None);
    assert_eq!(s.lone_cell(9, 5), Some(0));
    grid[2] = 1;
    grid[1] = 2;
    s.initialize_with_array(grid);
    s.do_markup();
    assert_eq!(s.lone_cell(0, 5), None);
    assert_eq!(s.lone_cell(18, 5), Some(0));
}

#[test]
fn commit_singles_fills_rows_value_by_value() {
    let mut s = marked(PUZZLE);
    let committed = s.commit_singles(0);
    assert_eq!(committed, 3);
    assert_eq!(
        s.solution,
        board("073060201605000000009070000931857600080006003056300708000703002300900100200045000")
    );
    assert_eq!(s.puzzle, board(PUZZLE));
    for pos in 0..GRID_SIZE {
        if s.solution[pos] == 0 {
            assert_eq!(s.markup[pos], s.invalid_values_as_bits(pos));
        }
    }
}

#[test]
fn commit_singles_on_empty_grid_does_nothing() {
    let mut s = Sudoku::new();
    s.do_markup();
    assert_eq!(s.commit_singles(0), 0);
    assert_eq!(s.commit_singles(9), 0);
    assert_eq!(s.commit_singles(18), 0);
    assert_eq!(s.solution, [0usize; GRID_SIZE]);
}

#[test]
fn hidden_singles_solve_an_easy_puzzle() {
    let mut s = Sudoku::new();
    s.initialize_with_array(board(PUZZLE));
    s.solve_lonerangers();
    assert_eq!(s.solution, board(SOLVED));
    assert_eq!(s.puzzle, board(PUZZLE));
    assert_eq!(s.solution_count, 0);
    assert_eq!(s.limit, 1);
}

#[test]
fn hidden_singles_leave_a_hard_puzzle_alone() {
    let mut s = Sudoku::new();
    s.initialize_with_array(board(HARD));
    s.solve_lonerangers();
    assert_eq!(s.solution, board(HARD));
    for pos in 0..GRID_SIZE {
        if s.solution[pos] == 0 {
            assert_eq!(s.markup[pos], s.invalid_values_as_bits(pos));
        } else {
            assert_eq!(s.markup[pos], usize::MAX);
        }
    }
    assert_eq!(s.markup[1], 468);
}

#[test]
fn hidden_singles_stop_where_a_guess_is_needed() {
    let mut s = Sudoku::new();
    s.initialize_with_array(board(PARTIAL));
    s.solve_lonerangers();
    assert_eq!(
        s.solution,
        board("873569241625134000149278000931857020782496513456321798590713002360982100210645000")
    );
    // nothing is left to fill in
    for unit in 0..27 {
        for value in 1..10 {
            assert_eq!(s.lone_cell(unit, value), None);
        }
    }
    // and every filled cell of the puzzle is kept
    let given = board(PARTIAL);
    for pos in 0..GRID_SIZE {
        if given[pos] != 0 {
            assert_eq!(s.solution[pos], given[pos]);
        }
    }
}

#[test]
fn hidden_singles_on_solved_grid_change_nothing() {
    let mut s = Sudoku::new();
    s.initialize_with_array(board(SOLVED));
    s.solve_lonerangers();
    assert_eq!(s.solution, board(SOLVED));
}
