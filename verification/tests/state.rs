use sudoku::bits::num_to_bitmap;
use sudoku::grid::{GRID_BLCK, GRID_SIZE, GRID_SQRT};
use sudoku::propagate::unit_cell_at;
use sudoku::Sudoku;

const PUZZLE: &str =
    "073060201605000000009070000931050600080006003050300708000703002300900100200045000";

fn grid_of(text: &str) -> [usize; GRID_SIZE] {
    let mut grid = [0usize; GRID_SIZE];
    for (pos, b) in text.bytes().enumerate() {
        grid[pos] = (b - b'0') as usize;
    }
    grid
}

fn is_peer(p: usize, q: usize) -> bool {
    p / 9 == q / 9 || p % 9 == q % 9 || (p / 27 == q / 27 && (p % 9) / 3 == (q % 9) / 3)
}

#[test]
fn sizes_belong_together() {
    assert_eq!(GRID_BLCK, 3);
    assert_eq!(GRID_SQRT, GRID_BLCK * GRID_BLCK);
    assert_eq!(GRID_SIZE, GRID_SQRT * GRID_SQRT);
}

#[test]
fn new_is_empty_with_limit_one() {
    let s = Sudoku::new();
    assert_eq!(s.puzzle, [0usize; GRID_SIZE]);
    assert_eq!(s.solution, [0usize; GRID_SIZE]);
    assert_eq!(s.markup, [0usize; GRID_SIZE]);
    assert_eq!(s.solution_count, 0);
    assert_eq!(s.limit, 1);
}

#[test]
fn clear_resets_grids_count_and_markup() {
    let mut s = Sudoku::new();
    s.initialize_with_array(grid_of(PUZZLE));
    s.solve_fast(2);
    assert_eq!(s.solution_count, 1);
    s.clear();
    assert_eq!(s.puzzle, [0usize; GRID_SIZE]);
    assert_eq!(s.solution, [0usize; GRID_SIZE]);
    assert_eq!(s.markup, [usize::MAX; GRID_SIZE]);
    assert_eq!(s.solution_count, 0);
    assert_eq!(s.limit, 2);
}

#[test]
fn initialize_with_array_loads_both_grids() {
    let mut s = Sudoku::new();
    s.solution_count = 5;
    s.initialize_with_array(grid_of(PUZZLE));
    assert_eq!(s.puzzle, grid_of(PUZZLE));
    assert_eq!(s.solution, grid_of(PUZZLE));
    assert_eq!(s.markup, [usize::MAX; GRID_SIZE]);
    assert_eq!(s.solution_count, 0);
    assert_eq!(s.limit, 1);
}

#[test]
fn num_to_bitmap_sets_one_bit() {
    assert_eq!(num_to_bitmap(0), 0);
    assert_eq!(num_to_bitmap(1), 0b1);
    assert_eq!(num_to_bitmap(2), 0b10);
    assert_eq!(num_to_bitmap(5), 0b10000);
    assert_eq!(num_to_bitmap(9), 0b100000000);
}

#[test]
fn invalid_values_of_known_cells() {
    let mut s = Sudoku::new();
    s.initialize_with_array(grid_of(PUZZLE));
    assert_eq!(s.invalid_values_as_bits(0), 375);
    assert_eq!(s.invalid_values_as_bits(3), 359);
    assert_eq!(s.invalid_values_as_bits(40), 252);
    assert_eq!(s.invalid_values_as_bits(80), 159);
}

#[test]
fn invalid_values_on_empty_grid_is_zero() {
    let s = Sudoku::new();
    for pos in 0..GRID_SIZE {
        assert_eq!(s.invalid_values_as_bits(pos), 0);
    }
}

#[test]
fn invalid_values_sees_row_column_and_block() {
    let mut grid = [0usize; GRID_SIZE];
    grid[4] = 1; // same row as cell 0
    grid[72] = 2; // same column
    grid[20] = 3; // same block
    grid[40] = 4; // no peer of cell 0
    let mut s = Sudoku::new();
    s.initialize_with_array(grid);
    assert_eq!(s.invalid_values_as_bits(0), 0b111);
    assert_eq!(s.invalid_values_as_bits(4), 0b1001);
}

#[test]
fn do_markup_matches_the_grid() {
    let mut s = Sudoku::new();
    s.initialize_with_array(grid_of(PUZZLE));
    s.do_markup();
    let expected_first_row = [375usize, usize::MAX, usize::MAX, 359, usize::MAX, 119, usize::MAX, 103, usize::MAX];
    assert_eq!(&s.markup[0..9], &expected_first_row[..]);
    for pos in 0..GRID_SIZE {
        if s.solution[pos] == 0 {
            assert_eq!(s.markup[pos], s.invalid_values_as_bits(pos));
        } else {
            assert_eq!(s.markup[pos], usize::MAX);
        }
    }
    assert_eq!(s.solution, grid_of(PUZZLE));
    assert_eq!(s.puzzle, grid_of(PUZZLE));
}

#[test]
fn set_value_and_markup_marks_the_peers() {
    let mut s = Sudoku::new();
    s.do_markup();
    assert_eq!(s.markup, [0usize; GRID_SIZE]);
    s.set_value_and_markup(40, 5);
    assert_eq!(s.solution[40], 5);
    let peers = [4, 13, 22, 30, 31, 32, 36, 37, 38, 39, 41, 42, 43, 44, 48, 49, 50, 58, 67, 76];
    for pos in 0..GRID_SIZE {
        if pos == 40 {
            assert_eq!(s.markup[pos], usize::MAX);
        } else if peers.contains(&pos) {
            assert!(is_peer(40, pos));
            assert_eq!(s.markup[pos], 0b10000);
        } else {
            assert!(!is_peer(40, pos));
            assert_eq!(s.markup[pos], 0);
            assert_eq!(s.solution[pos], 0);
        }
    }
    s.set_value_and_markup(41, 9);
    assert_eq!(s.markup[39], 0b100010000);
    assert_eq!(s.markup[4], 0b10000);
    assert_eq!(s.markup[5], 0b100000000);
    assert_eq!(s.markup[40], usize::MAX);
    assert_eq!(s.puzzle, [0usize; GRID_SIZE]);
    assert_eq!(s.solution_count, 0);
}

#[test]
fn markup_stays_in_step_with_placements() {
    let mut s = Sudoku::new();
    s.initialize_with_array(grid_of(PUZZLE));
    s.do_markup();
    s.set_value_and_markup(32, 7);
    for pos in 0..GRID_SIZE {
        if s.solution[pos] == 0 {
            assert_eq!(s.markup[pos], s.invalid_values_as_bits(pos));
        }
    }
}

#[test]
fn unit_cells_of_rows_columns_and_blocks() {
    let row0: Vec<usize> = (0..9).map(|k| unit_cell_at(0, k)).collect();
    assert_eq!(row0, vec![0, 1, 2, 3, 4, 5, 6, 7, 8]);
    let row8: Vec<usize> = (0..9).map(|k| unit_cell_at(8, k)).collect();
    assert_eq!(row8, vec![72, 73, 74, 75, 76, 77, 78, 79, 80]);
    let col0: Vec<usize> = (0..9).map(|k| unit_cell_at(9, k)).collect();
    assert_eq!(col0, vec![0, 9, 18, 27, 36, 45, 54, 63, 72]);
    let col8: Vec<usize> = (0..9).map(|k| unit_cell_at(17, k)).collect();
    assert_eq!(col8, vec![8, 17, 26, 35, 44, 53, 62, 71, 80]);
    let block0: Vec<usize> = (0..9).map(|k| unit_cell_at(18, k)).collect();
    assert_eq!(block0, vec![0, 1, 2, 9, 10, 11, 18, 19, 20]);
    let block4: Vec<usize> = (0..9).map(|k| unit_cell_at(22, k)).collect();
    assert_eq!(block4, vec![30, 31, 32, 39, 40, 41, 48, 49, 50]);
    let block8: Vec<usize> = (0..9).map(|k| unit_cell_at(26, k)).collect();
    assert_eq!(block8, vec![60, 61, 62, 69, 70, 71, 78, 79, 80]);
}
