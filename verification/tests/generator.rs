use sudoku::grid::GRID_SIZE;
use sudoku::shuffle::{place_drawn, shuffle};
use sudoku::Sudoku;

fn completions_up_to(cells: [usize; GRID_SIZE], limit: usize) -> usize {
    let mut s = Sudoku::new();
    s.initialize_with_array(cells);
    s.solve_fast(limit);
    s.solution_count
}

#[test]
fn generated_puzzle_has_one_completion() {
    let mut s = Sudoku::new();
    for _ in 0..3 {
        s.generate();
        let puzzle = s.puzzle;
        s.solve_fast(2);
        assert_eq!(s.solution_count, 1);
        assert_eq!(completions_up_to(puzzle, 2), 1);
        assert_eq!(completions_up_to(puzzle, 5), 1);
    }
}

#[test]
fn generated_puzzle_is_loaded_and_ready() {
    let mut s = Sudoku::new();
    s.generate();
    assert_eq!(s.solution, s.puzzle);
    assert_eq!(s.solution_count, 0);
    assert_eq!(s.limit, 2);
    assert_eq!(s.markup, [usize::MAX; GRID_SIZE]);
    for pos in 0..GRID_SIZE {
        assert!(s.puzzle[pos] <= 9);
    }
    let clues = s.puzzle.iter().filter(|v| **v != 0).count();
    assert!(clues >= 17);
    assert!(clues < 81);
}

#[test]
fn generated_puzzle_needs_every_clue() {
    let mut s = Sudoku::new();
    s.generate();
    let puzzle = s.puzzle;
    for pos in 0..GRID_SIZE {
        if puzzle[pos] != 0 {
            let mut cells = puzzle;
            cells[pos] = 0;
            let found = completions_up_to(cells, 2);
            assert_ne!(found, 0);
            assert_eq!(found, 2);
        }
    }
}

#[test]
fn generated_puzzle_agrees_with_its_solution() {
    let mut s = Sudoku::new();
    s.generate();
    let puzzle = s.puzzle;
    s.solve_fast(1);
    assert_eq!(s.solution_count, 1);
    for pos in 0..GRID_SIZE {
        assert!(s.solution[pos] >= 1 && s.solution[pos] <= 9);
        if puzzle[pos] != 0 {
            assert_eq!(s.solution[pos], puzzle[pos]);
        }
    }
    let text = s.to_string();
    for row in 0..9 {
        let mut digits: Vec<char> = text[row * 9..row * 9 + 9].chars().collect();
        digits.sort();
        assert_eq!(digits.into_iter().collect::<String>(), "123456789");
    }
}

#[test]
fn no_attempt_leaves_a_solved_grid() {
    let mut s = Sudoku::new();
    s.generate_within(0);
    assert_eq!(s.solution, s.puzzle);
    assert_eq!(s.solution_count, 0);
    assert_eq!(s.limit, 1);
    assert!(s.puzzle.iter().all(|v| *v >= 1 && *v <= 9));
    assert_eq!(completions_up_to(s.puzzle, 2), 1);
}

#[test]
fn few_attempts_empty_few_cells() {
    let mut s = Sudoku::new();
    for attempts in [1, 5, 20] {
        s.generate_within(attempts);
        let empty = s.puzzle.iter().filter(|v| **v == 0).count();
        assert!(empty <= attempts);
        assert!(empty >= 1);
        assert_eq!(s.limit, 2);
        assert_eq!(s.solution_count, 0);
        assert_eq!(completions_up_to(s.puzzle, 2), 1);
    }
}

#[test]
fn attempts_beyond_the_cells_change_nothing() {
    let mut s = Sudoku::new();
    s.generate_within(1000);
    let puzzle = s.puzzle;
    assert_eq!(completions_up_to(puzzle, 2), 1);
    for pos in 0..GRID_SIZE {
        if puzzle[pos] != 0 {
            let mut cells = puzzle;
            cells[pos] = 0;
            assert_eq!(completions_up_to(cells, 2), 2);
        }
    }
}

#[test]
fn shuffle_keeps_the_elements() {
    for _ in 0..20 {
        let mut v: [usize; 81] = [0; 81];
        for (i, x) in v.iter_mut().enumerate() {
            *x = i;
        }
        shuffle(&mut v);
        let mut sorted = v.to_vec();
        sorted.sort();
        assert_eq!(sorted, (0..81).collect::<Vec<usize>>());
    }
}

#[test]
fn shuffle_keeps_repeated_elements() {
    let mut v = vec![3, 1, 3, 3, 2, 1];
    shuffle(&mut v);
    assert_eq!(v.len(), 6);
    v.sort();
    assert_eq!(v, vec![1, 1, 2, 3, 3, 3]);
}

#[test]
fn shuffle_of_nothing_and_of_one() {
    let mut none: [usize; 0] = [];
    shuffle(&mut none);
    let mut one = [String::from("only")];
    shuffle(&mut one);
    assert_eq!(one[0], "only");
}

#[test]
fn shuffle_reaches_more_than_one_order() {
    let start = [1usize, 2, 3, 4, 5, 6, 7, 8, 9];
    let mut moved = false;
    for _ in 0..50 {
        let mut v = start;
        shuffle(&mut v);
        if v != start {
            moved = true;
        }
    }
    assert!(moved);
}

#[test]
fn place_drawn_fills_the_places_from_the_end() {
    let mut v = [10, 20, 30, 40, 50];
    place_drawn(&mut v, 0, 1);
    assert_eq!(v, [10, 50, 30, 40, 20]);
    place_drawn(&mut v, 1, 0);
    assert_eq!(v, [40, 50, 30, 10, 20]);
    place_drawn(&mut v, 2, 2);
    assert_eq!(v, [40, 50, 30, 10, 20]);
    place_drawn(&mut v, 3, 0);
    assert_eq!(v, [50, 40, 30, 10, 20]);
    place_drawn(&mut v, 4, 0);
    assert_eq!(v, [50, 40, 30, 10, 20]);
}

#[test]
fn place_drawn_of_the_last_unplaced_changes_nothing() {
    let mut v = [String::from("a"), String::from("b"), String::from("c")];
    place_drawn(&mut v, 0, 2);
    place_drawn(&mut v, 1, 1);
    place_drawn(&mut v, 2, 0);
    assert_eq!(v, [String::from("a"), String::from("b"), String::from("c")]);
}
