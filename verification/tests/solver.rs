use sudoku::grid::GRID_SIZE;
use sudoku::Sudoku;

const PUZZLE: &str =
    "073060201605000000009070000931050600080006003050300708000703002300900100200045000";
const SOLVED: &str =
    "873569241625134987149278356931857624782496513456321798598713462364982175217645839";
const FIRST: &str =
    "123456789456789123789123456214365897365897214897214365531642978642978531978531642";
const HARD: &str =
    "800000000003600000070090200050007000000045700000100030001000068008500010090000400";
const HARD_SOLVED: &str =
    "812753649943682175675491283154237896369845721287169534521974368438526917796318452";
const TWO: &str =
    "003569241625134987149278356931857624002496513456321798598713462364982175217645839";
const TWO_FIRST: &str =
    "783569241625134987149278356931857624872496513456321798598713462364982175217645839";
const THREE: &str =
    "073060201605000000009070000901050000080006003050300708000703002000900100200045000";
const THREE_LEFT: &str =
    "873569241625134000149278000931857020782496513456321798590713002360982100210645000";
const UNSOLVABLE: &str =
    "123456780000000009000000000000000000000000000000000000000000000000000000000000000";

fn grid(text: &str) -> [usize; GRID_SIZE] {
    let mut cells = [0usize; GRID_SIZE];
    for (pos, b) in text.bytes().enumerate() {
        cells[pos] = (b - b'0') as usize;
    }
    cells
}

fn loaded(text: &str) -> Sudoku {
    let mut s = Sudoku::new();
    s.initialize_with_array(grid(text));
    s
}

fn unit(cells: &[usize; GRID_SIZE], u: usize) -> Vec<usize> {
    let mut values: Vec<usize> = (0..9)
        .map(|k| {
            if u < 9 {
                cells[u * 9 + k]
            } else if u < 18 {
                cells[k * 9 + (u - 9)]
            } else {
                let b = u - 18;
                cells[(b / 3) * 27 + (b % 3) * 3 + (k / 3) * 9 + k % 3]
            }
        })
        .collect();
    values.sort();
    values
}

fn is_solved(cells: &[usize; GRID_SIZE]) -> bool {
    (0..27).all(|u| unit(cells, u) == vec![1, 2, 3, 4, 5, 6, 7, 8, 9])
}

#[test]
fn thirty_clues_give_the_one_completion() {
    assert_eq!(PUZZLE.bytes().filter(|b| *b != b'0').count(), 30);
    assert_eq!(PUZZLE.bytes().filter(|b| *b == b'0').count(), 51);
    let mut s = Sudoku::new();
    s.initialize_with_string(String::from(PUZZLE));
    s.solve_fast(1);
    assert_eq!(s.solution_count, 1);
    assert_eq!(s.to_string(), SOLVED);
    assert_eq!(s.to_string().len(), 81);
    for u in 0..27 {
        assert_eq!(unit(&s.solution, u), vec![1, 2, 3, 4, 5, 6, 7, 8, 9]);
    }
    assert_eq!(s.puzzle, grid(PUZZLE));
    assert_eq!(s.limit, 1);
}

#[test]
fn empty_grid_gives_the_first_completion() {
    let mut s = loaded(&"0".repeat(81));
    s.solve_fast(1);
    assert_eq!(s.solution_count, 1);
    assert_eq!(s.to_string(), FIRST);
    assert!(s.to_string().starts_with("123456789456789123789123456"));
}

#[test]
fn empty_grid_by_search_alone_gives_the_first_completion() {
    let mut s = Sudoku::new();
    s.limit = 1;
    s.solve_recursive_fast();
    assert_eq!(s.solution_count, 1);
    assert_eq!(s.solution, grid(FIRST));
}

#[test]
fn solved_grid_counts_one_and_stays() {
    let mut s = loaded(SOLVED);
    s.solve_fast(1);
    assert_eq!(s.solution_count, 1);
    assert_eq!(s.solution, grid(SOLVED));
    assert_eq!(s.puzzle, grid(SOLVED));
    s.solve_fast(1);
    assert_eq!(s.solution_count, 1);
    assert_eq!(s.solution, grid(SOLVED));
}

#[test]
fn solved_grid_counts_one_under_a_higher_limit() {
    let mut s = loaded(SOLVED);
    s.solve_fast(2);
    assert_eq!(s.solution_count, 1);
    assert_eq!(s.solution, grid(SOLVED));
}

#[test]
fn clearing_a_cell_never_leaves_no_completion() {
    let given = grid(PUZZLE);
    for pos in 0..GRID_SIZE {
        let mut cells = given;
        cells[pos] = 0;
        let mut s = Sudoku::new();
        s.initialize_with_array(cells);
        s.solve_fast(2);
        assert!(s.solution_count == 1 || s.solution_count == 2);
        if given[pos] == 0 {
            assert_eq!(s.solution_count, 1);
        }
    }
}

#[test]
fn ascending_search_is_repeatable() {
    for text in [PUZZLE, TWO, THREE, UNSOLVABLE] {
        for limit in 1..4 {
            let mut a = loaded(text);
            let mut b = loaded(text);
            a.limit = limit;
            b.limit = limit;
            a.solve_recursive_fast();
            b.solve_recursive_fast();
            assert_eq!(a.solution, b.solution);
            assert_eq!(a.solution_count, b.solution_count);
            let mut c = loaded(text);
            let mut d = loaded(text);
            c.solve_fast(limit);
            d.solve_fast(limit);
            assert_eq!(c.solution, d.solution);
            assert_eq!(c.solution_count, d.solution_count);
        }
    }
}

#[test]
fn hard_puzzle_is_solved_by_search() {
    let mut s = loaded(HARD);
    s.solve_fast(1);
    assert_eq!(s.solution_count, 1);
    assert_eq!(s.solution, grid(HARD_SOLVED));
    assert!(is_solved(&s.solution));
}

#[test]
fn unique_puzzle_under_limit_two_is_unwound() {
    let mut s = loaded(HARD);
    s.solve_fast(2);
    assert_eq!(s.solution_count, 1);
    assert_eq!(s.limit, 2);
    // the search found no second completion and took its placements back
    assert_eq!(s.solution, grid(HARD));
}

#[test]
fn two_completions_are_met_in_ascending_order() {
    let mut s = loaded(TWO);
    s.solve_fast(1);
    assert_eq!(s.solution_count, 1);
    assert_eq!(s.solution, grid(TWO_FIRST));
    let mut s = loaded(TWO);
    s.solve_fast(2);
    assert_eq!(s.solution_count, 2);
    assert_eq!(s.solution, grid(SOLVED));
}

#[test]
fn count_stops_at_the_number_of_completions() {
    for limit in [3, 5, 1000] {
        let mut s = loaded(TWO);
        s.solve_fast(limit);
        assert_eq!(s.solution_count, 2);
        assert_eq!(s.solution, grid(TWO));
        assert_eq!(s.limit, limit);
    }
}

#[test]
fn three_completions_after_hidden_singles() {
    let expected = [
        (1, 1, "873569241625134879149278365931857426782496513456321798594713682367982154218645937"),
        (2, 2, SOLVED),
        (3, 3, "873569241625134987149278635931857426782496513456321798594713862367982154218645379"),
        (4, 3, THREE_LEFT),
        (10, 3, THREE_LEFT),
    ];
    for (limit, count, text) in expected {
        let mut s = loaded(THREE);
        s.solve_fast(limit);
        assert_eq!(s.solution_count, count);
        assert_eq!(s.solution, grid(text));
        assert_eq!(s.puzzle, grid(THREE));
    }
}

#[test]
fn third_of_many_completions() {
    let text = "000000000000000000000000000931857624782496513456321798598713462364982175217645839";
    let mut s = loaded(text);
    s.solve_fast(3);
    assert_eq!(s.solution_count, 3);
    assert_eq!(
        s.solution,
        grid("123568947645279381879134256931857624782496513456321798598713462364982175217645839")
    );
    let mut s = loaded(text);
    s.solve_fast(1000);
    assert_eq!(s.solution_count, 156);
    assert_eq!(s.solution, grid(text));
}

#[test]
fn unsolvable_grid_counts_zero() {
    for limit in [1, 2] {
        let mut s = loaded(UNSOLVABLE);
        s.solve_fast(limit);
        assert_eq!(s.solution_count, 0);
        assert_eq!(s.solution, grid(UNSOLVABLE));
        let mut s = loaded(UNSOLVABLE);
        s.solve_random(limit);
        assert_eq!(s.solution_count, 0);
        assert_eq!(s.solution, grid(UNSOLVABLE));
    }
}

#[test]
fn limit_zero_counts_nothing() {
    let mut s = loaded(PUZZLE);
    s.solve_fast(0);
    assert_eq!(s.solution_count, 0);
    assert_eq!(s.limit, 0);
    // the hidden singles were filled in all the same
    assert_eq!(s.solution, grid(SOLVED));
    let mut s = loaded(HARD);
    s.solve_fast(0);
    assert_eq!(s.solution_count, 0);
    assert_eq!(s.solution, grid(HARD));
    let mut s = loaded(PUZZLE);
    s.solve_random(0);
    assert_eq!(s.solution_count, 0);
    assert_eq!(s.limit, 0);
    assert_eq!(s.solution, grid(PUZZLE));
}

#[test]
fn search_counts_on_from_the_count_it_finds() {
    let mut s = loaded(TWO);
    s.solution_count = 1;
    s.limit = 3;
    s.solve_recursive_fast();
    assert_eq!(s.solution_count, 3);
    assert_eq!(s.solution, grid(SOLVED));
    let mut s = loaded(TWO);
    s.solution_count = 1;
    s.limit = 4;
    s.solve_recursive_fast();
    assert_eq!(s.solution_count, 3);
    assert_eq!(s.solution, grid(TWO));
    let mut s = loaded(TWO);
    s.solution_count = 4;
    s.limit = 5;
    s.solve_recursive_random();
    assert_eq!(s.solution_count, 5);
    assert!(s.solution == grid(SOLVED) || s.solution == grid(TWO_FIRST));
}

#[test]
fn search_counts_the_same_in_either_order() {
    for text in [PUZZLE, TWO, THREE] {
        let mut a = loaded(text);
        a.limit = 100;
        a.search(false);
        let mut b = loaded(text);
        b.limit = 100;
        b.search(true);
        assert_eq!(a.solution_count, b.solution_count);
        assert_eq!(a.solution, grid(text));
        assert_eq!(b.solution, grid(text));
    }
    let mut a = loaded(THREE);
    a.limit = 100;
    a.search(false);
    assert_eq!(a.solution_count, 3);
    let mut c = loaded(TWO);
    c.limit = 1;
    c.search(false);
    assert_eq!(c.solution_count, 1);
    assert_eq!(c.solution, grid(TWO_FIRST));
}

#[test]
fn random_search_finds_a_completion_of_the_empty_grid() {
    let mut s = Sudoku::new();
    s.solve_random(1);
    assert_eq!(s.solution_count, 1);
    assert_eq!(s.limit, 1);
    assert!(is_solved(&s.solution));
    assert_eq!(s.puzzle, [0usize; GRID_SIZE]);
}

#[test]
fn random_search_finds_the_one_completion() {
    let mut s = loaded(PUZZLE);
    s.solve_random(1);
    assert_eq!(s.solution_count, 1);
    assert_eq!(s.solution, grid(SOLVED));
    let mut s = loaded(PUZZLE);
    s.solve_random(2);
    assert_eq!(s.solution_count, 1);
    assert_eq!(s.solution, grid(PUZZLE));
}

#[test]
fn random_search_counts_as_the_ascending_one() {
    for limit in [3, 7] {
        let mut s = loaded(TWO);
        s.solve_random(limit);
        assert_eq!(s.solution_count, 2);
        assert_eq!(s.solution, grid(TWO));
    }
    let mut s = loaded(TWO);
    s.solve_random(2);
    assert_eq!(s.solution_count, 2);
    assert!(s.solution == grid(SOLVED) || s.solution == grid(TWO_FIRST));
    let mut s = loaded(THREE);
    s.solve_random(10);
    assert_eq!(s.solution_count, 3);
    assert_eq!(s.solution, grid(THREE));
}

#[test]
fn random_search_leaves_the_markup_alone() {
    let mut s = loaded(TWO);
    s.solve_random(1);
    assert_eq!(s.markup, [usize::MAX; GRID_SIZE]);
}

#[test]
fn grid_with_a_repeated_value_is_searched_without_failure() {
    let mut cells = grid(PUZZLE);
    cells[0] = 7; // a second 7 in the first row
    let mut s = Sudoku::new();
    s.initialize_with_array(cells);
    s.solve_fast(2);
    assert!(s.solution_count <= 2);
    let mut s = Sudoku::new();
    s.initialize_with_array(cells);
    s.solve_random(1);
    assert!(s.solution_count <= 1);
    for pos in 0..GRID_SIZE {
        assert!(s.solution[pos] <= 9);
    }
}
