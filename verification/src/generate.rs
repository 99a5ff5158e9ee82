//! The generator: it takes a random solved grid and empties its cells one by
//! one, in random order, keeping a cell filled whenever the puzzle would
//! otherwise have more than one completion.
use crate::completion::{
    lemma_clearing, lemma_complete_grid, lemma_completions_finite,
    lemma_fewer_clues_more_completions,
};
use crate::grid::{
    cells_valid, completes, completions, consistent, empties, extends, in_grid, peers, solved,
    GRID_SIZE,
};
use crate::propagate::lemma_empties_finite;
use crate::search::capped;
use crate::shuffle::{lemma_same_elements, shuffle};
use crate::sudoku::{blank_markup, empty_grid, Sudoku};
use vstd::prelude::*;

verus! {

/// A valid, consistent grid with exactly one completion.
pub open spec fn proper(g: Seq<usize>) -> bool {
    cells_valid(g) && consistent(g) && completions(g).len() == 1
}

/// Whether every filled cell of `g` is needed: with any one of them emptied,
/// the grid has more than one completion.
pub open spec fn irreducible(g: Seq<usize>) -> bool {
    forall|p: int| in_grid(p) && g[p] != 0 ==> completions(#[trigger] g.update(p, 0)).len() >= 2
}

/// The cells of the grid in their order.
pub open spec fn all_cells() -> Seq<usize> {
    Seq::new(81, |j: int| j as usize)
}

/// A solved grid: each row is the one above shifted by three, and by one more
/// when a new band of blocks begins.
pub open spec fn sample_solution() -> Seq<usize> {
    Seq::new(81, |p: int| (((p / 9) * 3 + (p / 9) / 3 + p % 9) % 9 + 1) as usize)
}

/// The arithmetic behind [`lemma_sample_is_solved`], on machine integers:
/// `a` and `b` are the shifts of the cells `p` and `q`, and `s` and `t` their
/// blocks.
proof fn lemma_sample_arith(p: u32, q: u32, a: u32, b: u32, s: u32, t: u32)
    requires
        p < 81,
        q < 81,
        p != q,
        a == (p / 9) * 3 + (p / 9) / 3 + p % 9,
        b == (q / 9) * 3 + (q / 9) / 3 + q % 9,
        s == (p / 27) * 3 + (p % 9) / 3,
        t == (q / 27) * 3 + (q % 9) / 3,
        p / 9 == q / 9 || p % 9 == q % 9 || s == t,
    ensures
        a % 9 != b % 9,
{
    assert(!(a % 9 == b % 9)) by (bit_vector)
        requires
            p < 81,
            q < 81,
            !(p == q),
            a == (p / 9) * 3 + (p / 9) / 3 + p % 9,
            b == (q / 9) * 3 + (q / 9) / 3 + q % 9,
            s == (p / 27) * 3 + (p % 9) / 3,
            t == (q / 27) * 3 + (q % 9) / 3,
            p / 9 == q / 9 || p % 9 == q % 9 || s == t,
    ;
}

/// The sample is a solved grid, so the empty grid has a completion.
pub proof fn lemma_sample_is_solved()
    ensures
        solved(sample_solution()),
        completes(sample_solution(), empty_grid()),
        completions(empty_grid()).len() >= 1,
{
    let w = sample_solution();
    assert forall|p: int, q: int|
        in_grid(p) && in_grid(q) && p != q && #[trigger] peers(p, q) && w[p] != 0 implies w[p]
        != w[q] by {
        lemma_sample_arith(
            p as u32,
            q as u32,
            ((p / 9) * 3 + (p / 9) / 3 + p % 9) as u32,
            ((q / 9) * 3 + (q / 9) / 3 + q % 9) as u32,
            ((p / 27) * 3 + (p % 9) / 3) as u32,
            ((q / 27) * 3 + (q % 9) / 3) as u32,
        );
    }
    lemma_completions_finite(empty_grid());
    assert(completions(empty_grid()).contains(w));
}

impl Sudoku {
    /// Makes a new puzzle and loads it: a valid grid with exactly one
    /// completion, none of whose filled cells can be emptied without giving it
    /// a second one.
    pub fn generate(&mut self)
        ensures
            final(self).wf(),
            final(self)@.solution == final(self)@.puzzle,
            final(self)@.markup == blank_markup(),
            final(self)@.solution_count == 0,
            final(self)@.limit == 2,
            proper(final(self)@.puzzle),
            irreducible(final(self)@.puzzle),
    {
        self.generate_within(GRID_SIZE);
    }

    /// Makes a new puzzle as [`Sudoku::generate`] does, but gives up after
    /// trying to empty `attempts` cells.  The puzzle still has exactly one
    /// completion; with fewer attempts than cells it may hold clues that are
    /// not needed.
    pub fn generate_within(&mut self, attempts: usize)
        ensures
            final(self).wf(),
            final(self)@.solution == final(self)@.puzzle,
            final(self)@.markup == blank_markup(),
            final(self)@.solution_count == 0,
            final(self)@.limit == if attempts == 0 {
                1nat
            } else {
                2nat
            },
            proper(final(self)@.puzzle),
            empties(final(self)@.puzzle).len() <= attempts,
            attempts >= GRID_SIZE ==> irreducible(final(self)@.puzzle),
    {
        self.clear();
        proof {
            lemma_sample_is_solved();
        }
        self.solve_random(1);
        let ghost full = self@.solution;
        let mut new_puzzle: [usize; GRID_SIZE] = [0;GRID_SIZE];
        for i in 0..GRID_SIZE
            invariant
                forall|j: int| 0 <= j < i ==> #[trigger] new_puzzle@[j] == self@.solution[j],
        {
            new_puzzle[i] = self.solution[i];
        }
        assert(new_puzzle@ =~= full);
        let mut removelist: [usize; GRID_SIZE] = [0;GRID_SIZE];
        for i in 0..GRID_SIZE
            invariant
                forall|j: int| 0 <= j < i ==> #[trigger] removelist@[j] == j,
        {
            removelist[i] = i;
        }
        assert(removelist@ =~= all_cells());
        shuffle(&mut removelist);
        proof {
            lemma_same_elements(removelist@, all_cells());
            assert forall|j: int| 0 <= j < 81 implies #[trigger] removelist@[j] < 81 by {
                assert(removelist@.contains(removelist@[j]));
                let i = choose|i: int| 0 <= i < 81 && all_cells()[i] == removelist@[j];
            }
            lemma_complete_grid(full);
            assert(empties(full) =~= Set::<int>::empty());
        }
        let tries = if attempts < GRID_SIZE {
            attempts
        } else {
            GRID_SIZE
        };
        for i in 0..tries
            invariant
                tries <= 81,
                tries <= attempts,
                self@.limit == if i == 0 {
                    1nat
                } else {
                    2nat
                },
                removelist@.len() == 81,
                forall|j: int| 0 <= j < 81 ==> #[trigger] removelist@[j] < 81,
                solved(full),
                extends(full, new_puzzle@),
                proper(new_puzzle@),
                empties(new_puzzle@).len() <= i,
                forall|j: int|
                    0 <= j < i && new_puzzle@[removelist@[j] as int] != 0 ==> completions(
                        #[trigger] new_puzzle@.update(removelist@[j] as int, 0),
                    ).len() >= 2,
        {
            let ghost before = new_puzzle@;
            let pos = removelist[i];
            let save_item = new_puzzle[pos];
            new_puzzle[pos] = 0;
            let ghost cleared = new_puzzle@;
            proof {
                assert(cleared == before.update(pos as int, 0));
                lemma_clearing(before, pos as int);
                lemma_completions_finite(cleared);
                lemma_empties_finite(before);
                assert(empties(cleared) =~= empties(before).insert(pos as int));
            }
            self.initialize_with_array(new_puzzle);
            self.solve_fast(2);
            // emptying a cell loses no completion, so the probe finds one or two
            assert(self@.solution_count == capped(completions(cleared).len(), 2));
            assert(self@.solution_count == 1 || self@.solution_count == 2);
            if self.solution_count != 1 {
                new_puzzle[pos] = save_item;
                assert(new_puzzle@ =~= before);
            } else {
                proof {
                    assert forall|j: int|
                        0 <= j < i + 1 && cleared[removelist@[j] as int] != 0 implies completions(
                        #[trigger] cleared.update(removelist@[j] as int, 0),
                    ).len() >= 2 by {
                        let q = removelist@[j] as int;
                        assert(before[q] != 0);
                        lemma_fewer_clues_more_completions(
                            before.update(q, 0),
                            cleared.update(q, 0),
                        );
                    }
                }
            }
        }
        proof {
            let g = new_puzzle@;
            if attempts >= GRID_SIZE {
                assert forall|p: int| in_grid(p) && g[p] != 0 implies completions(
                    #[trigger] g.update(p, 0),
                ).len() >= 2 by {
                    assert(all_cells()[p] == p);
                    assert(all_cells().contains(p as usize));
                    assert(removelist@.contains(p as usize));
                    let j = choose|j: int| 0 <= j < 81 && removelist@[j] == p as usize;
                    assert(g.update(removelist@[j] as int, 0) == g.update(p, 0));
                }
            }
        }
        self.initialize_with_array(new_puzzle);
    }
}

} // verus!
