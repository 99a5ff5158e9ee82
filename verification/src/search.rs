//! The backtracking search: it fills the first empty cell with each value
//! that its peers allow, goes on from there, and stops as soon as the number
//! of completions found reaches the limit.
use crate::bits::{excludes, num_to_bitmap};
use crate::completion::{
    lemma_choice_exhausted, lemma_choice_grows, lemma_complete_grid, lemma_completions_finite,
    lemma_placing, values_upto, with_choice,
};
use crate::grid::{
    complete, completes, completions, consistent, empties, used, GRID_SIZE, GRID_SQRT,
};
use crate::order::{earlier, lemma_earlier_finite, lemma_earlier_splits, lemma_lex_irreflexive};
use crate::propagate::{commits, settled};
use crate::shuffle::{ascending, lemma_order_facts, shuffle};
use crate::sudoku::{markup_agrees, Sudoku, SudokuView};
use vstd::prelude::*;

verus! {

/// The values that stand in the first `k` places of `ns`.
pub open spec fn tried(ns: Seq<usize>, k: int) -> Set<usize> {
    Set::new(|w: usize| exists|j: int| 0 <= j < k && #[trigger] ns[j] == w)
}

/// What a search leaves behind that started on the grid `g` with `c`
/// completions counted and was to stop at `limit`: when the completions of
/// `g` do not suffice to reach the limit, all of them are counted and the
/// grid is as before; otherwise the count is the limit and the grid is a
/// completion of `g`.
pub open spec fn search_outcome(
    g: Seq<usize>,
    c: nat,
    limit: nat,
    g2: Seq<usize>,
    c2: nat,
) -> bool {
    if c + completions(g).len() < limit {
        g2 == g && c2 == c + completions(g).len()
    } else {
        completes(g2, g) && c2 == limit
    }
}

/// What the ascending search leaves behind: as [`search_outcome`], and the
/// completion it stops at is the one with `limit - c - 1` completions before
/// it.
pub open spec fn ordered_outcome(
    g: Seq<usize>,
    c: nat,
    limit: nat,
    g2: Seq<usize>,
    c2: nat,
) -> bool {
    &&& search_outcome(g, c, limit, g2, c2)
    &&& c + completions(g).len() >= limit ==> earlier(g, g2).len() == limit - c - 1
}

/// Whether `g2` is what the hidden singles make of `g`: it comes from `g` by
/// filling in hidden singles, and has none left.
pub open spec fn propagated(g: Seq<usize>, g2: Seq<usize>) -> bool {
    (exists|n: nat| #[trigger] commits(g, g2, n)) && settled(g2)
}

/// The count that a solver reports for a grid with `n` completions.
pub open spec fn capped(n: nat, limit: nat) -> nat {
    if n < limit {
        n
    } else {
        limit
    }
}

/// What `solve_fast` leaves behind on the grid `g`, where `h` is what the
/// hidden singles make of `g`.  The count never exceeds the limit, and the
/// grid is `h` unless a positive limit was reached.  On a consistent grid the
/// count is the number of completions, capped at the limit; and when a
/// positive limit was reached, the grid is the completion of `g` with
/// `limit - 1` completions before it.
pub open spec fn fast_outcome(
    g: Seq<usize>,
    limit: nat,
    h: Seq<usize>,
    g2: Seq<usize>,
    c2: nat,
) -> bool {
    &&& propagated(g, h)
    &&& c2 <= limit
    &&& c2 < limit || limit == 0 ==> g2 == h
    &&& consistent(g) ==> c2 == capped(completions(g).len(), limit)
    &&& consistent(g) && 0 < limit <= completions(g).len() ==> completes(g2, g) && earlier(
        g,
        g2,
    ).len() == limit - 1
}

/// What `solve_random` leaves behind on the grid `g`: the number of
/// completions, capped at the limit; and either `g` itself, when the limit
/// was not reached or was zero, or else some completion of `g`.
pub open spec fn random_outcome(g: Seq<usize>, limit: nat, g2: Seq<usize>, c2: nat) -> bool {
    &&& c2 == capped(completions(g).len(), limit)
    &&& if completions(g).len() < limit || limit == 0 {
        g2 == g
    } else {
        completes(g2, g)
    }
}

/// The first places of the ascending order hold the smallest values.
pub proof fn lemma_tried_ascending(k: int)
    requires
        0 <= k <= 9,
    ensures
        tried(ascending(), k) == values_upto(k as nat),
{
    assert forall|w: usize| values_upto(k as nat).contains(w) implies tried(
        ascending(),
        k,
    ).contains(w) by {
        assert(0 <= w - 1 < k && ascending()[w - 1] == w);
    }
    assert(tried(ascending(), k) =~= values_upto(k as nat));
}

impl Sudoku {
    /// Searches from the grid as it stands, counting on from the completions
    /// already counted: the first empty cell takes each value that its peers
    /// allow, and the search goes on from there.  With `random` set, the values
    /// are tried in an order drawn anew for every cell; otherwise in ascending
    /// order.  When the count reaches the limit the search stops and leaves the
    /// grid as it is then, completed; otherwise it takes every placement back.
    pub fn search(&mut self, random: bool)
        requires
            old(self).wf(),
            old(self)@.solution_count < old(self)@.limit,
        ensures
            final(self).wf(),
            final(self)@ == (SudokuView {
                solution: final(self)@.solution,
                solution_count: final(self)@.solution_count,
                ..old(self)@
            }),
            old(self)@.solution_count <= final(self)@.solution_count <= old(self)@.limit,
            final(self)@.solution_count < old(self)@.limit ==> final(self)@.solution == old(
                self,
            )@.solution,
            consistent(old(self)@.solution) ==> search_outcome(
                old(self)@.solution,
                old(self)@.solution_count,
                old(self)@.limit,
                final(self)@.solution,
                final(self)@.solution_count,
            ),
            consistent(old(self)@.solution) && !random ==> ordered_outcome(
                old(self)@.solution,
                old(self)@.solution_count,
                old(self)@.limit,
                final(self)@.solution,
                final(self)@.solution_count,
            ),
        decreases empties(old(self)@.solution).len(),
    {
        let ghost g0 = self@.solution;
        let ghost c0 = self@.solution_count;
        let ghost lim = self@.limit;
        proof {
            lemma_completions_finite(g0);
        }
        // the first empty cell
        let mut pos: usize = 0;
        while pos < GRID_SIZE && self.solution[pos] != 0
            invariant
                pos <= 81,
                self@ == old(self)@,
                g0 == self@.solution,
                forall|q: int| 0 <= q < pos ==> #[trigger] g0[q] != 0,
            decreases 81 - pos,
        {
            pos += 1;
        }
        if pos == GRID_SIZE {
            // every cell is filled: one more completion
            self.solution_count += 1;
            proof {
                assert(complete(g0));
                lemma_complete_grid(g0);
                if consistent(g0) {
                    lemma_lex_irreflexive(g0);
                    assert(earlier(g0, g0) =~= Set::<Seq<usize>>::empty());
                }
            }
            return ;
        }
        let mut numbers: [usize; GRID_SQRT] = [0;GRID_SQRT];
        for i in 0..GRID_SQRT
            invariant
                forall|j: int| 0 <= j < i ==> #[trigger] numbers@[j] == j + 1,
        {
            numbers[i] = i + 1;
        }
        assert(numbers@ =~= ascending());
        if random {
            shuffle(&mut numbers);
        }
        proof {
            lemma_order_facts(numbers@);
            assert(with_choice(g0, pos as int, tried(numbers@, 0)) =~= Set::<Seq<usize>>::empty());
        }
        let b = self.invalid_values_as_bits(pos);
        for k in 0..GRID_SQRT
            invariant
                pos < 81,
                self.wf(),
                self@ == (SudokuView { solution_count: self@.solution_count, ..old(self)@ }),
                g0 == old(self)@.solution,
                c0 == old(self)@.solution_count,
                lim == old(self)@.limit,
                g0[pos as int] == 0,
                forall|q: int| 0 <= q < pos ==> #[trigger] g0[q] != 0,
                numbers@.len() == 9,
                numbers@.no_duplicates(),
                forall|j: int| 0 <= j < 9 ==> 1 <= #[trigger] numbers@[j] <= 9,
                forall|v: usize| 1 <= v <= 9 ==> numbers@.contains(v),
                !random ==> numbers@ == ascending(),
                forall|v: int|
                    1 <= v <= 9 ==> (#[trigger] excludes(b, v) <==> used(g0, pos as int, v)),
                c0 <= self@.solution_count < lim,
                completions(g0).finite(),
                with_choice(g0, pos as int, tried(numbers@, k as int)).finite(),
                consistent(g0) ==> self@.solution_count == c0 + with_choice(
                    g0,
                    pos as int,
                    tried(numbers@, k as int),
                ).len(),
        {
            let value = numbers[k];
            let ghost t0 = tried(numbers@, k as int);
            let ghost t1 = tried(numbers@, k + 1);
            let ghost g1 = g0.update(pos as int, value);
            proof {
                assert(numbers@[k as int] == value);
                assert(t1 =~= t0.insert(value));
                assert(!t0.contains(value));
                lemma_placing(g0, pos as int, value);
                lemma_choice_grows(g0, pos as int, t0, value);
                lemma_completions_finite(g1);
                vstd::set_lib::lemma_set_disjoint_lens(
                    with_choice(g0, pos as int, t0),
                    completions(g1),
                );
                assert(with_choice(g0, pos as int, t1).subset_of(completions(g0)));
                vstd::set_lib::lemma_len_subset(with_choice(g0, pos as int, t1), completions(g0));
            }
            if (b & num_to_bitmap(value)) == 0 {
                assert(!excludes(b, value as int));
                self.solution[pos] = value;
                assert(self@.solution =~= g1);
                self.search(random);
                if self.solution_count == self.limit {
                    proof {
                        if consistent(g0) {
                            let g2 = self@.solution;
                            assert(completes(g2, g1));
                            assert(completions(g1).contains(g2));
                            assert(with_choice(g0, pos as int, set![value]).contains(g2));
                            if !random {
                                lemma_tried_ascending(k as int);
                                lemma_earlier_splits(g0, pos as int, value, g2);
                                lemma_earlier_finite(g1, g2);
                                vstd::set_lib::lemma_set_disjoint_lens(
                                    with_choice(g0, pos as int, t0),
                                    earlier(g1, g2),
                                );
                            }
                        }
                    }
                    return ;
                }
                self.solution[pos] = 0;
                assert(self@.solution =~= g0);
            } else {
                assert(excludes(b, value as int));
            }
        }
        proof {
            assert forall|v: usize| 1 <= v <= 9 implies tried(numbers@, 9).contains(v) by {
                assert(numbers@.contains(v));
                let j = choose|j: int| 0 <= j < numbers@.len() && numbers@[j] == v;
                assert(0 <= j < 9 && numbers@[j] == v);
            }
            lemma_choice_exhausted(g0, pos as int, tried(numbers@, 9));
        }
    }

    /// The search in ascending order.
    pub fn solve_recursive_fast(&mut self)
        requires
            old(self).wf(),
            old(self)@.solution_count < old(self)@.limit,
        ensures
            final(self).wf(),
            final(self)@ == (SudokuView {
                solution: final(self)@.solution,
                solution_count: final(self)@.solution_count,
                ..old(self)@
            }),
            old(self)@.solution_count <= final(self)@.solution_count <= old(self)@.limit,
            final(self)@.solution_count < old(self)@.limit ==> final(self)@.solution == old(
                self,
            )@.solution,
            consistent(old(self)@.solution) ==> ordered_outcome(
                old(self)@.solution,
                old(self)@.solution_count,
                old(self)@.limit,
                final(self)@.solution,
                final(self)@.solution_count,
            ),
    {
        self.search(false);
    }

    /// The search in random order.
    pub fn solve_recursive_random(&mut self)
        requires
            old(self).wf(),
            old(self)@.solution_count < old(self)@.limit,
        ensures
            final(self).wf(),
            final(self)@ == (SudokuView {
                solution: final(self)@.solution,
                solution_count: final(self)@.solution_count,
                ..old(self)@
            }),
            old(self)@.solution_count <= final(self)@.solution_count <= old(self)@.limit,
            final(self)@.solution_count < old(self)@.limit ==> final(self)@.solution == old(
                self,
            )@.solution,
            consistent(old(self)@.solution) ==> search_outcome(
                old(self)@.solution,
                old(self)@.solution_count,
                old(self)@.limit,
                final(self)@.solution,
                final(self)@.solution_count,
            ),
    {
        self.search(true);
    }

    /// Counts the completions of the grid up to `limit`: first the hidden
    /// singles are filled in, then the ascending search runs on what is left.
    /// With a limit of 0 nothing is counted and the search does not start.
    pub fn solve_fast(&mut self, limit: usize)
        requires
            old(self).wf(),
        ensures
            final(self).wf(),
            final(self)@.puzzle == old(self)@.puzzle,
            final(self)@.limit == limit,
            exists|h: Seq<usize>| #[trigger]
                markup_agrees(h, final(self)@.markup) && fast_outcome(
                    old(self)@.solution,
                    limit as nat,
                    h,
                    final(self)@.solution,
                    final(self)@.solution_count,
                ),
    {
        let ghost g0 = self@.solution;
        self.solution_count = 0;
        self.limit = limit;
        self.solve_lonerangers();
        let ghost g1 = self@.solution;
        proof {
            lemma_completions_finite(g0);
        }
        if limit > 0 {
            self.solve_recursive_fast();
            proof {
                if consistent(g0) {
                    let g2 = self@.solution;
                    assert(earlier(g1, g2) =~= earlier(g0, g2)) by {
                        assert forall|s: Seq<usize>| completes(s, g1) <==> completes(s, g0) by {
                            assert(completions(g1).contains(s) <==> completions(g0).contains(s));
                        }
                    }
                    if completions(g0).len() >= limit {
                        assert(completions(g1).contains(g2));
                        assert(completions(g0).contains(g2));
                    }
                }
            }
        }
        assert(markup_agrees(g1, self@.markup) && fast_outcome(
            g0,
            limit as nat,
            g1,
            self@.solution,
            self@.solution_count as nat,
        ));
    }

    /// Counts the completions of the grid up to `limit` by the search in
    /// random order alone.
    pub fn solve_random(&mut self, limit: usize)
        requires
            old(self).wf(),
        ensures
            final(self).wf(),
            final(self)@ == (SudokuView {
                solution: final(self)@.solution,
                solution_count: final(self)@.solution_count,
                limit: limit as nat,
                ..old(self)@
            }),
            final(self)@.solution_count <= limit,
            final(self)@.solution_count < limit || limit == 0 ==> final(self)@.solution == old(
                self,
            )@.solution,
            consistent(old(self)@.solution) ==> random_outcome(
                old(self)@.solution,
                limit as nat,
                final(self)@.solution,
                final(self)@.solution_count,
            ),
    {
        self.solution_count = 0;
        self.limit = limit;
        if limit > 0 {
            self.solve_recursive_random();
        }
    }
}

} // verus!
