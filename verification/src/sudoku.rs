//! The solver's state: the puzzle as given, the grid being worked on, and the
//! cache of excluded values.
use crate::bits::{
    excludes, lemma_empty_mask, lemma_full_mask, lemma_single_mask, lemma_union_again,
    lemma_union_mask, num_to_bitmap, value_bit, ALL_EXCLUDED, MASK_END,
};
use crate::grid::{
    block_peer, cells_valid, col_peer, in_grid, lemma_scan_meets_peers, lemma_scan_stays_near,
    lemma_used_by_scan, peers, row_peer, scanned, seen, used, GRID_BLCK, GRID_SIZE, GRID_SQRT,
};
use vstd::prelude::*;

verus! {

/// A puzzle together with the state of the search for its completions.
pub struct Sudoku {
    /// The puzzle as it was loaded.
    pub puzzle: [usize; GRID_SIZE],
    /// For each cell, the mask of the values that its peers exclude.
    pub markup: [usize; GRID_SIZE],
    /// The grid being worked on.
    pub solution: [usize; GRID_SIZE],
    /// The number of completions found so far.
    pub solution_count: usize,
    /// The number of completions at which the search stops.
    pub limit: usize,
}

/// The mathematical content of a [`Sudoku`].
pub struct SudokuView {
    pub puzzle: Seq<usize>,
    pub markup: Seq<usize>,
    pub solution: Seq<usize>,
    pub solution_count: nat,
    pub limit: nat,
}

impl View for Sudoku {
    type V = SudokuView;

    open spec fn view(&self) -> SudokuView {
        SudokuView {
            puzzle: self.puzzle@,
            markup: self.markup@,
            solution: self.solution@,
            solution_count: self.solution_count as nat,
            limit: self.limit as nat,
        }
    }
}

/// The grid whose cells are all empty.
pub open spec fn empty_grid() -> Seq<usize> {
    Seq::new(81, |p: int| 0usize)
}

/// The markup in which every cell carries the mask that excludes all values.
pub open spec fn blank_markup() -> Seq<usize> {
    Seq::new(81, |p: int| ALL_EXCLUDED)
}

/// The markup that belongs to the grid `g`: an empty cell carries exactly the
/// bits of the values used around it, a filled cell excludes every value.
pub open spec fn markup_agrees(g: Seq<usize>, m: Seq<usize>) -> bool {
    &&& m.len() == 81
    &&& forall|p: int| in_grid(p) && g[p] == 0 ==> #[trigger] m[p] < MASK_END
    &&& forall|p: int, v: int|
        in_grid(p) && 1 <= v <= 9 ==> (#[trigger] excludes(m[p], v) <==> g[p] != 0 || used(
            g,
            p,
            v,
        ))
}

/// The markup `m` after `value` was placed at `pos`: the cell itself excludes
/// everything, and each of its peers excludes `value` as well.
pub open spec fn marked(m: Seq<usize>, pos: int, value: usize) -> Seq<usize> {
    Seq::new(
        81,
        |q: int|
            if q == pos {
                ALL_EXCLUDED
            } else if peers(pos, q) {
                m[q] | value_bit(value)
            } else {
                m[q]
            },
    )
}

impl Sudoku {
    /// Both grids hold only cell values.
    pub open spec fn wf(&self) -> bool {
        cells_valid(self@.puzzle) && cells_valid(self@.solution)
    }

    /// An empty puzzle, with the limit set to one completion.
    pub fn new() -> (s: Sudoku)
        ensures
            s.wf(),
            s@ == (SudokuView {
                puzzle: empty_grid(),
                markup: Seq::new(81, |p: int| 0usize),
                solution: empty_grid(),
                solution_count: 0,
                limit: 1,
            }),
    {
        let s = Sudoku {
            puzzle: [0;GRID_SIZE],
            markup: [0;GRID_SIZE],
            solution: [0;GRID_SIZE],
            solution_count: 0,
            limit: 1,
        };
        assert(s@.puzzle =~= empty_grid());
        assert(s@.solution =~= empty_grid());
        assert(s@.markup =~= Seq::new(81, |p: int| 0usize));
        s
    }

    /// Empties both grids, resets the count and blanks the markup.
    pub fn clear(&mut self)
        ensures
            final(self).wf(),
            final(self)@ == (SudokuView {
                puzzle: empty_grid(),
                markup: blank_markup(),
                solution: empty_grid(),
                solution_count: 0,
                limit: old(self)@.limit,
            }),
    {
        self.solution_count = 0;
        for pos in 0..GRID_SIZE
            invariant
                self.solution_count == 0,
                self.limit == old(self).limit,
                forall|p: int|
                    0 <= p < pos ==> self.puzzle@[p] == 0 && self.solution@[p] == 0
                        && self.markup@[p] == ALL_EXCLUDED,
        {
            self.puzzle[pos] = 0;
            self.solution[pos] = 0;
            self.markup[pos] = usize::MAX;
        }
        assert(self.puzzle@ =~= empty_grid());
        assert(self.solution@ =~= empty_grid());
        assert(self.markup@ =~= blank_markup());
    }

    /// Loads a puzzle: both grids become `a_puzzle`, the count is reset and the
    /// markup blanked.
    pub fn initialize_with_array(&mut self, a_puzzle: [usize; GRID_SIZE])
        requires
            cells_valid(a_puzzle@),
        ensures
            final(self).wf(),
            final(self)@ == (SudokuView {
                puzzle: a_puzzle@,
                markup: blank_markup(),
                solution: a_puzzle@,
                solution_count: 0,
                limit: old(self)@.limit,
            }),
    {
        self.clear();
        for pos in 0..GRID_SIZE
            invariant
                self.solution_count == 0,
                self.limit == old(self).limit,
                self.markup@ == blank_markup(),
                forall|p: int|
                    0 <= p < pos ==> self.puzzle@[p] == a_puzzle@[p] && self.solution@[p]
                        == a_puzzle@[p],
        {
            let val = a_puzzle[pos];
            self.puzzle[pos] = val;
            self.solution[pos] = val;
        }
        assert(self.puzzle@ =~= a_puzzle@);
        assert(self.solution@ =~= a_puzzle@);
    }

    /// The mask of the values that stand in the row, the column or the block of
    /// `pos`.
    pub fn invalid_values_as_bits(&self, pos: usize) -> (bits: usize)
        requires
            self.wf(),
            pos < GRID_SIZE,
        ensures
            bits < MASK_END,
            forall|v: int|
                1 <= v <= 9 ==> (#[trigger] excludes(bits, v) <==> used(
                    self@.solution,
                    pos as int,
                    v,
                )),
    {
        let y = pos / GRID_SQRT;
        let x = pos % GRID_SQRT;
        let topleft = (y / GRID_BLCK) * GRID_BLCK * GRID_SQRT + (x / GRID_BLCK) * GRID_BLCK;
        let mut bits: usize = 0;
        let ghost g = self@.solution;
        proof {
            assert forall|v: int| 1 <= v <= 9 implies !#[trigger] excludes(0usize, v) by {
                lemma_empty_mask(v);
            }
        }
        for n in 0..GRID_SQRT
            invariant
                self.wf(),
                g == self@.solution,
                pos < GRID_SIZE,
                y == pos / 9,
                x == pos % 9,
                topleft == (pos / 27) * 27 + ((pos % 9) / 3) * 3,
                bits < MASK_END,
                forall|v: int|
                    1 <= v <= 9 ==> (#[trigger] excludes(bits, v) <==> exists|m: int|
                        0 <= m < n && #[trigger] seen(g, pos as int, m, v)),
        {
            let in_col = self.solution[n * GRID_SQRT + x];
            let in_row = self.solution[y * GRID_SQRT + n];
            let in_block = self.solution[topleft + (n % GRID_BLCK) * GRID_SQRT + (n / GRID_BLCK)];
            let ghost before = bits;
            let b1 = num_to_bitmap(in_col);
            let b2 = num_to_bitmap(in_row);
            let b3 = num_to_bitmap(in_block);
            bits = bits | b1 | b2 | b3;
            proof {
                assert(in_col == g[col_peer(pos as int, n as int)]);
                assert(in_row == g[row_peer(pos as int, n as int)]);
                assert(in_block == g[block_peer(pos as int, n as int)]);
                assert forall|v: int| 1 <= v <= 9 implies (#[trigger] excludes(bits, v)
                    <==> exists|m: int| 0 <= m < n + 1 && #[trigger] seen(g, pos as int, m, v)) by {
                    lemma_union_mask(before, b1, v);
                    lemma_union_mask(before | b1, b2, v);
                    lemma_union_mask(before | b1 | b2, b3, v);
                    lemma_single_mask(in_col, v);
                    lemma_single_mask(in_row, v);
                    lemma_single_mask(in_block, v);
                    if excludes(bits, v) {
                        if excludes(before, v) {
                            let m = choose|m: int|
                                0 <= m < n && #[trigger] seen(g, pos as int, m, v);
                            assert(0 <= m < n + 1 && seen(g, pos as int, m, v));
                        } else {
                            assert(seen(g, pos as int, n as int, v));
                        }
                    }
                    if exists|m: int| 0 <= m < n + 1 && #[trigger] seen(g, pos as int, m, v) {
                        let m = choose|m: int|
                            0 <= m < n + 1 && #[trigger] seen(g, pos as int, m, v);
                        if m < n {
                            assert(excludes(before, v));
                        } else {
                            assert(seen(g, pos as int, n as int, v));
                        }
                    }
                }
                lemma_union_mask(before, b1, 1);
                lemma_union_mask(before | b1, b2, 1);
                lemma_union_mask(before | b1 | b2, b3, 1);
                lemma_single_mask(in_col, 1);
                lemma_single_mask(in_row, 1);
                lemma_single_mask(in_block, 1);
            }
        }
        proof {
            assert forall|v: int| 1 <= v <= 9 implies (#[trigger] excludes(bits, v) <==> used(
                g,
                pos as int,
                v,
            )) by {
                lemma_used_by_scan(g, pos as int, v);
            }
        }
        bits
    }

    /// Rebuilds the markup from the grid being worked on.
    pub fn do_markup(&mut self)
        requires
            old(self).wf(),
        ensures
            final(self).wf(),
            markup_agrees(final(self)@.solution, final(self)@.markup),
            forall|p: int|
                in_grid(p) && final(self)@.solution[p] != 0 ==> #[trigger] final(self)@.markup[p]
                    == ALL_EXCLUDED,
            final(self)@ == (SudokuView { markup: final(self)@.markup, ..old(self)@ }),
    {
        for pos in 0..GRID_SIZE
            invariant
                self.wf(),
                self@ == (SudokuView { markup: self@.markup, ..old(self)@ }),
                forall|p: int|
                    0 <= p < pos && self@.solution[p] != 0 ==> #[trigger] self@.markup[p]
                        == ALL_EXCLUDED,
                forall|p: int|
                    0 <= p < pos && self@.solution[p] == 0 ==> #[trigger] self@.markup[p]
                        < MASK_END,
                forall|p: int, v: int|
                    0 <= p < pos && 1 <= v <= 9 ==> (#[trigger] excludes(self@.markup[p], v)
                        <==> self@.solution[p] != 0 || used(self@.solution, p, v)),
        {
            if self.solution[pos] == 0 {
                let bits = self.invalid_values_as_bits(pos);
                self.markup[pos] = bits;
            } else {
                self.markup[pos] = usize::MAX;
                proof {
                    assert forall|v: int| 1 <= v <= 9 implies #[trigger] excludes(
                        ALL_EXCLUDED,
                        v,
                    ) by {
                        lemma_full_mask(v);
                    }
                }
            }
        }
    }

    /// Places `value` at `pos` and brings the markup up to date.
    pub fn set_value_and_markup(&mut self, pos: usize, value: usize)
        requires
            old(self).wf(),
            pos < GRID_SIZE,
            value <= GRID_SQRT,
        ensures
            final(self).wf(),
            final(self)@ == (SudokuView {
                solution: old(self)@.solution.update(pos as int, value),
                markup: marked(old(self)@.markup, pos as int, value),
                ..old(self)@
            }),
    {
        let y = pos / GRID_SQRT;
        let x = pos % GRID_SQRT;
        let topleft = (y / GRID_BLCK) * GRID_BLCK * GRID_SQRT + (x / GRID_BLCK) * GRID_BLCK;
        self.solution[pos] = value;
        let bitmap = num_to_bitmap(value);
        let ghost m0 = old(self)@.markup;
        for n in 0..GRID_SQRT
            invariant
                pos < GRID_SIZE,
                y == pos / 9,
                x == pos % 9,
                topleft == (pos / 27) * 27 + ((pos % 9) / 3) * 3,
                bitmap == value_bit(value),
                m0 == old(self)@.markup,
                self@ == (SudokuView {
                    solution: old(self)@.solution.update(pos as int, value),
                    markup: self@.markup,
                    ..old(self)@
                }),
                forall|q: int|
                    in_grid(q) ==> #[trigger] self@.markup[q] == (if exists|m: int|
                        0 <= m < n && #[trigger] scanned(pos as int, m, q) {
                        m0[q] | bitmap
                    } else {
                        m0[q]
                    }),
        {
            let ghost m1 = self@.markup;
            proof {
                lemma_scan_stays_near(pos as int, n as int);
            }
            let c = n * GRID_SQRT + x;
            self.markup[c] = self.markup[c] | bitmap;
            let r = y * GRID_SQRT + n;
            self.markup[r] = self.markup[r] | bitmap;
            let b = topleft + (n % GRID_BLCK) * GRID_SQRT + (n / GRID_BLCK);
            self.markup[b] = self.markup[b] | bitmap;
            proof {
                assert(c == col_peer(pos as int, n as int));
                assert(r == row_peer(pos as int, n as int));
                assert(b == block_peer(pos as int, n as int));
                assert forall|q: int| in_grid(q) implies #[trigger] self@.markup[q] == (if exists|
                    m: int,
                |
                    0 <= m < n + 1 && #[trigger] scanned(pos as int, m, q) {
                    m0[q] | bitmap
                } else {
                    m0[q]
                }) by {
                    lemma_union_again(m0[q], bitmap);
                    lemma_union_again(m0[q] | bitmap, bitmap);
                    if scanned(pos as int, n as int, q) {
                        assert(self@.markup[q] == m0[q] | bitmap);
                    } else {
                        assert(self@.markup[q] == m1[q]);
                        if exists|m: int| 0 <= m < n + 1 && #[trigger] scanned(pos as int, m, q) {
                            let m = choose|m: int|
                                0 <= m < n + 1 && #[trigger] scanned(pos as int, m, q);
                            assert(0 <= m < n && scanned(pos as int, m, q));
                        }
                    }
                }
            }
        }
        self.markup[pos] = usize::MAX;
        proof {
            assert forall|q: int| in_grid(q) implies #[trigger] self@.markup[q] == marked(
                m0,
                pos as int,
                value,
            )[q] by {
                lemma_scan_meets_peers(pos as int, q);
            }
            assert(self@.markup =~= marked(m0, pos as int, value));
        }
    }
}

} // verus!
