//! Hidden singles: when a value has only one place left in a row, a column or
//! a block, it is put there.  Such a placement is forced, so it changes
//! nothing about the completions of the grid.
use crate::bits::{
    excludes, lemma_full_mask, lemma_single_mask, lemma_union_mask, num_to_bitmap, value_bit,
    MASK_END,
};
use crate::grid::{
    candidate, cells_valid, completes, completions, consistent, empties, extends, in_grid,
    lemma_unit_cells, lemma_unit_holds_every_value, peers, unit_cell, used, GRID_BLCK, GRID_SIZE,
    GRID_SQRT,
};
use crate::sudoku::{marked, markup_agrees, Sudoku, SudokuView};
use vstd::prelude::*;

verus! {

/// The number of units: nine rows, nine columns and nine blocks.
pub const UNITS: usize = 27;

/// Whether the `k`-th cell of unit `u` is the only cell of that unit that can
/// take `v`.
pub open spec fn hidden_single(g: Seq<usize>, u: int, v: int, k: int) -> bool {
    &&& 0 <= u < 27
    &&& 1 <= v <= 9
    &&& 0 <= k < 9
    &&& candidate(g, unit_cell(u, k), v)
    &&& forall|j: int| 0 <= j < 9 && j != k ==> !#[trigger] candidate(g, unit_cell(u, j), v)
}

/// Whether `g2` is `g` with one hidden single filled in.
pub open spec fn single_step(g: Seq<usize>, g2: Seq<usize>) -> bool {
    exists|u: int, v: int, k: int| #[trigger]
        hidden_single(g, u, v, k) && g2 == g.update(unit_cell(u, k), v as usize)
}

/// Whether `g2` comes from `g` by filling in `n` hidden singles, one after
/// the other.
pub open spec fn commits(g: Seq<usize>, g2: Seq<usize>, n: nat) -> bool
    decreases n,
{
    if n == 0 {
        g2 == g
    } else {
        exists|g1: Seq<usize>| commits(g, g1, (n - 1) as nat) && #[trigger] single_step(g1, g2)
    }
}

/// Whether no unit of `g` has a hidden single left.
pub open spec fn settled(g: Seq<usize>) -> bool {
    forall|u: int, v: int, k: int| !#[trigger] hidden_single(g, u, v, k)
}

/// How a value placed at `pos` changes what is used around `p`.
pub proof fn lemma_used_after_placing(g: Seq<usize>, pos: int, value: usize, p: int, v: int)
    requires
        g.len() == 81,
        in_grid(pos),
        in_grid(p),
        g[pos] == 0,
        1 <= v,
    ensures
        used(g.update(pos, value), p, v) <==> used(g, p, v) || (peers(p, pos) && v == value),
{
    let g2 = g.update(pos, value);
    if used(g2, p, v) {
        let q = choose|q: int| in_grid(q) && #[trigger] peers(p, q) && g2[q] == v;
        if q != pos {
            assert(in_grid(q) && peers(p, q) && g[q] == v);
        }
    }
    if used(g, p, v) {
        let q = choose|q: int| in_grid(q) && #[trigger] peers(p, q) && g[q] == v;
        assert(in_grid(q) && peers(p, q) && g2[q] == v);
    }
    if peers(p, pos) && v == value {
        assert(in_grid(pos) && peers(p, pos) && g2[pos] == v);
    }
}

/// Placing a value in an empty cell and marking its peers keeps the markup in
/// agreement with the grid.
pub proof fn lemma_marking_keeps_agreement(g: Seq<usize>, m: Seq<usize>, pos: int, value: usize)
    requires
        cells_valid(g),
        markup_agrees(g, m),
        in_grid(pos),
        g[pos] == 0,
        1 <= value <= 9,
    ensures
        markup_agrees(g.update(pos, value), marked(m, pos, value)),
{
    let g2 = g.update(pos, value);
    let m2 = marked(m, pos, value);
    assert forall|p: int| in_grid(p) && g2[p] == 0 implies #[trigger] m2[p] < MASK_END by {
        lemma_union_mask(m[p], value_bit(value), 1);
        lemma_single_mask(value, 1);
    }
    assert forall|p: int, v: int| in_grid(p) && 1 <= v <= 9 implies (#[trigger] excludes(m2[p], v)
        <==> g2[p] != 0 || used(g2, p, v)) by {
        if p == pos {
            lemma_full_mask(v);
        } else {
            lemma_used_after_placing(g, pos, value, p, v);
            lemma_union_mask(m[p], value_bit(value), v);
            lemma_single_mask(value, v);
            assert(excludes(m[p], v) <==> g[p] != 0 || used(g, p, v));
        }
    }
}

/// A hidden single stands in every completion.
pub proof fn lemma_single_is_forced(g: Seq<usize>, u: int, v: int, k: int, s: Seq<usize>)
    requires
        g.len() == 81,
        hidden_single(g, u, v, k),
        completes(s, g),
    ensures
        s[unit_cell(u, k)] == v,
{
    let j = lemma_unit_holds_every_value(s, u, v);
    let p = unit_cell(u, k);
    let q = unit_cell(u, j);
    lemma_unit_cells(u, k, j);
    lemma_unit_cells(u, j, k);
    if j != k {
        if g[q] != 0 {
            assert(in_grid(q) && peers(p, q) && g[q] == v);
            assert(used(g, p, v));
        } else if used(g, q, v) {
            let r = choose|r: int| in_grid(r) && #[trigger] peers(q, r) && g[r] == v;
            assert(s[r] == g[r]);
            assert(peers(q, r));
            assert(false);
        } else {
            assert(candidate(g, q, v));
            assert(false);
        }
    }
}

/// Filling in a hidden single keeps the filled cells, the validity and the
/// consistency of the grid, takes one cell from the empty ones, and leaves
/// the completions as they were.
pub proof fn lemma_step_is_sound(g: Seq<usize>, g2: Seq<usize>)
    requires
        g.len() == 81,
        single_step(g, g2),
    ensures
        g2.len() == 81,
        extends(g2, g),
        cells_valid(g) ==> cells_valid(g2),
        consistent(g) ==> consistent(g2),
        completions(g2) == completions(g),
        empties(g2).len() + 1 == empties(g).len(),
        empties(g).finite(),
{
    let (u, v, k) = choose|u: int, v: int, k: int| #[trigger]
        hidden_single(g, u, v, k) && g2 == g.update(unit_cell(u, k), v as usize);
    let p = unit_cell(u, k);
    lemma_unit_cells(u, k, k);
    if consistent(g) {
        assert forall|a: int, b: int|
            in_grid(a) && in_grid(b) && a != b && #[trigger] peers(a, b) && g2[a] != 0 implies g2[a]
            != g2[b] by {
            if a == p {
                if g[b] == v {
                    assert(in_grid(b) && peers(p, b) && g[b] == v);
                }
            } else if b == p {
                if g[a] == v {
                    assert(peers(p, a));
                    assert(in_grid(a) && peers(p, a) && g[a] == v);
                }
            }
        }
    }
    assert forall|s: Seq<usize>| completes(s, g) implies completes(s, g2) by {
        lemma_single_is_forced(g, u, v, k, s);
    }
    assert(completions(g2) =~= completions(g));
    lemma_empties_finite(g);
    assert(empties(g2) =~= empties(g).remove(p));
}

/// A grid has at most 81 empty cells.
pub proof fn lemma_empties_finite(g: Seq<usize>)
    ensures
        empties(g).finite(),
        empties(g).len() <= 81,
{
    vstd::set_lib::lemma_int_range(0, 81);
    assert(empties(g).subset_of(vstd::set_lib::set_int_range(0, 81)));
    vstd::set_lib::lemma_len_subset(empties(g), vstd::set_lib::set_int_range(0, 81));
}

/// Filling in hidden singles, however many, keeps the filled cells, the
/// validity and the consistency of the grid, and leaves the completions as
/// they were: the pass never guesses.
pub proof fn lemma_commits_are_sound(g: Seq<usize>, g2: Seq<usize>, n: nat)
    requires
        g.len() == 81,
        commits(g, g2, n),
    ensures
        g2.len() == 81,
        extends(g2, g),
        cells_valid(g) ==> cells_valid(g2),
        consistent(g) ==> consistent(g2),
        completions(g2) == completions(g),
        empties(g2).len() + n == empties(g).len(),
    decreases n,
{
    if n > 0 {
        let g1 = choose|g1: Seq<usize>|
            commits(g, g1, (n - 1) as nat) && #[trigger] single_step(g1, g2);
        lemma_commits_are_sound(g, g1, (n - 1) as nat);
        lemma_step_is_sound(g1, g2);
    }
}

/// A hidden single of a grid is one of every grid that keeps the filled cells
/// of the first, shares a completion with it, and has the cell still empty.
pub proof fn lemma_single_persists(
    h: Seq<usize>,
    h2: Seq<usize>,
    s: Seq<usize>,
    u: int,
    v: int,
    k: int,
)
    requires
        h.len() == 81,
        h2.len() == 81,
        hidden_single(h, u, v, k),
        extends(h2, h),
        completes(s, h),
        completes(s, h2),
        h2[unit_cell(u, k)] == 0,
    ensures
        hidden_single(h2, u, v, k),
{
    let p = unit_cell(u, k);
    lemma_unit_cells(u, k, k);
    lemma_single_is_forced(h, u, v, k, s);
    if used(h2, p, v) {
        let r = choose|r: int| in_grid(r) && #[trigger] peers(p, r) && h2[r] == v;
        assert(s[r] == h2[r]);
        assert(p != r && peers(p, r) && s[p] == s[r]);
        assert(false);
    }
    assert forall|j: int| 0 <= j < 9 && j != k implies !#[trigger] candidate(
        h2,
        unit_cell(u, j),
        v,
    ) by {
        let q = unit_cell(u, j);
        lemma_unit_cells(u, j, j);
        if candidate(h2, q, v) {
            if h[q] != 0 {
                assert(h2[q] == h[q]);
            }
            if used(h, q, v) {
                let r = choose|r: int| in_grid(r) && #[trigger] peers(q, r) && h[r] == v;
                assert(h2[r] == h[r]);
                assert(in_grid(r) && peers(q, r) && h2[r] == v);
            }
            assert(candidate(h, q, v));
        }
    }
}

/// A grid with no hidden single left, reached from `g`, keeps every cell
/// that any run of commits from `g` fills, provided `g` has a completion.
pub proof fn lemma_settled_grid_holds_commits(
    g: Seq<usize>,
    a: Seq<usize>,
    na: nat,
    b: Seq<usize>,
    nb: nat,
    s: Seq<usize>,
)
    requires
        g.len() == 81,
        completes(s, g),
        commits(g, a, na),
        settled(a),
        commits(g, b, nb),
    ensures
        extends(a, b),
    decreases nb,
{
    lemma_commits_are_sound(g, a, na);
    assert(completions(a).contains(s));
    if nb > 0 {
        let b1 = choose|b1: Seq<usize>|
            commits(g, b1, (nb - 1) as nat) && #[trigger] single_step(b1, b);
        lemma_settled_grid_holds_commits(g, a, na, b1, (nb - 1) as nat, s);
        lemma_commits_are_sound(g, b1, (nb - 1) as nat);
        assert(completions(b1).contains(s));
        let (u, v, k) = choose|u: int, v: int, k: int| #[trigger]
            hidden_single(b1, u, v, k) && b == b1.update(unit_cell(u, k), v as usize);
        let p = unit_cell(u, k);
        lemma_unit_cells(u, k, k);
        lemma_single_is_forced(b1, u, v, k, s);
        if a[p] == 0 {
            lemma_single_persists(b1, a, s, u, v, k);
            assert(false);
        }
        assert(s[p] == a[p]);
        assert forall|q: int| in_grid(q) && b[q] != 0 implies #[trigger] a[q] == b[q] by {
            if q != p {
                assert(b[q] == b1[q]);
            }
        }
    }
}

/// Two runs of commits, one after the other, are one run.
pub proof fn lemma_commits_chain(a: Seq<usize>, b: Seq<usize>, c: Seq<usize>, n: nat, m: nat)
    requires
        commits(a, b, n),
        commits(b, c, m),
    ensures
        commits(a, c, n + m),
    decreases m,
{
    if m > 0 {
        let c1 = choose|c1: Seq<usize>|
            commits(b, c1, (m - 1) as nat) && #[trigger] single_step(c1, c);
        lemma_commits_chain(a, b, c1, n, (m - 1) as nat);
        assert(commits(a, c1, (n + m - 1) as nat) && single_step(c1, c));
    }
}

/// The index of the `k`-th cell of unit `unit`.
pub fn unit_cell_at(unit: usize, k: usize) -> (p: usize)
    requires
        unit < UNITS,
        k < GRID_SQRT,
    ensures
        p == unit_cell(unit as int, k as int),
        p < GRID_SIZE,
{
    proof {
        lemma_unit_cells(unit as int, k as int, k as int);
    }
    if unit < GRID_SQRT {
        unit * GRID_SQRT + k
    } else if unit < 2 * GRID_SQRT {
        k * GRID_SQRT + (unit - GRID_SQRT)
    } else {
        let b = unit - 2 * GRID_SQRT;
        let tl = (b / GRID_BLCK) * GRID_SQRT * GRID_BLCK + (b % GRID_BLCK) * GRID_BLCK;
        tl + (k / GRID_BLCK) * GRID_SQRT + k % GRID_BLCK
    }
}

impl Sudoku {
    /// The only cell of `unit` that can still take `value`, if the unit has
    /// exactly one such cell.
    pub fn lone_cell(&self, unit: usize, value: usize) -> (found: Option<usize>)
        requires
            self.wf(),
            markup_agrees(self@.solution, self@.markup),
            unit < UNITS,
            1 <= value <= GRID_SQRT,
        ensures
            match found {
                Some(pos) => exists|k: int| #[trigger]
                    hidden_single(self@.solution, unit as int, value as int, k) && pos
                        == unit_cell(unit as int, k),
                None => forall|k: int| !#[trigger]
                    hidden_single(self@.solution, unit as int, value as int, k),
            },
    {
        let bitmap = num_to_bitmap(value);
        let ghost g = self@.solution;
        let ghost u = unit as int;
        let ghost v = value as int;
        let mut count: usize = 0;
        let mut pos: usize = 0;
        let ghost mut first: int = 0;
        let ghost mut second: int = 0;
        let mut k: usize = 0;
        while k < GRID_SQRT
            invariant_except_break
                count <= 1,
            invariant
                self.wf(),
                markup_agrees(self@.solution, self@.markup),
                g == self@.solution,
                u == unit,
                v == value,
                unit < UNITS,
                1 <= value <= GRID_SQRT,
                bitmap == value_bit(value),
                k <= 9,
                count <= 2,
                count == 0 ==> forall|j: int|
                    0 <= j < k ==> !#[trigger] candidate(g, unit_cell(u, j), v),
                count == 1 ==> 0 <= first < k && pos == unit_cell(u, first) && candidate(
                    g,
                    unit_cell(u, first),
                    v,
                ) && forall|j: int|
                    0 <= j < k && j != first ==> !#[trigger] candidate(g, unit_cell(u, j), v),
                count == 2 ==> 0 <= first < 9 && 0 <= second < 9 && first != second && candidate(
                    g,
                    unit_cell(u, first),
                    v,
                ) && candidate(g, unit_cell(u, second), v),
            ensures
                count == 2 || k == 9,
            decreases 9 - k,
        {
            let p = unit_cell_at(unit, k);
            if self.solution[p] == 0 && (self.markup[p] & bitmap) == 0 {
                assert(!excludes(self@.markup[p as int], v));
                assert(candidate(g, unit_cell(u, k as int), v));
                count += 1;
                if count > 1 {
                    proof {
                        second = k as int;
                    }
                    break ;
                }
                pos = p;
                proof {
                    first = k as int;
                }
            } else {
                assert(self@.solution[p as int] != 0 || excludes(self@.markup[p as int], v));
                assert(!candidate(g, unit_cell(u, k as int), v));
            }
            k += 1;
        }
        if count == 1 {
            assert(hidden_single(g, u, v, first));
            Some(pos)
        } else {
            assert forall|j: int| !#[trigger] hidden_single(g, u, v, j) by {
                if count == 2 && hidden_single(g, u, v, j) {
                    if j == first {
                        assert(!candidate(g, unit_cell(u, second), v));
                    } else {
                        assert(!candidate(g, unit_cell(u, first), v));
                    }
                }
            }
            None
        }
    }

    /// Goes through the values from 1 to 9 and, for each, through the nine
    /// units that start at `first_unit`, filling in every hidden single met on
    /// the way.  Returns how many cells were filled.
    pub fn commit_singles(&mut self, first_unit: usize) -> (committed: usize)
        requires
            old(self).wf(),
            markup_agrees(old(self)@.solution, old(self)@.markup),
            first_unit == 0 || first_unit == 9 || first_unit == 18,
        ensures
            final(self).wf(),
            markup_agrees(final(self)@.solution, final(self)@.markup),
            final(self)@ == (SudokuView {
                solution: final(self)@.solution,
                markup: final(self)@.markup,
                ..old(self)@
            }),
            commits(old(self)@.solution, final(self)@.solution, committed as nat),
            committed <= 81,
            committed == 0 ==> forall|u: int, v: int, k: int|
                first_unit <= u < first_unit + 9 ==> !#[trigger] hidden_single(
                    final(self)@.solution,
                    u,
                    v,
                    k,
                ),
    {
        let mut committed: usize = 0;
        let ghost g0 = self@.solution;
        for value in 1..GRID_SQRT + 1
            invariant
                self.wf(),
                markup_agrees(self@.solution, self@.markup),
                self@ == (SudokuView {
                    solution: self@.solution,
                    markup: self@.markup,
                    ..old(self)@
                }),
                first_unit == 0 || first_unit == 9 || first_unit == 18,
                g0 == old(self)@.solution,
                commits(g0, self@.solution, committed as nat),
                committed <= (value - 1) * 9,
                committed == 0 ==> forall|u: int, v: int, k: int|
                    first_unit <= u < first_unit + 9 && v < value ==> !#[trigger] hidden_single(
                        self@.solution,
                        u,
                        v,
                        k,
                    ),
        {
            for i in 0..GRID_SQRT
                invariant
                    self.wf(),
                    markup_agrees(self@.solution, self@.markup),
                    self@ == (SudokuView {
                        solution: self@.solution,
                        markup: self@.markup,
                        ..old(self)@
                    }),
                    first_unit == 0 || first_unit == 9 || first_unit == 18,
                    1 <= value <= 9,
                    g0 == old(self)@.solution,
                    commits(g0, self@.solution, committed as nat),
                    committed <= (value - 1) * 9 + i,
                    committed == 0 ==> forall|u: int, v: int, k: int|
                        first_unit <= u < first_unit + 9 && v < value ==> !#[trigger] hidden_single(
                            self@.solution,
                            u,
                            v,
                            k,
                        ),
                    committed == 0 ==> forall|u: int, k: int|
                        first_unit <= u < first_unit + i ==> !#[trigger] hidden_single(
                            self@.solution,
                            u,
                            value as int,
                            k,
                        ),
            {
                let ghost g1 = self@.solution;
                let ghost m1 = self@.markup;
                match self.lone_cell(first_unit + i, value) {
                    Some(pos) => {
                        self.set_value_and_markup(pos, value);
                        committed += 1;
                        proof {
                            let k = choose|k: int| #[trigger]
                                hidden_single(g1, first_unit + i, value as int, k) && pos
                                    == unit_cell(first_unit + i, k);
                            lemma_marking_keeps_agreement(g1, m1, pos as int, value);
                            assert(hidden_single(g1, first_unit + i, value as int, k)
                                && self@.solution == g1.update(
                                unit_cell(first_unit + i, k),
                                (value as int) as usize,
                            ));
                            assert(single_step(g1, self@.solution));
                        }
                    },
                    None => {},
                }
            }
        }
        committed
    }

    /// Fills in hidden singles until none is left: first in the rows, then in
    /// the columns, then in the blocks, and again as long as a round fills at
    /// least one cell.
    pub fn solve_lonerangers(&mut self)
        requires
            old(self).wf(),
        ensures
            final(self).wf(),
            final(self)@ == (SudokuView {
                solution: final(self)@.solution,
                markup: final(self)@.markup,
                ..old(self)@
            }),
            markup_agrees(final(self)@.solution, final(self)@.markup),
            exists|n: nat| #[trigger] commits(old(self)@.solution, final(self)@.solution, n),
            settled(final(self)@.solution),
            extends(final(self)@.solution, old(self)@.solution),
            consistent(old(self)@.solution) ==> consistent(final(self)@.solution),
            completions(final(self)@.solution) == completions(old(self)@.solution),
    {
        let mut r_solved: usize;
        let mut c_solved: usize;
        let mut b_solved: usize;
        let ghost g0 = self@.solution;
        let ghost mut total: nat = 0;
        self.do_markup();
        loop
            invariant
                self.wf(),
                markup_agrees(self@.solution, self@.markup),
                self@ == (SudokuView {
                    solution: self@.solution,
                    markup: self@.markup,
                    ..old(self)@
                }),
                g0 == old(self)@.solution,
                commits(g0, self@.solution, total),
            ensures
                settled(self@.solution),
            decreases empties(self@.solution).len(),
        {
            let ghost g1 = self@.solution;
            r_solved = self.commit_singles(0);
            let ghost g2 = self@.solution;
            c_solved = self.commit_singles(GRID_SQRT);
            let ghost g3 = self@.solution;
            b_solved = self.commit_singles(2 * GRID_SQRT);
            proof {
                let g4 = self@.solution;
                lemma_commits_chain(g0, g1, g2, total, r_solved as nat);
                lemma_commits_chain(g0, g2, g3, total + r_solved as nat, c_solved as nat);
                lemma_commits_chain(
                    g0,
                    g3,
                    g4,
                    total + r_solved as nat + c_solved as nat,
                    b_solved as nat,
                );
                lemma_commits_chain(g1, g2, g3, r_solved as nat, c_solved as nat);
                lemma_commits_chain(g1, g3, g4, r_solved as nat + c_solved as nat, b_solved as nat);
                lemma_commits_are_sound(
                    g1,
                    g4,
                    r_solved as nat + c_solved as nat + b_solved as nat,
                );
                total = total + r_solved as nat + c_solved as nat + b_solved as nat;
            }
            if r_solved + c_solved + b_solved == 0 {
                assert(g2 == g1 && g3 == g1 && self@.solution == g1);
                break ;
            }
        }
        proof {
            lemma_commits_are_sound(g0, self@.solution, total);
        }
    }
}

} // verus!
