//! What the solver and the generator promise, stated over the grids and the
//! outcomes that their contracts speak of.
use crate::completion::{
    lemma_clearing, lemma_completable_grid, lemma_complete_grid, lemma_completions_finite,
};
use crate::generate::proper;
use crate::grid::{
    cells_valid, complete, completions, consistent, in_grid, lemma_unit_cells,
    lemma_unit_holds_every_value, peers, solved, unit_cell,
};
use crate::order::lemma_rank_decides;
use crate::propagate::{commits, lemma_commits_are_sound, lemma_settled_grid_holds_commits};
use crate::search::{fast_outcome, ordered_outcome, propagated, search_outcome};
use vstd::prelude::*;

verus! {

/// In a solved grid every row, every column and every block is a permutation
/// of the values from 1 to 9: each value stands in exactly one cell of the
/// unit.
pub proof fn lemma_solved_units_are_permutations(s: Seq<usize>, u: int, v: int) -> (k: int)
    requires
        solved(s),
        0 <= u < 27,
        1 <= v <= 9,
    ensures
        0 <= k < 9,
        s[unit_cell(u, k)] == v,
        forall|j: int| 0 <= j < 9 && j != k ==> s[#[trigger] unit_cell(u, j)] != v,
{
    let k = lemma_unit_holds_every_value(s, u, v);
    assert forall|j: int| 0 <= j < 9 && j != k implies s[#[trigger] unit_cell(u, j)] != v by {
        lemma_unit_cells(u, k, j);
        lemma_unit_cells(u, j, j);
        assert(peers(unit_cell(u, k), unit_cell(u, j)));
    }
    k
}

/// A full grid that a search leaves behind is solved, whichever order the
/// search went by.
pub proof fn lemma_search_leaves_solved_grids(
    g: Seq<usize>,
    c: nat,
    limit: nat,
    g2: Seq<usize>,
    c2: nat,
)
    requires
        cells_valid(g),
        consistent(g),
        search_outcome(g, c, limit, g2, c2),
        complete(g2),
    ensures
        solved(g2),
{
}

/// The solver, asked for one completion of a solved grid, counts one and
/// leaves the grid as it is.
pub proof fn lemma_solved_grid_is_kept(g: Seq<usize>, h: Seq<usize>, g2: Seq<usize>, c2: nat)
    requires
        solved(g),
        fast_outcome(g, 1, h, g2, c2),
    ensures
        c2 == 1,
        g2 == g,
{
    lemma_complete_grid(g);
}

/// Emptying one cell of a grid with exactly one completion never leaves the
/// solver, asked for two completions, with none: it counts one or two.
pub proof fn lemma_clearing_keeps_a_completion(
    g: Seq<usize>,
    p: int,
    h: Seq<usize>,
    g2: Seq<usize>,
    c2: nat,
)
    requires
        g.len() == 81,
        completions(g).len() == 1,
        in_grid(p),
        fast_outcome(g.update(p, 0), 2, h, g2, c2),
    ensures
        c2 == 1 || c2 == 2,
{
    lemma_completions_finite(g);
    let s = completions(g).choose();
    assert(completions(g).contains(s));
    lemma_completable_grid(g, s);
    lemma_clearing(g, p);
}

/// The solver, asked for two completions of a generated puzzle, counts one.
pub proof fn lemma_generated_puzzle_is_unique(
    g: Seq<usize>,
    h: Seq<usize>,
    g2: Seq<usize>,
    c2: nat,
)
    requires
        proper(g),
        fast_outcome(g, 2, h, g2, c2),
    ensures
        c2 == 1,
{
}

/// Two ascending searches from the same grid, count and limit leave the same
/// grid and the same count behind.
pub proof fn lemma_ordered_search_is_deterministic(
    g: Seq<usize>,
    c: nat,
    limit: nat,
    a: Seq<usize>,
    ca: nat,
    b: Seq<usize>,
    cb: nat,
)
    requires
        g.len() == 81,
        ordered_outcome(g, c, limit, a, ca),
        ordered_outcome(g, c, limit, b, cb),
    ensures
        a == b,
        ca == cb,
{
    if c + completions(g).len() >= limit {
        lemma_rank_decides(g, a, b);
    }
}

/// Filling in hidden singles changes nothing about the completions of a
/// grid, so the pass before the search cannot change the count.
pub proof fn lemma_propagation_keeps_the_count(g: Seq<usize>, h: Seq<usize>, n: nat)
    requires
        g.len() == 81,
        commits(g, h, n),
    ensures
        completions(h) == completions(g),
        completions(h).len() == completions(g).len(),
{
    lemma_commits_are_sound(g, h, n);
}

/// On a grid that has a completion, the hidden singles lead to one grid only,
/// in whichever order they are filled in.
pub proof fn lemma_propagation_is_determined(g: Seq<usize>, a: Seq<usize>, b: Seq<usize>)
    requires
        g.len() == 81,
        completions(g).len() >= 1,
        propagated(g, a),
        propagated(g, b),
    ensures
        a == b,
{
    lemma_completions_finite(g);
    let s = completions(g).choose();
    assert(completions(g).contains(s));
    let na = choose|n: nat| #[trigger] commits(g, a, n);
    let nb = choose|n: nat| #[trigger] commits(g, b, n);
    lemma_commits_are_sound(g, a, na);
    lemma_commits_are_sound(g, b, nb);
    lemma_settled_grid_holds_commits(g, a, na, b, nb, s);
    lemma_settled_grid_holds_commits(g, b, nb, a, na, s);
    assert forall|p: int| 0 <= p < 81 implies a[p] == b[p] by {
        if b[p] != 0 {
            assert(in_grid(p) && a[p] == b[p]);
        } else if a[p] != 0 {
            assert(in_grid(p) && b[p] == a[p]);
        }
    }
    assert(a =~= b);
}

/// Two runs of the solver on the same consistent grid with the same limit
/// report the same count, and leave the same grid behind when the grid has a
/// completion.
pub proof fn lemma_solver_is_deterministic(
    g: Seq<usize>,
    limit: nat,
    ha: Seq<usize>,
    a: Seq<usize>,
    ca: nat,
    hb: Seq<usize>,
    b: Seq<usize>,
    cb: nat,
)
    requires
        cells_valid(g),
        consistent(g),
        fast_outcome(g, limit, ha, a, ca),
        fast_outcome(g, limit, hb, b, cb),
    ensures
        ca == cb,
        completions(g).len() >= 1 ==> a == b && ha == hb,
{
    if completions(g).len() >= 1 {
        lemma_propagation_is_determined(g, ha, hb);
        if 0 < limit <= completions(g).len() {
            lemma_rank_decides(g, a, b);
        }
    }
}

} // verus!
