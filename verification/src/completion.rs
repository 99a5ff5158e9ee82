//! The completions of a grid as a finite set, and how that set splits when a
//! value is tried in an empty cell.
use crate::grid::{
    cells_valid, complete, completes, completions, consistent, empties, extends, in_grid, peers,
    solved, used,
};
use crate::propagate::lemma_empties_finite;
use vstd::prelude::*;

verus! {

/// The completions of `g` whose cell `p` holds one of the values in `tried`.
pub open spec fn with_choice(g: Seq<usize>, p: int, tried: Set<usize>) -> Set<Seq<usize>> {
    Set::new(|s: Seq<usize>| completes(s, g) && tried.contains(s[p]))
}

/// The values from 1 to `n`.
pub open spec fn values_upto(n: nat) -> Set<usize> {
    Set::new(|w: usize| 1 <= w <= n)
}

/// A full grid has no completion but itself.
pub proof fn lemma_complete_grid(g: Seq<usize>)
    requires
        g.len() == 81,
        complete(g),
    ensures
        completions(g).subset_of(set![g]),
        completions(g).finite(),
        solved(g) ==> completions(g) == set![g] && completions(g).len() == 1,
{
    assert forall|s: Seq<usize>| completions(g).contains(s) implies s == g by {
        assert forall|p: int| 0 <= p < 81 implies s[p] == g[p] by {
            assert(in_grid(p) && g[p] != 0);
        }
        assert(s =~= g);
    }
    vstd::set_lib::lemma_len_subset(completions(g), set![g]);
    if solved(g) {
        assert(completes(g, g));
        assert(completions(g) =~= set![g]);
    }
}

/// What placing `v` in the empty cell `p` does: it selects the completions
/// that hold `v` there, of which there is none when a peer of `p` holds `v`
/// already; it keeps the grid valid, and consistent when no peer holds `v`;
/// and it takes `p` from the empty cells.
pub proof fn lemma_placing(g: Seq<usize>, p: int, v: usize)
    requires
        g.len() == 81,
        in_grid(p),
        g[p] == 0,
        1 <= v <= 9,
    ensures
        completions(g.update(p, v)) == with_choice(g, p, set![v]),
        used(g, p, v as int) ==> completions(g.update(p, v)) == Set::<Seq<usize>>::empty(),
        consistent(g) && !used(g, p, v as int) ==> consistent(g.update(p, v)),
        cells_valid(g) ==> cells_valid(g.update(p, v)),
        empties(g.update(p, v)) == empties(g).remove(p),
        empties(g.update(p, v)).len() + 1 == empties(g).len(),
        g.update(p, v).update(p, 0) == g,
{
    let g2 = g.update(p, v);
    assert forall|s: Seq<usize>| completes(s, g2) implies completes(s, g) && s[p] == v by {
        assert(g2[p] != 0);
        assert forall|q: int| in_grid(q) && g[q] != 0 implies #[trigger] s[q] == g[q] by {
            assert(g2[q] == g[q]);
        }
    }
    assert forall|s: Seq<usize>| completes(s, g) && s[p] == v implies completes(s, g2) by {
        assert forall|q: int| in_grid(q) && g2[q] != 0 implies #[trigger] s[q] == g2[q] by {
            if q != p {
                assert(g2[q] == g[q]);
            }
        }
    }
    assert(completions(g2) =~= with_choice(g, p, set![v]));
    if used(g, p, v as int) {
        let q = choose|q: int| in_grid(q) && #[trigger] peers(p, q) && g[q] == v;
        assert forall|s: Seq<usize>| !completes(s, g2) by {
            if completes(s, g2) {
                assert(s[q] == g[q]);
                assert(peers(p, q));
            }
        }
        assert(completions(g2) =~= Set::<Seq<usize>>::empty());
    }
    if consistent(g) && !used(g, p, v as int) {
        assert forall|a: int, b: int|
            in_grid(a) && in_grid(b) && a != b && #[trigger] peers(a, b) && g2[a] != 0 implies g2[a]
            != g2[b] by {
            if a == p {
                if g[b] == v {
                    assert(in_grid(b) && peers(p, b) && g[b] == v);
                }
            } else if b == p {
                if g[a] == v {
                    assert(peers(p, a));
                    assert(in_grid(a) && peers(p, a) && g[a] == v);
                }
            }
        }
    }
    lemma_empties_finite(g);
    assert(empties(g2) =~= empties(g).remove(p));
    assert(g2.update(p, 0) =~= g);
}

/// Trying one more value in the empty cell `p` adds the completions of the
/// grid with that value placed, and these are new when the value is.
pub proof fn lemma_choice_grows(g: Seq<usize>, p: int, tried: Set<usize>, v: usize)
    requires
        g.len() == 81,
        in_grid(p),
        g[p] == 0,
        1 <= v <= 9,
    ensures
        with_choice(g, p, tried.insert(v)) == with_choice(g, p, tried) + completions(
            g.update(p, v),
        ),
        !tried.contains(v) ==> with_choice(g, p, tried).disjoint(completions(g.update(p, v))),
{
    lemma_placing(g, p, v);
    assert(with_choice(g, p, tried.insert(v)) =~= with_choice(g, p, tried) + with_choice(
        g,
        p,
        set![v],
    ));
}

/// Once every value was tried in the cell `p`, every completion was met.
pub proof fn lemma_choice_exhausted(g: Seq<usize>, p: int, tried: Set<usize>)
    requires
        in_grid(p),
        forall|v: usize| 1 <= v <= 9 ==> tried.contains(v),
    ensures
        with_choice(g, p, tried) == completions(g),
{
    assert forall|s: Seq<usize>| completes(s, g) implies tried.contains(s[p]) by {
        assert(s[p] != 0);
        assert(s[p] <= 9);
    }
    assert(with_choice(g, p, tried) =~= completions(g));
}

/// The completions that hold one of the first `n` values in the empty cell
/// `p` are finitely many.
pub proof fn lemma_choice_finite(g: Seq<usize>, p: int, n: nat)
    requires
        g.len() == 81,
        in_grid(p),
        g[p] == 0,
        n <= 9,
    ensures
        with_choice(g, p, values_upto(n)).finite(),
    decreases empties(g).len(), n,
{
    if n == 0 {
        assert(with_choice(g, p, values_upto(0)) =~= Set::<Seq<usize>>::empty());
    } else {
        let v = n as usize;
        lemma_choice_finite(g, p, (n - 1) as nat);
        lemma_placing(g, p, v);
        lemma_completions_finite(g.update(p, v));
        lemma_choice_grows(g, p, values_upto((n - 1) as nat), v);
        assert(values_upto(n) =~= values_upto((n - 1) as nat).insert(v));
    }
}

/// A grid has finitely many completions.
pub proof fn lemma_completions_finite(g: Seq<usize>)
    requires
        g.len() == 81,
    ensures
        completions(g).finite(),
    decreases empties(g).len(), 10nat,
{
    if exists|p: int| in_grid(p) && g[p] == 0 {
        let p = choose|p: int| in_grid(p) && g[p] == 0;
        lemma_choice_finite(g, p, 9);
        lemma_choice_exhausted(g, p, values_upto(9));
    } else {
        lemma_complete_grid(g);
    }
}

/// A grid that has a completion is valid and consistent.
pub proof fn lemma_completable_grid(g: Seq<usize>, s: Seq<usize>)
    requires
        g.len() == 81,
        completes(s, g),
    ensures
        cells_valid(g),
        consistent(g),
{
    assert forall|p: int| 0 <= p < 81 implies #[trigger] g[p] <= 9 by {
        if g[p] != 0 {
            assert(in_grid(p) && s[p] == g[p]);
        }
    }
    assert forall|a: int, b: int|
        in_grid(a) && in_grid(b) && a != b && #[trigger] peers(a, b) && g[a] != 0 implies g[a]
        != g[b] by {
        assert(s[a] == g[a]);
        if g[b] != 0 {
            assert(s[b] == g[b]);
        }
    }
}

/// Emptying a cell loses no completion and keeps the grid valid and
/// consistent.
pub proof fn lemma_clearing(g: Seq<usize>, p: int)
    requires
        g.len() == 81,
        in_grid(p),
    ensures
        completions(g).subset_of(completions(g.update(p, 0))),
        completions(g).len() <= completions(g.update(p, 0)).len(),
        cells_valid(g) ==> cells_valid(g.update(p, 0)),
        consistent(g) ==> consistent(g.update(p, 0)),
{
    let g2 = g.update(p, 0);
    assert forall|s: Seq<usize>| completes(s, g) implies completes(s, g2) by {
        assert forall|q: int| in_grid(q) && g2[q] != 0 implies #[trigger] s[q] == g2[q] by {
            assert(g2[q] == g[q]);
        }
    }
    lemma_completions_finite(g2);
    vstd::set_lib::lemma_len_subset(completions(g), completions(g2));
    if consistent(g) {
        assert forall|a: int, b: int|
            in_grid(a) && in_grid(b) && a != b && #[trigger] peers(a, b) && g2[a] != 0 implies g2[a]
            != g2[b] by {
            assert(g2[a] == g[a]);
            if b != p {
                assert(g2[b] == g[b]);
            }
        }
    }
}

/// A grid that keeps the filled cells of another has its completions among
/// the other's.
pub proof fn lemma_fewer_clues_more_completions(g: Seq<usize>, h: Seq<usize>)
    requires
        g.len() == 81,
        h.len() == 81,
        extends(g, h),
    ensures
        completions(g).subset_of(completions(h)),
        completions(g).len() <= completions(h).len(),
{
    assert forall|s: Seq<usize>| completes(s, g) implies completes(s, h) by {
        assert forall|q: int| in_grid(q) && h[q] != 0 implies #[trigger] s[q] == h[q] by {
            assert(g[q] == h[q]);
        }
    }
    lemma_completions_finite(h);
    vstd::set_lib::lemma_len_subset(completions(g), completions(h));
}

} // verus!
