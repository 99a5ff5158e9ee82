//! The order in which the ascending search meets the completions of a grid:
//! cell by cell, the smaller value first.
use crate::completion::{lemma_completions_finite, lemma_placing, values_upto, with_choice};
use crate::grid::{completes, completions, in_grid};
use vstd::prelude::*;

verus! {

/// Whether `a` and `b` agree before cell `k` and `a` holds the smaller value
/// there.
pub open spec fn first_gap(a: Seq<usize>, b: Seq<usize>, k: int) -> bool {
    &&& in_grid(k)
    &&& a[k] < b[k]
    &&& forall|j: int| 0 <= j < k ==> #[trigger] a[j] == b[j]
}

/// Whether `a` comes before `b`: at the first cell where they differ, `a`
/// holds the smaller value.
pub open spec fn lex_lt(a: Seq<usize>, b: Seq<usize>) -> bool {
    exists|k: int| #[trigger] first_gap(a, b, k)
}

/// The completions of `g` that come before `t`.
pub open spec fn earlier(g: Seq<usize>, t: Seq<usize>) -> Set<Seq<usize>> {
    Set::new(|s: Seq<usize>| completes(s, g) && lex_lt(s, t))
}

/// No grid comes before itself.
pub proof fn lemma_lex_irreflexive(a: Seq<usize>)
    ensures
        !lex_lt(a, a),
{
}

/// What comes before a grid comes before every later grid.
pub proof fn lemma_lex_transitive(a: Seq<usize>, b: Seq<usize>, c: Seq<usize>)
    requires
        lex_lt(a, b),
        lex_lt(b, c),
    ensures
        lex_lt(a, c),
{
    let k1 = choose|k: int| #[trigger] first_gap(a, b, k);
    let k2 = choose|k: int| #[trigger] first_gap(b, c, k);
    let k = if k1 <= k2 {
        k1
    } else {
        k2
    };
    assert forall|j: int| 0 <= j < k implies #[trigger] a[j] == c[j] by {
        assert(a[j] == b[j]);
        assert(b[j] == c[j]);
    }
    if k1 < k2 {
        assert(b[k1] == c[k1]);
    } else if k2 < k1 {
        assert(a[k2] == b[k2]);
    }
    assert(first_gap(a, c, k));
}

/// Two grids that agree before cell `n` and differ somewhere are ordered.
proof fn lemma_first_difference(a: Seq<usize>, b: Seq<usize>, n: int)
    requires
        a.len() == 81,
        b.len() == 81,
        0 <= n <= 81,
        forall|j: int| 0 <= j < n ==> #[trigger] a[j] == b[j],
        a != b,
    ensures
        lex_lt(a, b) || lex_lt(b, a),
    decreases 81 - n,
{
    if n == 81 {
        assert(a =~= b);
    } else if a[n] == b[n] {
        lemma_first_difference(a, b, n + 1);
    } else if a[n] < b[n] {
        assert(first_gap(a, b, n));
    } else {
        assert forall|j: int| 0 <= j < n implies #[trigger] b[j] == a[j] by {
            assert(a[j] == b[j]);
        }
        assert(first_gap(b, a, n));
    }
}

/// Of two different grids one comes before the other.
pub proof fn lemma_lex_total(a: Seq<usize>, b: Seq<usize>)
    requires
        a.len() == 81,
        b.len() == 81,
        a != b,
    ensures
        lex_lt(a, b) || lex_lt(b, a),
{
    lemma_first_difference(a, b, 0);
}

/// The completions that come before a grid are finitely many.
pub proof fn lemma_earlier_finite(g: Seq<usize>, t: Seq<usize>)
    requires
        g.len() == 81,
    ensures
        earlier(g, t).finite(),
        earlier(g, t).len() <= completions(g).len(),
{
    lemma_completions_finite(g);
    assert(earlier(g, t).subset_of(completions(g)));
    vstd::set_lib::lemma_len_subset(earlier(g, t), completions(g));
}

/// Let `p` be the first empty cell of `g`, and `t` a completion of `g` with
/// `v` placed at `p`.  The completions of `g` that come before `t` are those
/// that hold a smaller value at `p`, and those that hold `v` there and come
/// before `t`.
pub proof fn lemma_earlier_splits(g: Seq<usize>, p: int, v: usize, t: Seq<usize>)
    requires
        g.len() == 81,
        in_grid(p),
        g[p] == 0,
        forall|q: int| 0 <= q < p ==> #[trigger] g[q] != 0,
        1 <= v <= 9,
        completes(t, g.update(p, v)),
    ensures
        earlier(g, t) == with_choice(g, p, values_upto((v - 1) as nat)) + earlier(
            g.update(p, v),
            t,
        ),
        with_choice(g, p, values_upto((v - 1) as nat)).disjoint(earlier(g.update(p, v), t)),
{
    let g1 = g.update(p, v);
    let low = with_choice(g, p, values_upto((v - 1) as nat));
    lemma_placing(g, p, v);
    assert(completions(g1).contains(t));
    assert(completes(t, g) && t[p] == v);
    assert forall|s: Seq<usize>| completes(s, g) implies (lex_lt(s, t) <==> s[p] < v || (s[p] == v
        && lex_lt(s, t))) by {
        assert forall|j: int| 0 <= j < p implies #[trigger] s[j] == t[j] by {
            assert(g[j] != 0);
            assert(s[j] == g[j]);
            assert(t[j] == g[j]);
        }
        if lex_lt(s, t) {
            let k = choose|k: int| #[trigger] first_gap(s, t, k);
            if k < p {
                assert(s[k] == t[k]);
            } else if k > p {
                assert(s[p] == t[p]);
            }
        }
        if s[p] < v {
            assert(first_gap(s, t, p));
        }
    }
    assert forall|s: Seq<usize>| earlier(g, t).contains(s) <==> (low + earlier(g1, t)).contains(
        s,
    ) by {
        if completes(s, g) {
            assert(s[p] != 0);
            assert(completions(g1).contains(s) <==> with_choice(g, p, set![v]).contains(s));
        }
        if completes(s, g1) {
            assert(completions(g1).contains(s));
            assert(with_choice(g, p, set![v]).contains(s));
        }
    }
    assert(earlier(g, t) =~= low + earlier(g1, t));
    assert forall|s: Seq<usize>| !(low.contains(s) && earlier(g1, t).contains(s)) by {
        if completes(s, g1) {
            assert(completions(g1).contains(s));
            assert(with_choice(g, p, set![v]).contains(s));
        }
    }
}

/// Two completions with equally many completions before them are the same.
pub proof fn lemma_rank_decides(g: Seq<usize>, a: Seq<usize>, b: Seq<usize>)
    requires
        g.len() == 81,
        completes(a, g),
        completes(b, g),
        earlier(g, a).len() == earlier(g, b).len(),
    ensures
        a == b,
{
    if a != b {
        lemma_lex_total(a, b);
        lemma_earlier_finite(g, a);
        lemma_earlier_finite(g, b);
        lemma_lex_irreflexive(a);
        lemma_lex_irreflexive(b);
        if lex_lt(a, b) {
            assert forall|s: Seq<usize>| earlier(g, a).contains(s) implies earlier(g, b).contains(
                s,
            ) by {
                lemma_lex_transitive(s, a, b);
            }
            earlier(g, a).lemma_subset_not_in_lt(earlier(g, b), a);
        } else {
            assert forall|s: Seq<usize>| earlier(g, b).contains(s) implies earlier(g, a).contains(
                s,
            ) by {
                lemma_lex_transitive(s, b, a);
            }
            earlier(g, b).lemma_subset_not_in_lt(earlier(g, a), b);
        }
    }
}

} // verus!
