//! Random orders: of the values tried in a cell, and of the cells that the
//! generator tries to empty.
use rand::Rng;
use vstd::prelude::*;

verus! {

/// `rand::Rng::gen_range` on the generator that `rand::thread_rng` hands out,
/// asked for a number from 0 up to `bound`.  The range is half open, so the
/// number is below `bound`; which one it is depends on chance, and nothing
/// more is claimed of it.  The call panics on an empty range, which
/// `bound > 0` rules out.  The generator seeds itself from the operating
/// system when a thread first uses it.
#[verifier::external_body]
fn random_below(bound: usize) -> (r: usize)
    requires
        bound > 0,
    ensures
        r < bound,
{
    rand::thread_rng().gen_range(0, bound)
}

/// `<[T]>::swap` of the standard library exchanges the elements at `a` and
/// `b` and leaves the others alone.  It panics when an index is out of
/// bounds.
pub assume_specification<T>[ <[T]>::swap ](slice: &mut [T], a: usize, b: usize)
    requires
        a < old(slice)@.len(),
        b < old(slice)@.len(),
    ensures
        final(slice)@ == old(slice)@.update(a as int, old(slice)@[b as int]).update(
            b as int,
            old(slice)@[a as int],
        ),
;

/// The values from 1 to 9 in ascending order.
pub open spec fn ascending() -> Seq<usize> {
    Seq::new(9, |j: int| (j + 1) as usize)
}

/// Exchanging two elements keeps what a sequence holds.
pub proof fn lemma_swap_keeps_elements<E>(s: Seq<E>, a: int, b: int)
    requires
        0 <= a < s.len(),
        0 <= b < s.len(),
    ensures
        s.update(a, s[b]).update(b, s[a]).to_multiset() == s.to_multiset(),
{
    broadcast use vstd::multiset::group_multiset_axioms;

    let s1 = s.update(a, s[b]);
    vstd::seq_lib::to_multiset_update(s, a, s[b]);
    vstd::seq_lib::to_multiset_update(s1, b, s[a]);
    s.to_multiset_ensures();
    assert(s.contains(s[a]));
    assert(s.contains(s[b]));
    assert(s1.update(b, s[a]).to_multiset() =~= s.to_multiset());
}

/// Two sequences that hold the same elements equally often are equally long
/// and have the same members; if one has no element twice, neither has the
/// other.
pub proof fn lemma_same_elements<E>(a: Seq<E>, b: Seq<E>)
    requires
        a.to_multiset() == b.to_multiset(),
    ensures
        a.len() == b.len(),
        forall|x: E| a.contains(x) <==> b.contains(x),
        b.no_duplicates() ==> a.no_duplicates(),
{
    broadcast use vstd::multiset::group_multiset_axioms;

    a.to_multiset_ensures();
    b.to_multiset_ensures();
    assert forall|x: E| a.contains(x) <==> b.contains(x) by {
        assert(a.contains(x) <==> a.to_multiset().count(x) > 0);
        assert(b.contains(x) <==> b.to_multiset().count(x) > 0);
    }
    if b.no_duplicates() {
        b.lemma_multiset_has_no_duplicates();
        a.lemma_multiset_has_no_duplicates_conv();
    }
}

/// A rearrangement of the values from 1 to 9 holds each of them once.
pub proof fn lemma_order_facts(ns: Seq<usize>)
    requires
        ns.to_multiset() == ascending().to_multiset(),
    ensures
        ns.len() == 9,
        ns.no_duplicates(),
        forall|j: int| 0 <= j < 9 ==> 1 <= #[trigger] ns[j] <= 9,
        forall|v: usize| 1 <= v <= 9 ==> ns.contains(v),
{
    let up = ascending();
    assert(up.no_duplicates());
    lemma_same_elements(ns, up);
    assert forall|j: int| 0 <= j < 9 implies 1 <= #[trigger] ns[j] <= 9 by {
        assert(ns.contains(ns[j]));
        assert(up.contains(ns[j]));
    }
    assert forall|v: usize| 1 <= v <= 9 implies ns.contains(v) by {
        assert(up[v - 1] == v);
        assert(up.contains(v));
    }
}

/// Rearranges `v` at random: each place from the last to the first receives
/// an element drawn from those not yet placed, as [`rearranged`] describes.
pub fn shuffle<E>(v: &mut [E])
    ensures
        final(v)@.len() == old(v)@.len(),
        final(v)@.to_multiset() == old(v)@.to_multiset(),
        exists|draws: Seq<int>|
            admissible(draws, old(v)@.len() as int) && final(v)@ == #[trigger] rearranged(
                old(v)@,
                draws,
            ),
{
    let len = v.len();
    let ghost mut draws: Seq<int> = Seq::empty();
    for n in 0..len
        invariant
            v@.len() == len,
            len == old(v)@.len(),
            v@.to_multiset() == old(v)@.to_multiset(),
            draws.len() == n,
            forall|m: int| 0 <= m < n ==> 0 <= #[trigger] draws[m] < len - m,
            v@ == rearranged(old(v)@, draws),
    {
        let i = random_below(len - n);
        proof {
            lemma_swap_keeps_elements(v@, i as int, len - n - 1);
        }
        place_drawn(v, n, i);
        proof {
            let longer = draws.push(i as int);
            assert(longer.drop_last() =~= draws);
            draws = longer;
        }
    }
}

/// Whether `draws` can be the draws of a shuffle of `len` elements: there is
/// one for each place, and the `n`-th is taken from the `len - n` elements
/// not yet placed.
pub open spec fn admissible(draws: Seq<int>, len: int) -> bool {
    &&& draws.len() == len
    &&& forall|n: int| 0 <= n < len ==> 0 <= #[trigger] draws[n] < len - n
}

/// What the draws make of `s`: for each `n` in turn, the element at
/// `draws[n]` changes places with the one at `s.len() - n - 1`, so that the
/// places are filled from the last to the first.
pub open spec fn rearranged<E>(s: Seq<E>, draws: Seq<int>) -> Seq<E>
    decreases draws.len(),
{
    if draws.len() == 0 {
        s
    } else {
        let before = rearranged(s, draws.drop_last());
        let place = s.len() - draws.len();
        before.update(draws.last(), before[place]).update(place, before[draws.last()])
    }
}

/// The step of the shuffle that fills the `n`-th place from the end: the
/// element at `i`, one of those not yet placed, changes places with the last
/// of them.
pub fn place_drawn<E>(v: &mut [E], n: usize, i: usize)
    requires
        n < old(v)@.len(),
        i < old(v)@.len() - n,
    ensures
        final(v)@ == old(v)@.update(i as int, old(v)@[old(v)@.len() - n - 1]).update(
            old(v)@.len() - n - 1,
            old(v)@[i as int],
        ),
{
    let len = v.len();
    v.swap(i, len - n - 1);
}

} // verus!
