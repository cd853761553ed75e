//! The division of holes into classes is determined by what it has to be.
//!
//! A division puts two holes into one class exactly where a chain of
//! shared variables links them, and numbers the classes by their first
//! holes. This module proves that there is one such division and no other,
//! and gives the means to show that two holes are not linked.

use crate::pattern::{founder, has_founder, is_chain, is_decomposition, linked, shares};
use crate::pattern::{DecompositionView, HoleView};
use vstd::prelude::*;

verus! {

/// The holes of a chain are all of the class of its first hole.
pub proof fn lemma_chain_one_class(
    holes: Seq<HoleView>,
    projected: Set<Seq<char>>,
    d: DecompositionView,
    chain: Seq<int>,
    i: int,
    k: int,
    p: int,
)
    requires
        is_decomposition(holes, projected, d),
        is_chain(holes, projected, chain, i, k),
        0 <= p < chain.len(),
    ensures
        d.classes[chain[p]] == d.classes[i],
    decreases p,
{
    if p > 0 {
        lemma_chain_one_class(holes, projected, d, chain, i, k, p - 1);
        let a = chain[p - 1];
        let b = chain[p - 1 + 1];
        assert(shares(holes[a], holes[b], projected));
    }
}

/// Two holes are of one class exactly where a chain of shared variables
/// that are not projected links them.
pub proof fn lemma_class_is_link(
    holes: Seq<HoleView>,
    projected: Set<Seq<char>>,
    d: DecompositionView,
    i: int,
    k: int,
)
    requires
        is_decomposition(holes, projected, d),
        0 <= i < holes.len(),
        0 <= k < holes.len(),
    ensures
        d.classes[i] == d.classes[k] <==> linked(holes, projected, i, k),
{
    if linked(holes, projected, i, k) {
        let chain = choose|chain: Seq<int>| is_chain(holes, projected, chain, i, k);
        lemma_chain_one_class(holes, projected, d, chain, i, k, chain.len() - 1);
    }
}

/// No chain leaves a set of holes that takes in every hole that shares a
/// variable, not projected, with one of its holes: a hole of the set is
/// linked to no hole outside it.
pub proof fn lemma_closed_set_separates(
    holes: Seq<HoleView>,
    projected: Set<Seq<char>>,
    inside: Set<int>,
    i: int,
    k: int,
)
    requires
        inside.contains(i),
        !inside.contains(k),
        forall|a: int, b: int|
            0 <= a < holes.len() && 0 <= b < holes.len() && inside.contains(a) && #[trigger] shares(
                holes[a],
                holes[b],
                projected,
            ) ==> inside.contains(b),
    ensures
        !linked(holes, projected, i, k),
{
    if linked(holes, projected, i, k) {
        let chain = choose|chain: Seq<int>| is_chain(holes, projected, chain, i, k);
        lemma_chain_stays(holes, projected, inside, chain, i, k, chain.len() - 1);
    }
}

/// A chain that starts in a set of holes that takes in every hole that
/// shares a variable with one of its holes stays in the set.
pub proof fn lemma_chain_stays(
    holes: Seq<HoleView>,
    projected: Set<Seq<char>>,
    inside: Set<int>,
    chain: Seq<int>,
    i: int,
    k: int,
    p: int,
)
    requires
        inside.contains(i),
        is_chain(holes, projected, chain, i, k),
        0 <= p < chain.len(),
        forall|a: int, b: int|
            0 <= a < holes.len() && 0 <= b < holes.len() && inside.contains(a) && #[trigger] shares(
                holes[a],
                holes[b],
                projected,
            ) ==> inside.contains(b),
    ensures
        inside.contains(chain[p]),
    decreases p,
{
    if p > 0 {
        lemma_chain_stays(holes, projected, inside, chain, i, k, p - 1);
        let a = chain[p - 1];
        let b = chain[p - 1 + 1];
        assert(shares(holes[a], holes[b], projected));
    }
}

/// A hole whose class no hole before it has is the first of its class, and
/// every hole before it is of an earlier class.
pub proof fn lemma_new_is_founder(
    holes: Seq<HoleView>,
    projected: Set<Seq<char>>,
    d: DecompositionView,
    i: int,
)
    requires
        is_decomposition(holes, projected, d),
        0 <= i < holes.len(),
        forall|k: int| 0 <= k < i ==> #[trigger] d.classes[k] != d.classes[i],
    ensures
        founder(d.classes, i, d.classes[i]),
{
    let c = d.classes[i];
    assert(has_founder(d.classes, c));
    let f = choose|f: int| founder(d.classes, f, c);
    if f < i {
        assert(d.classes[f] != d.classes[i]);
    } else if f > i {
        assert(1 <= d.classes[i] < c);
    }
}

/// Two divisions of the same holes give the holes up to `i` the same
/// classes.
pub proof fn lemma_same_classes(
    holes: Seq<HoleView>,
    projected: Set<Seq<char>>,
    d: DecompositionView,
    e: DecompositionView,
    i: int,
)
    requires
        is_decomposition(holes, projected, d),
        is_decomposition(holes, projected, e),
        0 <= i <= holes.len(),
    ensures
        forall|k: int| 0 <= k < i ==> #[trigger] d.classes[k] == e.classes[k],
    decreases i,
{
    if i > 0 {
        lemma_same_classes(holes, projected, d, e, i - 1);
        let last = i - 1;
        if exists|k: int| 0 <= k < last && #[trigger] d.classes[k] == d.classes[last] {
            let k = choose|k: int| 0 <= k < last && #[trigger] d.classes[k] == d.classes[last];
            lemma_class_is_link(holes, projected, d, k, last);
            lemma_class_is_link(holes, projected, e, k, last);
        } else {
            assert forall|k: int| 0 <= k < last implies #[trigger] e.classes[k]
                != e.classes[last] by {
                lemma_class_is_link(holes, projected, d, k, last);
                lemma_class_is_link(holes, projected, e, k, last);
                assert(d.classes[k] != d.classes[last]);
            }
            lemma_new_is_founder(holes, projected, d, last);
            lemma_new_is_founder(holes, projected, e, last);
            let c = d.classes[last];
            let x = e.classes[last];
            if c < x {
                assert(has_founder(e.classes, c));
                let g = choose|g: int| founder(e.classes, g, c);
                if g < last {
                    assert(d.classes[g] == e.classes[g]);
                    assert(d.classes[g] != d.classes[last]);
                } else if g > last {
                    assert(1 <= e.classes[last] < c);
                }
            } else if x < c {
                assert(has_founder(d.classes, x));
                let g = choose|g: int| founder(d.classes, g, x);
                if g < last {
                    assert(d.classes[g] == e.classes[g]);
                    assert(e.classes[g] != e.classes[last]);
                } else if g > last {
                    assert(1 <= d.classes[last] < x);
                }
            }
        }
    }
}

/// There is one division and no other: two divisions of the same holes,
/// with the same variables projected, are equal.
pub proof fn lemma_division_unique(
    holes: Seq<HoleView>,
    projected: Set<Seq<char>>,
    d: DecompositionView,
    e: DecompositionView,
)
    requires
        is_decomposition(holes, projected, d),
        is_decomposition(holes, projected, e),
    ensures
        d == e,
{
    lemma_same_classes(holes, projected, d, e, holes.len() as int);
    assert(d.classes =~= e.classes);
    if d.n < e.n {
        assert(has_founder(e.classes, e.n));
        let g = choose|g: int| founder(e.classes, g, e.n);
        assert(1 <= d.classes[g] <= d.n);
    } else if e.n < d.n {
        assert(has_founder(d.classes, d.n));
        let g = choose|g: int| founder(d.classes, g, d.n);
        assert(1 <= e.classes[g] <= e.n);
    }
}

} // verus!
