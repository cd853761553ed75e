//! The view field as a list of slots.
//!
//! The arena says of every node who its neighbours are; a list of slots
//! says in which order the nodes stand. This module ties the two: what it
//! means that an arena holds a list, and what the operations on links do to
//! the lists that an arena holds.

use crate::runtime::{link_spec, pair_spec, reaches, unlink_next_spec, unlink_prev_spec};
use crate::runtime::walk_objects;
use crate::runtime::{ChainView, NodeView, ObjectView};
use vstd::prelude::*;

verus! {

/// The slot `ids[i]` and the slot behind it in `ids` are linked, each
/// naming the other.
pub open spec fn joined(nodes: Seq<NodeView>, ids: Seq<usize>, i: int) -> bool {
    nodes[ids[i] as int].next == Some(ids[i + 1]) && nodes[ids[i + 1] as int].prev == Some(ids[i])
}

/// The arena holds `ids` as a piece of a chain: the slots are all
/// different, and each is linked with the one behind it.
pub open spec fn seg(nodes: Seq<NodeView>, ids: Seq<usize>) -> bool {
    &&& forall|i: int| 0 <= i < ids.len() ==> (#[trigger] ids[i]) < nodes.len()
    &&& forall|i: int, j: int| 0 <= i < j < ids.len() ==> (#[trigger] ids[i]) != (#[trigger] ids[j])
    &&& forall|i: int| 0 <= i < ids.len() - 1 ==> #[trigger] joined(nodes, ids, i)
}

/// No slot of `a` is a slot of `b`.
pub open spec fn apart(a: Seq<usize>, b: Seq<usize>) -> bool {
    forall|i: int, j: int|
        0 <= i < a.len() && 0 <= j < b.len() ==> (#[trigger] a[i]) != (#[trigger] b[j])
}

/// The chain is the list `ids`: it leads from the first sentinel to the
/// last, and nothing follows the last.
pub open spec fn lists(chain: ChainView, ids: Seq<usize>) -> bool {
    &&& ids.len() > 0
    &&& seg(chain.nodes, ids)
    &&& ids[0] == chain.first
    &&& ids.last() == chain.last
    &&& chain.nodes[chain.last as int].next is None
}

/// The objects in the slots `ids`, in their order.
pub open spec fn objects(nodes: Seq<NodeView>, ids: Seq<usize>) -> Seq<ObjectView> {
    Seq::new(ids.len(), |i: int| nodes[ids[i] as int].object)
}

/// The objects without the sentinels.
pub open spec fn strip(objs: Seq<ObjectView>) -> Seq<ObjectView>
    decreases objs.len(),
{
    if objs.len() == 0 {
        Seq::empty()
    } else if objs[0] is First || objs[0] is Last {
        strip(objs.skip(1))
    } else {
        seq![objs[0]] + strip(objs.skip(1))
    }
}

/// Two pieces that are apart and linked where they meet are one piece.
pub proof fn lemma_seg_concat(nodes: Seq<NodeView>, x: Seq<usize>, y: Seq<usize>)
    requires
        seg(nodes, x),
        seg(nodes, y),
        apart(x, y),
        x.len() > 0 && y.len() > 0 ==> nodes[x.last() as int].next == Some(y[0]) && nodes[y[0] as int].prev
            == Some(x.last()),
    ensures
        seg(nodes, x + y),
{
    let z = x + y;
    assert forall|i: int| 0 <= i < z.len() implies (#[trigger] z[i]) < nodes.len() by {
        if i < x.len() {
            assert(z[i] == x[i]);
        } else {
            assert(z[i] == y[i - x.len()]);
        }
    }
    assert forall|i: int, j: int| 0 <= i < j < z.len() implies (#[trigger] z[i]) != (#[trigger] z[j]) by {
        if j < x.len() {
            assert(z[i] == x[i] && z[j] == x[j]);
        } else if i < x.len() {
            assert(z[i] == x[i] && z[j] == y[j - x.len()]);
        } else {
            assert(z[i] == y[i - x.len()] && z[j] == y[j - x.len()]);
        }
    }
    assert forall|i: int| 0 <= i < z.len() - 1 implies #[trigger] joined(nodes, z, i) by {
        if i + 1 < x.len() {
            assert(joined(nodes, x, i));
            assert(z[i] == x[i] && z[i + 1] == x[i + 1]);
        } else if i < x.len() {
            assert(z[i] == x.last() && z[i + 1] == y[0]);
        } else {
            assert(joined(nodes, y, i - x.len()));
            assert(z[i] == y[i - x.len()] && z[i + 1] == y[i - x.len() + 1]);
        }
    }
}

/// A piece falls into two pieces that are apart and linked where they meet.
pub proof fn lemma_seg_split(nodes: Seq<NodeView>, x: Seq<usize>, y: Seq<usize>)
    requires
        seg(nodes, x + y),
    ensures
        seg(nodes, x),
        seg(nodes, y),
        apart(x, y),
        x.len() > 0 && y.len() > 0 ==> nodes[x.last() as int].next == Some(y[0]) && nodes[y[0] as int].prev
            == Some(x.last()),
{
    let z = x + y;
    assert forall|i: int| 0 <= i < x.len() implies (#[trigger] x[i]) < nodes.len() by {
        assert(z[i] == x[i]);
    }
    assert forall|i: int| 0 <= i < y.len() implies (#[trigger] y[i]) < nodes.len() by {
        assert(z[i + x.len()] == y[i]);
    }
    assert forall|i: int, j: int| 0 <= i < j < x.len() implies (#[trigger] x[i]) != (#[trigger] x[j]) by {
        assert(z[i] == x[i] && z[j] == x[j]);
    }
    assert forall|i: int, j: int| 0 <= i < j < y.len() implies (#[trigger] y[i]) != (#[trigger] y[j]) by {
        assert(z[i + x.len()] == y[i] && z[j + x.len()] == y[j]);
    }
    assert forall|i: int, j: int| 0 <= i < x.len() && 0 <= j < y.len() implies (#[trigger] x[i]) != (
    #[trigger] y[j]) by {
        assert(z[i] == x[i] && z[j + x.len()] == y[j]);
    }
    assert forall|i: int| 0 <= i < x.len() - 1 implies #[trigger] joined(nodes, x, i) by {
        assert(joined(nodes, z, i));
        assert(z[i] == x[i] && z[i + 1] == x[i + 1]);
    }
    assert forall|i: int| 0 <= i < y.len() - 1 implies #[trigger] joined(nodes, y, i) by {
        assert(joined(nodes, z, i + x.len()));
        assert(z[i + x.len()] == y[i] && z[i + x.len() + 1] == y[i + 1]);
    }
    if x.len() > 0 && y.len() > 0 {
        assert(joined(nodes, z, x.len() - 1));
        assert(z[x.len() - 1] == x.last() && z[x.len() - 1 + 1] == y[0]);
    }
}

/// A piece is a piece of every arena in which its slots have the same
/// neighbours.
pub proof fn lemma_seg_same(nodes: Seq<NodeView>, other: Seq<NodeView>, ids: Seq<usize>)
    requires
        seg(nodes, ids),
        other.len() >= nodes.len(),
        forall|i: int|
            0 <= i < ids.len() ==> other[(#[trigger] ids[i]) as int].next == nodes[ids[i] as int].next
                && other[ids[i] as int].prev == nodes[ids[i] as int].prev,
    ensures
        seg(other, ids),
{
    assert forall|i: int| 0 <= i < ids.len() - 1 implies #[trigger] joined(other, ids, i) by {
        assert(joined(nodes, ids, i));
        let _ = ids[i];
        let _ = ids[i + 1];
    }
}

/// A link leaves a piece as it is where it starts at none of the piece's
/// slots but the last and ends at none but the first.
pub proof fn lemma_link_keeps_seg(nodes: Seq<NodeView>, a: usize, b: usize, ids: Seq<usize>)
    requires
        seg(nodes, ids),
        a < nodes.len(),
        b < nodes.len(),
        forall|i: int| 0 <= i < ids.len() - 1 ==> (#[trigger] ids[i]) != a,
        forall|i: int| 0 < i < ids.len() ==> (#[trigger] ids[i]) != b,
    ensures
        seg(link_spec(nodes, a, b), ids),
{
    let after = link_spec(nodes, a, b);
    assert forall|i: int| 0 <= i < ids.len() - 1 implies #[trigger] joined(after, ids, i) by {
        assert(joined(nodes, ids, i));
        let _ = ids[i];
        let _ = ids[i + 1];
    }
}

/// A link from the last slot of one piece to the first slot of another
/// makes one piece of the two.
pub proof fn lemma_link_joins(nodes: Seq<NodeView>, x: Seq<usize>, y: Seq<usize>)
    requires
        seg(nodes, x),
        seg(nodes, y),
        apart(x, y),
        x.len() > 0,
        y.len() > 0,
    ensures
        seg(link_spec(nodes, x.last(), y[0]), x + y),
{
    let a = x.last();
    let b = y[0];
    let after = link_spec(nodes, a, b);
    assert forall|i: int| 0 < i < x.len() implies (#[trigger] x[i]) != b by {
        let _ = y[0];
    }
    assert forall|i: int| 0 <= i < y.len() - 1 implies (#[trigger] y[i]) != a by {
        let _ = x[x.len() - 1];
    }
    assert(x[0] != y[0]);
    lemma_link_keeps_seg(nodes, a, b, x);
    lemma_link_keeps_seg(nodes, a, b, y);
    lemma_seg_concat(after, x, y);
}

/// Cutting the link before `n` leaves a piece as it is where `n` is none
/// of its slots but the first.
pub proof fn lemma_unlink_prev_keeps_seg(nodes: Seq<NodeView>, n: usize, ids: Seq<usize>)
    requires
        seg(nodes, ids),
        forall|i: int| 0 < i < ids.len() ==> (#[trigger] ids[i]) != n,
    ensures
        seg(unlink_prev_spec(nodes, n), ids),
{
    let after = unlink_prev_spec(nodes, n);
    assert forall|i: int| 0 <= i < ids.len() - 1 implies #[trigger] joined(after, ids, i) by {
        assert(joined(nodes, ids, i));
        let _ = ids[i];
        let _ = ids[i + 1];
    }
}

/// Cutting the link behind `n` leaves a piece as it is where `n` is none
/// of its slots but the last.
pub proof fn lemma_unlink_next_keeps_seg(nodes: Seq<NodeView>, n: usize, ids: Seq<usize>)
    requires
        seg(nodes, ids),
        forall|i: int| 0 <= i < ids.len() - 1 ==> (#[trigger] ids[i]) != n,
    ensures
        seg(unlink_next_spec(nodes, n), ids),
{
    let after = unlink_next_spec(nodes, n);
    assert forall|i: int| 0 <= i < ids.len() - 1 implies #[trigger] joined(after, ids, i) by {
        assert(joined(nodes, ids, i));
        let _ = ids[i];
        let _ = ids[i + 1];
    }
}

/// Pairing two brackets leaves every piece as it is.
pub proof fn lemma_pair_keeps_seg(nodes: Seq<NodeView>, a: usize, b: usize, ids: Seq<usize>)
    requires
        seg(nodes, ids),
    ensures
        seg(pair_spec(nodes, a, b), ids),
{
    let after = pair_spec(nodes, a, b);
    assert forall|i: int| 0 <= i < ids.len() implies after[(#[trigger] ids[i]) as int].next
        == nodes[ids[i] as int].next && after[ids[i] as int].prev == nodes[ids[i] as int].prev by {
        let _ = ids[i];
    }
    lemma_seg_same(nodes, after, ids);
}

/// A piece has no more slots than the arena.
pub proof fn lemma_seg_len(nodes: Seq<NodeView>, ids: Seq<usize>)
    requires
        seg(nodes, ids),
    ensures
        ids.len() <= nodes.len(),
{
    let m = Seq::new(ids.len(), |i: int| ids[i] as int);
    assert forall|i: int, j: int| 0 <= i < m.len() && 0 <= j < m.len() && i != j implies m[i]
        != m[j] by {
        if i < j {
            assert(ids[i] != ids[j]);
        } else {
            assert(ids[j] != ids[i]);
        }
    }
    m.unique_seq_to_set();
    let all = vstd::set_lib::set_int_range(0, nodes.len() as int);
    vstd::set_lib::lemma_int_range(0, nodes.len() as int);
    assert forall|v: int| m.to_set().contains(v) implies all.contains(v) by {
        let i = choose|i: int| 0 <= i < m.len() && m[i] == v;
        assert(ids[i] < nodes.len());
    }
    vstd::set_lib::lemma_len_subset(m.to_set(), all);
}

/// The way along a piece arrives at its last slot.
pub proof fn lemma_seg_reaches(nodes: Seq<NodeView>, ids: Seq<usize>, i: int, budget: nat)
    requires
        seg(nodes, ids),
        0 <= i < ids.len(),
        budget >= ids.len() - 1 - i,
    ensures
        reaches(nodes, ids[i], ids.last(), budget),
    decreases ids.len() - i,
{
    if ids[i] == ids.last() {
    } else {
        assert(i < ids.len() - 1);
        assert(joined(nodes, ids, i));
        lemma_seg_reaches(nodes, ids, i + 1, (budget - 1) as nat);
    }
}

/// The walk along a piece behind which nothing follows meets the objects
/// of the piece, in their order.
pub proof fn lemma_seg_walk(nodes: Seq<NodeView>, ids: Seq<usize>, i: int, budget: nat)
    requires
        seg(nodes, ids),
        ids.len() > 0,
        nodes[ids.last() as int].next is None,
        0 <= i < ids.len(),
        budget >= ids.len() - i,
    ensures
        walk_objects(nodes, ids[i], budget) == strip(objects(nodes, ids.skip(i))),
    decreases ids.len() - i,
{
    let objs = objects(nodes, ids.skip(i));
    assert(objs[0] == nodes[ids[i] as int].object);
    assert(objs.skip(1) =~= objects(nodes, ids.skip(i + 1)));
    if i == ids.len() - 1 {
        assert(objs.skip(1) =~= Seq::<ObjectView>::empty());
        assert(strip(objs.skip(1)) =~= Seq::<ObjectView>::empty());
        assert(strip(objs) =~= walk_objects(nodes, ids[i], budget));
    } else {
        assert(joined(nodes, ids, i));
        lemma_seg_walk(nodes, ids, i + 1, (budget - 1) as nat);
        assert(strip(objs) =~= walk_objects(nodes, ids[i], budget));
    }
}

/// A chain that is a list is connected, and the expression that it holds
/// is the objects of the list without the sentinels.
pub proof fn lemma_lists_field(chain: ChainView, ids: Seq<usize>)
    requires
        lists(chain, ids),
    ensures
        chain.connected(),
        chain.flatten() == strip(objects(chain.nodes, ids)),
{
    lemma_seg_len(chain.nodes, ids);
    lemma_seg_reaches(chain.nodes, ids, 0, chain.nodes.len());
    lemma_seg_walk(chain.nodes, ids, 0, chain.nodes.len());
    assert(ids.skip(0) =~= ids);
}

} // verus!
