//! What the construction phase of a step does to the order of the nodes.
//!
//! The chain is taken as a list of slots. A new node goes in behind the
//! border, the call that was matched leaves the list, and every deferred
//! move takes a run of nodes out of the call and puts it behind its border.

use crate::listing::{apart, joined, lists, objects, seg};
use crate::listing::{lemma_link_joins, lemma_link_keeps_seg, lemma_seg_same};
use crate::listing::lemma_pair_keeps_seg;
use crate::listing::{lemma_seg_split, lemma_unlink_next_keeps_seg, lemma_unlink_prev_keeps_seg};
use crate::machine::{apply_transplants, attach, copy_walk, finalize, fresh, hang, insert, splice};
use crate::machine::splice_out;
use crate::machine_laws::{lemma_attach_len, lemma_copy_walk_grows};
use crate::machine::{Build, State, Transplant};
use crate::runtime::{link_spec, pair_spec, unlink_next_spec, unlink_prev_spec};
use crate::runtime::{NodeView, ObjectView};
use vstd::prelude::*;

verus! {

/// The arena `after` has the nodes of `nodes` with their objects.
pub open spec fn keeps_objects(nodes: Seq<NodeView>, after: Seq<NodeView>) -> bool {
    &&& after.len() >= nodes.len()
    &&& forall|i: int| 0 <= i < nodes.len() ==> (#[trigger] after[i]).object == nodes[i].object
}

/// A new node that is spliced in behind the last slot of `x` stands
/// between `x` and `y` in the list.
pub proof fn lemma_splice_lists(
    nodes: Seq<NodeView>,
    x: Seq<usize>,
    y: Seq<usize>,
    object: ObjectView,
)
    requires
        seg(nodes, x + y),
        x.len() > 0,
        y.len() > 0,
        nodes.len() <= usize::MAX,
    ensures
        splice(nodes, x.last(), object) matches Some(after) && seg(
            after,
            x.push(nodes.len() as usize) + y,
        ) && after.len() == nodes.len() + 1 && keeps_objects(nodes, after)
            && after[nodes.len() as int].object == object && (nodes[y.last() as int].next is None
            ==> after[y.last() as int].next is None),
{
    lemma_seg_split(nodes, x, y);
    let id = nodes.len() as usize;
    let pushed = nodes.push(fresh(object));
    let one = seq![id];
    assert forall|i: int| 0 <= i < x.len() implies pushed[(#[trigger] x[i]) as int].next
        == nodes[x[i] as int].next && pushed[x[i] as int].prev == nodes[x[i] as int].prev by {}
    assert forall|i: int| 0 <= i < y.len() implies pushed[(#[trigger] y[i]) as int].next
        == nodes[y[i] as int].next && pushed[y[i] as int].prev == nodes[y[i] as int].prev by {}
    lemma_seg_same(nodes, pushed, x);
    lemma_seg_same(nodes, pushed, y);
    assert(seg(pushed, one));
    assert(apart(x, one));
    assert(apart(one, y)) by {
        assert forall|i: int, j: int| 0 <= i < one.len() && 0 <= j < y.len() implies (#[trigger] one[i])
            != (#[trigger] y[j]) by {
            assert(y[j] < nodes.len());
        }
    }
    lemma_link_joins(pushed, x, one);
    let first = link_spec(pushed, x.last(), id);
    assert forall|i: int| 0 <= i < y.len() - 1 implies (#[trigger] y[i]) != x.last() by {
        let _ = x[x.len() - 1];
    }
    assert forall|i: int| 0 < i < y.len() implies (#[trigger] y[i]) != id by {
        assert(y[i] < nodes.len());
    }
    lemma_link_keeps_seg(pushed, x.last(), id, y);
    let left = x + one;
    assert(left =~= x.push(id));
    assert(apart(left, y)) by {
        assert forall|i: int, j: int| 0 <= i < left.len() && 0 <= j < y.len() implies (#[trigger] left[i])
            != (#[trigger] y[j]) by {
            assert(y[j] < nodes.len());
            if i < x.len() {
                assert(left[i] == x[i]);
            }
        }
    }
    lemma_link_joins(first, left, y);
    let after = link_spec(first, id, y[0]);
    assert(left.last() == id);
    let _ = y[y.len() - 1];
    let _ = x[x.len() - 1];
    assert(y.last() != x.last());
    assert(y.last() < nodes.len());
}

/// A new node that is hung behind the last slot of `x` is the last slot of
/// the piece.
pub proof fn lemma_hang_lists(nodes: Seq<NodeView>, x: Seq<usize>, object: ObjectView)
    requires
        seg(nodes, x),
        x.len() > 0,
        nodes.len() <= usize::MAX,
    ensures
        seg(hang(nodes, x.last(), object), x.push(nodes.len() as usize)),
        hang(nodes, x.last(), object).len() == nodes.len() + 1,
        keeps_objects(nodes, hang(nodes, x.last(), object)),
        hang(nodes, x.last(), object)[nodes.len() as int].object == object,
        hang(nodes, x.last(), object)[nodes.len() as int].next is None,
{
    let id = nodes.len() as usize;
    let pushed = nodes.push(fresh(object));
    let one = seq![id];
    assert forall|i: int| 0 <= i < x.len() implies pushed[(#[trigger] x[i]) as int].next
        == nodes[x[i] as int].next && pushed[x[i] as int].prev == nodes[x[i] as int].prev by {}
    lemma_seg_same(nodes, pushed, x);
    assert(seg(pushed, one));
    assert(apart(x, one));
    lemma_link_joins(pushed, x, one);
    assert(x + one =~= x.push(id));
    let _ = x[x.len() - 1];
}

/// A node that is hung behind `border` leaves every piece as it is that
/// does not hold `border`.
pub proof fn lemma_hang_keeps_seg(
    nodes: Seq<NodeView>,
    border: usize,
    object: ObjectView,
    y: Seq<usize>,
)
    requires
        seg(nodes, y),
        border < nodes.len(),
        nodes.len() <= usize::MAX,
        forall|i: int| 0 <= i < y.len() ==> (#[trigger] y[i]) != border,
    ensures
        seg(hang(nodes, border, object), y),
        y.len() > 0 && nodes[y.last() as int].next is None ==> hang(
            nodes,
            border,
            object,
        )[y.last() as int].next is None,
{
    let id = nodes.len() as usize;
    let pushed = nodes.push(fresh(object));
    assert forall|i: int| 0 <= i < y.len() implies pushed[(#[trigger] y[i]) as int].next
        == nodes[y[i] as int].next && pushed[y[i] as int].prev == nodes[y[i] as int].prev by {}
    lemma_seg_same(nodes, pushed, y);
    assert forall|i: int| 0 < i < y.len() implies (#[trigger] y[i]) != id by {
        assert(y[i] < nodes.len());
    }
    lemma_link_keeps_seg(pushed, border, id, y);
    if y.len() > 0 {
        let _ = y[y.len() - 1];
    }
}

/// The call that was matched leaves the list: with the border at the end
/// of `a` and the call's closing bracket at the end of `d`, the list
/// `a + d + b` becomes `a + b`, and `d` stays a piece of its own.
pub proof fn lemma_splice_out_lists(
    build: Build,
    a: Seq<usize>,
    d: Seq<usize>,
    b: Seq<usize>,
)
    requires
        seg(build.nodes, a + d + b),
        a.len() > 0,
        d.len() > 0,
        b.len() > 0,
        build.border == a.last(),
    ensures
        splice_out(build, d.last()) matches Ok(after) && seg(after, a + b) && seg(after, d) && apart(
            a + b,
            d,
        ) && after.len() == build.nodes.len() && keeps_objects(build.nodes, after) && (
        build.nodes[b.last() as int].next is None ==> after[b.last() as int].next is None),
{
    let nodes = build.nodes;
    lemma_seg_split(nodes, a + d, b);
    lemma_seg_split(nodes, a, d);
    let border = a.last();
    let call_end = d.last();
    let next = b[0];
    let first_out = d[0];
    assert((a + d).last() == call_end);
    assert(apart(a, b) && apart(d, b)) by {
        assert forall|i: int, j: int| 0 <= i < a.len() && 0 <= j < b.len() implies (#[trigger] a[i])
            != (#[trigger] b[j]) by {
            assert((a + d)[i] == a[i]);
        }
        assert forall|i: int, j: int| 0 <= i < d.len() && 0 <= j < b.len() implies (#[trigger] d[i])
            != (#[trigger] b[j]) by {
            assert((a + d)[i + a.len()] == d[i]);
        }
    }
    let _ = a[a.len() - 1];
    let _ = d[d.len() - 1];
    let _ = d[0];
    let _ = b[0];
    let _ = b[b.len() - 1];
    assert(border != call_end);
    let n1 = unlink_prev_spec(nodes, first_out);
    assert forall|i: int| 0 < i < a.len() implies (#[trigger] a[i]) != first_out by {}
    assert forall|i: int| 0 < i < b.len() implies (#[trigger] b[i]) != first_out by {}
    assert forall|i: int| 0 < i < d.len() implies (#[trigger] d[i]) != first_out by {}
    lemma_unlink_prev_keeps_seg(nodes, first_out, a);
    lemma_unlink_prev_keeps_seg(nodes, first_out, d);
    lemma_unlink_prev_keeps_seg(nodes, first_out, b);
    let n2 = unlink_next_spec(n1, call_end);
    assert forall|i: int| 0 <= i < a.len() - 1 implies (#[trigger] a[i]) != call_end by {}
    assert forall|i: int| 0 <= i < b.len() - 1 implies (#[trigger] b[i]) != call_end by {}
    assert forall|i: int| 0 <= i < d.len() - 1 implies (#[trigger] d[i]) != call_end by {}
    lemma_unlink_next_keeps_seg(n1, call_end, a);
    lemma_unlink_next_keeps_seg(n1, call_end, d);
    lemma_unlink_next_keeps_seg(n1, call_end, b);
    lemma_link_joins(n2, a, b);
    assert forall|i: int| 0 <= i < d.len() - 1 implies (#[trigger] d[i]) != border by {}
    assert forall|i: int| 0 < i < d.len() implies (#[trigger] d[i]) != next by {}
    lemma_link_keeps_seg(n2, border, next, d);
    assert(apart(a + b, d)) by {
        assert forall|i: int, j: int| 0 <= i < (a + b).len() && 0 <= j < d.len() implies (#[trigger] (a
            + b)[i]) != (#[trigger] d[j]) by {
            if i < a.len() {
                assert((a + b)[i] == a[i]);
            } else {
                assert((a + b)[i] == b[i - a.len()]);
            }
        }
    }
}

/// One deferred move: the run `r` leaves the piece `d1 + r + d2` and goes
/// in behind the last slot of `x` in the list `x + y`.
pub proof fn lemma_move_lists(
    nodes: Seq<NodeView>,
    x: Seq<usize>,
    y: Seq<usize>,
    d1: Seq<usize>,
    r: Seq<usize>,
    d2: Seq<usize>,
)
    requires
        seg(nodes, x + y),
        seg(nodes, d1 + r + d2),
        apart(x + y, d1 + r + d2),
        x.len() > 0,
        y.len() > 0,
        d1.len() > 0,
        r.len() > 0,
        d2.len() > 0,
    ensures
        nodes[r[0] as int].prev == Some(d1.last()),
        nodes[r.last() as int].next == Some(d2[0]),
        link_spec(nodes, d1.last(), d2[0])[x.last() as int].next == Some(y[0]),
        ({
            let cut = link_spec(nodes, d1.last(), d2[0]);
            let after = link_spec(link_spec(cut, r.last(), y[0]), x.last(), r[0]);
            &&& seg(after, x + r + y)
            &&& seg(after, d1 + d2)
            &&& apart(x + r + y, d1 + d2)
            &&& keeps_objects(nodes, after)
            &&& after.len() == nodes.len()
            &&& nodes[y.last() as int].next is None ==> after[y.last() as int].next is None
        }),
{
    let m = x + y;
    let d = d1 + r + d2;
    lemma_seg_split(nodes, x, y);
    lemma_seg_split(nodes, d1 + r, d2);
    lemma_seg_split(nodes, d1, r);
    assert((d1 + r).last() == r.last());
    // Everything is apart from everything else.
    assert forall|i: int| 0 <= i < x.len() implies (#[trigger] x[i]) == m[i] by {}
    assert forall|i: int| 0 <= i < y.len() implies (#[trigger] y[i]) == m[i + x.len()] by {}
    assert forall|i: int| 0 <= i < d1.len() implies (#[trigger] d1[i]) == d[i] by {}
    assert forall|i: int| 0 <= i < r.len() implies (#[trigger] r[i]) == d[i + d1.len()] by {}
    assert forall|i: int| 0 <= i < d2.len() implies (#[trigger] d2[i]) == d[i + d1.len() + r.len()] by {}
    assert forall|i: int, j: int| 0 <= i < d1.len() && 0 <= j < d2.len() implies (#[trigger] d1[i])
        != (#[trigger] d2[j]) by {
        assert((d1 + r)[i] == d1[i]);
    }
    assert forall|i: int, j: int| 0 <= i < r.len() && 0 <= j < d2.len() implies (#[trigger] r[i])
        != (#[trigger] d2[j]) by {
        assert((d1 + r)[i + d1.len()] == r[i]);
    }
    assert(apart(d1, d2) && apart(r, d2) && apart(d1, r));
    assert(apart(x, d1) && apart(x, r) && apart(x, d2) && apart(y, d1) && apart(y, r) && apart(y, d2))
        by {
        assert forall|i: int, j: int| 0 <= i < x.len() && 0 <= j < d1.len() implies (#[trigger] x[i])
            != (#[trigger] d1[j]) by {
            assert(m[i] != d[j]);
        }
        assert forall|i: int, j: int| 0 <= i < x.len() && 0 <= j < r.len() implies (#[trigger] x[i])
            != (#[trigger] r[j]) by {
            assert(m[i] != d[j + d1.len()]);
        }
        assert forall|i: int, j: int| 0 <= i < x.len() && 0 <= j < d2.len() implies (#[trigger] x[i])
            != (#[trigger] d2[j]) by {
            assert(m[i] != d[j + d1.len() + r.len()]);
        }
        assert forall|i: int, j: int| 0 <= i < y.len() && 0 <= j < d1.len() implies (#[trigger] y[i])
            != (#[trigger] d1[j]) by {
            assert(m[i + x.len()] != d[j]);
        }
        assert forall|i: int, j: int| 0 <= i < y.len() && 0 <= j < r.len() implies (#[trigger] y[i])
            != (#[trigger] r[j]) by {
            assert(m[i + x.len()] != d[j + d1.len()]);
        }
        assert forall|i: int, j: int| 0 <= i < y.len() && 0 <= j < d2.len() implies (#[trigger] y[i])
            != (#[trigger] d2[j]) by {
            assert(m[i + x.len()] != d[j + d1.len() + r.len()]);
        }
    }
    let before = d1.last();
    let behind = d2[0];
    let border = x.last();
    let next = y[0];
    let _ = d1[d1.len() - 1];
    let _ = d2[0];
    let _ = x[x.len() - 1];
    let _ = y[0];
    let _ = y[y.len() - 1];
    let _ = r[0];
    let _ = r[r.len() - 1];
    // The run is cut out.
    let cut = link_spec(nodes, before, behind);
    lemma_link_joins(nodes, d1, d2);
    lemma_link_keeps_seg(nodes, before, behind, r);
    lemma_link_keeps_seg(nodes, before, behind, x);
    lemma_link_keeps_seg(nodes, before, behind, y);
    assert(cut[border as int].next == Some(next));
    assert(cut[r.last() as int].next is None);
    // The end of the run is linked to what follows the border.
    let mid = link_spec(cut, r.last(), next);
    lemma_link_joins(cut, r, y);
    lemma_link_keeps_seg(cut, r.last(), next, x);
    lemma_link_keeps_seg(cut, r.last(), next, d1 + d2);
    // The border is linked to the start of the run.
    let after = link_spec(mid, border, r[0]);
    assert(apart(x, r + y)) by {
        assert forall|i: int, j: int| 0 <= i < x.len() && 0 <= j < (r + y).len() implies (
        #[trigger] x[i]) != (#[trigger] (r + y)[j]) by {
            if j < r.len() {
                assert((r + y)[j] == r[j]);
            } else {
                assert((r + y)[j] == y[j - r.len()]);
            }
        }
    }
    assert((r + y)[0] == r[0]);
    lemma_link_joins(mid, x, r + y);
    lemma_link_keeps_seg(mid, border, r[0], d1 + d2);
    assert(x + (r + y) =~= x + r + y);
    assert(apart(x + r + y, d1 + d2)) by {
        let p = x + r + y;
        let q = d1 + d2;
        assert forall|i: int, j: int| 0 <= i < p.len() && 0 <= j < q.len() implies (#[trigger] p[i])
            != (#[trigger] q[j]) by {
            if j < d1.len() {
                assert(q[j] == d1[j]);
            } else {
                assert(q[j] == d2[j - d1.len()]);
            }
            if i < x.len() {
                assert(p[i] == x[i]);
            } else if i < x.len() + r.len() {
                assert(p[i] == r[i - x.len()]);
            } else {
                assert(p[i] == y[i - x.len() - r.len()]);
            }
        }
    }
}

/// The slots of `s` are all different.
pub open spec fn distinct(s: Seq<usize>) -> bool {
    forall|i: int, j: int| 0 <= i < j < s.len() ==> (#[trigger] s[i]) != (#[trigger] s[j])
}

/// The place of `x` in `s`.
pub open spec fn at(s: Seq<usize>, x: usize) -> int {
    choose|i: int| 0 <= i < s.len() && s[i] == x
}

/// A slot of a list without repetition has one place.
pub proof fn lemma_at(s: Seq<usize>, i: int)
    requires
        distinct(s),
        0 <= i < s.len(),
    ensures
        at(s, s[i]) == i,
{
    let k = at(s, s[i]);
    assert(0 <= k < s.len() && s[k] == s[i]);
    if k < i {
        assert(s[k] != s[i]);
    } else if i < k {
        assert(s[i] != s[k]);
    }
}

/// A run of nodes that is to go in behind `border`.
pub struct Move {
    pub border: usize,
    pub run: Seq<usize>,
}

/// The list `m` with `run` behind `border`.
pub open spec fn put(m: Seq<usize>, border: usize, run: Seq<usize>) -> Seq<usize> {
    let p = at(m, border);
    m.take(p + 1) + run + m.skip(p + 1)
}

/// The list `m` after the moves were made, the newest first.
pub open spec fn laid(m: Seq<usize>, moves: Seq<Move>) -> Seq<usize>
    decreases moves.len(),
{
    if moves.len() == 0 {
        m
    } else {
        laid(put(m, moves.last().border, moves.last().run), moves.drop_last())
    }
}

/// The run `r` stands in `d` at `p`, with a slot of `d` before it and one
/// behind it.
pub open spec fn stands(d: Seq<usize>, r: Seq<usize>, p: int) -> bool {
    0 < p && p + r.len() < d.len() && d.subrange(p, p + r.len()) == r
}

/// The run `r` is a run of `d` that is neither at its start nor at its end.
pub open spec fn inside(d: Seq<usize>, r: Seq<usize>) -> bool {
    exists|p: int| stands(d, r, p)
}

/// The deferred moves `ts` are the moves `moves`: each takes a run out of
/// `d`, no two runs share a slot, and each border is a slot of `m` other
/// than the last.
pub open spec fn fits(m: Seq<usize>, d: Seq<usize>, ts: Seq<Transplant>, moves: Seq<Move>) -> bool {
    &&& ts.len() == moves.len()
    &&& forall|i: int|
        0 <= i < moves.len() ==> {
            let mv = #[trigger] moves[i];
            &&& ts[i].border == mv.border
            &&& mv.run.len() > 0
            &&& ts[i].start == mv.run[0]
            &&& ts[i].end == mv.run.last()
            &&& m.contains(mv.border)
            &&& mv.border != m.last()
            &&& inside(d, mv.run)
        }
    &&& forall|i: int, j: int|
        0 <= i < j < moves.len() ==> apart((#[trigger] moves[i]).run, (#[trigger] moves[j]).run)
}

/// A run that stands in `d` apart from the run at `p0` stands in what is
/// left of `d` when that run is taken out.
pub proof fn lemma_inside_rest(d: Seq<usize>, r0: Seq<usize>, p0: int, r: Seq<usize>)
    requires
        distinct(d),
        stands(d, r0, p0),
        inside(d, r),
        r.len() > 0,
        r0.len() > 0,
        apart(r, r0),
    ensures
        inside(d.take(p0) + d.skip(p0 + r0.len()), r),
{
    let p = choose|p: int| stands(d, r, p);
    let rest = d.take(p0) + d.skip(p0 + r0.len());
    assert forall|i: int| 0 <= i < r.len() implies (#[trigger] r[i]) == d[p + i] by {
        assert(d.subrange(p, p + r.len())[i] == d[p + i]);
    }
    assert forall|i: int| 0 <= i < r0.len() implies (#[trigger] r0[i]) == d[p0 + i] by {
        assert(d.subrange(p0, p0 + r0.len())[i] == d[p0 + i]);
    }
    if p + r.len() <= p0 {
        assert(rest.subrange(p, p + r.len()) =~= r);
        assert(stands(rest, r, p));
    } else if p >= p0 + r0.len() {
        let q = p - r0.len();
        assert(rest.subrange(q, q + r.len()) =~= r);
        assert(stands(rest, r, q));
    } else {
        // The two runs would share a slot.
        if p >= p0 {
            assert(r[0] == d[p]);
            assert(r0[p - p0] == d[p]);
            assert(r[0] != r0[p - p0]);
        } else {
            assert(r0[0] == d[p0]);
            assert(r[p0 - p] == d[p0]);
            assert(r[p0 - p] != r0[0]);
        }
    }
}

/// The deferred moves are made on the lists: the chain `m` becomes the
/// list that the moves lay, and the objects stay in their slots.
pub proof fn lemma_transplants_lists(
    nodes: Seq<NodeView>,
    m: Seq<usize>,
    d: Seq<usize>,
    ts: Seq<Transplant>,
    moves: Seq<Move>,
)
    requires
        seg(nodes, m),
        seg(nodes, d),
        apart(m, d),
        m.len() > 0,
        fits(m, d, ts, moves),
    ensures
        apply_transplants(nodes, ts) matches Ok(after) && seg(after, laid(m, moves)) && after.len()
            == nodes.len() && keeps_objects(nodes, after) && laid(m, moves).len() > 0 && laid(
            m,
            moves,
        ).last() == m.last() && laid(m, moves)[0] == m[0] && (nodes[m.last() as int].next is None
            ==> after[m.last() as int].next is None),
    decreases ts.len(),
{
    if ts.len() == 0 {
    } else {
        let t = ts.last();
        let mv = moves.last();
        assert(mv == moves[moves.len() - 1]);
        let r = mv.run;
        let p0 = choose|p: int| stands(d, r, p);
        assert(stands(d, r, p0));
        let d1 = d.take(p0);
        let d2 = d.skip(p0 + r.len());
        assert(d =~= d1 + r + d2) by {
            assert forall|i: int| 0 <= i < r.len() implies (#[trigger] r[i]) == d[p0 + i] by {
                assert(d.subrange(p0, p0 + r.len())[i] == d[p0 + i]);
            }
        }
        let pm = at(m, mv.border);
        assert(0 <= pm < m.len() && m[pm] == mv.border);
        let x = m.take(pm + 1);
        let y = m.skip(pm + 1);
        assert(m =~= x + y);
        assert(x.last() == mv.border);
        lemma_move_lists(nodes, x, y, d1, r, d2);
        let cut = link_spec(nodes, d1.last(), d2[0]);
        let after1 = link_spec(link_spec(cut, r.last(), y[0]), x.last(), r[0]);
        let m1 = x + r + y;
        let dd = d1 + d2;
        assert(m1 == put(m, mv.border, r));
        let ts1 = ts.drop_last();
        let moves1 = moves.drop_last();
        assert(fits(m1, dd, ts1, moves1)) by {
            assert forall|i: int| 0 <= i < moves1.len() implies ({
                let mi = #[trigger] moves1[i];
                &&& ts1[i].border == mi.border
                &&& mi.run.len() > 0
                &&& ts1[i].start == mi.run[0]
                &&& ts1[i].end == mi.run.last()
                &&& m1.contains(mi.border)
                &&& mi.border != m1.last()
                &&& inside(dd, mi.run)
            }) by {
                let mi = moves1[i];
                assert(mi == moves[i]);
                assert(ts1[i] == ts[i]);
                let q = choose|q: int| 0 <= q < m.len() && m[q] == mi.border;
                assert(m.contains(mi.border));
                assert(0 <= q < m.len() && m[q] == mi.border);
                if q <= pm {
                    assert(m1[q] == m[q]);
                } else {
                    assert(m1[q + r.len()] == m[q]);
                }
                assert(m1.last() == m.last());
                assert(apart(moves[i].run, moves[moves.len() - 1].run));
                lemma_inside_rest(d, r, p0, mi.run);
            }
            assert forall|i: int, j: int| 0 <= i < j < moves1.len() implies apart(
                (#[trigger] moves1[i]).run,
                (#[trigger] moves1[j]).run,
            ) by {
                assert(moves1[i] == moves[i] && moves1[j] == moves[j]);
            }
        }
        lemma_transplants_lists(after1, m1, dd, ts1, moves1);
        assert(m1.last() == m.last());
        assert(m1[0] == m[0]);
    }
}

/// The moves can be laid on `a`: `a` has no slot twice, every border is a
/// slot of `a`, and the runs share no slot with `a` or with each other.
pub open spec fn tidy(a: Seq<usize>, moves: Seq<Move>) -> bool {
    &&& distinct(a)
    &&& forall|i: int|
        0 <= i < moves.len() ==> {
            let mv = #[trigger] moves[i];
            a.contains(mv.border) && distinct(mv.run) && apart(a, mv.run)
        }
    &&& forall|i: int, j: int|
        0 <= i < j < moves.len() ==> apart((#[trigger] moves[i]).run, (#[trigger] moves[j]).run)
}

/// What stands behind the slots of every border stays behind what the
/// moves lay.
pub proof fn lemma_laid_append(a: Seq<usize>, b: Seq<usize>, moves: Seq<Move>)
    requires
        tidy(a, moves),
        forall|i: int| 0 <= i < moves.len() ==> !b.contains((#[trigger] moves[i]).border),
    ensures
        laid(a + b, moves) == laid(a, moves) + b,
    decreases moves.len(),
{
    if moves.len() > 0 {
        let mv = moves.last();
        assert(mv == moves[moves.len() - 1]);
        let r = mv.run;
        let p = at(a, mv.border);
        assert(a.contains(mv.border));
        assert(0 <= p < a.len() && a[p] == mv.border);
        let ab = a + b;
        assert(ab[p] == mv.border);
        let q = at(ab, mv.border);
        assert(0 <= q < ab.len() && ab[q] == mv.border);
        if q >= a.len() {
            assert(b[q - a.len()] == mv.border);
            assert(b.contains(mv.border));
        }
        assert(ab[q] == a[q]);
        if q < p {
            assert(a[q] != a[p]);
        } else if p < q {
            assert(a[p] != a[q]);
        }
        let a1 = put(a, mv.border, r);
        assert(put(ab, mv.border, r) =~= a1 + b);
        let rest = moves.drop_last();
        assert(tidy(a1, rest)) by {
            assert forall|i: int, j: int| 0 <= i < j < a1.len() implies (#[trigger] a1[i]) != (
            #[trigger] a1[j]) by {
                let _ = a[i];
                let _ = a[j];
                if i <= p {
                    if j <= p {
                        assert(a1[i] == a[i] && a1[j] == a[j]);
                    } else if j <= p + r.len() {
                        assert(a1[i] == a[i] && a1[j] == r[j - p - 1]);
                    } else {
                        assert(a1[i] == a[i] && a1[j] == a[j - r.len()]);
                    }
                } else if i <= p + r.len() {
                    if j <= p + r.len() {
                        assert(a1[i] == r[i - p - 1] && a1[j] == r[j - p - 1]);
                    } else {
                        assert(a1[i] == r[i - p - 1] && a1[j] == a[j - r.len()]);
                    }
                } else {
                    assert(a1[i] == a[i - r.len()] && a1[j] == a[j - r.len()]);
                }
            }
            assert forall|i: int| 0 <= i < rest.len() implies ({
                let mi = #[trigger] rest[i];
                a1.contains(mi.border) && distinct(mi.run) && apart(a1, mi.run)
            }) by {
                let mi = rest[i];
                assert(mi == moves[i]);
                assert(a.contains(mi.border));
                let c = choose|c: int| 0 <= c < a.len() && a[c] == mi.border;
                if c <= p {
                    assert(a1[c] == a[c]);
                } else {
                    assert(a1[c + r.len()] == a[c]);
                }
                assert(apart(moves[i].run, moves[moves.len() - 1].run));
                assert forall|u: int, v: int| 0 <= u < a1.len() && 0 <= v < mi.run.len() implies (
                #[trigger] a1[u]) != (#[trigger] mi.run[v]) by {
                    if u <= p {
                        assert(a1[u] == a[u]);
                    } else if u <= p + r.len() {
                        assert(a1[u] == r[u - p - 1]);
                    } else {
                        assert(a1[u] == a[u - r.len()]);
                    }
                }
            }
            assert forall|i: int, j: int| 0 <= i < j < rest.len() implies apart(
                (#[trigger] rest[i]).run,
                (#[trigger] rest[j]).run,
            ) by {
                assert(rest[i] == moves[i] && rest[j] == moves[j]);
            }
        }
        assert forall|i: int| 0 <= i < rest.len() implies !b.contains((#[trigger] rest[i]).border) by {
            assert(rest[i] == moves[i]);
        }
        lemma_laid_append(a1, b, rest);
    } else {
    }
}

/// The deferred moves fit a longer list as well.
pub proof fn lemma_fits_grow(
    m: Seq<usize>,
    longer: Seq<usize>,
    d: Seq<usize>,
    ts: Seq<Transplant>,
    moves: Seq<Move>,
)
    requires
        fits(m, d, ts, moves),
        m.len() > 0,
        longer.len() > 0,
        longer.last() == m.last(),
        forall|i: int| 0 <= i < m.len() ==> longer.contains(#[trigger] m[i]),
    ensures
        fits(longer, d, ts, moves),
{
    assert forall|i: int| 0 <= i < moves.len() implies longer.contains((#[trigger] moves[i]).border) by {
        let mv = moves[i];
        assert(m.contains(mv.border));
        let c = choose|c: int| 0 <= c < m.len() && m[c] == mv.border;
        assert(longer.contains(m[c]));
    }
}

/// Where a rewrite takes place: the arena and the list of the chain when
/// the construction starts, the place `k` of the node before the call and
/// the place `j` of the call's closing bracket.
pub struct Site {
    pub nodes: Seq<NodeView>,
    pub ids: Seq<usize>,
    pub k: int,
    pub j: int,
}

impl Site {
    /// The call lies in the list, with a node before it and one behind it.
    pub open spec fn ok(self) -> bool {
        &&& 0 <= self.k < self.j
        &&& self.j + 1 < self.ids.len()
        &&& seg(self.nodes, self.ids)
    }

    /// The list up to the call.
    pub open spec fn pre(self) -> Seq<usize> {
        self.ids.take(self.k + 1)
    }

    /// The call, from its opening bracket to its closing bracket.
    pub open spec fn call(self) -> Seq<usize> {
        self.ids.subrange(self.k + 1, self.j + 1)
    }

    /// The list behind the call.
    pub open spec fn post(self) -> Seq<usize> {
        self.ids.skip(self.j + 1)
    }
}

/// What the construction has done so far: the nodes it has made, the moves
/// it has deferred, and the slots and objects that stand in place of the
/// call once the moves are made.
pub struct Trace {
    pub news: Seq<usize>,
    pub moves: Seq<Move>,
    pub layout: Seq<usize>,
    pub text: Seq<ObjectView>,
}

/// The invariant of the construction on lists: the chain is the list up to
/// the call, the new nodes, the call and the rest; the border is the last
/// of the new nodes; and the deferred moves, made on the list without the
/// call, lay the slots of `layout` in place of the call.
pub open spec fn building(site: Site, b: Build, tr: Trace) -> bool {
    &&& site.ok()
    &&& keeps_objects(site.nodes, b.nodes)
    &&& forall|i: int| 0 <= i < tr.news.len() ==> site.nodes.len() <= #[trigger] tr.news[i]
    &&& seg(b.nodes, site.pre() + tr.news + site.call() + site.post())
    &&& b.nodes[site.ids.last() as int].next is None
    &&& b.border == (site.pre() + tr.news).last()
    &&& fits(site.pre() + tr.news + site.post(), site.call(), b.transplants, tr.moves)
    &&& forall|i: int|
        0 <= i < tr.moves.len() ==> (site.pre() + tr.news).contains((#[trigger] tr.moves[i]).border)
    &&& laid(site.pre() + tr.news, tr.moves) == site.pre() + tr.layout
    &&& forall|i: int| 0 <= i < tr.layout.len() ==> (#[trigger] tr.layout[i]) < b.nodes.len()
    &&& objects(b.nodes, tr.layout) == tr.text
}

/// The pieces of the list of a construction are apart, and the moves can
/// be laid.
pub proof fn lemma_building_tidy(site: Site, b: Build, tr: Trace)
    requires
        building(site, b, tr),
    ensures
        tidy(site.pre() + tr.news, tr.moves),
        seg(b.nodes, site.pre() + tr.news),
        seg(b.nodes, site.call() + site.post()),
        seg(b.nodes, site.call()),
        seg(b.nodes, site.post()),
        apart(site.pre() + tr.news, site.call() + site.post()),
        apart(site.pre() + tr.news, site.call()),
        apart(site.pre() + tr.news, site.post()),
        apart(site.call(), site.post()),
        site.pre().len() == site.k + 1,
        site.call().len() == site.j - site.k,
        site.post().len() > 0,
        site.post().last() == site.ids.last(),
        site.pre()[0] == site.ids[0],
        forall|i: int| 0 <= i < site.call().len() ==> (#[trigger] site.call()[i]) < site.nodes.len(),
        forall|i: int| 0 <= i < site.post().len() ==> (#[trigger] site.post()[i]) < site.nodes.len(),
        forall|i: int| 0 <= i < site.pre().len() ==> (#[trigger] site.pre()[i]) < site.nodes.len(),
        b.nodes[b.border as int].next == Some(site.ids[site.k + 1]),
        forall|p: int| site.k + 1 <= p < site.ids.len() - 1 ==> #[trigger] joined(b.nodes, site.ids, p),
        distinct(site.ids),
{
    let a = site.pre() + tr.news;
    let call = site.call();
    let post = site.post();
    assert(a + call + post =~= a + (call + post));
    lemma_seg_split(b.nodes, a, call + post);
    assert((call + post)[0] == site.ids[site.k + 1]);
    assert forall|p: int| site.k + 1 <= p < site.ids.len() - 1 implies #[trigger] joined(
        b.nodes,
        site.ids,
        p,
    ) by {
        let y = call + post;
        let i = p - site.k - 1;
        assert(joined(b.nodes, y, i));
        assert(y[i] == site.ids[p]);
        assert(y[i + 1] == site.ids[p + 1]);
    }
    lemma_seg_split(b.nodes, call, post);
    assert forall|i: int, j: int| 0 <= i < a.len() && 0 <= j < call.len() implies (#[trigger] a[i]) != (
    #[trigger] call[j]) by {
        assert((call + post)[j] == call[j]);
    }
    assert forall|i: int, j: int| 0 <= i < a.len() && 0 <= j < post.len() implies (#[trigger] a[i]) != (
    #[trigger] post[j]) by {
        assert((call + post)[j + call.len()] == post[j]);
    }
    assert forall|i: int| 0 <= i < call.len() implies (#[trigger] call[i]) < site.nodes.len() by {
        assert(call[i] == site.ids[site.k + 1 + i]);
    }
    assert forall|i: int| 0 <= i < post.len() implies (#[trigger] post[i]) < site.nodes.len() by {
        assert(post[i] == site.ids[site.j + 1 + i]);
    }
    assert forall|i: int| 0 <= i < site.pre().len() implies (#[trigger] site.pre()[i])
        < site.nodes.len() by {
        assert(site.pre()[i] == site.ids[i]);
    }
    assert forall|i: int| 0 <= i < tr.moves.len() implies ({
        let mv = #[trigger] tr.moves[i];
        a.contains(mv.border) && distinct(mv.run) && apart(a, mv.run)
    }) by {
        let mv = tr.moves[i];
        let p = choose|p: int| stands(call, mv.run, p);
        assert(inside(call, mv.run));
        assert(stands(call, mv.run, p));
        assert forall|u: int| 0 <= u < mv.run.len() implies (#[trigger] mv.run[u]) == call[p + u] by {
            assert(call.subrange(p, p + mv.run.len())[u] == call[p + u]);
        }
    }
}

/// A new node is spliced in behind the border: it is one more new node,
/// and it stands last in what takes the place of the call.
pub proof fn lemma_building_insert(site: Site, b: Build, tr: Trace, object: ObjectView)
    requires
        building(site, b, tr),
        b.nodes.len() < usize::MAX,
    ensures
        insert(b, object) matches Ok(c) && building(
            site,
            c,
            Trace {
                news: tr.news.push(b.nodes.len() as usize),
                layout: tr.layout.push(b.nodes.len() as usize),
                text: tr.text.push(object),
                ..tr
            },
        ) && c.nodes.len() == b.nodes.len() + 1 && c.border == b.nodes.len() && c.transplants
            == b.transplants && c.l_brackets == b.l_brackets && c.l_fun_brackets == b.l_fun_brackets
            && c.local_dots == b.local_dots,
{
    lemma_building_tidy(site, b, tr);
    let id = b.nodes.len() as usize;
    let a = site.pre() + tr.news;
    let call = site.call();
    let post = site.post();
    let y = call + post;
    assert(a + call + post =~= a + y);
    lemma_splice_lists(b.nodes, a, y, object);
    let after = splice(b.nodes, a.last(), object)->0;
    let news = tr.news.push(id);
    let a2 = site.pre() + news;
    assert(a.push(id) =~= a2);
    assert(a2 + call + post =~= a.push(id) + y);
    assert(y.last() == site.ids.last());
    let c = insert(b, object)->Ok_0;
    let tr2 = Trace { news, layout: tr.layout.push(id), text: tr.text.push(object), ..tr };
    let m = a + post;
    let m2 = a2 + post;
    assert forall|i: int| 0 <= i < m.len() implies m2.contains(#[trigger] m[i]) by {
        if i < a.len() {
            assert(m2[i] == m[i]);
        } else {
            assert(m2[i + 1] == m[i]);
        }
    }
    lemma_fits_grow(m, m2, call, b.transplants, tr.moves);
    assert forall|i: int| 0 <= i < tr.moves.len() implies a2.contains((#[trigger] tr.moves[i]).border) by {
        let mv = tr.moves[i];
        assert(a.contains(mv.border));
        let q = choose|q: int| 0 <= q < a.len() && a[q] == mv.border;
        assert(a2[q] == a[q]);
    }
    let one = seq![id];
    assert forall|i: int| 0 <= i < tr.moves.len() implies !one.contains((#[trigger] tr.moves[i]).border) by {
        let mv = tr.moves[i];
        assert(a.contains(mv.border));
        let q = choose|q: int| 0 <= q < a.len() && a[q] == mv.border;
        assert(a[q] < b.nodes.len());
    }
    lemma_laid_append(a, one, tr.moves);
    assert(a + one =~= a2);
    assert(site.pre() + tr.layout + one =~= site.pre() + tr2.layout);
    assert(objects(after, tr2.layout) =~= tr2.text) by {
        assert forall|i: int| 0 <= i < tr2.layout.len() implies objects(after, tr2.layout)[i]
            == tr2.text[i] by {
            if i < tr.layout.len() {
                assert(tr2.layout[i] == tr.layout[i]);
                assert(objects(b.nodes, tr.layout)[i] == tr.text[i]);
                assert(after[tr.layout[i] as int].object == b.nodes[tr.layout[i] as int].object);
            }
        }
    }
}

/// Pairing two brackets, and noting which brackets wait and which calls
/// were closed, changes nothing in the lists.
pub proof fn lemma_building_paired(site: Site, b: Build, c: Build, tr: Trace, x: usize, y: usize)
    requires
        building(site, b, tr),
        c.nodes == b.nodes || c.nodes == pair_spec(b.nodes, x, y),
        c.border == b.border,
        c.transplants == b.transplants,
    ensures
        building(site, c, tr),
{
    if c.nodes != b.nodes {
        lemma_pair_keeps_seg(b.nodes, x, y, site.pre() + tr.news + site.call() + site.post());
        assert(objects(c.nodes, tr.layout) =~= objects(b.nodes, tr.layout));
    }
}

/// A move is deferred: the run from place `from` to place `to` of the
/// list, inside the call and apart from the runs of the moves before, will
/// stand last in what takes the place of the call.
pub proof fn lemma_building_move(site: Site, b: Build, tr: Trace, from: int, to: int)
    requires
        building(site, b, tr),
        site.k + 1 < from <= to < site.j,
        forall|i: int|
            0 <= i < tr.moves.len() ==> apart(
                (#[trigger] tr.moves[i]).run,
                site.ids.subrange(from, to + 1),
            ),
    ensures
        building(
            site,
            Build {
                transplants: b.transplants.push(
                    Transplant { border: b.border, start: site.ids[from], end: site.ids[to] },
                ),
                ..b
            },
            Trace {
                moves: tr.moves.push(Move { border: b.border, run: site.ids.subrange(from, to + 1) }),
                layout: tr.layout + site.ids.subrange(from, to + 1),
                text: tr.text + objects(site.nodes, site.ids.subrange(from, to + 1)),
                ..tr
            },
        ),
{
    lemma_building_tidy(site, b, tr);
    let r = site.ids.subrange(from, to + 1);
    let mv = Move { border: b.border, run: r };
    let t = Transplant { border: b.border, start: site.ids[from], end: site.ids[to] };
    let c = Build { transplants: b.transplants.push(t), ..b };
    let moves = tr.moves.push(mv);
    let tr2 = Trace { moves, layout: tr.layout + r, text: tr.text + objects(site.nodes, r), ..tr };
    let a = site.pre() + tr.news;
    let call = site.call();
    let post = site.post();
    let m = a + post;
    let p = from - site.k - 1;
    assert(call.subrange(p, p + r.len()) =~= r);
    assert(stands(call, r, p));
    assert(m[a.len() - 1] == b.border);
    assert(m.contains(b.border));
    assert(a[a.len() - 1] == b.border);
    assert(a.contains(b.border));
    assert(m.last() == post[post.len() - 1]);
    assert(b.border != m.last());
    assert(fits(m, call, c.transplants, moves)) by {
        assert forall|i: int| 0 <= i < moves.len() implies ({
            let mi = #[trigger] moves[i];
            &&& c.transplants[i].border == mi.border
            &&& mi.run.len() > 0
            &&& c.transplants[i].start == mi.run[0]
            &&& c.transplants[i].end == mi.run.last()
            &&& m.contains(mi.border)
            &&& mi.border != m.last()
            &&& inside(call, mi.run)
        }) by {
            if i < tr.moves.len() {
                assert(moves[i] == tr.moves[i]);
                assert(c.transplants[i] == b.transplants[i]);
            }
        }
        assert forall|i: int, j: int| 0 <= i < j < moves.len() implies apart(
            (#[trigger] moves[i]).run,
            (#[trigger] moves[j]).run,
        ) by {
            assert(moves[i] == tr.moves[i]);
            if j < tr.moves.len() {
                assert(moves[j] == tr.moves[j]);
            }
        }
    }
    assert forall|i: int| 0 <= i < moves.len() implies a.contains((#[trigger] moves[i]).border) by {
        if i < tr.moves.len() {
            assert(moves[i] == tr.moves[i]);
        }
    }
    // The run goes in behind the last slot, and what was laid stays before it.
    assert(moves.drop_last() =~= tr.moves);
    lemma_at(a, a.len() - 1);
    assert(put(a, b.border, r) =~= a + r);
    assert forall|u: int| 0 <= u < r.len() implies (#[trigger] r[u]) == call[p + u] by {}
    assert forall|i: int| 0 <= i < tr.moves.len() implies !r.contains((#[trigger] tr.moves[i]).border) by {
        let mi = tr.moves[i];
        assert(a.contains(mi.border));
        let q = choose|q: int| 0 <= q < a.len() && a[q] == mi.border;
        if r.contains(mi.border) {
            let u = choose|u: int| 0 <= u < r.len() && r[u] == mi.border;
            assert(a[q] != call[p + u]);
        }
    }
    lemma_laid_append(a, r, tr.moves);
    assert(site.pre() + tr.layout + r =~= site.pre() + tr2.layout);
    assert forall|i: int| 0 <= i < tr2.layout.len() implies (#[trigger] tr2.layout[i]) < b.nodes.len() by {
        if i >= tr.layout.len() {
            assert(tr2.layout[i] == r[i - tr.layout.len()]);
            assert(call[p + i - tr.layout.len()] < site.nodes.len());
        } else {
            assert(tr2.layout[i] == tr.layout[i]);
        }
    }
    assert(objects(b.nodes, tr2.layout) =~= tr2.text) by {
        assert forall|i: int| 0 <= i < tr2.layout.len() implies objects(b.nodes, tr2.layout)[i]
            == tr2.text[i] by {
            if i < tr.layout.len() {
                assert(tr2.layout[i] == tr.layout[i]);
                assert(objects(b.nodes, tr.layout)[i] == tr.text[i]);
            } else {
                let u = i - tr.layout.len();
                assert(tr2.layout[i] == r[u]);
                assert(call[p + u] < site.nodes.len());
                assert(tr2.text[i] == objects(site.nodes, r)[u]);
            }
        }
    }
}

/// The end of the construction: the chain is the list up to the call, what
/// was laid in place of the call, and the rest; and the objects are those
/// before the call, the text, and those behind the call.
pub proof fn lemma_building_finalize(site: Site, s: State, b: Build, tr: Trace)
    requires
        building(site, b, tr),
        s.projections.len() >= 3 ==> s.projections[2] == site.ids[site.j],
        site.ids[0] == s.chain.first,
        site.ids.last() == s.chain.last,
    ensures
        finalize(s, b) matches Ok(t) ==> lists(t.chain, site.pre() + tr.layout + site.post())
            && objects(t.chain.nodes, site.pre() + tr.layout + site.post()) == objects(
            site.nodes,
            site.pre(),
        ) + tr.text + objects(site.nodes, site.post()) && t.chain.nodes.len() == b.nodes.len(),
{
    if finalize(s, b) is Ok {
        lemma_building_tidy(site, b, tr);
        let a = site.pre() + tr.news;
        let call = site.call();
        let post = site.post();
        assert(call.last() == site.ids[site.j]);
        lemma_splice_out_lists(b, a, call, post);
        let cut = splice_out(b, call.last())->Ok_0;
        let m = a + post;
        assert(m.last() == post[post.len() - 1]);
        lemma_transplants_lists(cut, m, call, b.transplants, tr.moves);
        let after = apply_transplants(cut, b.transplants)->Ok_0;
        assert forall|i: int| 0 <= i < tr.moves.len() implies !post.contains(
            (#[trigger] tr.moves[i]).border,
        ) by {
            let mi = tr.moves[i];
            assert(a.contains(mi.border));
            let q = choose|q: int| 0 <= q < a.len() && a[q] == mi.border;
            if post.contains(mi.border) {
                let u = choose|u: int| 0 <= u < post.len() && post[u] == mi.border;
                assert(a[q] != post[u]);
            }
        }
        lemma_laid_append(a, post, tr.moves);
        let whole = site.pre() + tr.layout + post;
        assert(laid(m, tr.moves) == whole);
        assert(m[0] == site.pre()[0]);
        let t = finalize(s, b)->Ok_0;
        assert(t.chain.nodes == after);
        assert(objects(after, whole) =~= objects(site.nodes, site.pre()) + tr.text + objects(
            site.nodes,
            post,
        )) by {
            let left = objects(site.nodes, site.pre());
            let right = objects(site.nodes, post);
            assert forall|i: int| 0 <= i < whole.len() implies objects(after, whole)[i] == (left
                + tr.text + right)[i] by {
                if i < site.pre().len() {
                    assert(whole[i] == site.pre()[i]);
                    assert(site.pre()[i] < site.nodes.len());
                    assert(after[whole[i] as int].object == cut[whole[i] as int].object);
                } else if i < site.pre().len() + tr.layout.len() {
                    let u = i - site.pre().len();
                    assert(whole[i] == tr.layout[u]);
                    assert(objects(b.nodes, tr.layout)[u] == tr.text[u]);
                    assert(after[whole[i] as int].object == cut[whole[i] as int].object);
                } else {
                    let u = i - site.pre().len() - tr.layout.len();
                    assert(whole[i] == post[u]);
                    assert(post[u] < site.nodes.len());
                    assert(after[whole[i] as int].object == cut[whole[i] as int].object);
                }
            }
        }
    }
}

/// The slots of `count` nodes made one after the other in an arena of
/// `len` slots.
pub open spec fn made(len: nat, count: int) -> Seq<usize> {
    Seq::new(count as nat, |i: int| (len + i) as usize)
}

/// One node is copied: the copy hangs behind the piece `x`, and the piece
/// `y` that is read is as it was.
pub proof fn lemma_copy_one(
    nodes0: Seq<NodeView>,
    b: Build,
    c: Build,
    x: Seq<usize>,
    y: Seq<usize>,
    object: ObjectView,
    l: usize,
    r: usize,
)
    requires
        seg(b.nodes, x),
        seg(b.nodes, y),
        apart(x, y),
        x.len() > 0,
        y.len() > 0,
        b.border == x.last(),
        b.nodes.len() < usize::MAX,
        keeps_objects(nodes0, b.nodes),
        b.nodes[y.last() as int].next is None,
        c.nodes == attach(b, object).nodes || c.nodes == pair_spec(attach(b, object).nodes, l, r),
        c.border == attach(b, object).border,
    ensures
        seg(c.nodes, x.push(b.nodes.len() as usize)),
        seg(c.nodes, y),
        apart(x.push(b.nodes.len() as usize), y),
        c.border == x.push(b.nodes.len() as usize).last(),
        c.nodes.len() == b.nodes.len() + 1,
        keeps_objects(nodes0, c.nodes),
        keeps_objects(b.nodes, c.nodes),
        c.nodes[b.nodes.len() as int].object == object,
        c.nodes[y.last() as int].next is None,
{
    let id = b.nodes.len() as usize;
    let hung = hang(b.nodes, b.border, object);
    lemma_hang_lists(b.nodes, x, object);
    assert forall|i: int| 0 <= i < y.len() implies (#[trigger] y[i]) != b.border by {
        let _ = x[x.len() - 1];
    }
    let _ = x[x.len() - 1];
    lemma_hang_keeps_seg(b.nodes, b.border, object, y);
    let x2 = x.push(id);
    assert forall|i: int, j: int| 0 <= i < x2.len() && 0 <= j < y.len() implies (#[trigger] x2[i]) != (
    #[trigger] y[j]) by {
        assert(y[j] < b.nodes.len());
        if i < x.len() {
            assert(x2[i] == x[i]);
        }
    }
    if c.nodes != hung {
        lemma_pair_keeps_seg(hung, l, r, x2);
        lemma_pair_keeps_seg(hung, l, r, y);
    }
    let _ = y[y.len() - 1];
}

/// The copy of a run: the nodes behind place `q` of `y` up to place `e`
/// are copied, one new node each, and the copies hang behind `x` in the
/// order of the run.
pub proof fn lemma_copy_walk_lists(
    nodes0: Seq<NodeView>,
    b: Build,
    x: Seq<usize>,
    y: Seq<usize>,
    q: int,
    e: int,
    budget: nat,
)
    requires
        seg(b.nodes, x),
        seg(b.nodes, y),
        apart(x, y),
        x.len() > 0,
        b.border == x.last(),
        0 <= q <= e < y.len(),
        keeps_objects(nodes0, b.nodes),
        forall|i: int| 0 <= i < y.len() ==> (#[trigger] y[i]) < nodes0.len(),
        b.nodes[y.last() as int].next is None,
    ensures
        copy_walk(b, y[q], y[e], budget) matches Ok(c) ==> (c.nodes.len() <= usize::MAX ==> {
            let new = made(b.nodes.len(), e - q);
            &&& seg(c.nodes, x + new)
            &&& seg(c.nodes, y)
            &&& c.border == (x + new).last()
            &&& c.nodes.len() == b.nodes.len() + (e - q)
            &&& keeps_objects(b.nodes, c.nodes)
            &&& objects(c.nodes, new) == objects(nodes0, y.subrange(q + 1, e + 1))
            &&& c.transplants == b.transplants
            &&& c.nodes[y.last() as int].next is None
        }),
    decreases budget,
{
    let new = made(b.nodes.len(), e - q);
    if q == e {
        assert(x + new =~= x);
        assert(objects(b.nodes, new) =~= objects(nodes0, y.subrange(q + 1, e + 1)));
    } else {
        assert(y[q] != y[e]);
        if budget > 0 {
            assert(joined(b.nodes, y, q));
            let cur = y[q + 1];
            let object = b.nodes[cur as int].object;
            assert(object == nodes0[cur as int].object);
            let a = attach(b, object);
            lemma_attach_len(b, object);
            let step = match object {
                ObjectView::Symbol(_) => Some(a),
                ObjectView::StrBracketL => Some(Build { l_brackets: a.l_brackets.push(a.border), ..a }),
                ObjectView::StrBracketR => if a.l_brackets.len() == 0 {
                    None
                } else {
                    Some(
                        Build {
                            l_brackets: a.l_brackets.drop_last(),
                            nodes: pair_spec(a.nodes, a.l_brackets.last(), a.border),
                            ..a
                        },
                    )
                },
                _ => None,
            };
            if step is Some {
                let b1 = step->0;
                assert(copy_walk(b, y[q], y[e], budget) == copy_walk(
                    b1,
                    cur,
                    y[e],
                    (budget - 1) as nat,
                ));
                lemma_copy_walk_grows(b1, cur, y[e], (budget - 1) as nat);
                let walked = copy_walk(b1, cur, y[e], (budget - 1) as nat);
                if walked is Ok && walked->Ok_0.nodes.len() <= usize::MAX {
                    let c = walked->Ok_0;
                    assert(b1.nodes.len() == b.nodes.len() + 1) by {
                        if b1.nodes != a.nodes {
                            assert(b1.nodes.len() == a.nodes.len());
                        }
                    }
                    lemma_copy_one(nodes0, b, b1, x, y, object, a.l_brackets.last(), a.border);
                    let id = b.nodes.len() as usize;
                    let x1 = x.push(id);
                    lemma_copy_walk_lists(nodes0, b1, x1, y, q + 1, e, (budget - 1) as nat);
                    let new1 = made(b1.nodes.len(), e - q - 1);
                    assert(x1 + new1 =~= x + new);
                    assert(objects(c.nodes, new) =~= objects(nodes0, y.subrange(q + 1, e + 1))) by {
                        let want = objects(nodes0, y.subrange(q + 1, e + 1));
                        let rest = objects(nodes0, y.subrange(q + 2, e + 1));
                        assert forall|i: int| 0 <= i < new.len() implies objects(c.nodes, new)[i]
                            == want[i] by {
                            if i == 0 {
                                assert(new[0] == id);
                                assert(c.nodes[id as int].object == b1.nodes[id as int].object);
                                assert(want[0] == nodes0[cur as int].object);
                            } else {
                                assert(new[i] == new1[i - 1]);
                                assert(objects(c.nodes, new1)[i - 1] == rest[i - 1]);
                                assert(rest[i - 1] == want[i]);
                            }
                        }
                    }
                }
            }
        }
    }
}

/// New nodes have come behind the border: they are more new nodes, and
/// they stand last in what takes the place of the call.
pub proof fn lemma_building_grown(
    site: Site,
    b: Build,
    c: Build,
    tr: Trace,
    new: Seq<usize>,
    objs: Seq<ObjectView>,
)
    requires
        building(site, b, tr),
        new == made(b.nodes.len(), new.len() as int),
        c.nodes.len() == b.nodes.len() + new.len(),
        c.nodes.len() <= usize::MAX,
        keeps_objects(b.nodes, c.nodes),
        seg(c.nodes, site.pre() + (tr.news + new) + site.call() + site.post()),
        c.nodes[site.ids.last() as int].next is None,
        c.border == (site.pre() + (tr.news + new)).last(),
        c.transplants == b.transplants,
        objects(c.nodes, new) == objs,
    ensures
        building(
            site,
            c,
            Trace { news: tr.news + new, layout: tr.layout + new, text: tr.text + objs, ..tr },
        ),
{
    lemma_building_tidy(site, b, tr);
    let a = site.pre() + tr.news;
    let call = site.call();
    let post = site.post();
    let news = tr.news + new;
    let a2 = site.pre() + news;
    assert(a2 =~= a + new);
    let tr2 = Trace { news, layout: tr.layout + new, text: tr.text + objs, ..tr };
    let m = a + post;
    let m2 = a2 + post;
    assert forall|i: int| 0 <= i < m.len() implies m2.contains(#[trigger] m[i]) by {
        if i < a.len() {
            assert(m2[i] == m[i]);
        } else {
            assert(m2[i + new.len()] == m[i]);
        }
    }
    lemma_fits_grow(m, m2, call, b.transplants, tr.moves);
    assert forall|i: int| 0 <= i < tr.moves.len() implies a2.contains((#[trigger] tr.moves[i]).border) by {
        let mv = tr.moves[i];
        assert(a.contains(mv.border));
        let u = choose|u: int| 0 <= u < a.len() && a[u] == mv.border;
        assert(a2[u] == a[u]);
    }
    assert forall|i: int| 0 <= i < tr.moves.len() implies !new.contains((#[trigger] tr.moves[i]).border) by {
        let mv = tr.moves[i];
        assert(a.contains(mv.border));
        let u = choose|u: int| 0 <= u < a.len() && a[u] == mv.border;
        assert(a[u] < b.nodes.len());
        if new.contains(mv.border) {
            let v = choose|v: int| 0 <= v < new.len() && new[v] == mv.border;
            assert(new[v] == (b.nodes.len() + v) as usize);
        }
    }
    lemma_laid_append(a, new, tr.moves);
    assert(site.pre() + tr.layout + new =~= site.pre() + tr2.layout);
    assert forall|i: int| 0 <= i < news.len() implies site.nodes.len() <= #[trigger] news[i] by {
        if i < tr.news.len() {
            assert(news[i] == tr.news[i]);
        } else {
            assert(news[i] == new[i - tr.news.len()]);
        }
    }
    assert forall|i: int| 0 <= i < tr2.layout.len() implies (#[trigger] tr2.layout[i])
        < c.nodes.len() by {
        if i < tr.layout.len() {
            assert(tr2.layout[i] == tr.layout[i]);
        } else {
            assert(tr2.layout[i] == new[i - tr.layout.len()]);
        }
    }
    assert(objects(c.nodes, tr2.layout) =~= tr2.text) by {
        assert forall|i: int| 0 <= i < tr2.layout.len() implies objects(c.nodes, tr2.layout)[i]
            == tr2.text[i] by {
            if i < tr.layout.len() {
                assert(tr2.layout[i] == tr.layout[i]);
                assert(objects(b.nodes, tr.layout)[i] == tr.text[i]);
                assert(c.nodes[tr.layout[i] as int].object == b.nodes[tr.layout[i] as int].object);
            } else {
                let u = i - tr.layout.len();
                assert(tr2.layout[i] == new[u]);
                assert(objects(c.nodes, new)[u] == objs[u]);
            }
        }
    }
    assert(keeps_objects(site.nodes, c.nodes)) by {
        assert forall|i: int| 0 <= i < site.nodes.len() implies (#[trigger] c.nodes[i]).object
            == site.nodes[i].object by {
            assert(b.nodes[i].object == site.nodes[i].object);
        }
    }
}

/// A run is copied in behind the border: the copies are new nodes, and
/// they stand last in what takes the place of the call, with the objects
/// of the run from place `from` to place `to`.
pub proof fn lemma_building_copy(site: Site, b: Build, tr: Trace, from: int, to: int)
    requires
        building(site, b, tr),
        site.k + 1 < from <= to + 1 <= site.j,
    ensures
        b.nodes[site.ids[from] as int].prev == Some(site.ids[from - 1]),
        b.nodes[b.border as int].next == Some(site.ids[site.k + 1]),
        copy_walk(b, site.ids[from - 1], site.ids[to], b.nodes.len()) matches Ok(w) ==> (
        w.nodes.len() <= usize::MAX ==> building(
            site,
            Build { nodes: link_spec(w.nodes, w.border, site.ids[site.k + 1]), ..w },
            Trace {
                news: tr.news + made(b.nodes.len(), to + 1 - from),
                layout: tr.layout + made(b.nodes.len(), to + 1 - from),
                text: tr.text + objects(site.nodes, site.ids.subrange(from, to + 1)),
                ..tr
            },
        ) && w.transplants == b.transplants),
{
    lemma_building_tidy(site, b, tr);
    let a = site.pre() + tr.news;
    let call = site.call();
    let post = site.post();
    let y = call + post;
    let q = from - 1 - (site.k + 1);
    let e = to - (site.k + 1);
    assert(y[q] == site.ids[from - 1]);
    assert(y[e] == site.ids[to]);
    assert(joined(b.nodes, site.ids, from - 1));
    assert forall|i: int| 0 <= i < y.len() implies (#[trigger] y[i]) < site.nodes.len() by {
        if i < call.len() {
            assert(y[i] == call[i]);
        } else {
            assert(y[i] == post[i - call.len()]);
        }
    }
    assert(y.last() == site.ids.last());
    lemma_copy_walk_lists(site.nodes, b, a, y, q, e, b.nodes.len());
    let walked = copy_walk(b, site.ids[from - 1], site.ids[to], b.nodes.len());
    if walked is Ok && walked->Ok_0.nodes.len() <= usize::MAX {
        let w = walked->Ok_0;
        let new = made(b.nodes.len(), to + 1 - from);
        let run = site.ids.subrange(from, to + 1);
        assert(y.subrange(q + 1, e + 1) =~= run);
        let a2 = a + new;
        let next = site.ids[site.k + 1];
        assert(y[0] == next);
        assert(apart(a2, y)) by {
            assert forall|i: int, j: int| 0 <= i < a2.len() && 0 <= j < y.len() implies (
            #[trigger] a2[i]) != (#[trigger] y[j]) by {
                assert(y[j] < site.nodes.len());
                if i < a.len() {
                    assert(a2[i] == a[i]);
                } else {
                    assert(a2[i] == new[i - a.len()]);
                }
            }
        }
        lemma_link_joins(w.nodes, a2, y);
        let linked = link_spec(w.nodes, w.border, next);
        let c = Build { nodes: linked, ..w };
        assert(a2 + y =~= site.pre() + (tr.news + new) + call + post);
        assert(a2 =~= site.pre() + (tr.news + new));
        let _ = y[y.len() - 1];
        assert(objects(linked, new) =~= objects(w.nodes, new));
        assert(keeps_objects(b.nodes, linked)) by {
            assert forall|i: int| 0 <= i < b.nodes.len() implies (#[trigger] linked[i]).object
                == b.nodes[i].object by {
                assert(w.nodes[i].object == b.nodes[i].object);
            }
        }
        lemma_building_grown(site, b, c, tr, new, objects(site.nodes, run));
    }
}

} // verus!
