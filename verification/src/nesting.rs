//! The nesting of brackets along a list.
//!
//! Read from left to right, a list of nodes is well nested where every
//! right bracket names as its mate the innermost left bracket that still
//! waits, and that bracket is of its kind. This module defines the reading
//! and proves that a rewrite whose instructions are well bracketed, and
//! which moves and copies runs that are well nested themselves, leaves a
//! well nested chain.

use crate::construction::{moves_nodes, proper, reads_inside, run_of, runs, text_of, trace_after};
use crate::construction::{lemma_copy_lists_of, lemma_insert_lists, lemma_move_lists_of};
use crate::construction::{lemma_trace_after, written};
use crate::data::CommandView;
use crate::lowering::{compile_rewrite, rewrite_command};
use crate::listing::{apart, joined, lists, objects, seg};
use crate::machine::{apply_transplants, attach, build, build_one, copy_expr, copy_walk, finalize};
use crate::machine::{fresh, insert, lemma_link_keeps, rewrite_start, splice_out};
use crate::machine::{Build, State, Transplant};
use crate::machine_laws::{lemma_attach_len, lemma_build_grows_from, lemma_copy_walk_grows};
use crate::rewriting::{at, building, keeps_objects, made, Site, Trace};
use crate::rewriting::{lemma_building_finalize, lemma_building_tidy, lemma_copy_one};
use crate::runtime::{unlink_next_spec, unlink_prev_spec, ChainView};
use crate::runtime::{link_spec, pair_spec};
use crate::runtime::{NodeView, ObjectView};
use vstd::prelude::*;

verus! {

/// The object is a left bracket.
pub open spec fn is_left(object: ObjectView) -> bool {
    object is StrBracketL || object is FunBracketL
}

/// The object is a right bracket.
pub open spec fn is_right(object: ObjectView) -> bool {
    object is StrBracketR || object is FunBracketR
}

/// The left brackets that wait for their mate after the slots `ids` were
/// read with `stack` waiting; `None` where a right bracket does not name
/// the innermost waiting left bracket of its kind as its mate.
pub open spec fn scan(nodes: Seq<NodeView>, ids: Seq<usize>, stack: Seq<usize>) -> Option<Seq<usize>>
    decreases ids.len(),
{
    if ids.len() == 0 {
        Some(stack)
    } else {
        let node = nodes[ids[0] as int];
        if is_left(node.object) {
            scan(nodes, ids.skip(1), stack.push(ids[0]))
        } else if is_right(node.object) {
            if stack.len() > 0 && node.twin == Some(stack.last()) && nodes[stack.last() as int].object.opens(
                node.object,
            ) {
                scan(nodes, ids.skip(1), stack.drop_last())
            } else {
                None
            }
        } else {
            scan(nodes, ids.skip(1), stack)
        }
    }
}

/// The list is well nested: read from its start with no bracket waiting,
/// it leaves no bracket waiting.
pub open spec fn nested(nodes: Seq<NodeView>, ids: Seq<usize>) -> bool {
    scan(nodes, ids, Seq::empty()) == Some(Seq::<usize>::empty())
}

/// Reading two lists one after the other is reading the one and then the
/// other.
pub proof fn lemma_scan_concat(nodes: Seq<NodeView>, x: Seq<usize>, y: Seq<usize>, stack: Seq<usize>)
    ensures
        scan(nodes, x + y, stack) == match scan(nodes, x, stack) {
            None => None,
            Some(s) => scan(nodes, y, s),
        },
    decreases x.len(),
{
    if x.len() == 0 {
        assert(x + y =~= y);
    } else {
        let z = x + y;
        assert(z[0] == x[0]);
        assert(z.skip(1) =~= x.skip(1) + y);
        let node = nodes[x[0] as int];
        if is_left(node.object) {
            lemma_scan_concat(nodes, x.skip(1), y, stack.push(x[0]));
        } else if is_right(node.object) {
            if stack.len() > 0 && node.twin == Some(stack.last()) && nodes[stack.last() as int].object.opens(
                node.object,
            ) {
                lemma_scan_concat(nodes, x.skip(1), y, stack.drop_last());
            }
        } else {
            lemma_scan_concat(nodes, x.skip(1), y, stack);
        }
    }
}

/// What waits below is left alone: a reading that succeeds succeeds with
/// more brackets waiting below, and leaves them waiting.
pub proof fn lemma_scan_above(
    nodes: Seq<NodeView>,
    ids: Seq<usize>,
    below: Seq<usize>,
    stack: Seq<usize>,
)
    requires
        scan(nodes, ids, stack) is Some,
    ensures
        scan(nodes, ids, below + stack) == Some(below + scan(nodes, ids, stack)->0),
    decreases ids.len(),
{
    if ids.len() > 0 {
        let node = nodes[ids[0] as int];
        if is_left(node.object) {
            assert((below + stack).push(ids[0]) =~= below + stack.push(ids[0]));
            lemma_scan_above(nodes, ids.skip(1), below, stack.push(ids[0]));
        } else if is_right(node.object) {
            assert((below + stack).last() == stack.last());
            assert((below + stack).drop_last() =~= below + stack.drop_last());
            lemma_scan_above(nodes, ids.skip(1), below, stack.drop_last());
        } else {
            lemma_scan_above(nodes, ids.skip(1), below, stack);
        }
    }
}

/// A well nested list leaves waiting whoever waited.
pub proof fn lemma_nested_above(nodes: Seq<NodeView>, ids: Seq<usize>, stack: Seq<usize>)
    requires
        nested(nodes, ids),
    ensures
        scan(nodes, ids, stack) == Some(stack),
{
    lemma_scan_above(nodes, ids, stack, Seq::empty());
    assert(stack + Seq::<usize>::empty() =~= stack);
}

/// The reading is the same in every arena in which the slots that are
/// read and the slots that wait hold the same objects, and the right
/// brackets that are read have the same mates.
pub proof fn lemma_scan_same(
    nodes: Seq<NodeView>,
    other: Seq<NodeView>,
    ids: Seq<usize>,
    stack: Seq<usize>,
)
    requires
        forall|i: int|
            0 <= i < ids.len() ==> other[(#[trigger] ids[i]) as int].object
                == nodes[ids[i] as int].object && (is_right(nodes[ids[i] as int].object)
                ==> other[ids[i] as int].twin == nodes[ids[i] as int].twin),
        forall|i: int|
            0 <= i < stack.len() ==> other[(#[trigger] stack[i]) as int].object
                == nodes[stack[i] as int].object,
    ensures
        scan(other, ids, stack) == scan(nodes, ids, stack),
    decreases ids.len(),
{
    if ids.len() > 0 {
        let id = ids[0];
        let node = nodes[id as int];
        let rest = ids.skip(1);
        assert forall|i: int| 0 <= i < rest.len() implies other[(#[trigger] rest[i]) as int].object
            == nodes[rest[i] as int].object && (is_right(nodes[rest[i] as int].object)
            ==> other[rest[i] as int].twin == nodes[rest[i] as int].twin) by {
            assert(rest[i] == ids[i + 1]);
        }
        if is_left(node.object) {
            let pushed = stack.push(id);
            assert forall|i: int| 0 <= i < pushed.len() implies other[(#[trigger] pushed[i]) as int].object
                == nodes[pushed[i] as int].object by {
                if i < stack.len() {
                    assert(pushed[i] == stack[i]);
                }
            }
            lemma_scan_same(nodes, other, rest, pushed);
        } else if is_right(node.object) {
            if stack.len() > 0 {
                let _ = stack[stack.len() - 1];
                let popped = stack.drop_last();
                assert forall|i: int| 0 <= i < popped.len() implies other[(
                #[trigger] popped[i]) as int].object == nodes[popped[i] as int].object by {
                    assert(popped[i] == stack[i]);
                }
                lemma_scan_same(nodes, other, rest, popped);
            }
        } else {
            lemma_scan_same(nodes, other, rest, stack);
        }
    }
}

/// The left brackets that wait, `w`, are the structural ones `strs` and
/// the call brackets `funs`, woven in the order of `kinds`: true for a
/// structural bracket.
pub open spec fn woven(w: Seq<usize>, kinds: Seq<bool>, strs: Seq<usize>, funs: Seq<usize>) -> bool
    decreases w.len(),
{
    if w.len() == 0 {
        kinds.len() == 0 && strs.len() == 0 && funs.len() == 0
    } else if kinds.len() != w.len() {
        false
    } else if kinds.last() {
        strs.len() > 0 && strs.last() == w.last() && woven(
            w.drop_last(),
            kinds.drop_last(),
            strs.drop_last(),
            funs,
        )
    } else {
        funs.len() > 0 && funs.last() == w.last() && woven(
            w.drop_last(),
            kinds.drop_last(),
            strs,
            funs.drop_last(),
        )
    }
}

/// One more bracket waits.
pub proof fn lemma_woven_push(
    w: Seq<usize>,
    kinds: Seq<bool>,
    strs: Seq<usize>,
    funs: Seq<usize>,
    id: usize,
    structural: bool,
)
    requires
        woven(w, kinds, strs, funs),
    ensures
        structural ==> woven(w.push(id), kinds.push(true), strs.push(id), funs),
        !structural ==> woven(w.push(id), kinds.push(false), strs, funs.push(id)),
        kinds.len() == w.len(),
{
    assert(w.push(id).drop_last() =~= w);
    assert(kinds.push(structural).drop_last() =~= kinds);
    assert(strs.push(id).drop_last() =~= strs);
    assert(funs.push(id).drop_last() =~= funs);
    if w.len() == 0 {
        assert(kinds.len() == 0);
    }
}

/// The arena `after` has the nodes of `nodes` with their objects and their
/// mates.
pub open spec fn keeps_nodes(nodes: Seq<NodeView>, after: Seq<NodeView>) -> bool {
    &&& after.len() >= nodes.len()
    &&& forall|i: int|
        0 <= i < nodes.len() ==> (#[trigger] after[i]).object == nodes[i].object && after[i].twin
            == nodes[i].twin
}

/// A node that is spliced in is a new slot without mate; the nodes that
/// were there keep their objects and their mates.
pub proof fn lemma_insert_keeps(b: Build, object: ObjectView)
    requires
        b.nodes.len() < usize::MAX,
        insert(b, object) is Ok,
    ensures
        keeps_nodes(b.nodes, insert(b, object)->Ok_0.nodes),
        insert(b, object)->Ok_0.nodes.len() == b.nodes.len() + 1,
        insert(b, object)->Ok_0.nodes[b.nodes.len() as int].object == object,
        insert(b, object)->Ok_0.nodes[b.nodes.len() as int].twin is None,
        insert(b, object)->Ok_0.border == b.nodes.len(),
        insert(b, object)->Ok_0.l_brackets == b.l_brackets,
        insert(b, object)->Ok_0.l_fun_brackets == b.l_fun_brackets,
{
    let id = b.nodes.len() as usize;
    let pushed = b.nodes.push(fresh(object));
    let next = b.nodes[b.border as int].next->0;
    lemma_link_keeps(pushed, b.border, id);
    lemma_link_keeps(link_spec(pushed, b.border, id), id, next);
    let after = insert(b, object)->Ok_0.nodes;
    assert forall|i: int| 0 <= i < b.nodes.len() implies (#[trigger] after[i]).object
        == b.nodes[i].object && after[i].twin == b.nodes[i].twin by {
        assert(pushed[i] == b.nodes[i]);
        let _ = link_spec(pushed, b.border, id)[i];
    }
    let _ = link_spec(pushed, b.border, id)[id as int];
}

/// The left bracket of the kind: structural for true, of a call for false.
pub open spec fn left_of(structural: bool) -> ObjectView {
    if structural {
        ObjectView::StrBracketL
    } else {
        ObjectView::FunBracketL
    }
}

/// The brackets `w` wait for their mate: they are new nodes, left
/// brackets of the kinds `kinds`, and the machine holds them in its two
/// stacks in this order.
pub open spec fn waiting(site: Site, b: Build, w: Seq<usize>, kinds: Seq<bool>) -> bool {
    &&& woven(w, kinds, b.l_brackets, b.l_fun_brackets)
    &&& kinds.len() == w.len()
    &&& forall|i: int|
        0 <= i < w.len() ==> site.nodes.len() <= (#[trigger] w[i]) < b.nodes.len()
            && b.nodes[w[i] as int].object == left_of(kinds[i])
}

/// The invariant of the construction on the nesting: the nodes that were
/// there keep their mates, and what takes the place of the call, read from
/// its start, leaves the brackets `w` waiting.
pub open spec fn nesting(site: Site, b: Build, tr: Trace, w: Seq<usize>, kinds: Seq<bool>) -> bool {
    &&& building(site, b, tr)
    &&& keeps_nodes(site.nodes, b.nodes)
    &&& scan(b.nodes, tr.layout, Seq::empty()) == Some(w)
    &&& waiting(site, b, w, kinds)
}

/// The kinds of the brackets that wait once `cmd` is carried out.
pub open spec fn kinds_after(kinds: Seq<bool>, cmd: CommandView) -> Seq<bool> {
    match cmd {
        CommandView::InsertStrBracketL => kinds.push(true),
        CommandView::InsertFunBracketL => kinds.push(false),
        CommandView::InsertStrBracketR => kinds.drop_last(),
        CommandView::InsertFunBracketR => kinds.drop_last(),
        _ => kinds,
    }
}

/// The brackets that wait once `cmd` is carried out in the arena of `b`.
pub open spec fn waiting_after(b: Build, w: Seq<usize>, cmd: CommandView) -> Seq<usize> {
    match cmd {
        CommandView::InsertStrBracketL => w.push(b.nodes.len() as usize),
        CommandView::InsertFunBracketL => w.push(b.nodes.len() as usize),
        CommandView::InsertStrBracketR => w.drop_last(),
        CommandView::InsertFunBracketR => w.drop_last(),
        _ => w,
    }
}

/// A right bracket closes the innermost bracket that waits, and that
/// bracket is of its kind.
pub open spec fn closes_innermost(kinds: Seq<bool>, cmd: CommandView) -> bool {
    match cmd {
        CommandView::InsertStrBracketR => kinds.len() > 0 && kinds.last(),
        CommandView::InsertFunBracketR => kinds.len() > 0 && !kinds.last(),
        _ => true,
    }
}

/// The instruction closes no bracket.
pub open spec fn closes_none(cmd: CommandView) -> bool {
    !(cmd is InsertStrBracketR) && !(cmd is InsertFunBracketR)
}

/// What an instruction that inserts a symbol or a left bracket does to the
/// nesting.
pub proof fn lemma_open_nested(
    site: Site,
    b: Build,
    tr: Trace,
    w: Seq<usize>,
    kinds: Seq<bool>,
    projections: Seq<usize>,
    cmd: CommandView,
)
    requires
        nesting(site, b, tr, w, kinds),
        reads_inside(site, projections, cmd),
        !moves_nodes(cmd),
        !(cmd is CopyExpr),
        closes_none(cmd),
        build_one(b, projections, cmd) is Ok,
        build_one(b, projections, cmd)->Ok_0.nodes.len() <= usize::MAX,
    ensures
        nesting(
            site,
            build_one(b, projections, cmd)->Ok_0,
            trace_after(site, b, tr, projections, cmd),
            waiting_after(b, w, cmd),
            kinds_after(kinds, cmd),
        ),
{
    lemma_insert_lists(site, b, tr, projections, cmd);
    let object = text_of(site, projections, cmd)[0];
    lemma_attach_len(b, object);
    lemma_insert_keeps(b, object);
    let c = build_one(b, projections, cmd)->Ok_0;
    let id = b.nodes.len() as usize;
    let tr2 = trace_after(site, b, tr, projections, cmd);
    let w2 = waiting_after(b, w, cmd);
    let kinds2 = kinds_after(kinds, cmd);
    assert(c.nodes == insert(b, object)->Ok_0.nodes);
    assert(tr2.layout =~= tr.layout + seq![id]);
    lemma_scan_concat(c.nodes, tr.layout, seq![id], Seq::empty());
    assert forall|i: int| 0 <= i < tr.layout.len() implies c.nodes[(
    #[trigger] tr.layout[i]) as int].object == b.nodes[tr.layout[i] as int].object && c.nodes[tr.layout[i] as int].twin
        == b.nodes[tr.layout[i] as int].twin by {
        assert(tr.layout[i] < b.nodes.len());
    }
    lemma_scan_same(b.nodes, c.nodes, tr.layout, Seq::empty());
    let one = seq![id];
    assert(one.skip(1) =~= Seq::<usize>::empty());
    assert(scan(c.nodes, one.skip(1), w2) == Some(w2));
    match cmd {
        CommandView::CopySymbol(n) => {
            assert(b.nodes[projections[n as int] as int].object
                == site.nodes[projections[n as int] as int].object);
        },
        _ => {},
    }
    assert(scan(c.nodes, one, w) == Some(w2));
    match cmd {
        CommandView::InsertStrBracketL => {
            lemma_woven_push(w, kinds, b.l_brackets, b.l_fun_brackets, id, true);
        },
        CommandView::InsertFunBracketL => {
            lemma_woven_push(w, kinds, b.l_brackets, b.l_fun_brackets, id, false);
        },
        _ => {},
    }
    assert forall|i: int| 0 <= i < w2.len() implies site.nodes.len() <= (#[trigger] w2[i])
        < c.nodes.len() && c.nodes[w2[i] as int].object == left_of(kinds2[i]) by {
        if i < w.len() {
            assert(w2[i] == w[i]);
            assert(kinds2[i] == kinds[i]);
        }
    }
    assert(keeps_nodes(site.nodes, c.nodes)) by {
        assert forall|i: int| 0 <= i < site.nodes.len() implies (#[trigger] c.nodes[i]).object
            == site.nodes[i].object && c.nodes[i].twin == site.nodes[i].twin by {
            assert(b.nodes[i].object == site.nodes[i].object);
        }
    }
}

/// What an instruction that inserts a right bracket does to the nesting.
pub proof fn lemma_close_nested(
    site: Site,
    b: Build,
    tr: Trace,
    w: Seq<usize>,
    kinds: Seq<bool>,
    projections: Seq<usize>,
    cmd: CommandView,
)
    requires
        nesting(site, b, tr, w, kinds),
        !closes_none(cmd),
        closes_innermost(kinds, cmd),
        build_one(b, projections, cmd) is Ok,
        build_one(b, projections, cmd)->Ok_0.nodes.len() <= usize::MAX,
    ensures
        nesting(
            site,
            build_one(b, projections, cmd)->Ok_0,
            trace_after(site, b, tr, projections, cmd),
            waiting_after(b, w, cmd),
            kinds_after(kinds, cmd),
        ),
{
    lemma_insert_lists(site, b, tr, projections, cmd);
    let object = text_of(site, projections, cmd)[0];
    lemma_attach_len(b, object);
    lemma_insert_keeps(b, object);
    let c0 = insert(b, object)->Ok_0;
    let c = build_one(b, projections, cmd)->Ok_0;
    let id = b.nodes.len() as usize;
    let x = w.last();
    let _ = w[w.len() - 1];
    let tr2 = trace_after(site, b, tr, projections, cmd);
    let w2 = w.drop_last();
    let kinds2 = kinds.drop_last();
    assert(c.nodes == pair_spec(c0.nodes, x, id));
    assert(tr2.layout =~= tr.layout + seq![id]);
    lemma_scan_concat(c.nodes, tr.layout, seq![id], Seq::empty());
    assert forall|i: int| 0 <= i < tr.layout.len() implies c.nodes[(
    #[trigger] tr.layout[i]) as int].object == b.nodes[tr.layout[i] as int].object && (is_right(
        b.nodes[tr.layout[i] as int].object,
    ) ==> c.nodes[tr.layout[i] as int].twin == b.nodes[tr.layout[i] as int].twin) by {
        assert(tr.layout[i] < b.nodes.len());
        let _ = c0.nodes[tr.layout[i] as int];
    }
    lemma_scan_same(b.nodes, c.nodes, tr.layout, Seq::empty());
    let one = seq![id];
    assert(one.skip(1) =~= Seq::<usize>::empty());
    assert(scan(c.nodes, one.skip(1), w2) == Some(w2));
    let _ = c0.nodes[x as int];
    assert(c.nodes[x as int].object == left_of(kinds.last()));
    assert(scan(c.nodes, one, w) == Some(w2));
    assert forall|i: int| 0 <= i < w2.len() implies site.nodes.len() <= (#[trigger] w2[i])
        < c.nodes.len() && c.nodes[w2[i] as int].object == left_of(kinds2[i]) by {
        assert(w2[i] == w[i]);
        assert(kinds2[i] == kinds[i]);
        let _ = c0.nodes[w[i] as int];
    }
    assert(keeps_nodes(site.nodes, c.nodes)) by {
        assert forall|i: int| 0 <= i < site.nodes.len() implies (#[trigger] c.nodes[i]).object
            == site.nodes[i].object && c.nodes[i].twin == site.nodes[i].twin by {
            assert(b.nodes[i].object == site.nodes[i].object);
            let _ = c0.nodes[i];
        }
    }
}

/// What an instruction that moves a well nested run does to the nesting.
pub proof fn lemma_move_nested(
    site: Site,
    b: Build,
    tr: Trace,
    w: Seq<usize>,
    kinds: Seq<bool>,
    projections: Seq<usize>,
    cmd: CommandView,
)
    requires
        nesting(site, b, tr, w, kinds),
        reads_inside(site, projections, cmd),
        moves_nodes(cmd),
        nested(site.nodes, run_of(site, projections, cmd)),
        forall|i: int|
            0 <= i < tr.moves.len() ==> apart(
                (#[trigger] tr.moves[i]).run,
                run_of(site, projections, cmd),
            ),
        build_one(b, projections, cmd) is Ok,
    ensures
        nesting(
            site,
            build_one(b, projections, cmd)->Ok_0,
            trace_after(site, b, tr, projections, cmd),
            w,
            kinds,
        ),
{
    lemma_move_lists_of(site, b, tr, projections, cmd);
    let run = run_of(site, projections, cmd);
    if run.len() > 0 {
        let p = match cmd {
            CommandView::TransplantObject(n) => crate::rewriting::at(site.ids, projections[n as int]),
            CommandView::TransplantExpr(n) => crate::rewriting::at(site.ids, projections[n - 1]),
            _ => 0,
        };
        assert forall|i: int| 0 <= i < run.len() implies (#[trigger] run[i]) < site.nodes.len() by {
            assert(run[i] == site.ids[p + i]);
        }
        assert forall|i: int| 0 <= i < run.len() implies b.nodes[(#[trigger] run[i]) as int].object
            == site.nodes[run[i] as int].object && b.nodes[run[i] as int].twin
            == site.nodes[run[i] as int].twin by {
            assert(run[i] < site.nodes.len());
        }
        lemma_scan_same(site.nodes, b.nodes, run, Seq::empty());
        lemma_nested_above(b.nodes, run, w);
        lemma_scan_concat(b.nodes, tr.layout, run, Seq::empty());
    }
}

/// A node that is hung behind the border is a new slot without mate; the
/// nodes that were there keep their objects and their mates.
pub proof fn lemma_attach_keeps(b: Build, object: ObjectView)
    ensures
        keeps_nodes(b.nodes, attach(b, object).nodes),
        attach(b, object).nodes.len() == b.nodes.len() + 1,
        attach(b, object).nodes[b.nodes.len() as int].object == object,
        attach(b, object).nodes[b.nodes.len() as int].twin is None,
        attach(b, object).l_brackets == b.l_brackets,
        attach(b, object).l_fun_brackets == b.l_fun_brackets,
{
    let id = b.nodes.len() as usize;
    let pushed = b.nodes.push(fresh(object));
    lemma_link_keeps(pushed, b.border, id);
    let after = attach(b, object).nodes;
    assert forall|i: int| 0 <= i < b.nodes.len() implies (#[trigger] after[i]).object
        == b.nodes[i].object && after[i].twin == b.nodes[i].twin by {
        assert(pushed[i] == b.nodes[i]);
    }
    assert(pushed[b.nodes.len() as int] == fresh(object));
}

/// What the copy of one node does to what is being built; `None` for a
/// node that cannot be copied.
pub open spec fn copy_step(b: Build, object: ObjectView) -> Option<Build> {
    let a = attach(b, object);
    match object {
        ObjectView::Symbol(_) => Some(a),
        ObjectView::StrBracketL => Some(Build { l_brackets: a.l_brackets.push(a.border), ..a }),
        ObjectView::StrBracketR => if a.l_brackets.len() == 0 {
            None
        } else {
            Some(
                Build {
                    l_brackets: a.l_brackets.drop_last(),
                    nodes: pair_spec(a.nodes, a.l_brackets.last(), a.border),
                    ..a
                },
            )
        },
        _ => None,
    }
}

/// The brackets that wait once a node with `object` was read or written
/// as the slot `id`.
pub open spec fn waiting_next(stack: Seq<usize>, object: ObjectView, id: usize) -> Seq<usize> {
    match object {
        ObjectView::StrBracketL => stack.push(id),
        ObjectView::StrBracketR => stack.drop_last(),
        _ => stack,
    }
}

/// The copy of one node of a well nested run: the copy of a left bracket
/// waits, and the copy of a right bracket closes the copy of the bracket
/// that the right bracket closes.
pub proof fn lemma_copy_step_nested(
    nodes0: Seq<NodeView>,
    b: Build,
    b1: Build,
    x: Seq<usize>,
    y: Seq<usize>,
    q: int,
    e: int,
    layout: Seq<usize>,
    w0: Seq<usize>,
    copies: Seq<usize>,
    src: Seq<usize>,
    strs0: Seq<usize>,
)
    requires
        seg(b.nodes, x),
        seg(b.nodes, y),
        apart(x, y),
        x.len() > 0,
        b.border == x.last(),
        b.nodes[y.last() as int].next is None,
        0 <= q < e < y.len(),
        forall|i: int| 0 <= i < y.len() ==> (#[trigger] y[i]) < nodes0.len(),
        keeps_nodes(nodes0, b.nodes),
        forall|i: int| 0 <= i < layout.len() ==> (#[trigger] layout[i]) < b.nodes.len(),
        scan(b.nodes, layout, Seq::empty()) == Some(w0 + copies),
        b.l_brackets == strs0 + copies,
        copies.len() == src.len(),
        scan(nodes0, y.subrange(q + 1, e + 1), src) == Some(Seq::<usize>::empty()),
        forall|i: int|
            0 <= i < copies.len() ==> nodes0.len() <= (#[trigger] copies[i]) < b.nodes.len()
                && b.nodes[copies[i] as int].object == ObjectView::StrBracketL,
        b.nodes.len() < usize::MAX,
        copy_step(b, nodes0[y[q + 1] as int].object) == Some(b1),
    ensures
        ({
            let object = nodes0[y[q + 1] as int].object;
            let id = b.nodes.len() as usize;
            let copies1 = waiting_next(copies, object, id);
            let src1 = waiting_next(src, object, y[q + 1]);
            &&& seg(b1.nodes, x.push(id))
            &&& seg(b1.nodes, y)
            &&& apart(x.push(id), y)
            &&& b1.border == x.push(id).last()
            &&& b1.nodes[y.last() as int].next is None
            &&& keeps_nodes(nodes0, b1.nodes)
            &&& keeps_objects(b.nodes, b1.nodes)
            &&& b1.nodes.len() == b.nodes.len() + 1
            &&& forall|i: int|
                0 <= i < layout.push(id).len() ==> (#[trigger] layout.push(id)[i]) < b1.nodes.len()
            &&& scan(b1.nodes, layout.push(id), Seq::empty()) == Some(w0 + copies1)
            &&& b1.l_brackets == strs0 + copies1
            &&& b1.l_fun_brackets == b.l_fun_brackets
            &&& copies1.len() == src1.len()
            &&& scan(nodes0, y.subrange(q + 2, e + 1), src1) == Some(Seq::<usize>::empty())
            &&& forall|i: int|
                0 <= i < copies1.len() ==> nodes0.len() <= (#[trigger] copies1[i]) < b1.nodes.len()
                    && b1.nodes[copies1[i] as int].object == ObjectView::StrBracketL
        }),
{
    let run = y.subrange(q + 1, e + 1);
    let cur = y[q + 1];
    assert(run[0] == cur);
    let rest = y.subrange(q + 2, e + 1);
    assert(run.skip(1) =~= rest);
    let object = nodes0[cur as int].object;
    let a = attach(b, object);
    lemma_attach_len(b, object);
    lemma_attach_keeps(b, object);
    let id = b.nodes.len() as usize;
    assert(b1.nodes.len() == b.nodes.len() + 1) by {
        if b1.nodes != a.nodes {
            assert(b1.nodes.len() == a.nodes.len());
        }
    }
    assert(keeps_objects(nodes0, b.nodes));
    lemma_copy_one(nodes0, b, b1, x, y, object, a.l_brackets.last(), a.border);
    let layout1 = layout.push(id);
    let one = seq![id];
    assert(layout1 =~= layout + one);
    assert(one.skip(1) =~= Seq::<usize>::empty());
    let copies1 = waiting_next(copies, object, id);
    let src1 = waiting_next(src, object, cur);
    assert(scan(nodes0, rest, src1) == Some(Seq::<usize>::empty()));
    if object is StrBracketR {
        assert(src.len() > 0);
        let _ = copies[copies.len() - 1];
        assert((strs0 + copies).last() == copies.last());
        assert((strs0 + copies).drop_last() =~= strs0 + copies1);
        assert((w0 + copies).last() == copies.last());
        assert((w0 + copies).drop_last() =~= w0 + copies1);
    } else if object is StrBracketL {
        assert((strs0 + copies).push(id) =~= strs0 + copies1);
        assert((w0 + copies).push(id) =~= w0 + copies1);
    }
    assert forall|i: int| 0 <= i < layout.len() implies b1.nodes[(#[trigger] layout[i]) as int].object
        == b.nodes[layout[i] as int].object && (is_right(b.nodes[layout[i] as int].object)
        ==> b1.nodes[layout[i] as int].twin == b.nodes[layout[i] as int].twin) by {
        assert(layout[i] < b.nodes.len());
        let _ = a.nodes[layout[i] as int];
    }
    lemma_scan_same(b.nodes, b1.nodes, layout, Seq::empty());
    lemma_scan_concat(b1.nodes, layout, one, Seq::empty());
    assert(scan(b1.nodes, one.skip(1), w0 + copies1) == Some(w0 + copies1));
    assert(scan(b1.nodes, one, w0 + copies) == Some(w0 + copies1)) by {
        if object is StrBracketR {
            let _ = a.nodes[copies.last() as int];
        }
    }
    assert forall|i: int| 0 <= i < copies1.len() implies nodes0.len() <= (#[trigger] copies1[i])
        < b1.nodes.len() && b1.nodes[copies1[i] as int].object == ObjectView::StrBracketL by {
        if i < copies.len() {
            assert(copies1[i] == copies[i]);
            let _ = a.nodes[copies[i] as int];
        }
    }
    assert(keeps_nodes(nodes0, b1.nodes)) by {
        assert forall|i: int| 0 <= i < nodes0.len() implies (#[trigger] b1.nodes[i]).object
            == nodes0[i].object && b1.nodes[i].twin == nodes0[i].twin by {
            let _ = a.nodes[i];
            let _ = b.nodes[i];
        }
    }
    assert forall|i: int| 0 <= i < layout1.len() implies (#[trigger] layout1[i]) < b1.nodes.len() by {
        if i < layout.len() {
            assert(layout1[i] == layout[i]);
        }
    }
}

/// The copy of a well nested run is well nested: with the copies
/// `copies` of the left brackets `src` of the run waiting, the copy of the
/// rest of the run closes them all, and leaves waiting who waited before.
pub proof fn lemma_copy_walk_nested(
    nodes0: Seq<NodeView>,
    b: Build,
    x: Seq<usize>,
    y: Seq<usize>,
    q: int,
    e: int,
    budget: nat,
    layout: Seq<usize>,
    w0: Seq<usize>,
    copies: Seq<usize>,
    src: Seq<usize>,
    strs0: Seq<usize>,
)
    requires
        seg(b.nodes, x),
        seg(b.nodes, y),
        apart(x, y),
        x.len() > 0,
        b.border == x.last(),
        b.nodes[y.last() as int].next is None,
        0 <= q <= e < y.len(),
        forall|i: int| 0 <= i < y.len() ==> (#[trigger] y[i]) < nodes0.len(),
        keeps_nodes(nodes0, b.nodes),
        forall|i: int| 0 <= i < layout.len() ==> (#[trigger] layout[i]) < b.nodes.len(),
        scan(b.nodes, layout, Seq::empty()) == Some(w0 + copies),
        b.l_brackets == strs0 + copies,
        copies.len() == src.len(),
        scan(nodes0, y.subrange(q + 1, e + 1), src) == Some(Seq::<usize>::empty()),
        forall|i: int|
            0 <= i < copies.len() ==> nodes0.len() <= (#[trigger] copies[i]) < b.nodes.len()
                && b.nodes[copies[i] as int].object == ObjectView::StrBracketL,
    ensures
        copy_walk(b, y[q], y[e], budget) matches Ok(c) ==> (c.nodes.len() <= usize::MAX ==> {
            &&& scan(c.nodes, layout + made(b.nodes.len(), e - q), Seq::empty()) == Some(w0)
            &&& c.l_brackets == strs0
            &&& c.l_fun_brackets == b.l_fun_brackets
            &&& keeps_nodes(nodes0, c.nodes)
            &&& keeps_objects(b.nodes, c.nodes)
        }),
    decreases budget,
{
    if q == e {
        assert(y.subrange(q + 1, e + 1) =~= Seq::<usize>::empty());
        assert(src.len() == 0);
        assert(w0 + copies =~= w0);
        assert(strs0 + copies =~= strs0);
        assert(layout + made(b.nodes.len(), e - q) =~= layout);
    } else {
        assert(y[q] != y[e]);
        if budget > 0 {
            assert(joined(b.nodes, y, q));
            let cur = y[q + 1];
            let object = b.nodes[cur as int].object;
            assert(object == nodes0[cur as int].object);
            if copy_step(b, object) is Some {
                let b1 = copy_step(b, object)->0;
                assert(copy_walk(b, y[q], y[e], budget) == copy_walk(
                    b1,
                    cur,
                    y[e],
                    (budget - 1) as nat,
                ));
                lemma_copy_walk_grows(b1, cur, y[e], (budget - 1) as nat);
                lemma_attach_len(b, object);
                let walked = copy_walk(b1, cur, y[e], (budget - 1) as nat);
                if walked is Ok && walked->Ok_0.nodes.len() <= usize::MAX {
                    let c = walked->Ok_0;
                    assert(b1.nodes.len() == b.nodes.len() + 1) by {
                        if b1.nodes != attach(b, object).nodes {
                            assert(b1.nodes.len() == attach(b, object).nodes.len());
                        }
                    }
                    lemma_copy_step_nested(
                        nodes0,
                        b,
                        b1,
                        x,
                        y,
                        q,
                        e,
                        layout,
                        w0,
                        copies,
                        src,
                        strs0,
                    );
                    let id = b.nodes.len() as usize;
                    lemma_copy_walk_nested(
                        nodes0,
                        b1,
                        x.push(id),
                        y,
                        q + 1,
                        e,
                        (budget - 1) as nat,
                        layout.push(id),
                        w0,
                        waiting_next(copies, object, id),
                        waiting_next(src, object, cur),
                        strs0,
                    );
                    assert(layout.push(id) + made(b1.nodes.len(), e - q - 1) =~= layout + made(
                        b.nodes.len(),
                        e - q,
                    ));
                    assert(keeps_objects(b.nodes, c.nodes)) by {
                        assert forall|i: int| 0 <= i < b.nodes.len() implies (#[trigger] c.nodes[i]).object
                            == b.nodes[i].object by {
                            assert(c.nodes[i].object == b1.nodes[i].object);
                        }
                    }
                }
            }
        }
    }
}

/// What the copy of a well nested run does to the nesting.
pub proof fn lemma_copy_nested(
    site: Site,
    b: Build,
    tr: Trace,
    w: Seq<usize>,
    kinds: Seq<bool>,
    projections: Seq<usize>,
    n: nat,
)
    requires
        nesting(site, b, tr, w, kinds),
        reads_inside(site, projections, CommandView::CopyExpr(n)),
        nested(site.nodes, run_of(site, projections, CommandView::CopyExpr(n))),
        copy_expr(b, projections, n) is Ok,
        copy_expr(b, projections, n)->Ok_0.nodes.len() <= usize::MAX,
    ensures
        nesting(
            site,
            copy_expr(b, projections, n)->Ok_0,
            trace_after(site, b, tr, projections, CommandView::CopyExpr(n)),
            w,
            kinds,
        ),
{
    let cmd = CommandView::CopyExpr(n);
    lemma_copy_lists_of(site, b, tr, projections, n);
    lemma_building_tidy(site, b, tr);
    let from = at(site.ids, projections[n - 1]);
    let to = at(site.ids, projections[n as int]);
    assert(site.ids[from] == projections[n - 1]);
    assert(site.ids[to] == projections[n as int]);
    let a = site.pre() + tr.news;
    let call = site.call();
    let post = site.post();
    let y = call + post;
    let q = from - 1 - (site.k + 1);
    let e = to - (site.k + 1);
    assert(y[q] == site.ids[from - 1]);
    assert(y[e] == site.ids[to]);
    assert(joined(b.nodes, site.ids, from - 1));
    assert forall|i: int| 0 <= i < y.len() implies (#[trigger] y[i]) < site.nodes.len() by {
        if i < call.len() {
            assert(y[i] == call[i]);
        } else {
            assert(y[i] == post[i - call.len()]);
        }
    }
    assert(y.last() == site.ids.last());
    let run = run_of(site, projections, cmd);
    assert(y.subrange(q + 1, e + 1) =~= run);
    let none = Seq::<usize>::empty();
    assert(w + none =~= w);
    assert(b.l_brackets + none =~= b.l_brackets);
    lemma_copy_walk_nested(
        site.nodes,
        b,
        a,
        y,
        q,
        e,
        b.nodes.len(),
        tr.layout,
        w,
        none,
        none,
        b.l_brackets,
    );
    let walked = copy_walk(b, site.ids[from - 1], site.ids[to], b.nodes.len())->Ok_0;
    let next = site.ids[site.k + 1];
    lemma_link_keeps(walked.nodes, walked.border, next);
    let c = copy_expr(b, projections, n)->Ok_0;
    assert(c.nodes == link_spec(walked.nodes, walked.border, next));
    let tr2 = trace_after(site, b, tr, projections, cmd);
    assert(tr2.layout == tr.layout + made(b.nodes.len(), e - q));
    assert forall|i: int| 0 <= i < tr2.layout.len() implies c.nodes[(
    #[trigger] tr2.layout[i]) as int].object == walked.nodes[tr2.layout[i] as int].object
        && c.nodes[tr2.layout[i] as int].twin == walked.nodes[tr2.layout[i] as int].twin by {
        assert(tr2.layout[i] < c.nodes.len());
    }
    lemma_scan_same(walked.nodes, c.nodes, tr2.layout, Seq::empty());
    assert forall|i: int| 0 <= i < w.len() implies site.nodes.len() <= (#[trigger] w[i]) < c.nodes.len()
        && c.nodes[w[i] as int].object == left_of(kinds[i]) by {
        assert(walked.nodes[w[i] as int].object == b.nodes[w[i] as int].object);
    }
    assert(keeps_nodes(site.nodes, c.nodes)) by {
        assert forall|i: int| 0 <= i < site.nodes.len() implies (#[trigger] c.nodes[i]).object
            == site.nodes[i].object && c.nodes[i].twin == site.nodes[i].twin by {
            let _ = walked.nodes[i];
        }
    }
}

/// The deferred moves change neither an object nor a mate.
pub proof fn lemma_transplants_keep(nodes: Seq<NodeView>, ts: Seq<Transplant>)
    ensures
        apply_transplants(nodes, ts) matches Ok(after) ==> keeps_nodes(nodes, after) && after.len()
            == nodes.len(),
    decreases ts.len(),
{
    if ts.len() > 0 {
        let t = ts.last();
        match (nodes[t.start as int].prev, nodes[t.end as int].next) {
            (Some(before), Some(behind)) => {
                let cut = link_spec(nodes, before, behind);
                lemma_link_keeps(nodes, before, behind);
                match cut[t.border as int].next {
                    None => {},
                    Some(next) => {
                        let mid = link_spec(cut, t.end, next);
                        lemma_link_keeps(cut, t.end, next);
                        let moved = link_spec(mid, t.border, t.start);
                        lemma_link_keeps(mid, t.border, t.start);
                        lemma_transplants_keep(moved, ts.drop_last());
                        if apply_transplants(moved, ts.drop_last()) is Ok {
                            let after = apply_transplants(moved, ts.drop_last())->Ok_0;
                            assert forall|i: int| 0 <= i < nodes.len() implies (#[trigger] after[i]).object
                                == nodes[i].object && after[i].twin == nodes[i].twin by {
                                let _ = moved[i];
                                let _ = mid[i];
                                let _ = cut[i];
                            }
                        }
                    },
                }
            },
            _ => {},
        }
    }
}

/// The end of the construction changes neither an object nor a mate.
pub proof fn lemma_finalize_keeps(s: State, b: Build)
    ensures
        finalize(s, b) matches Ok(t) ==> keeps_nodes(b.nodes, t.chain.nodes) && t.chain.nodes.len()
            == b.nodes.len(),
{
    if finalize(s, b) is Ok {
        let call_end = s.projections[2];
        let cut = splice_out(b, call_end)->Ok_0;
        if b.border != call_end {
            let next = b.nodes[call_end as int].next->0;
            let first_out = b.nodes[b.border as int].next->0;
            let n1 = unlink_prev_spec(b.nodes, first_out);
            let n2 = unlink_next_spec(n1, call_end);
            lemma_link_keeps(n2, b.border, next);
            assert forall|i: int| 0 <= i < b.nodes.len() implies (#[trigger] cut[i]).object
                == b.nodes[i].object && cut[i].twin == b.nodes[i].twin by {
                let _ = n1[i];
                let _ = n2[i];
            }
        }
        lemma_transplants_keep(cut, b.transplants);
        let after = apply_transplants(cut, b.transplants)->Ok_0;
        assert forall|i: int| 0 <= i < b.nodes.len() implies (#[trigger] after[i]).object
            == b.nodes[i].object && after[i].twin == b.nodes[i].twin by {
            let _ = cut[i];
        }
    }
}

/// Who waits after a reading waited before it or was read.
pub proof fn lemma_scan_from(nodes: Seq<NodeView>, ids: Seq<usize>, stack: Seq<usize>)
    ensures
        scan(nodes, ids, stack) matches Some(s) ==> forall|i: int|
            0 <= i < s.len() ==> stack.contains(#[trigger] s[i]) || ids.contains(s[i]),
    decreases ids.len(),
{
    if ids.len() > 0 {
        let node = nodes[ids[0] as int];
        let rest = ids.skip(1);
        let next = if is_left(node.object) {
            stack.push(ids[0])
        } else if is_right(node.object) {
            stack.drop_last()
        } else {
            stack
        };
        lemma_scan_from(nodes, rest, next);
        if scan(nodes, ids, stack) is Some {
            let s = scan(nodes, ids, stack)->0;
            assert(scan(nodes, rest, next) == Some(s));
            assert forall|i: int| 0 <= i < s.len() implies stack.contains(#[trigger] s[i])
                || ids.contains(s[i]) by {
                if rest.contains(s[i]) {
                    let u = choose|u: int| 0 <= u < rest.len() && rest[u] == s[i];
                    assert(ids[u + 1] == s[i]);
                } else {
                    assert(next.contains(s[i]));
                    let u = choose|u: int| 0 <= u < next.len() && next[u] == s[i];
                    if is_left(node.object) {
                        if u < stack.len() {
                            assert(stack[u] == s[i]);
                        } else {
                            assert(ids[0] == s[i]);
                        }
                    } else {
                        assert(stack[u] == s[i]);
                    }
                }
            }
        }
    } else {
        if scan(nodes, ids, stack) is Some {
            let s = scan(nodes, ids, stack)->0;
            assert forall|i: int| 0 <= i < s.len() implies stack.contains(#[trigger] s[i])
                || ids.contains(s[i]) by {
                assert(stack[i] == s[i]);
            }
        }
    }
}

/// The end of the construction keeps the nesting: where the chain was
/// well nested with a well nested call, and no bracket waits, the chain
/// with what was laid in place of the call is well nested.
pub proof fn lemma_finalize_nested(
    site: Site,
    s: State,
    b: Build,
    tr: Trace,
    w: Seq<usize>,
    kinds: Seq<bool>,
)
    requires
        nesting(site, b, tr, w, kinds),
        s.projections.len() >= 3 ==> s.projections[2] == site.ids[site.j],
        site.ids[0] == s.chain.first,
        site.ids.last() == s.chain.last,
        nested(site.nodes, site.ids),
        nested(site.nodes, site.call()),
    ensures
        finalize(s, b) matches Ok(t) ==> lists(t.chain, site.pre() + tr.layout + site.post())
            && nested(t.chain.nodes, site.pre() + tr.layout + site.post()) && objects(
            t.chain.nodes,
            site.pre() + tr.layout + site.post(),
        ) == objects(site.nodes, site.pre()) + tr.text + objects(site.nodes, site.post()),
{
    if finalize(s, b) is Ok {
        lemma_building_finalize(site, s, b, tr);
        lemma_building_tidy(site, b, tr);
        lemma_finalize_keeps(s, b);
        let t = finalize(s, b)->Ok_0;
        let after = t.chain.nodes;
        let pre = site.pre();
        let call = site.call();
        let post = site.post();
        let none = Seq::<usize>::empty();
        // No bracket waits.
        assert(b.l_brackets.len() == 0 && b.l_fun_brackets.len() == 0);
        assert(w.len() == 0);
        assert(w =~= none);
        // The chain before: what waits after the list up to the call waits behind the call.
        assert(site.ids =~= pre + (call + post));
        lemma_scan_concat(site.nodes, pre, call + post, none);
        let st = scan(site.nodes, pre, none)->0;
        lemma_scan_concat(site.nodes, call, post, st);
        lemma_nested_above(site.nodes, call, st);
        assert(scan(site.nodes, post, st) == Some(none));
        lemma_scan_from(site.nodes, pre, none);
        // The same readings in the arena after.
        assert forall|i: int| 0 <= i < pre.len() implies after[(#[trigger] pre[i]) as int].object
            == site.nodes[pre[i] as int].object && after[pre[i] as int].twin
            == site.nodes[pre[i] as int].twin by {
            assert(pre[i] < site.nodes.len());
            let _ = b.nodes[pre[i] as int];
        }
        lemma_scan_same(site.nodes, after, pre, none);
        assert forall|i: int| 0 <= i < post.len() implies after[(#[trigger] post[i]) as int].object
            == site.nodes[post[i] as int].object && after[post[i] as int].twin
            == site.nodes[post[i] as int].twin by {
            assert(post[i] < site.nodes.len());
            let _ = b.nodes[post[i] as int];
        }
        assert forall|i: int| 0 <= i < st.len() implies after[(#[trigger] st[i]) as int].object
            == site.nodes[st[i] as int].object by {
            assert(pre.contains(st[i]));
            let u = choose|u: int| 0 <= u < pre.len() && pre[u] == st[i];
            assert(pre[u] < site.nodes.len());
            let _ = b.nodes[pre[u] as int];
        }
        lemma_scan_same(site.nodes, after, post, st);
        assert forall|i: int| 0 <= i < tr.layout.len() implies after[(
        #[trigger] tr.layout[i]) as int].object == b.nodes[tr.layout[i] as int].object
            && after[tr.layout[i] as int].twin == b.nodes[tr.layout[i] as int].twin by {
            assert(tr.layout[i] < b.nodes.len());
        }
        lemma_scan_same(b.nodes, after, tr.layout, none);
        lemma_nested_above(after, tr.layout, st);
        let whole = pre + tr.layout + post;
        lemma_scan_concat(after, pre + tr.layout, post, none);
        lemma_scan_concat(after, pre, tr.layout, none);
    }
}

/// The run that the instruction moves or copies is well nested.
pub open spec fn reads_nested(site: Site, projections: Seq<usize>, cmd: CommandView) -> bool {
    cmd is TransplantObject || cmd is TransplantExpr || cmd is CopyExpr ==> nested(
        site.nodes,
        run_of(site, projections, cmd),
    )
}

/// The instructions from `pc` up to the end of the construction are well
/// bracketed: with left brackets of the kinds `kinds` waiting, every right
/// bracket that they insert closes the innermost bracket that waits, which
/// is of its kind, and every run that they move or copy is well nested.
pub open spec fn well_bracketed(
    site: Site,
    code: Seq<CommandView>,
    pc: nat,
    projections: Seq<usize>,
    kinds: Seq<bool>,
) -> bool
    decreases code.len() - pc,
{
    if pc >= code.len() || code[pc as int] is RewriteFinalize {
        true
    } else {
        let cmd = code[pc as int];
        &&& closes_innermost(kinds, cmd)
        &&& reads_nested(site, projections, cmd)
        &&& well_bracketed(site, code, pc + 1, projections, kinds_after(kinds, cmd))
    }
}

/// What one instruction of the construction does to the nesting.
pub proof fn lemma_build_one_nested(
    site: Site,
    b: Build,
    tr: Trace,
    w: Seq<usize>,
    kinds: Seq<bool>,
    projections: Seq<usize>,
    cmd: CommandView,
)
    requires
        nesting(site, b, tr, w, kinds),
        reads_inside(site, projections, cmd),
        closes_innermost(kinds, cmd),
        reads_nested(site, projections, cmd),
        moves_nodes(cmd) ==> forall|i: int|
            0 <= i < tr.moves.len() ==> apart(
                (#[trigger] tr.moves[i]).run,
                run_of(site, projections, cmd),
            ),
        build_one(b, projections, cmd) is Ok,
        build_one(b, projections, cmd)->Ok_0.nodes.len() <= usize::MAX,
    ensures
        nesting(
            site,
            build_one(b, projections, cmd)->Ok_0,
            trace_after(site, b, tr, projections, cmd),
            waiting_after(b, w, cmd),
            kinds_after(kinds, cmd),
        ),
{
    if moves_nodes(cmd) {
        lemma_move_nested(site, b, tr, w, kinds, projections, cmd);
    } else {
        match cmd {
            CommandView::CopyExpr(n) => {
                lemma_copy_nested(site, b, tr, w, kinds, projections, n);
            },
            CommandView::InsertStrBracketR => {
                lemma_close_nested(site, b, tr, w, kinds, projections, cmd);
            },
            CommandView::InsertFunBracketR => {
                lemma_close_nested(site, b, tr, w, kinds, projections, cmd);
            },
            _ => {
                lemma_open_nested(site, b, tr, w, kinds, projections, cmd);
            },
        }
    }
}

/// The chain is a well nested list that holds the objects `objs`,
/// sentinels included.
pub open spec fn stands_as(chain: ChainView, objs: Seq<ObjectView>) -> bool {
    exists|ids: Seq<usize>|
        lists(chain, ids) && nested(chain.nodes, ids) && objects(chain.nodes, ids) == objs
}

/// One instruction of the construction is carried out: the invariants
/// hold of what is built then, and the instructions that follow are proper
/// and well bracketed with the runs that were taken and the brackets that
/// wait then.
pub proof fn lemma_build_step_nested(
    site: Site,
    s: State,
    b: Build,
    tr: Trace,
    w: Seq<usize>,
    kinds: Seq<bool>,
)
    requires
        nesting(site, b, tr, w, kinds),
        proper(site, s.commands, s.pc, s.projections, runs(tr.moves)),
        well_bracketed(site, s.commands, s.pc, s.projections, kinds),
        s.pc < s.commands.len(),
        !(s.commands[s.pc as int] is RewriteFinalize),
        build_one(b, s.projections, s.commands[s.pc as int]) is Ok,
        build_one(b, s.projections, s.commands[s.pc as int])->Ok_0.nodes.len() <= usize::MAX,
    ensures
        ({
            let cmd = s.commands[s.pc as int];
            let tr2 = trace_after(site, b, tr, s.projections, cmd);
            &&& nesting(
                site,
                build_one(b, s.projections, cmd)->Ok_0,
                tr2,
                waiting_after(b, w, cmd),
                kinds_after(kinds, cmd),
            )
            &&& proper(site, s.commands, s.pc + 1, s.projections, runs(tr2.moves))
            &&& well_bracketed(site, s.commands, s.pc + 1, s.projections, kinds_after(kinds, cmd))
            &&& tr2.text == tr.text + text_of(site, s.projections, cmd)
        }),
{
    let cmd = s.commands[s.pc as int];
    assert forall|i: int| 0 <= i < tr.moves.len() implies apart(
        (#[trigger] tr.moves[i]).run,
        run_of(site, s.projections, cmd),
    ) || !moves_nodes(cmd) by {
        assert(runs(tr.moves)[i] == tr.moves[i].run);
    }
    lemma_build_one_nested(site, b, tr, w, kinds, s.projections, cmd);
    lemma_trace_after(site, b, tr, s.projections, cmd);
}

/// The construction from the program counter on: where it ends, the chain
/// is a well nested list.
pub proof fn lemma_build_nested(
    site: Site,
    s: State,
    b: Build,
    tr: Trace,
    w: Seq<usize>,
    kinds: Seq<bool>,
)
    requires
        nesting(site, b, tr, w, kinds),
        s.projections.len() >= 3 ==> s.projections[2] == site.ids[site.j],
        site.ids[0] == s.chain.first,
        site.ids.last() == s.chain.last,
        nested(site.nodes, site.ids),
        nested(site.nodes, site.call()),
        proper(site, s.commands, s.pc, s.projections, runs(tr.moves)),
        well_bracketed(site, s.commands, s.pc, s.projections, kinds),
    ensures
        build(s, b) matches Ok(t) ==> (t.chain.nodes.len() <= usize::MAX ==> stands_as(
            t.chain,
            objects(site.nodes, site.pre()) + tr.text + written(
                site,
                s.commands,
                s.pc,
                s.projections,
            ) + objects(site.nodes, site.post()),
        )),
    decreases s.commands.len() - s.pc,
{
    if s.pc < s.commands.len() {
        let t = State { pc: s.pc + 1, ..s };
        let cmd = s.commands[s.pc as int];
        let left = objects(site.nodes, site.pre());
        let right = objects(site.nodes, site.post());
        if cmd is RewriteFinalize {
            lemma_finalize_nested(site, t, b, tr, w, kinds);
            if build(s, b) is Ok {
                let whole = site.pre() + tr.layout + site.post();
                let u = build(s, b)->Ok_0;
                assert(left + tr.text + Seq::<ObjectView>::empty() + right =~= left + tr.text
                    + right);
                assert(lists(u.chain, whole) && nested(u.chain.nodes, whole));
            }
        } else if build_one(b, s.projections, cmd) is Ok {
            let c = build_one(b, s.projections, cmd)->Ok_0;
            lemma_build_grows_from(t, c);
            if build(t, c) is Ok && build(t, c)->Ok_0.chain.nodes.len() <= usize::MAX {
                lemma_build_step_nested(site, s, b, tr, w, kinds);
                let tr2 = trace_after(site, b, tr, s.projections, cmd);
                lemma_build_nested(
                    site,
                    t,
                    c,
                    tr2,
                    waiting_after(b, w, cmd),
                    kinds_after(kinds, cmd),
                );
                let rest = written(site, s.commands, s.pc + 1, s.projections);
                let text = text_of(site, s.projections, cmd);
                assert(left + (tr.text + text) + rest + right =~= left + tr.text + (text + rest)
                    + right);
            }
        }
    }
}

/// A rewrite keeps the nesting: with the chain a well nested list, the
/// call a well nested run of it between the first projection and the
/// third, and instructions that are well bracketed, read inside the call
/// and move no node twice, the construction leaves a chain that is a
/// well nested list: every left bracket stands before its mate, and what
/// opens between two mates closes between them.
pub proof fn lemma_rewrite_nested(s: State, site: Site)
    requires
        site.nodes == s.chain.nodes,
        lists(s.chain, site.ids),
        nested(site.nodes, site.ids),
        nested(site.nodes, site.call()),
        0 <= site.k < site.j,
        site.j + 1 < site.ids.len(),
        s.projections.len() >= 3,
        s.projections[0] == site.ids[site.k],
        s.projections[2] == site.ids[site.j],
        proper(site, s.commands, s.pc, s.projections, Seq::empty()),
        well_bracketed(site, s.commands, s.pc, s.projections, Seq::empty()),
    ensures
        rewrite_start(s) matches Ok(t) ==> (t.chain.nodes.len() <= usize::MAX ==> stands_as(
            t.chain,
            objects(site.nodes, site.pre()) + written(site, s.commands, s.pc, s.projections)
                + objects(site.nodes, site.post()),
        )),
{
    let start = State { jumps: Seq::empty(), ..s };
    let b = Build {
        nodes: s.chain.nodes,
        border: s.projections[0],
        local_dots: Seq::empty(),
        l_brackets: Seq::empty(),
        l_fun_brackets: Seq::empty(),
        transplants: Seq::empty(),
    };
    let tr = Trace {
        news: Seq::empty(),
        moves: Seq::empty(),
        layout: Seq::empty(),
        text: Seq::empty(),
    };
    assert(site.pre() + tr.news + site.call() + site.post() =~= site.ids);
    assert(site.pre() + tr.news =~= site.pre());
    assert(site.pre() + tr.layout =~= site.pre());
    assert(site.pre().last() == site.ids[site.k]);
    assert(objects(b.nodes, tr.layout) =~= tr.text);
    assert(runs(tr.moves) =~= Seq::<Seq<usize>>::empty());
    assert(building(site, b, tr));
    let none = Seq::<usize>::empty();
    assert(nesting(site, b, tr, none, Seq::<bool>::empty()));
    lemma_build_nested(site, start, b, tr, none, Seq::empty());
    let left = objects(site.nodes, site.pre());
    let right = objects(site.nodes, site.post());
    let mid = written(site, s.commands, s.pc, s.projections);
    assert(left + tr.text + mid + right =~= left + mid + right);
}

/// The text of a rewrite is well bracketed from its object `i` on, with
/// left brackets of the kinds `kinds` waiting: every right bracket closes
/// the innermost bracket that waits, and that bracket is of its kind.
pub open spec fn text_bracketed(text: Seq<crate::data::ObjectView>, i: int, kinds: Seq<bool>) -> bool
    decreases text.len() - i,
{
    if i < 0 || i >= text.len() {
        true
    } else {
        match text[i] {
            crate::data::ObjectView::StrBracketL => text_bracketed(text, i + 1, kinds.push(true)),
            crate::data::ObjectView::FunBracketL => text_bracketed(text, i + 1, kinds.push(false)),
            crate::data::ObjectView::StrBracketR => kinds.len() > 0 && kinds.last() && text_bracketed(
                text,
                i + 1,
                kinds.drop_last(),
            ),
            crate::data::ObjectView::FunBracketR => kinds.len() > 0 && !kinds.last()
                && text_bracketed(text, i + 1, kinds.drop_last()),
            _ => text_bracketed(text, i + 1, kinds),
        }
    }
}

/// The instructions that the compiler makes of a rewrite whose text is
/// well bracketed are well bracketed, where the runs that they move and
/// copy are well nested.
pub proof fn lemma_compiled_bracketed(
    site: Site,
    module: Seq<char>,
    rewrite: Seq<crate::data::ObjectView>,
    slots: Map<Seq<char>, nat>,
    projections: Seq<usize>,
    i: int,
    kinds: Seq<bool>,
)
    requires
        0 <= i <= rewrite.len(),
        text_bracketed(rewrite, i, kinds),
        forall|p: int|
            i <= p < rewrite.len() ==> reads_nested(
                site,
                projections,
                #[trigger] rewrite_command(module, rewrite, slots, p),
            ),
    ensures
        well_bracketed(
            site,
            compile_rewrite(module, rewrite, slots),
            (i + 1) as nat,
            projections,
            kinds,
        ),
    decreases rewrite.len() - i,
{
    let code = compile_rewrite(module, rewrite, slots);
    if i < rewrite.len() {
        let cmd = rewrite_command(module, rewrite, slots, i);
        assert(code[i + 1] == cmd);
        assert(reads_nested(site, projections, cmd));
        lemma_compiled_bracketed(
            site,
            module,
            rewrite,
            slots,
            projections,
            i + 1,
            kinds_after(kinds, cmd),
        );
    } else {
        assert(code[i + 1] is RewriteFinalize);
    }
}

} // verus!
