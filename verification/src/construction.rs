//! What the construction phase of a step writes.
//!
//! The instructions of a construction insert objects, copy what the match
//! has found and move what it has found. This module says which
//! expression stands in place of the call when the construction ends, and
//! proves that the machine builds exactly that: the chain stays a list
//! from the first sentinel to the last, and a copy writes what a move
//! writes.

use crate::data::CommandView;
use crate::lowering::{compile_rewrite, rewrite_command};
use crate::pattern::vars;
use crate::listing::{apart, joined, lemma_lists_field, lists, objects, strip};
use crate::machine::{build, build_one, copy_expr, copy_walk, insert, rewrite_start};
use crate::machine::{Build, State};
use crate::machine_laws::{lemma_attach_len, lemma_build_grows_from};
use crate::rewriting::{at, building, made, Move, Site, Trace};
use crate::rewriting::{lemma_building_copy, lemma_building_finalize};
use crate::rewriting::{lemma_building_insert, lemma_building_move, lemma_building_paired};
use crate::rewriting::lemma_building_tidy;
use crate::runtime::{ChainView, ObjectView};
use vstd::prelude::*;

verus! {

/// The projections `n - 1` and `n` bound a run of the list that lies
/// inside the call, between its two brackets; the run may be empty.
pub open spec fn run_inside(site: Site, projections: Seq<usize>, n: nat) -> bool {
    &&& site.ids.contains(projections[n - 1])
    &&& site.ids.contains(projections[n as int])
    &&& site.k + 1 < at(site.ids, projections[n - 1])
    &&& at(site.ids, projections[n - 1]) <= at(site.ids, projections[n as int]) + 1
    &&& at(site.ids, projections[n as int]) < site.j
}

/// The instruction reads projections that exist and nodes that the call
/// holds.
pub open spec fn reads_inside(site: Site, projections: Seq<usize>, cmd: CommandView) -> bool {
    match cmd {
        CommandView::TransplantObject(n) => n < projections.len() && site.ids.contains(
            projections[n as int],
        ) && site.k + 1 < at(site.ids, projections[n as int]) < site.j,
        CommandView::TransplantExpr(n) => 0 < n < projections.len() && run_inside(
            site,
            projections,
            n,
        ),
        CommandView::CopyExpr(n) => 0 < n < projections.len() && run_inside(site, projections, n),
        CommandView::CopySymbol(n) => n < projections.len() && projections[n as int]
            < site.nodes.len(),
        _ => true,
    }
}

/// The run of the list that the instruction moves or copies.
pub open spec fn run_of(site: Site, projections: Seq<usize>, cmd: CommandView) -> Seq<usize> {
    match cmd {
        CommandView::TransplantObject(n) => site.ids.subrange(
            at(site.ids, projections[n as int]),
            at(site.ids, projections[n as int]) + 1,
        ),
        CommandView::TransplantExpr(n) => site.ids.subrange(
            at(site.ids, projections[n - 1]),
            at(site.ids, projections[n as int]) + 1,
        ),
        CommandView::CopyExpr(n) => site.ids.subrange(
            at(site.ids, projections[n - 1]),
            at(site.ids, projections[n as int]) + 1,
        ),
        _ => Seq::empty(),
    }
}

/// The instruction moves nodes.
pub open spec fn moves_nodes(cmd: CommandView) -> bool {
    cmd is TransplantObject || cmd is TransplantExpr
}

/// The objects that the instruction writes.
pub open spec fn text_of(site: Site, projections: Seq<usize>, cmd: CommandView) -> Seq<ObjectView> {
    match cmd {
        CommandView::InsertSymbol(sym) => seq![ObjectView::Symbol(sym)],
        CommandView::InsertStrBracketL => seq![ObjectView::StrBracketL],
        CommandView::InsertStrBracketR => seq![ObjectView::StrBracketR],
        CommandView::InsertFunBracketL => seq![ObjectView::FunBracketL],
        CommandView::InsertFunBracketR => seq![ObjectView::FunBracketR],
        CommandView::CopySymbol(n) => seq![site.nodes[projections[n as int] as int].object],
        _ => objects(site.nodes, run_of(site, projections, cmd)),
    }
}

/// The runs that were moved, with the run of `cmd` where it moves one.
pub open spec fn taken_with(
    site: Site,
    projections: Seq<usize>,
    taken: Seq<Seq<usize>>,
    cmd: CommandView,
) -> Seq<Seq<usize>> {
    if moves_nodes(cmd) && run_of(site, projections, cmd).len() > 0 {
        taken.push(run_of(site, projections, cmd))
    } else {
        taken
    }
}

/// The instructions from `pc` up to the end of the construction read
/// nodes that the call holds, and no node is moved twice: the run of every
/// move is apart from the runs in `taken` and from the runs of the moves
/// before it.
pub open spec fn proper(
    site: Site,
    code: Seq<CommandView>,
    pc: nat,
    projections: Seq<usize>,
    taken: Seq<Seq<usize>>,
) -> bool
    decreases code.len() - pc,
{
    if pc >= code.len() || code[pc as int] is RewriteFinalize {
        true
    } else {
        let cmd = code[pc as int];
        &&& reads_inside(site, projections, cmd)
        &&& moves_nodes(cmd) ==> forall|i: int|
            0 <= i < taken.len() ==> apart(#[trigger] taken[i], run_of(site, projections, cmd))
        &&& proper(site, code, pc + 1, projections, taken_with(site, projections, taken, cmd))
    }
}

/// The objects that the instructions from `pc` up to the end of the
/// construction write.
pub open spec fn written(site: Site, code: Seq<CommandView>, pc: nat, projections: Seq<usize>) -> Seq<
    ObjectView,
>
    decreases code.len() - pc,
{
    if pc >= code.len() || code[pc as int] is RewriteFinalize {
        Seq::empty()
    } else {
        text_of(site, projections, code[pc as int]) + written(site, code, pc + 1, projections)
    }
}

/// The runs of the moves.
pub open spec fn runs(moves: Seq<Move>) -> Seq<Seq<usize>> {
    Seq::new(moves.len(), |i: int| moves[i].run)
}

/// The chain is a list that holds the objects `objs`, sentinels included.
pub open spec fn reads_as(chain: ChainView, objs: Seq<ObjectView>) -> bool {
    exists|ids: Seq<usize>| lists(chain, ids) && objects(chain.nodes, ids) == objs
}

/// What the construction has done once `cmd` is carried out: an insertion
/// makes a node that stands last, a copy makes a node for every node of the
/// run, and a move defers the run, which will stand last.
pub open spec fn trace_after(
    site: Site,
    b: Build,
    tr: Trace,
    projections: Seq<usize>,
    cmd: CommandView,
) -> Trace {
    let run = run_of(site, projections, cmd);
    if moves_nodes(cmd) {
        if run.len() > 0 {
            Trace {
                moves: tr.moves.push(Move { border: b.border, run }),
                layout: tr.layout + run,
                text: tr.text + objects(site.nodes, run),
                ..tr
            }
        } else {
            tr
        }
    } else if cmd is CopyExpr {
        Trace {
            news: tr.news + made(b.nodes.len(), run.len() as int),
            layout: tr.layout + made(b.nodes.len(), run.len() as int),
            text: tr.text + objects(site.nodes, run),
            ..tr
        }
    } else {
        Trace {
            news: tr.news.push(b.nodes.len() as usize),
            layout: tr.layout.push(b.nodes.len() as usize),
            text: tr.text + text_of(site, projections, cmd),
            ..tr
        }
    }
}

/// What one instruction that inserts an object does to the lists.
pub proof fn lemma_insert_lists(
    site: Site,
    b: Build,
    tr: Trace,
    projections: Seq<usize>,
    cmd: CommandView,
)
    requires
        building(site, b, tr),
        reads_inside(site, projections, cmd),
        !moves_nodes(cmd),
        !(cmd is CopyExpr),
        build_one(b, projections, cmd) is Ok,
        build_one(b, projections, cmd)->Ok_0.nodes.len() <= usize::MAX,
    ensures
        building(
            site,
            build_one(b, projections, cmd)->Ok_0,
            trace_after(site, b, tr, projections, cmd),
        ),
        text_of(site, projections, cmd).len() == 1,
        insert(b, text_of(site, projections, cmd)[0]) is Ok,
{
    let object = text_of(site, projections, cmd)[0];
    lemma_attach_len(b, object);
    match cmd {
        CommandView::CopySymbol(n) => {
            assert(b.nodes[projections[n as int] as int].object
                == site.nodes[projections[n as int] as int].object);
        },
        _ => {},
    }
    assert(insert(b, object) is Ok);
    let c = insert(b, object)->Ok_0;
    lemma_building_insert(site, b, tr, object);
    let id = b.nodes.len() as usize;
    let tr2 = trace_after(site, b, tr, projections, cmd);
    let d = build_one(b, projections, cmd)->Ok_0;
    assert(text_of(site, projections, cmd) =~= seq![object]);
    assert(tr.text.push(object) =~= tr.text + text_of(site, projections, cmd));
    match cmd {
        CommandView::InsertStrBracketR => {
            lemma_building_paired(site, c, d, tr2, c.l_brackets.last(), c.border);
        },
        CommandView::InsertFunBracketR => {
            lemma_building_paired(site, c, d, tr2, c.l_fun_brackets.last(), c.border);
        },
        _ => {
            lemma_building_paired(site, c, d, tr2, 0, 0);
        },
    }
}

/// What one instruction that moves nodes does to the lists.
pub proof fn lemma_move_lists_of(
    site: Site,
    b: Build,
    tr: Trace,
    projections: Seq<usize>,
    cmd: CommandView,
)
    requires
        building(site, b, tr),
        reads_inside(site, projections, cmd),
        moves_nodes(cmd),
        forall|i: int|
            0 <= i < tr.moves.len() ==> apart(
                (#[trigger] tr.moves[i]).run,
                run_of(site, projections, cmd),
            ),
        build_one(b, projections, cmd) is Ok,
    ensures
        building(
            site,
            build_one(b, projections, cmd)->Ok_0,
            trace_after(site, b, tr, projections, cmd),
        ),
        build_one(b, projections, cmd)->Ok_0.nodes == b.nodes,
        build_one(b, projections, cmd)->Ok_0.l_brackets == b.l_brackets,
        build_one(b, projections, cmd)->Ok_0.l_fun_brackets == b.l_fun_brackets,
{
    lemma_building_tidy(site, b, tr);
    let run = run_of(site, projections, cmd);
    match cmd {
        CommandView::TransplantObject(n) => {
            let p = at(site.ids, projections[n as int]);
            assert(site.ids[p] == projections[n as int]);
            lemma_building_move(site, b, tr, p, p);
        },
        CommandView::TransplantExpr(n) => {
            let from = at(site.ids, projections[n - 1]);
            let to = at(site.ids, projections[n as int]);
            assert(site.ids[from] == projections[n - 1]);
            assert(site.ids[to] == projections[n as int]);
            assert(joined(b.nodes, site.ids, to));
            if from == to + 1 {
                assert(run =~= Seq::<usize>::empty());
            } else {
                assert(site.ids[to + 1] != site.ids[from]) by {
                    if to + 1 < from {
                        assert(site.ids[to + 1] != site.ids[from]);
                    } else {
                        assert(site.ids[from] != site.ids[to + 1]);
                    }
                }
                lemma_building_move(site, b, tr, from, to);
            }
        },
        _ => {},
    }
}

/// What the copy of a run does to the lists.
pub proof fn lemma_copy_lists_of(
    site: Site,
    b: Build,
    tr: Trace,
    projections: Seq<usize>,
    n: nat,
)
    requires
        building(site, b, tr),
        reads_inside(site, projections, CommandView::CopyExpr(n)),
        copy_expr(b, projections, n) is Ok,
        copy_expr(b, projections, n)->Ok_0.nodes.len() <= usize::MAX,
    ensures
        building(
            site,
            copy_expr(b, projections, n)->Ok_0,
            trace_after(site, b, tr, projections, CommandView::CopyExpr(n)),
        ),
{
    let from = at(site.ids, projections[n - 1]);
    let to = at(site.ids, projections[n as int]);
    assert(site.ids[from] == projections[n - 1]);
    assert(site.ids[to] == projections[n as int]);
    lemma_building_copy(site, b, tr, from, to);
    let w = copy_walk(b, site.ids[from - 1], site.ids[to], b.nodes.len())->Ok_0;
    crate::machine::lemma_link_keeps(w.nodes, w.border, site.ids[site.k + 1]);
}

/// The moves of a trace, once `cmd` is carried out, have the runs that
/// were taken with the run of `cmd`; and the text has grown by what `cmd`
/// writes.
pub proof fn lemma_trace_after(
    site: Site,
    b: Build,
    tr: Trace,
    projections: Seq<usize>,
    cmd: CommandView,
)
    ensures
        runs(trace_after(site, b, tr, projections, cmd).moves) == taken_with(
            site,
            projections,
            runs(tr.moves),
            cmd,
        ),
        trace_after(site, b, tr, projections, cmd).text == tr.text + text_of(
            site,
            projections,
            cmd,
        ),
{
    let run = run_of(site, projections, cmd);
    let after = trace_after(site, b, tr, projections, cmd);
    if moves_nodes(cmd) {
        if run.len() > 0 {
            assert(runs(after.moves) =~= runs(tr.moves).push(run));
        } else {
            assert(objects(site.nodes, run) =~= Seq::<ObjectView>::empty());
            assert(tr.text + objects(site.nodes, run) =~= tr.text);
        }
    }
}

/// What one instruction of the construction does to the lists.
pub proof fn lemma_build_one_lists(
    site: Site,
    b: Build,
    tr: Trace,
    projections: Seq<usize>,
    cmd: CommandView,
)
    requires
        building(site, b, tr),
        reads_inside(site, projections, cmd),
        moves_nodes(cmd) ==> forall|i: int|
            0 <= i < tr.moves.len() ==> apart(
                (#[trigger] tr.moves[i]).run,
                run_of(site, projections, cmd),
            ),
        build_one(b, projections, cmd) is Ok,
        build_one(b, projections, cmd)->Ok_0.nodes.len() <= usize::MAX,
    ensures
        building(
            site,
            build_one(b, projections, cmd)->Ok_0,
            trace_after(site, b, tr, projections, cmd),
        ),
{
    if moves_nodes(cmd) {
        lemma_move_lists_of(site, b, tr, projections, cmd);
    } else {
        match cmd {
            CommandView::CopyExpr(n) => {
                lemma_copy_lists_of(site, b, tr, projections, n);
            },
            _ => {
                lemma_insert_lists(site, b, tr, projections, cmd);
            },
        }
    }
}

/// The construction from the program counter on: where it ends, the chain
/// is a list that holds what stood before the call, what was written, and
/// what stood behind the call.
pub proof fn lemma_build_lists(site: Site, s: State, b: Build, tr: Trace)
    requires
        building(site, b, tr),
        s.projections.len() >= 3 ==> s.projections[2] == site.ids[site.j],
        site.ids[0] == s.chain.first,
        site.ids.last() == s.chain.last,
        proper(site, s.commands, s.pc, s.projections, runs(tr.moves)),
    ensures
        build(s, b) matches Ok(t) ==> (t.chain.nodes.len() <= usize::MAX ==> reads_as(
            t.chain,
            objects(site.nodes, site.pre()) + tr.text + written(
                site,
                s.commands,
                s.pc,
                s.projections,
            ) + objects(site.nodes, site.post()),
        )),
    decreases s.commands.len() - s.pc,
{
    if s.pc < s.commands.len() {
        let t = State { pc: s.pc + 1, ..s };
        let cmd = s.commands[s.pc as int];
        let left = objects(site.nodes, site.pre());
        let right = objects(site.nodes, site.post());
        match cmd {
            CommandView::RewriteFinalize => {
                lemma_building_finalize(site, t, b, tr);
                if build(s, b) is Ok {
                    let whole = site.pre() + tr.layout + site.post();
                    let u = build(s, b)->Ok_0;
                    assert(left + tr.text + Seq::<ObjectView>::empty() + right =~= left + tr.text
                        + right);
                    assert(lists(u.chain, whole));
                }
            },
            _ => {
                if build_one(b, s.projections, cmd) is Ok {
                    let c = build_one(b, s.projections, cmd)->Ok_0;
                    lemma_build_grows_from(t, c);
                    if build(t, c) is Ok && build(t, c)->Ok_0.chain.nodes.len() <= usize::MAX {
                        assert forall|i: int| 0 <= i < tr.moves.len() implies apart(
                            (#[trigger] tr.moves[i]).run,
                            run_of(site, s.projections, cmd),
                        ) || !moves_nodes(cmd) by {
                            assert(runs(tr.moves)[i] == tr.moves[i].run);
                        }
                        lemma_build_one_lists(site, b, tr, s.projections, cmd);
                        lemma_trace_after(site, b, tr, s.projections, cmd);
                        let tr2 = trace_after(site, b, tr, s.projections, cmd);
                        lemma_build_lists(site, t, c, tr2);
                        let rest = written(site, s.commands, s.pc + 1, s.projections);
                        let text = text_of(site, s.projections, cmd);
                        assert(left + (tr.text + text) + rest + right =~= left + tr.text + (text
                            + rest) + right);
                    }
                }
            },
        }
    }
}

/// What a rewrite writes: with the chain a list, the first projection at
/// place `k` and the third at place `j` of it, and instructions that read
/// inside the call and move no node twice, the construction leaves a
/// chain that is connected and holds what stood before the call, what the
/// instructions write, and what stood behind the call.
pub proof fn lemma_rewrite_writes(s: State, site: Site)
    requires
        site.nodes == s.chain.nodes,
        lists(s.chain, site.ids),
        0 <= site.k < site.j,
        site.j + 1 < site.ids.len(),
        s.projections.len() >= 3,
        s.projections[0] == site.ids[site.k],
        s.projections[2] == site.ids[site.j],
        proper(site, s.commands, s.pc, s.projections, Seq::empty()),
    ensures
        rewrite_start(s) matches Ok(t) ==> (t.chain.nodes.len() <= usize::MAX ==> {
            let text = objects(site.nodes, site.pre()) + written(
                site,
                s.commands,
                s.pc,
                s.projections,
            ) + objects(site.nodes, site.post());
            &&& reads_as(t.chain, text)
            &&& t.chain.connected()
            &&& t.chain.flatten() == strip(text)
        }),
{
    let start = State { jumps: Seq::empty(), ..s };
    let b = Build {
        nodes: s.chain.nodes,
        border: s.projections[0],
        local_dots: Seq::empty(),
        l_brackets: Seq::empty(),
        l_fun_brackets: Seq::empty(),
        transplants: Seq::empty(),
    };
    let tr = Trace {
        news: Seq::empty(),
        moves: Seq::empty(),
        layout: Seq::empty(),
        text: Seq::empty(),
    };
    assert(site.pre() + tr.news + site.call() + site.post() =~= site.ids);
    assert(site.pre() + tr.news =~= site.pre());
    assert(site.pre() + tr.layout =~= site.pre());
    assert(site.pre().last() == site.ids[site.k]);
    assert(objects(b.nodes, tr.layout) =~= tr.text);
    assert(runs(tr.moves) =~= Seq::<Seq<usize>>::empty());
    assert(building(site, b, tr));
    lemma_build_lists(site, start, b, tr);
    if rewrite_start(s) is Ok && rewrite_start(s)->Ok_0.chain.nodes.len() <= usize::MAX {
        let t = rewrite_start(s)->Ok_0;
        let left = objects(site.nodes, site.pre());
        let right = objects(site.nodes, site.post());
        let mid = written(site, s.commands, s.pc, s.projections);
        assert(left + tr.text + mid + right =~= left + mid + right);
        let ids = choose|ids: Seq<usize>|
            lists(t.chain, ids) && objects(t.chain.nodes, ids) == left + mid + right;
        lemma_lists_field(t.chain, ids);
    }
}

/// The instruction that copies what `cmd` moves; every other instruction
/// is itself.
pub open spec fn copy_of(cmd: CommandView) -> CommandView {
    match cmd {
        CommandView::TransplantObject(n) => CommandView::CopySymbol(n),
        CommandView::TransplantExpr(n) => CommandView::CopyExpr(n),
        other => other,
    }
}

/// The instructions with a copy in place of every move.
pub open spec fn copying(code: Seq<CommandView>) -> Seq<CommandView> {
    Seq::new(code.len(), |i: int| copy_of(code[i]))
}

/// With a copy in place of every move the instructions read what they
/// read before and write what they wrote before.
pub proof fn lemma_copying_writes(
    site: Site,
    code: Seq<CommandView>,
    pc: nat,
    projections: Seq<usize>,
    taken: Seq<Seq<usize>>,
)
    requires
        site.ok(),
        proper(site, code, pc, projections, taken),
    ensures
        proper(site, copying(code), pc, projections, Seq::empty()),
        written(site, copying(code), pc, projections) == written(site, code, pc, projections),
    decreases code.len() - pc,
{
    if pc < code.len() && !(code[pc as int] is RewriteFinalize) {
        let cmd = code[pc as int];
        let other = copying(code)[pc as int];
        assert(other == copy_of(cmd));
        lemma_copying_writes(
            site,
            code,
            pc + 1,
            projections,
            taken_with(site, projections, taken, cmd),
        );
        match cmd {
            CommandView::TransplantObject(n) => {
                let p = at(site.ids, projections[n as int]);
                assert(site.ids[p] == projections[n as int]);
                assert(text_of(site, projections, other) =~= text_of(site, projections, cmd));
            },
            _ => {
                assert(text_of(site, projections, other) =~= text_of(site, projections, cmd));
            },
        }
    }
}

/// A copy writes what a move writes: where a rewrite and the same rewrite
/// with a copy in place of every move both end, the two view fields hold
/// the same expression.
pub proof fn lemma_copy_for_move(s: State, site: Site)
    requires
        site.nodes == s.chain.nodes,
        lists(s.chain, site.ids),
        0 <= site.k < site.j,
        site.j + 1 < site.ids.len(),
        s.projections.len() >= 3,
        s.projections[0] == site.ids[site.k],
        s.projections[2] == site.ids[site.j],
        proper(site, s.commands, s.pc, s.projections, Seq::empty()),
    ensures
        ({
            let other = State { commands: copying(s.commands), ..s };
            let moved = rewrite_start(s);
            let copied = rewrite_start(other);
            moved is Ok && copied is Ok && moved->Ok_0.chain.nodes.len() <= usize::MAX
                && copied->Ok_0.chain.nodes.len() <= usize::MAX ==> moved->Ok_0.chain.flatten()
                == copied->Ok_0.chain.flatten()
        }),
{
    let other = State { commands: copying(s.commands), ..s };
    lemma_copying_writes(site, s.commands, s.pc, s.projections, Seq::empty());
    lemma_rewrite_writes(s, site);
    lemma_rewrite_writes(other, site);
}

/// What the match has found fits the rewrite: the instruction for every
/// object of the rewrite reads projections that exist and nodes that the
/// call holds, and the runs of two variables of different names share no
/// node.
pub open spec fn found(
    site: Site,
    module: Seq<char>,
    rewrite: Seq<crate::data::ObjectView>,
    slots: Map<Seq<char>, nat>,
    projections: Seq<usize>,
) -> bool {
    &&& forall|p: int|
        0 <= p < rewrite.len() ==> reads_inside(
            site,
            projections,
            #[trigger] rewrite_command(module, rewrite, slots, p),
        )
    &&& forall|p: int, q: int|
        0 <= p < q < rewrite.len() && rewrite[p].var_name() is Some && rewrite[q].var_name() is Some
            && rewrite[p].var_name() != rewrite[q].var_name() ==> apart(
            run_of(site, projections, #[trigger] rewrite_command(module, rewrite, slots, p)),
            run_of(site, projections, #[trigger] rewrite_command(module, rewrite, slots, q)),
        )
}

/// The run `t` is the run of a variable that stands before the object `i`
/// of the rewrite.
pub open spec fn run_before(
    site: Site,
    module: Seq<char>,
    rewrite: Seq<crate::data::ObjectView>,
    slots: Map<Seq<char>, nat>,
    projections: Seq<usize>,
    i: int,
    t: Seq<usize>,
) -> bool {
    exists|p: int|
        0 <= p < i && rewrite[p].var_name() is Some && t == run_of(
            site,
            projections,
            #[trigger] rewrite_command(module, rewrite, slots, p),
        )
}

/// The instructions that the compiler makes of a rewrite are proper where
/// what the match has found fits the rewrite: a variable is moved where it
/// stands first and copied where it stands again, so no node is moved
/// twice.
pub proof fn lemma_compiled_proper(
    site: Site,
    module: Seq<char>,
    rewrite: Seq<crate::data::ObjectView>,
    slots: Map<Seq<char>, nat>,
    projections: Seq<usize>,
    i: int,
    taken: Seq<Seq<usize>>,
)
    requires
        0 <= i <= rewrite.len(),
        found(site, module, rewrite, slots, projections),
        forall|t: int|
            0 <= t < taken.len() ==> run_before(
                site,
                module,
                rewrite,
                slots,
                projections,
                i,
                #[trigger] taken[t],
            ),
    ensures
        proper(site, compile_rewrite(module, rewrite, slots), (i + 1) as nat, projections, taken),
    decreases rewrite.len() - i,
{
    let code = compile_rewrite(module, rewrite, slots);
    if i < rewrite.len() {
        let cmd = rewrite_command(module, rewrite, slots, i);
        assert(code[i + 1] == cmd);
        assert(reads_inside(site, projections, cmd));
        let run = run_of(site, projections, cmd);
        if moves_nodes(cmd) {
            let v = rewrite[i].var_name()->0;
            assert(!vars(rewrite.take(i)).contains(v));
            assert forall|t: int| 0 <= t < taken.len() implies apart(#[trigger] taken[t], run) by {
                assert(run_before(site, module, rewrite, slots, projections, i, taken[t]));
                let p = choose|p: int|
                    0 <= p < i && rewrite[p].var_name() is Some && taken[t] == run_of(
                        site,
                        projections,
                        #[trigger] rewrite_command(module, rewrite, slots, p),
                    );
                assert(rewrite.take(i)[p] == rewrite[p]);
                assert(vars(rewrite.take(i)).contains(rewrite[p].var_name()->0));
            }
        }
        let next = taken_with(site, projections, taken, cmd);
        assert forall|t: int| 0 <= t < next.len() implies run_before(
            site,
            module,
            rewrite,
            slots,
            projections,
            i + 1,
            #[trigger] next[t],
        ) by {
            if t < taken.len() {
                assert(next[t] == taken[t]);
                assert(run_before(site, module, rewrite, slots, projections, i, taken[t]));
                let p = choose|p: int|
                    0 <= p < i && rewrite[p].var_name() is Some && taken[t] == run_of(
                        site,
                        projections,
                        #[trigger] rewrite_command(module, rewrite, slots, p),
                    );
                assert(0 <= p < i + 1);
            } else {
                assert(next[t] == run);
                assert(rewrite[i].var_name() is Some);
            }
        }
        lemma_compiled_proper(site, module, rewrite, slots, projections, i + 1, next);
    } else {
        assert(code[i + 1] is RewriteFinalize);
    }
}

} // verus!
