//! What holds of the abstract machine in every state.

use crate::data::CommandView;
use crate::machine::{apply_transplants, attach, build, build_one, build_wf, copy_expr, copy_walk};
use crate::machine::{e_var_l_walk, e_var_r_walk, execute};
use crate::machine::{finalize, insert, match_start, pending, resolve, rewrite_start, run, step};
use crate::machine::{lemma_attach, lemma_close, lemma_insert, lemma_link_keeps, lemma_open};
use crate::machine::{lemma_relink_wf, splice_out, Build, Transplant};
use crate::runtime::{brackets_paired, link_spec, pair_spec, unlink_next_spec, unlink_prev_spec};
use crate::runtime::{lemma_link_well_formed, lemma_unlink_next_well_formed};
use crate::runtime::{lemma_unlink_prev_well_formed, well_formed, NodeView, ObjectView};
use crate::machine::{Defs, FailureView, State};
use vstd::prelude::*;

verus! {

/// The instructions of the matching phase.
pub open spec fn is_match(cmd: CommandView) -> bool {
    match cmd {
        CommandView::MatchEmpty => true,
        CommandView::MatchSymbolL(_) => true,
        CommandView::MatchSymbolR(_) => true,
        CommandView::MatchStrBracketL => true,
        CommandView::MatchStrBracketR => true,
        CommandView::MatchSVarL => true,
        CommandView::MatchSVarR => true,
        CommandView::MatchSVarLProj(_) => true,
        CommandView::MatchSVarRProj(_) => true,
        CommandView::MatchTVarL => true,
        CommandView::MatchTVarR => true,
        CommandView::MatchEVar => true,
        CommandView::MatchEVarPrepare => true,
        CommandView::MatchEVarLengthen => true,
        CommandView::MatchEVarLProj(_) => true,
        CommandView::MatchEVarRProj(_) => true,
        CommandView::MatchMoveBorderL(_) => true,
        CommandView::MatchMoveBorderR(_) => true,
        CommandView::SetupTransition(_) => true,
        CommandView::ConstrainLengthen(_) => true,
        _ => false,
    }
}

/// `t` has the view field, the instructions and the pending activations
/// of `s`, and runs as `s` does.
pub open spec fn same_field(s: State, t: State) -> bool {
    t.chain == s.chain && t.commands == s.commands && t.dots == s.dots && t.end == s.end
}

/// The walk of a repeated expression variable from the left reads the view
/// field and changes nothing of it.
pub proof fn lemma_e_var_l_walk_reads(
    s: State,
    cursor: usize,
    last: usize,
    start: usize,
    budget: nat,
)
    ensures
        e_var_l_walk(s, cursor, last, start, budget) matches Ok(t) ==> same_field(s, t),
    decreases budget,
{
    if cursor != last && budget > 0 {
        match s.node(cursor).next {
            None => {},
            Some(c) => {
                match s.node(s.border_l).next {
                    None => {},
                    Some(n) => {
                        let t = State { border_l: n, ..s };
                        if n != s.border_r && t.object(c) == t.object(t.border_l) {
                            lemma_e_var_l_walk_reads(t, c, last, start, (budget - 1) as nat);
                        }
                    },
                }
            },
        }
    }
}

/// The walk of a repeated expression variable from the right reads the
/// view field and changes nothing of it.
pub proof fn lemma_e_var_r_walk_reads(
    s: State,
    cursor: usize,
    first: usize,
    end: usize,
    budget: nat,
)
    ensures
        e_var_r_walk(s, cursor, first, end, budget) matches Ok(t) ==> same_field(s, t),
    decreases budget,
{
    if cursor != first && budget > 0 {
        match s.node(cursor).prev {
            None => {},
            Some(c) => {
                match s.node(s.border_r).prev {
                    None => {},
                    Some(p) => {
                        let t = State { border_r: p, ..s };
                        if s.border_l != p && t.object(c) == t.object(t.border_r) {
                            lemma_e_var_r_walk_reads(t, c, first, end, (budget - 1) as nat);
                        }
                    },
                }
            },
        }
    }
}

/// Matching reads the view field and changes nothing of it: an instruction
/// of the matching phase leaves the chain, the instructions and the
/// pending activations as they are.
pub proof fn lemma_match_reads(defs: Defs, s: State, cmd: CommandView)
    requires
        is_match(cmd),
    ensures
        execute(defs, s, cmd) matches Ok(t) ==> same_field(s, t),
{
    reveal(execute);
    match cmd {
        CommandView::MatchEVarLProj(n) => {
            if n != 0 && n < s.projections.len() {
                match (s.node(s.border_l).next, s.node(s.projections[n - 1]).prev) {
                    (Some(start), Some(cursor)) => {
                        lemma_e_var_l_walk_reads(
                            s,
                            cursor,
                            s.projections[n as int],
                            start,
                            s.chain.nodes.len(),
                        );
                    },
                    _ => {},
                }
            }
        },
        CommandView::MatchEVarRProj(n) => {
            if n != 0 && n < s.projections.len() {
                match (s.node(s.border_r).prev, s.node(s.projections[n as int]).next) {
                    (Some(end), Some(cursor)) => {
                        lemma_e_var_r_walk_reads(
                            s,
                            cursor,
                            s.projections[n - 1],
                            end,
                            s.chain.nodes.len(),
                        );
                    },
                    _ => {},
                }
            }
        },
        _ => {},
    }
}

/// The walk of a repeated expression variable from the left keeps the
/// machine invariant.
pub proof fn lemma_e_var_l_walk_wf(s: State, cursor: usize, last: usize, start: usize, budget: nat)
    requires
        s.wf(),
        cursor < s.chain.nodes.len(),
        start < s.chain.nodes.len(),
    ensures
        e_var_l_walk(s, cursor, last, start, budget) matches Ok(t) ==> t.wf(),
    decreases budget,
{
    if cursor != last && budget > 0 {
        match s.node(cursor).next {
            None => {},
            Some(c) => {
                match s.node(s.border_l).next {
                    None => {},
                    Some(n) => {
                        let t = State { border_l: n, ..s };
                        if n != s.border_r && t.object(c) == t.object(t.border_l) {
                            lemma_e_var_l_walk_wf(t, c, last, start, (budget - 1) as nat);
                        }
                    },
                }
            },
        }
    }
}

/// The walk of a repeated expression variable from the right keeps the
/// machine invariant.
pub proof fn lemma_e_var_r_walk_wf(s: State, cursor: usize, first: usize, end: usize, budget: nat)
    requires
        s.wf(),
        cursor < s.chain.nodes.len(),
        end < s.chain.nodes.len(),
    ensures
        e_var_r_walk(s, cursor, first, end, budget) matches Ok(t) ==> t.wf(),
    decreases budget,
{
    if cursor != first && budget > 0 {
        match s.node(cursor).prev {
            None => {},
            Some(c) => {
                match s.node(s.border_r).prev {
                    None => {},
                    Some(p) => {
                        let t = State { border_r: p, ..s };
                        if s.border_l != p && t.object(c) == t.object(t.border_r) {
                            lemma_e_var_r_walk_wf(t, c, first, end, (budget - 1) as nat);
                        }
                    },
                }
            },
        }
    }
}

/// The instructions that move the left border onto one node.
pub open spec fn moves_left(cmd: CommandView) -> bool {
    cmd is MatchSymbolL || cmd is MatchStrBracketL || cmd is MatchSVarL || cmd is MatchSVarLProj
        || cmd is MatchTVarL
}

/// The instructions that move the right border onto one node.
pub open spec fn moves_right(cmd: CommandView) -> bool {
    cmd is MatchSymbolR || cmd is MatchStrBracketR || cmd is MatchSVarR || cmd is MatchSVarRProj
        || cmd is MatchTVarR
}

/// The instructions that match an expression variable that is met again.
pub open spec fn walks(cmd: CommandView) -> bool {
    cmd is MatchEVarLProj || cmd is MatchEVarRProj
}

/// An instruction that moves the left border keeps the machine invariant.
pub proof fn lemma_match_left_wf(defs: Defs, s: State, cmd: CommandView)
    requires
        s.wf(),
        moves_left(cmd),
    ensures
        execute(defs, s, cmd) matches Ok(t) ==> t.wf(),
{
    reveal(execute);
    let _ = s.chain.nodes[s.border_l as int];
    match s.node(s.border_l).next {
        Some(n) => {
            let _ = s.chain.nodes[n as int];
        },
        None => {},
    }
}

/// An instruction that moves the right border keeps the machine
/// invariant.
pub proof fn lemma_match_right_wf(defs: Defs, s: State, cmd: CommandView)
    requires
        s.wf(),
        moves_right(cmd),
    ensures
        execute(defs, s, cmd) matches Ok(t) ==> t.wf(),
{
    reveal(execute);
    let _ = s.chain.nodes[s.border_r as int];
    match s.node(s.border_r).prev {
        Some(p) => {
            let _ = s.chain.nodes[p as int];
        },
        None => {},
    }
}

/// The match of an expression variable that is met again keeps the
/// machine invariant.
pub proof fn lemma_match_walk_wf(defs: Defs, s: State, cmd: CommandView)
    requires
        s.wf(),
        walks(cmd),
    ensures
        execute(defs, s, cmd) matches Ok(t) ==> t.wf(),
{
    reveal(execute);
    let _ = s.chain.nodes[s.border_l as int];
    let _ = s.chain.nodes[s.border_r as int];
    match cmd {
        CommandView::MatchEVarLProj(n) => {
            if n != 0 && n < s.projections.len() {
                let _ = s.chain.nodes[s.projections[n - 1] as int];
                match (s.node(s.border_l).next, s.node(s.projections[n - 1]).prev) {
                    (Some(start), Some(cursor)) => {
                        lemma_e_var_l_walk_wf(
                            s,
                            cursor,
                            s.projections[n as int],
                            start,
                            s.chain.nodes.len(),
                        );
                    },
                    _ => {},
                }
            }
        },
        CommandView::MatchEVarRProj(n) => {
            if n != 0 && n < s.projections.len() {
                let _ = s.chain.nodes[s.projections[n as int] as int];
                match (s.node(s.border_r).prev, s.node(s.projections[n as int]).next) {
                    (Some(end), Some(cursor)) => {
                        lemma_e_var_r_walk_wf(
                            s,
                            cursor,
                            s.projections[n - 1],
                            end,
                            s.chain.nodes.len(),
                        );
                    },
                    _ => {},
                }
            }
        },
        _ => {},
    }
}

/// An instruction of the matching phase that moves no border onto a node
/// keeps the machine invariant.
pub proof fn lemma_match_rest_wf(defs: Defs, s: State, cmd: CommandView)
    requires
        s.wf(),
        is_match(cmd),
        !moves_left(cmd),
        !moves_right(cmd),
        !walks(cmd),
    ensures
        execute(defs, s, cmd) matches Ok(t) ==> t.wf(),
{
    reveal(execute);
    let _ = s.chain.nodes[s.border_l as int];
    let _ = s.chain.nodes[s.border_r as int];
    match cmd {
        CommandView::MatchEVarLengthen => {
            if s.projections.len() > 0 {
                let _ = s.chain.nodes[s.projections.last() as int];
                match s.node(s.projections.last()).next {
                    Some(n) => {
                        let _ = s.chain.nodes[n as int];
                    },
                    None => {},
                }
            }
        },
        _ => {},
    }
}

/// An instruction of the matching phase keeps the machine invariant.
pub proof fn lemma_match_wf(defs: Defs, s: State, cmd: CommandView)
    requires
        s.wf(),
        is_match(cmd),
    ensures
        execute(defs, s, cmd) matches Ok(t) ==> t.wf(),
{
    if moves_left(cmd) {
        lemma_match_left_wf(defs, s, cmd);
    } else if moves_right(cmd) {
        lemma_match_right_wf(defs, s, cmd);
    } else if walks(cmd) {
        lemma_match_walk_wf(defs, s, cmd);
    } else {
        lemma_match_rest_wf(defs, s, cmd);
    }
}

/// The start of an activation keeps the machine invariant.
pub proof fn lemma_match_start_wf(defs: Defs, s: State)
    requires
        s.wf(),
    ensures
        match_start(defs, s) matches Ok(t) ==> t.wf(),
{
    if s.dots.len() > 0 {
        let dot = s.dots[s.dots.len() - 1];
        let _ = s.chain.nodes[dot as int];
        match s.node(dot).twin {
            Some(open) => {
                let _ = s.chain.nodes[open as int];
            },
            None => {},
        }
        match match_start(defs, s) {
            Ok(t) => {
                assert forall|i: int| 0 <= i < t.dots.len() implies #[trigger] t.dots[i]
                    < t.chain.nodes.len() by {
                    assert(t.dots[i] == s.dots[i]);
                }
            },
            Err(_) => {},
        }
    }
}

/// A new bracket is none of the brackets that wait.
pub proof fn lemma_new_not_waiting(s: State, b: Build)
    requires
        build_wf(s, b),
    ensures
        !b.l_brackets.contains(b.nodes.len() as usize),
        !b.l_fun_brackets.contains(b.nodes.len() as usize),
{
    let id = b.nodes.len() as usize;
    if b.l_brackets.contains(id) {
        let k = choose|k: int| 0 <= k < b.l_brackets.len() && b.l_brackets[k] == id;
    }
    if b.l_fun_brackets.contains(id) {
        let k = choose|k: int| 0 <= k < b.l_fun_brackets.len() && b.l_fun_brackets[k] == id;
    }
}

/// A node more is a slot more.
pub proof fn lemma_attach_len(b: Build, object: ObjectView)
    ensures
        attach(b, object).nodes.len() == b.nodes.len() + 1,
        insert(b, object) matches Ok(c) ==> c.nodes.len() == b.nodes.len() + 1,
{
    let id = b.nodes.len() as usize;
    let added = b.nodes.push(crate::machine::fresh(object));
    lemma_link_keeps(added, b.border, id);
    match b.nodes[b.border as int].next {
        Some(next) => {
            lemma_link_keeps(link_spec(added, b.border, id), id, next);
        },
        None => {},
    }
}

/// Copying adds nodes to the arena and takes none away.
pub proof fn lemma_copy_walk_grows(b: Build, cursor: usize, last: usize, budget: nat)
    ensures
        copy_walk(b, cursor, last, budget) matches Ok(c) ==> c.nodes.len() >= b.nodes.len(),
    decreases budget,
{
    if cursor != last && budget > 0 {
        match b.nodes[cursor as int].next {
            None => {},
            Some(c) => match b.nodes[c as int].object {
                ObjectView::Symbol(sym) => {
                    lemma_attach_len(b, ObjectView::Symbol(sym));
                    lemma_copy_walk_grows(
                        attach(b, ObjectView::Symbol(sym)),
                        c,
                        last,
                        (budget - 1) as nat,
                    );
                },
                ObjectView::StrBracketL => {
                    let a = attach(b, ObjectView::StrBracketL);
                    lemma_attach_len(b, ObjectView::StrBracketL);
                    lemma_copy_walk_grows(
                        Build { l_brackets: a.l_brackets.push(a.border), ..a },
                        c,
                        last,
                        (budget - 1) as nat,
                    );
                },
                ObjectView::StrBracketR => {
                    let a = attach(b, ObjectView::StrBracketR);
                    lemma_attach_len(b, ObjectView::StrBracketR);
                    lemma_attach_len(a, ObjectView::StrBracketR);
                    if a.l_brackets.len() > 0 {
                        lemma_copy_walk_grows(
                            Build {
                                l_brackets: a.l_brackets.drop_last(),
                                nodes: pair_spec(a.nodes, a.l_brackets.last(), a.border),
                                ..a
                            },
                            c,
                            last,
                            (budget - 1) as nat,
                        );
                    }
                },
                _ => {},
            },
        }
    }
}

/// Copying keeps the invariant of the construction phase, as long as the
/// arena can be counted.
pub proof fn lemma_copy_walk_wf(s: State, b: Build, cursor: usize, last: usize, budget: nat)
    requires
        build_wf(s, b),
        cursor < b.nodes.len(),
    ensures
        copy_walk(b, cursor, last, budget) matches Ok(c) ==> (c.nodes.len() <= usize::MAX
            ==> build_wf(s, c)),
    decreases budget,
{
    if cursor != last && budget > 0 {
        let _ = b.nodes[cursor as int];
        match b.nodes[cursor as int].next {
            None => {},
            Some(c) => {
                lemma_new_not_waiting(s, b);
                match b.nodes[c as int].object {
                    ObjectView::Symbol(sym) => {
                        let a = attach(b, ObjectView::Symbol(sym));
                        lemma_copy_walk_grows(a, c, last, (budget - 1) as nat);
                        if copy_walk(a, c, last, (budget - 1) as nat) matches Ok(r)
                            && r.nodes.len() <= usize::MAX {
                            lemma_attach(s, b, ObjectView::Symbol(sym));
                            lemma_copy_walk_wf(s, a, c, last, (budget - 1) as nat);
                        }
                    },
                    ObjectView::StrBracketL => {
                        let a = attach(b, ObjectView::StrBracketL);
                        let opened = Build { l_brackets: a.l_brackets.push(a.border), ..a };
                        lemma_copy_walk_grows(opened, c, last, (budget - 1) as nat);
                        if copy_walk(opened, c, last, (budget - 1) as nat) matches Ok(r)
                            && r.nodes.len() <= usize::MAX {
                            lemma_attach(s, b, ObjectView::StrBracketL);
                            lemma_open(s, a, true);
                            lemma_copy_walk_wf(s, opened, c, last, (budget - 1) as nat);
                        }
                    },
                    ObjectView::StrBracketR => {
                        let a = attach(b, ObjectView::StrBracketR);
                        if a.l_brackets.len() > 0 {
                            let closed = Build {
                                l_brackets: a.l_brackets.drop_last(),
                                nodes: pair_spec(a.nodes, a.l_brackets.last(), a.border),
                                ..a
                            };
                            lemma_copy_walk_grows(closed, c, last, (budget - 1) as nat);
                            if copy_walk(closed, c, last, (budget - 1) as nat) matches Ok(r)
                                && r.nodes.len() <= usize::MAX {
                                lemma_attach(s, b, ObjectView::StrBracketR);
                                lemma_close(s, a, true);
                                lemma_copy_walk_wf(s, closed, c, last, (budget - 1) as nat);
                            }
                        }
                    },
                    _ => {},
                }
            },
        }
    }
}

/// An instruction of the construction phase adds nodes to the arena and
/// takes none away.
pub proof fn lemma_build_one_grows(b: Build, projections: Seq<usize>, cmd: CommandView)
    ensures
        build_one(b, projections, cmd) matches Ok(c) ==> c.nodes.len() >= b.nodes.len(),
{
    match cmd {
        CommandView::CopyExpr(n) => {
            if n != 0 && n < projections.len() {
                match (b.nodes[projections[n - 1] as int].prev, b.nodes[b.border as int].next) {
                    (Some(cursor), Some(next)) => {
                        lemma_copy_walk_grows(b, cursor, projections[n as int], b.nodes.len());
                        match copy_walk(b, cursor, projections[n as int], b.nodes.len()) {
                            Ok(walked) => {
                                lemma_link_keeps(walked.nodes, walked.border, next);
                            },
                            Err(_) => {},
                        }
                    },
                    _ => {},
                }
            }
        },
        CommandView::InsertSymbol(sym) => {
            lemma_attach_len(b, ObjectView::Symbol(sym));
        },
        CommandView::InsertStrBracketL => {
            lemma_attach_len(b, ObjectView::StrBracketL);
        },
        CommandView::InsertFunBracketL => {
            lemma_attach_len(b, ObjectView::FunBracketL);
        },
        CommandView::InsertStrBracketR => {
            lemma_attach_len(b, ObjectView::StrBracketR);
            match insert(b, ObjectView::StrBracketR) {
                Ok(c) => {
                    lemma_attach_len(c, ObjectView::StrBracketR);
                },
                Err(_) => {},
            }
        },
        CommandView::InsertFunBracketR => {
            lemma_attach_len(b, ObjectView::FunBracketR);
            match insert(b, ObjectView::FunBracketR) {
                Ok(c) => {
                    lemma_attach_len(c, ObjectView::FunBracketR);
                },
                Err(_) => {},
            }
        },
        CommandView::CopySymbol(n) => {
            if n < projections.len() {
                match b.nodes[projections[n as int] as int].object {
                    ObjectView::Symbol(sym) => {
                        lemma_attach_len(b, ObjectView::Symbol(sym));
                    },
                    _ => {},
                }
            }
        },
        _ => {},
    }
}

/// A left bracket that is spliced in and then waits keeps the invariant of
/// the construction phase.
pub proof fn lemma_build_open_wf(s: State, b: Build, structural: bool)
    requires
        build_wf(s, b),
        b.nodes.len() < usize::MAX,
    ensures
        build_one(
            b,
            s.projections,
            if structural {
                CommandView::InsertStrBracketL
            } else {
                CommandView::InsertFunBracketL
            },
        ) matches Ok(c) ==> build_wf(s, c),
{
    let object = if structural {
        ObjectView::StrBracketL
    } else {
        ObjectView::FunBracketL
    };
    if insert(b, object) is Ok {
        lemma_new_not_waiting(s, b);
        lemma_insert(s, b, object);
        lemma_open(s, insert(b, object)->Ok_0, structural);
    }
}

/// A right bracket that is spliced in and paired with the newest waiting
/// left bracket of its kind keeps the invariant of the construction phase.
pub proof fn lemma_build_close_wf(s: State, b: Build, structural: bool)
    requires
        build_wf(s, b),
        b.nodes.len() < usize::MAX,
    ensures
        build_one(
            b,
            s.projections,
            if structural {
                CommandView::InsertStrBracketR
            } else {
                CommandView::InsertFunBracketR
            },
        ) matches Ok(c) ==> build_wf(s, c),
{
    let object = if structural {
        ObjectView::StrBracketR
    } else {
        ObjectView::FunBracketR
    };
    let cmd = if structural {
        CommandView::InsertStrBracketR
    } else {
        CommandView::InsertFunBracketR
    };
    match build_one(b, s.projections, cmd) {
        Err(_) => {},
        Ok(c) => {
            lemma_insert(s, b, object);
            let inserted = insert(b, object)->Ok_0;
            lemma_close(s, inserted, structural);
            if !structural {
                assert(pending(c) == pending(
                    Build { l_fun_brackets: inserted.l_fun_brackets.drop_last(), ..inserted },
                ));
                assert forall|i: int| 0 <= i < c.local_dots.len() implies (
                #[trigger] c.local_dots[i]) < c.nodes.len() by {
                    if i < b.local_dots.len() {
                        assert(c.local_dots[i] == b.local_dots[i]);
                    }
                }
            }
        },
    }
}

/// One deferred move more keeps the invariant of the construction phase.
pub proof fn lemma_build_defer_wf(s: State, b: Build, start: usize, end: usize)
    requires
        build_wf(s, b),
        start < b.nodes.len(),
        end < b.nodes.len(),
    ensures
        build_wf(
            s,
            Build { transplants: b.transplants.push(Transplant { border: b.border, start, end }), ..b },
        ),
{
    let c = Build {
        transplants: b.transplants.push(Transplant { border: b.border, start, end }),
        ..b
    };
    assert(pending(c) == pending(b));
    assert forall|i: int| 0 <= i < c.transplants.len() implies (#[trigger] c.transplants[i]).border
        < c.nodes.len() && c.transplants[i].start < c.nodes.len() && c.transplants[i].end
        < c.nodes.len() by {
        if i < b.transplants.len() {
            assert(c.transplants[i] == b.transplants[i]);
        }
    }
}

/// The copy of a value keeps the invariant of the construction phase, as
/// long as the arena can be counted.
pub proof fn lemma_build_copy_wf(s: State, b: Build, n: nat)
    requires
        build_wf(s, b),
    ensures
        crate::machine::copy_expr(b, s.projections, n) matches Ok(c) ==> (c.nodes.len()
            <= usize::MAX ==> build_wf(s, c)),
{
    match crate::machine::copy_expr(b, s.projections, n) {
        Err(_) => {},
        Ok(c) => {
            if c.nodes.len() <= usize::MAX {
                let first = s.projections[n - 1];
                let last = s.projections[n as int];
                let _ = b.nodes[first as int];
                let _ = b.nodes[b.border as int];
                let cursor = b.nodes[first as int].prev->0;
                let next = b.nodes[b.border as int].next->0;
                lemma_copy_walk_grows(b, cursor, last, b.nodes.len());
                lemma_copy_walk_wf(s, b, cursor, last, b.nodes.len());
                let walked = copy_walk(b, cursor, last, b.nodes.len())->Ok_0;
                lemma_link_keeps(walked.nodes, walked.border, next);
                lemma_relink_wf(s, walked, next);
            }
        },
    }
}

/// An instruction of the construction phase keeps its invariant, as long
/// as the arena can be counted.
pub proof fn lemma_build_one_wf(s: State, b: Build, cmd: CommandView)
    requires
        build_wf(s, b),
    ensures
        build_one(b, s.projections, cmd) matches Ok(c) ==> (c.nodes.len() <= usize::MAX
            ==> build_wf(s, c)),
{
    lemma_build_one_grows(b, s.projections, cmd);
    match build_one(b, s.projections, cmd) {
        Err(_) => {},
        Ok(c) => {
            if c.nodes.len() <= usize::MAX {
                match cmd {
                    CommandView::InsertSymbol(sym) => {
                        lemma_attach_len(b, ObjectView::Symbol(sym));
                        lemma_insert(s, b, ObjectView::Symbol(sym));
                    },
                    CommandView::InsertStrBracketL => {
                        lemma_attach_len(b, ObjectView::StrBracketL);
                        lemma_build_open_wf(s, b, true);
                    },
                    CommandView::InsertFunBracketL => {
                        lemma_attach_len(b, ObjectView::FunBracketL);
                        lemma_build_open_wf(s, b, false);
                    },
                    CommandView::InsertStrBracketR => {
                        lemma_attach_len(b, ObjectView::StrBracketR);
                        lemma_attach_len(insert(b, ObjectView::StrBracketR)->Ok_0, ObjectView::First);
                        lemma_build_close_wf(s, b, true);
                    },
                    CommandView::InsertFunBracketR => {
                        lemma_attach_len(b, ObjectView::FunBracketR);
                        lemma_attach_len(insert(b, ObjectView::FunBracketR)->Ok_0, ObjectView::First);
                        lemma_build_close_wf(s, b, false);
                    },
                    CommandView::TransplantObject(n) => {
                        let node = s.projections[n as int];
                        lemma_build_defer_wf(s, b, node, node);
                    },
                    CommandView::TransplantExpr(n) => {
                        let start = s.projections[n - 1];
                        let end = s.projections[n as int];
                        if b.nodes[end as int].next != Some(start) {
                            lemma_build_defer_wf(s, b, start, end);
                        }
                    },
                    CommandView::CopySymbol(n) => {
                        let source = s.projections[n as int];
                        let sym = b.nodes[source as int].object->Symbol_0;
                        lemma_attach_len(b, ObjectView::Symbol(sym));
                        lemma_insert(s, b, ObjectView::Symbol(sym));
                    },
                    CommandView::CopyExpr(n) => {
                        lemma_build_copy_wf(s, b, n);
                    },
                    _ => {},
                }
            }
        },
    }
}

/// The deferred moves keep the arena well formed and change neither an
/// object nor a mate.
pub proof fn lemma_transplants_wf(nodes: Seq<NodeView>, transplants: Seq<Transplant>)
    requires
        well_formed(nodes),
        forall|i: int|
            0 <= i < transplants.len() ==> (#[trigger] transplants[i]).border < nodes.len()
                && transplants[i].start < nodes.len() && transplants[i].end < nodes.len(),
    ensures
        apply_transplants(nodes, transplants) matches Ok(moved) ==> well_formed(moved)
            && moved.len() == nodes.len() && forall|i: int|
            0 <= i < nodes.len() ==> (#[trigger] moved[i]).object == nodes[i].object
                && moved[i].twin == nodes[i].twin,
    decreases transplants.len(),
{
    if transplants.len() > 0 {
        let t = transplants[transplants.len() - 1];
        let _ = nodes[t.start as int];
        let _ = nodes[t.end as int];
        match (nodes[t.start as int].prev, nodes[t.end as int].next) {
            (Some(before), Some(after)) => {
                let cut = link_spec(nodes, before, after);
                lemma_link_well_formed(nodes, before, after);
                lemma_link_keeps(nodes, before, after);
                let _ = cut[t.border as int];
                match cut[t.border as int].next {
                    None => {},
                    Some(next) => {
                        let second = link_spec(cut, t.end, next);
                        lemma_link_well_formed(cut, t.end, next);
                        lemma_link_keeps(cut, t.end, next);
                        let third = link_spec(second, t.border, t.start);
                        lemma_link_well_formed(second, t.border, t.start);
                        lemma_link_keeps(second, t.border, t.start);
                        let rest = transplants.drop_last();
                        assert forall|i: int| 0 <= i < rest.len() implies (#[trigger] rest[i]).border
                            < third.len() && rest[i].start < third.len() && rest[i].end
                            < third.len() by {
                            assert(rest[i] == transplants[i]);
                        }
                        lemma_transplants_wf(third, rest);
                        match apply_transplants(third, rest) {
                            Ok(moved) => {
                                assert forall|i: int| 0 <= i < nodes.len() implies (
                                #[trigger] moved[i]).object == nodes[i].object && moved[i].twin
                                    == nodes[i].twin by {
                                    let _ = third[i];
                                    let _ = second[i];
                                    let _ = cut[i];
                                }
                            },
                            Err(_) => {},
                        }
                    },
                }
            },
            _ => {},
        }
    }
}

/// The end of a step restores the machine invariant.
pub proof fn lemma_finalize_wf(s: State, b: Build)
    requires
        build_wf(s, b),
    ensures
        finalize(s, b) matches Ok(t) ==> t.wf() && t.chain.nodes.len() == b.nodes.len(),
{
    match finalize(s, b) {
        Err(_) => {},
        Ok(t) => {
            assert(pending(b) =~= Set::empty());
            let call_end = s.projections[2];
            let spliced = splice_out(b, call_end)->Ok_0;
            assert(well_formed(spliced) && spliced.len() == b.nodes.len() && forall|i: int|
                0 <= i < b.nodes.len() ==> (#[trigger] spliced[i]).object == b.nodes[i].object
                    && spliced[i].twin == b.nodes[i].twin) by {
                if b.border != call_end {
                    let _ = b.nodes[call_end as int];
                    let _ = b.nodes[b.border as int];
                    let next = b.nodes[call_end as int].next->0;
                    let first_out = b.nodes[b.border as int].next->0;
                    let n1 = unlink_prev_spec(b.nodes, first_out);
                    lemma_unlink_prev_well_formed(b.nodes, first_out);
                    let n2 = unlink_next_spec(n1, call_end);
                    lemma_unlink_next_well_formed(n1, call_end);
                    lemma_link_well_formed(n2, b.border, next);
                    lemma_link_keeps(n2, b.border, next);
                    assert forall|i: int| 0 <= i < b.nodes.len() implies (
                    #[trigger] spliced[i]).object == b.nodes[i].object && spliced[i].twin
                        == b.nodes[i].twin by {
                        let _ = n2[i];
                        let _ = n1[i];
                    }
                }
            }
            lemma_transplants_wf(spliced, b.transplants);
            let moved = t.chain.nodes;
            assert forall|i: int|
                0 <= i < moved.len() && (#[trigger] moved[i]).object.is_bracket() implies moved[i].twin is Some by {
                let _ = spliced[i];
                let _ = b.nodes[i];
                assert(!pending(b).contains(i as usize));
            }
            assert forall|i: int| 0 <= i < t.dots.len() implies #[trigger] t.dots[i]
                < t.chain.nodes.len() by {
                if i < s.dots.len() {
                    assert(t.dots[i] == s.dots[i]);
                } else {
                    let k = i - s.dots.len();
                    assert(t.dots[i] == b.local_dots.reverse()[k]);
                    assert(b.local_dots.reverse()[k] == b.local_dots[b.local_dots.len() - 1 - k]);
                }
            }
        },
    }
}

/// The construction phase adds nodes to the arena and takes none away.
pub proof fn lemma_build_grows_from(s: State, b: Build)
    ensures
        build(s, b) matches Ok(t) ==> t.chain.nodes.len() >= b.nodes.len(),
    decreases s.commands.len() - s.pc,
{
    if s.pc < s.commands.len() {
        let t = State { pc: s.pc + 1, ..s };
        match s.commands[s.pc as int] {
            CommandView::RewriteFinalize => {
                lemma_finalize_len(t, b);
            },
            cmd => {
                lemma_build_one_grows(b, s.projections, cmd);
                match build_one(b, s.projections, cmd) {
                    Err(_) => {},
                    Ok(c) => {
                        lemma_build_grows_from(t, c);
                    },
                }
            },
        }
    }
}

/// The deferred moves keep the number of nodes.
pub proof fn lemma_transplants_len(nodes: Seq<NodeView>, transplants: Seq<Transplant>)
    ensures
        apply_transplants(nodes, transplants) matches Ok(moved) ==> moved.len() == nodes.len(),
    decreases transplants.len(),
{
    if transplants.len() > 0 {
        let t = transplants[transplants.len() - 1];
        match (nodes[t.start as int].prev, nodes[t.end as int].next) {
            (Some(before), Some(after)) => {
                let cut = link_spec(nodes, before, after);
                match cut[t.border as int].next {
                    None => {},
                    Some(next) => {
                        lemma_transplants_len(
                            link_spec(link_spec(cut, t.end, next), t.border, t.start),
                            transplants.drop_last(),
                        );
                    },
                }
            },
            _ => {},
        }
    }
}

/// The end of a step keeps the number of nodes.
pub proof fn lemma_finalize_len(s: State, b: Build)
    ensures
        finalize(s, b) matches Ok(t) ==> t.chain.nodes.len() == b.nodes.len(),
{
    match finalize(s, b) {
        Err(_) => {},
        Ok(t) => {
            let spliced = splice_out(b, s.projections[2])->Ok_0;
            lemma_transplants_len(spliced, b.transplants);
        },
    }
}

/// The construction phase restores the machine invariant, as long as the
/// arena can be counted.
pub proof fn lemma_build_wf(s: State, b: Build)
    requires
        build_wf(s, b),
    ensures
        build(s, b) matches Ok(t) ==> (t.chain.nodes.len() <= usize::MAX ==> t.wf()),
    decreases s.commands.len() - s.pc,
{
    if s.pc < s.commands.len() {
        let t = State { pc: s.pc + 1, ..s };
        match s.commands[s.pc as int] {
            CommandView::RewriteFinalize => {
                lemma_finalize_wf(t, b);
            },
            cmd => {
                match build_one(b, s.projections, cmd) {
                    Err(_) => {},
                    Ok(c) => {
                        lemma_build_grows_from(t, c);
                        if build(t, c) matches Ok(r) && r.chain.nodes.len() <= usize::MAX {
                            lemma_build_one_wf(s, b, cmd);
                            lemma_build_wf(t, c);
                        }
                    },
                }
            },
        }
    }
}

/// The machine invariant is kept: a step from a state in which the arena
/// is well formed, every bracket has its mate and every node that the
/// machine holds is a slot of the arena leads to such a state, as long as
/// the arena can be counted.
pub proof fn lemma_step_wf(defs: Defs, s: State)
    requires
        s.wf(),
    ensures
        step(defs, s) matches Ok(t) ==> (t.chain.nodes.len() <= usize::MAX ==> t.wf()),
{
    if s.pc < s.commands.len() {
        let u = State { pc: s.pc + 1, ..s };
        let cmd = s.commands[s.pc as int];
        if is_match(cmd) {
            lemma_match_wf(defs, u, cmd);
        } else {
            reveal(execute);
            match cmd {
                CommandView::MatchStart => {
                    lemma_match_start_wf(defs, u);
                },
                CommandView::RewriteStart => {
                    if u.projections.len() > 0 {
                        let start = State { jumps: Seq::empty(), ..u };
                        let b = Build {
                            nodes: u.chain.nodes,
                            border: u.projections[0],
                            local_dots: Seq::empty(),
                            l_brackets: Seq::empty(),
                            l_fun_brackets: Seq::empty(),
                            transplants: Seq::empty(),
                        };
                        assert(pending(b) =~= Set::empty());
                        lemma_build_wf(start, b);
                    }
                },
                _ => {},
            }
        }
    }
}

/// A step adds nodes to the arena and takes none away.
pub proof fn lemma_step_grows(defs: Defs, s: State)
    ensures
        step(defs, s) matches Ok(t) ==> t.chain.nodes.len() >= s.chain.nodes.len(),
{
    if s.pc < s.commands.len() {
        let u = State { pc: s.pc + 1, ..s };
        let cmd = s.commands[s.pc as int];
        if is_match(cmd) {
            lemma_match_reads(defs, u, cmd);
        } else {
            reveal(execute);
            match cmd {
                CommandView::RewriteStart => {
                    if u.projections.len() > 0 {
                        lemma_build_grows_from(
                            State { jumps: Seq::empty(), ..u },
                            Build {
                                nodes: u.chain.nodes,
                                border: u.projections[0],
                                local_dots: Seq::empty(),
                                l_brackets: Seq::empty(),
                                l_fun_brackets: Seq::empty(),
                                transplants: Seq::empty(),
                            },
                        );
                    }
                },
                _ => {},
            }
        }
    }
}

/// A run adds nodes to the arena and takes none away.
pub proof fn lemma_run_grows(defs: Defs, s: State, limit: nat)
    ensures
        run(defs, s, limit) matches Ok(t) ==> t.chain.nodes.len() >= s.chain.nodes.len(),
    decreases limit,
{
    if !s.end && limit > 0 {
        lemma_step_grows(defs, s);
        match step(defs, s) {
            Ok(t) => {
                lemma_run_grows(defs, t, (limit - 1) as nat);
            },
            Err(_) => {},
        }
    }
}

/// Bracket pairing and chain integrity hold in every state that the
/// machine reaches: a run from a state with the machine invariant ends in
/// a state with it, as long as the arena can be counted.
pub proof fn lemma_run_wf(defs: Defs, s: State, limit: nat)
    requires
        s.wf(),
    ensures
        run(defs, s, limit) matches Ok(t) ==> (t.chain.nodes.len() <= usize::MAX ==> t.wf()),
    decreases limit,
{
    if !s.end && limit > 0 {
        match step(defs, s) {
            Ok(t) => {
                lemma_run_grows(defs, t, (limit - 1) as nat);
                if run(defs, t, (limit - 1) as nat) matches Ok(r) && r.chain.nodes.len()
                    <= usize::MAX {
                    lemma_step_wf(defs, s);
                    lemma_run_wf(defs, t, (limit - 1) as nat);
                }
            },
            Err(_) => {},
        }
    }
}

} // verus!
