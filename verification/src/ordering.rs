//! The order of the sentences of a function: the first sentence that
//! matches wins, and a sentence that fails to match leaves no trace.
//!
//! The instructions of a sentence are a block. A block behaves in the
//! instruction list of a function as it behaves alone, but for two things:
//! its choice points lead to where it is placed, and where it has no
//! choice point of its own left, a failure takes the choice point that the
//! function set up before it, which leads to the next sentence.

use crate::data::{CommandView, FunctionView, SentenceView};
use crate::lowering::{chained, compile_function, compile_rewrite, compile_sentence};
use crate::lowering::{sentence_commands, sentence_ok};
use crate::machine::{apply_transplants, build, build_one, copy_walk, rewrite_start, step};
use crate::machine::{e_var_l_walk, e_var_r_walk, execute, fail, Defs, FailureView, JumpView};
use crate::machine::{Build, Outcome, State};
use crate::pattern;
use crate::pattern::PatternState;
use vstd::prelude::*;

verus! {

/// A choice point of a block, as a choice point of the block placed `off`
/// instructions into a longer list.
pub open spec fn shift_jump(j: JumpView, off: nat) -> JumpView {
    JumpView { command_index: j.command_index + off, ..j }
}

/// The choice points of a block, as those of the block placed `off`
/// instructions into a longer list.
pub open spec fn shift_jumps(jumps: Seq<JumpView>, off: nat) -> Seq<JumpView> {
    Seq::new(jumps.len(), |i: int| shift_jump(jumps[i], off))
}

/// The state of a block that runs alone, as the state of the same block
/// placed `off` instructions into `code` and entered with the choice
/// points `base` on the stack.
pub open spec fn embed(s: State, code: Seq<CommandView>, off: nat, base: Seq<JumpView>) -> State {
    State { commands: code, pc: s.pc + off, jumps: base + shift_jumps(s.jumps, off), ..s }
}

/// What a failure leads to where the block has no choice point of its own
/// left: the newest choice point of `base` is taken.
pub open spec fn fall(s: State, code: Seq<CommandView>, base: Seq<JumpView>) -> Outcome {
    fail(State { commands: code, jumps: base, ..s })
}

/// The outcome of an instruction in a block that runs alone, as the
/// outcome of the instruction in the block that is placed.
pub open spec fn placed(
    alone: Outcome,
    s: State,
    code: Seq<CommandView>,
    off: nat,
    base: Seq<JumpView>,
) -> Outcome {
    match alone {
        Ok(t) => Ok(embed(t, code, off, base)),
        Err(FailureView::RecognitionImpossible) => fall(s, code, base),
        Err(e) => Err(e),
    }
}

/// The instructions of the matching phase that a sentence is made of: all
/// but the transition to the next sentence.
pub open spec fn pure_match(cmd: CommandView) -> bool {
    crate::machine_laws::is_match(cmd) && !(cmd is SetupTransition)
}

/// A failure in a placed block is the failure in the block alone.
pub proof fn lemma_fail_placed(s: State, code: Seq<CommandView>, off: nat, base: Seq<JumpView>)
    ensures
        fail(embed(s, code, off, base)) == placed(fail(s), s, code, off, base),
{
    let e = embed(s, code, off, base);
    if s.jumps.len() > 0 {
        assert(e.jumps.last() == shift_jump(s.jumps.last(), off));
        assert(e.jumps.drop_last() =~= base + shift_jumps(s.jumps.drop_last(), off));
    } else {
        assert(e.jumps =~= base);
    }
}

/// The walk of a repeated expression variable from the left in a placed
/// block is the walk in the block alone.
pub proof fn lemma_e_var_l_walk_placed(
    s: State,
    origin: State,
    cursor: usize,
    last: usize,
    start: usize,
    budget: nat,
    code: Seq<CommandView>,
    off: nat,
    base: Seq<JumpView>,
)
    requires
        origin.chain == s.chain,
        origin.dots == s.dots,
        origin.end == s.end,
        origin.projections == s.projections,
    ensures
        e_var_l_walk(embed(s, code, off, base), cursor, last, start, budget) == placed(
            e_var_l_walk(s, cursor, last, start, budget),
            origin,
            code,
            off,
            base,
        ),
    decreases budget,
{
    let e = embed(s, code, off, base);
    if cursor == last {
        assert(e.push(start).push(e.border_l) == embed(s.push(start).push(s.border_l), code, off, base));
    } else if budget > 0 {
        match s.node(cursor).next {
            None => {},
            Some(c) => {
                match s.node(s.border_l).next {
                    None => {},
                    Some(n) => {
                        let t = State { border_l: n, ..s };
                        assert(embed(t, code, off, base) == State { border_l: n, ..e });
                        lemma_fail_placed(t, code, off, base);
                        if n != s.border_r && t.object(c) == t.object(t.border_l) {
                            lemma_e_var_l_walk_placed(
                                t,
                                origin,
                                c,
                                last,
                                start,
                                (budget - 1) as nat,
                                code,
                                off,
                                base,
                            );
                        }
                    },
                }
            },
        }
    }
}

/// The walk of a repeated expression variable from the right in a placed
/// block is the walk in the block alone.
pub proof fn lemma_e_var_r_walk_placed(
    s: State,
    origin: State,
    cursor: usize,
    first: usize,
    end: usize,
    budget: nat,
    code: Seq<CommandView>,
    off: nat,
    base: Seq<JumpView>,
)
    requires
        origin.chain == s.chain,
        origin.dots == s.dots,
        origin.end == s.end,
        origin.projections == s.projections,
    ensures
        e_var_r_walk(embed(s, code, off, base), cursor, first, end, budget) == placed(
            e_var_r_walk(s, cursor, first, end, budget),
            origin,
            code,
            off,
            base,
        ),
    decreases budget,
{
    let e = embed(s, code, off, base);
    if cursor == first {
        assert(e.push(e.border_r).push(end) == embed(s.push(s.border_r).push(end), code, off, base));
    } else if budget > 0 {
        match s.node(cursor).prev {
            None => {},
            Some(c) => {
                match s.node(s.border_r).prev {
                    None => {},
                    Some(p) => {
                        let t = State { border_r: p, ..s };
                        assert(embed(t, code, off, base) == State { border_r: p, ..e });
                        lemma_fail_placed(t, code, off, base);
                        if s.border_l != p && t.object(c) == t.object(t.border_r) {
                            lemma_e_var_r_walk_placed(
                                t,
                                origin,
                                c,
                                first,
                                end,
                                (budget - 1) as nat,
                                code,
                                off,
                                base,
                            );
                        }
                    },
                }
            },
        }
    }
}

/// An instruction that moves the left border does in a placed block what
/// it does in the block alone.
pub proof fn lemma_left_placed(
    defs: Defs,
    s: State,
    cmd: CommandView,
    code: Seq<CommandView>,
    off: nat,
    base: Seq<JumpView>,
)
    requires
        pure_match(cmd),
        s.pc >= 1,
        crate::machine_laws::moves_left(cmd),
    ensures
        execute(defs, embed(s, code, off, base), cmd) == placed(
            execute(defs, s, cmd),
            s,
            code,
            off,
            base,
        ),
{
    reveal(execute);
    let e = embed(s, code, off, base);
    lemma_fail_placed(s, code, off, base);
    match s.node(s.border_l).next {
        Some(n) => {
            let t = State { border_l: n, ..s };
            assert(embed(t, code, off, base) == State { border_l: n, ..e });
            lemma_fail_placed(t, code, off, base);
        },
        None => {},
    }
}

/// An instruction that moves the right border does in a placed block
/// what it does in the block alone.
pub proof fn lemma_right_placed(
    defs: Defs,
    s: State,
    cmd: CommandView,
    code: Seq<CommandView>,
    off: nat,
    base: Seq<JumpView>,
)
    requires
        pure_match(cmd),
        s.pc >= 1,
        crate::machine_laws::moves_right(cmd),
    ensures
        execute(defs, embed(s, code, off, base), cmd) == placed(
            execute(defs, s, cmd),
            s,
            code,
            off,
            base,
        ),
{
    reveal(execute);
    let e = embed(s, code, off, base);
    lemma_fail_placed(s, code, off, base);
    match s.node(s.border_r).prev {
        Some(p) => {
            let t = State { border_r: p, ..s };
            assert(embed(t, code, off, base) == State { border_r: p, ..e });
            lemma_fail_placed(t, code, off, base);
        },
        None => {},
    }
}

/// The match of an expression variable that is met again does in a
/// placed block what it does in the block alone.
pub proof fn lemma_walk_placed(
    defs: Defs,
    s: State,
    cmd: CommandView,
    code: Seq<CommandView>,
    off: nat,
    base: Seq<JumpView>,
)
    requires
        pure_match(cmd),
        s.pc >= 1,
        crate::machine_laws::walks(cmd),
    ensures
        execute(defs, embed(s, code, off, base), cmd) == placed(
            execute(defs, s, cmd),
            s,
            code,
            off,
            base,
        ),
{
    reveal(execute);
    let e = embed(s, code, off, base);
    lemma_fail_placed(s, code, off, base);
    match cmd {
        CommandView::MatchEVarLProj(n) => {
            if n != 0 && n < s.projections.len() {
                match (s.node(s.border_l).next, s.node(s.projections[n - 1]).prev) {
                    (Some(start), Some(cursor)) => {
                        lemma_e_var_l_walk_placed(
                            s,
                            s,
                            cursor,
                            s.projections[n as int],
                            start,
                            s.chain.nodes.len(),
                            code,
                            off,
                            base,
                        );
                    },
                    _ => {},
                }
            }
        },
        CommandView::MatchEVarRProj(n) => {
            if n != 0 && n < s.projections.len() {
                match (s.node(s.border_r).prev, s.node(s.projections[n as int]).next) {
                    (Some(end), Some(cursor)) => {
                        lemma_e_var_r_walk_placed(
                            s,
                            s,
                            cursor,
                            s.projections[n - 1],
                            end,
                            s.chain.nodes.len(),
                            code,
                            off,
                            base,
                        );
                    },
                    _ => {},
                }
            }
        },
        _ => {},
    }
}

/// The preparation and the lengthening of an open variable do in a placed
/// block what they do in the block alone.
pub proof fn lemma_lengthen_placed(
    defs: Defs,
    s: State,
    cmd: CommandView,
    code: Seq<CommandView>,
    off: nat,
    base: Seq<JumpView>,
)
    requires
        pure_match(cmd),
        s.pc >= 1,
        cmd is MatchEVarPrepare || cmd is MatchEVarLengthen,
        cmd is MatchEVarPrepare ==> s.pc < s.commands.len() && s.pc + off < code.len(),
        cmd is MatchEVarLengthen && base.len() > 0 ==> base.last().projection_index
            < s.projections.len(),
    ensures
        execute(defs, embed(s, code, off, base), cmd) == placed(
            execute(defs, s, cmd),
            s,
            code,
            off,
            base,
        ),
{
    reveal(execute);
    let e = embed(s, code, off, base);
    lemma_fail_placed(s, code, off, base);
    match cmd {
        CommandView::MatchEVarPrepare => {
            match s.node(s.border_l).next {
                Some(start) => {
                    let t = s.push(start).push(s.border_l);
                    let after = State { jumps: t.jumps.push(t.jump_to(t.pc)), pc: t.pc + 1, ..t };
                    let et = e.push(start).push(e.border_l);
                    assert(et.jumps.push(et.jump_to(et.pc)) =~= base + shift_jumps(after.jumps, off));
                },
                None => {},
            }
        },
        CommandView::MatchEVarLengthen => {
            if s.projections.len() > 0 {
                let popped = State {
                    border_l: s.projections.last(),
                    projections: s.projections.drop_last(),
                    ..s
                };
                let epopped = State {
                    border_l: e.projections.last(),
                    projections: e.projections.drop_last(),
                    ..e
                };
                assert(epopped == embed(popped, code, off, base));
                match popped.node(popped.border_l).next {
                    Some(n) => {
                        let t = State { border_l: n, ..popped };
                        assert(embed(t, code, off, base) == State { border_l: n, ..epopped });
                        lemma_fail_placed(t, code, off, base);
                        assert(fall(t, code, base) == fall(s, code, base)) by {
                            if base.len() > 0 {
                                let k = base.last().projection_index as int;
                                assert(t.projections.take(k) =~= s.projections.take(k));
                            }
                        }
                        let mate = t.node(t.border_l).twin;
                        let u = if t.object(t.border_l) is StrBracketL && mate is Some {
                            State { border_l: mate->0, ..t }.push(mate->0)
                        } else {
                            t.push(t.border_l)
                        };
                        let eu = embed(u, code, off, base);
                        assert(eu.jumps.push(eu.jump_to((eu.pc - 1) as nat)) =~= base + shift_jumps(
                            u.jumps.push(u.jump_to((u.pc - 1) as nat)),
                            off,
                        ));
                    },
                    None => {},
                }
            }
        },
        _ => {},
    }
}

/// An instruction of the matching phase that moves no border onto a node
/// and lengthens no variable does in a placed block what it does in the
/// block alone.
pub proof fn lemma_still_placed(
    defs: Defs,
    s: State,
    cmd: CommandView,
    code: Seq<CommandView>,
    off: nat,
    base: Seq<JumpView>,
)
    requires
        pure_match(cmd),
        s.pc >= 1,
        !crate::machine_laws::moves_left(cmd),
        !crate::machine_laws::moves_right(cmd),
        !crate::machine_laws::walks(cmd),
        !(cmd is MatchEVarPrepare),
        !(cmd is MatchEVarLengthen),
        cmd matches CommandView::ConstrainLengthen(n) ==> n <= s.jumps.len(),
    ensures
        execute(defs, embed(s, code, off, base), cmd) == placed(
            execute(defs, s, cmd),
            s,
            code,
            off,
            base,
        ),
{
    reveal(execute);
    let e = embed(s, code, off, base);
    lemma_fail_placed(s, code, off, base);
    match cmd {
        CommandView::ConstrainLengthen(n) => {
            let kept = s.jumps.take(s.jumps.len() - n);
            if n >= e.jumps.len() {
                assert(base.len() == 0);
                assert(n == s.jumps.len());
                assert(e.jumps.take(0) =~= Seq::<JumpView>::empty());
                assert(base + shift_jumps(Seq::<JumpView>::empty(), off) =~= Seq::<JumpView>::empty());
                assert(s.jumps.take(0) =~= Seq::<JumpView>::empty());
            } else {
                assert(e.jumps.take(e.jumps.len() - n) =~= base + shift_jumps(kept, off));
                if n >= s.jumps.len() {
                    assert(kept =~= Seq::<JumpView>::empty());
                }
            }
        },
        _ => {},
    }
}

/// An instruction of the matching phase does in a placed block what it
/// does in the block alone. The state `s` is the one in which the
/// instruction is carried out, with the program counter past it.
pub proof fn lemma_execute_placed(
    defs: Defs,
    s: State,
    cmd: CommandView,
    code: Seq<CommandView>,
    off: nat,
    base: Seq<JumpView>,
)
    requires
        pure_match(cmd),
        s.pc >= 1,
        cmd matches CommandView::ConstrainLengthen(n) ==> n <= s.jumps.len(),
        cmd is MatchEVarPrepare ==> s.pc < s.commands.len() && s.pc + off < code.len(),
        cmd is MatchEVarLengthen && base.len() > 0 ==> base.last().projection_index
            < s.projections.len(),
    ensures
        execute(defs, embed(s, code, off, base), cmd) == placed(
            execute(defs, s, cmd),
            s,
            code,
            off,
            base,
        ),
{
    if crate::machine_laws::moves_left(cmd) {
        lemma_left_placed(defs, s, cmd, code, off, base);
    } else if crate::machine_laws::moves_right(cmd) {
        lemma_right_placed(defs, s, cmd, code, off, base);
    } else if crate::machine_laws::walks(cmd) {
        lemma_walk_placed(defs, s, cmd, code, off, base);
    } else if cmd is MatchEVarPrepare || cmd is MatchEVarLengthen {
        lemma_lengthen_placed(defs, s, cmd, code, off, base);
    } else {
        lemma_still_placed(defs, s, cmd, code, off, base);
    }
}

/// The instruction went through: it left the choice points and the
/// program counter alone and took no projection away.
pub open spec fn went_on(s: State, t: State) -> bool {
    &&& t.jumps == s.jumps
    &&& t.pc == s.pc
    &&& s.projections.len() <= t.projections.len()
    &&& t.projections.take(s.projections.len() as int) == s.projections
}

/// The instruction failed and the machine went back to the newest choice
/// point.
pub open spec fn went_back(s: State, t: State) -> bool {
    &&& s.jumps.len() > 0
    &&& t.jumps == s.jumps.drop_last()
    &&& t.pc == s.jumps.last().command_index
    &&& t.projections == if s.jumps.last().projection_index <= s.projections.len() {
        s.projections.take(s.jumps.last().projection_index as int)
    } else {
        s.projections
    }
}

/// The instructions that neither push nor give up choice points.
pub open spec fn plain_match(cmd: CommandView) -> bool {
    pure_match(cmd) && !(cmd is MatchEVarPrepare) && !(cmd is MatchEVarLengthen) && !(cmd is ConstrainLengthen)
}

/// The walk of a repeated expression variable from the left goes through
/// or goes back to the newest choice point.
pub proof fn lemma_e_var_l_walk_shape(
    s: State,
    origin: State,
    cursor: usize,
    last: usize,
    start: usize,
    budget: nat,
)
    requires
        origin.jumps == s.jumps,
        origin.pc == s.pc,
        origin.projections == s.projections,
    ensures
        e_var_l_walk(s, cursor, last, start, budget) matches Ok(t) ==> went_on(origin, t)
            || went_back(origin, t),
    decreases budget,
{
    if cursor == last {
        let t = s.push(start).push(s.border_l);
        assert(t.projections.take(s.projections.len() as int) =~= s.projections);
    } else if budget > 0 {
        match s.node(cursor).next {
            None => {},
            Some(c) => {
                match s.node(s.border_l).next {
                    None => {},
                    Some(n) => {
                        let t = State { border_l: n, ..s };
                        if n != s.border_r && t.object(c) == t.object(t.border_l) {
                            lemma_e_var_l_walk_shape(t, origin, c, last, start, (budget - 1) as nat);
                        }
                    },
                }
            },
        }
    }
}

/// The walk of a repeated expression variable from the right goes through
/// or goes back to the newest choice point.
pub proof fn lemma_e_var_r_walk_shape(
    s: State,
    origin: State,
    cursor: usize,
    first: usize,
    end: usize,
    budget: nat,
)
    requires
        origin.jumps == s.jumps,
        origin.pc == s.pc,
        origin.projections == s.projections,
    ensures
        e_var_r_walk(s, cursor, first, end, budget) matches Ok(t) ==> went_on(origin, t)
            || went_back(origin, t),
    decreases budget,
{
    if cursor == first {
        let t = s.push(s.border_r).push(end);
        assert(t.projections.take(s.projections.len() as int) =~= s.projections);
    } else if budget > 0 {
        match s.node(cursor).prev {
            None => {},
            Some(c) => {
                match s.node(s.border_r).prev {
                    None => {},
                    Some(p) => {
                        let t = State { border_r: p, ..s };
                        if s.border_l != p && t.object(c) == t.object(t.border_r) {
                            lemma_e_var_r_walk_shape(t, origin, c, first, end, (budget - 1) as nat);
                        }
                    },
                }
            },
        }
    }
}

/// An instruction that neither pushes nor gives up choice points goes
/// through or goes back to the newest choice point.
pub proof fn lemma_plain_shape(defs: Defs, s: State, cmd: CommandView)
    requires
        plain_match(cmd),
    ensures
        execute(defs, s, cmd) matches Ok(t) ==> went_on(s, t) || went_back(s, t),
{
    reveal(execute);
    match execute(defs, s, cmd) {
        Err(_) => {},
        Ok(t) => {
            match cmd {
                CommandView::MatchEVarLProj(n) => {
                    let start = s.node(s.border_l).next->0;
                    let cursor = s.node(s.projections[n - 1]).prev->0;
                    lemma_e_var_l_walk_shape(
                        s,
                        s,
                        cursor,
                        s.projections[n as int],
                        start,
                        s.chain.nodes.len(),
                    );
                },
                CommandView::MatchEVarRProj(n) => {
                    let end = s.node(s.border_r).prev->0;
                    let cursor = s.node(s.projections[n as int]).next->0;
                    lemma_e_var_r_walk_shape(
                        s,
                        s,
                        cursor,
                        s.projections[n - 1],
                        end,
                        s.chain.nodes.len(),
                    );
                },
                _ => {
                    if t.jumps == s.jumps {
                        assert(t.projections.take(s.projections.len() as int) =~= s.projections);
                    }
                },
            }
        },
    }
}

/// The number of lengthening choice points that are open behind the
/// instructions `m`: a lengthening opens one, and a constraint gives up as
/// many as it says.
pub open spec fn depth(m: Seq<CommandView>) -> nat
    decreases m.len(),
{
    if m.len() == 0 {
        0
    } else {
        let before = depth(m.drop_last());
        match m.last() {
            CommandView::MatchEVarLengthen => before + 1,
            CommandView::ConstrainLengthen(n) => if n <= before {
                (before - n) as nat
            } else {
                0
            },
            _ => before,
        }
    }
}

/// The instruction `p` of the matching instructions `m` of a sentence is in
/// order: it is an instruction of the matching phase and no transition, a
/// lengthening stands right behind its preparation and nowhere else, and a
/// constraint gives up no more choice points than are open.
pub open spec fn instr_ok(m: Seq<CommandView>, p: int) -> bool {
    &&& pure_match(m[p])
    &&& m[p] is MatchEVarPrepare ==> p + 1 < m.len() && m[p + 1] is MatchEVarLengthen
    &&& m[p] is MatchEVarLengthen ==> p >= 1 && m[p - 1] is MatchEVarPrepare
    &&& m[p] matches CommandView::ConstrainLengthen(n) ==> n <= depth(m.take(p))
}

/// The matching instructions of a sentence are in order.
pub open spec fn match_ok(m: Seq<CommandView>) -> bool {
    forall|p: int| 0 <= p < m.len() ==> instr_ok(m, p)
}

/// The choice point `i` of a block leads to a lengthening behind which `i`
/// choice points are open, and keeps at least two projections of the
/// block.
pub open spec fn local_jump(j: JumpView, m: Seq<CommandView>, i: int, kept: nat) -> bool {
    &&& j.command_index < m.len()
    &&& m[j.command_index as int] is MatchEVarLengthen
    &&& depth(m.take(j.command_index as int)) == i
    &&& j.projection_index >= kept + 2
}

/// What holds of a block that runs alone between two instructions of its
/// matching phase `m`: the choice points are those that `m` has open at the
/// program counter, each keeps more projections than the one below, and
/// the projections `prefix` that the block was entered with are in place.
pub open spec fn block_inv(s: State, m: Seq<CommandView>, prefix: Seq<usize>) -> bool {
    &&& s.pc <= m.len() <= s.commands.len()
    &&& s.commands.take(m.len() as int) == m
    &&& s.jumps.len() == depth(m.take(s.pc as int))
    &&& prefix.len() <= s.projections.len()
    &&& s.projections.take(prefix.len() as int) == prefix
    &&& forall|i: int| 0 <= i < s.jumps.len() ==> local_jump(#[trigger] s.jumps[i], m, i, prefix.len())
    &&& forall|i: int|
        0 <= i && i + 1 < s.jumps.len() ==> (#[trigger] s.jumps[i]).projection_index + 2
            <= s.jumps[i + 1].projection_index
    &&& s.jumps.len() > 0 ==> s.jumps.last().projection_index <= s.projections.len()
    &&& s.pc < m.len() && m[s.pc as int] is MatchEVarLengthen ==> s.projections.len() >= prefix.len()
        + 2 && (s.jumps.len() > 0 ==> s.jumps.last().projection_index + 2 <= s.projections.len())
}

/// The depth behind one instruction more.
pub proof fn lemma_depth_step(m: Seq<CommandView>, p: int)
    requires
        0 <= p < m.len(),
    ensures
        depth(m.take(p + 1)) == match m[p] {
            CommandView::MatchEVarLengthen => depth(m.take(p)) + 1,
            CommandView::ConstrainLengthen(n) => if n <= depth(m.take(p)) {
                (depth(m.take(p)) - n) as nat
            } else {
                0
            },
            _ => depth(m.take(p)),
        },
{
    assert(m.take(p + 1).drop_last() =~= m.take(p));
    assert(m.take(p + 1).last() == m[p]);
}

/// A step of the matching phase of a block keeps what holds of the block.
pub proof fn lemma_block_step(defs: Defs, s: State, m: Seq<CommandView>, prefix: Seq<usize>)
    requires
        block_inv(s, m, prefix),
        match_ok(m),
        s.pc < m.len(),
    ensures
        crate::machine::step(defs, s) matches Ok(t) ==> block_inv(t, m, prefix)
            && crate::machine_laws::same_field(s, t),
{
    reveal(execute);
    let p = s.pc as int;
    let cmd = m[p];
    assert(s.commands[p] == s.commands.take(m.len() as int)[p]);
    assert(instr_ok(m, p));
    let u = State { pc: s.pc + 1, ..s };
    lemma_depth_step(m, p);
    crate::machine_laws::lemma_match_reads(defs, u, cmd);
    match execute(defs, u, cmd) {
        Err(_) => {},
        Ok(t) => {
            if plain_match(cmd) {
                lemma_plain_shape(defs, u, cmd);
                if went_on(u, t) && t.jumps == u.jumps && t.pc == u.pc {
                    assert(t.projections.take(prefix.len() as int) =~= prefix) by {
                        assert(u.projections.take(prefix.len() as int) == prefix);
                        assert forall|i: int| 0 <= i < prefix.len() implies t.projections[i]
                            == prefix[i] by {
                            assert(t.projections.take(u.projections.len() as int)[i]
                                == u.projections[i]);
                            assert(u.projections.take(prefix.len() as int)[i] == u.projections[i]);
                        }
                    }
                    if t.pc < m.len() && m[t.pc as int] is MatchEVarLengthen {
                        assert(instr_ok(m, t.pc as int));
                    }
                } else {
                    lemma_went_back_inv(s, u, t, m, prefix);
                }
            } else {
                match cmd {
                    CommandView::MatchEVarPrepare => {
                        let start = u.node(u.border_l).next->0;
                        let pushed = u.push(start).push(u.border_l);
                        assert(t.projections.take(prefix.len() as int) =~= prefix) by {
                            assert forall|i: int| 0 <= i < prefix.len() implies t.projections[i]
                                == prefix[i] by {
                                assert(s.projections.take(prefix.len() as int)[i]
                                    == s.projections[i]);
                            }
                        }
                        lemma_depth_step(m, p + 1);
                        assert forall|i: int| 0 <= i < t.jumps.len() implies local_jump(
                            #[trigger] t.jumps[i],
                            m,
                            i,
                            prefix.len(),
                        ) by {
                            if i < s.jumps.len() {
                                assert(t.jumps[i] == s.jumps[i]);
                            }
                        }
                        assert forall|i: int| 0 <= i && i + 1 < t.jumps.len() implies (
                        #[trigger] t.jumps[i]).projection_index + 2 <= t.jumps[i
                            + 1].projection_index by {
                            assert(t.jumps[i] == s.jumps[i]);
                            if i + 1 < s.jumps.len() {
                                assert(t.jumps[i + 1] == s.jumps[i + 1]);
                            }
                        }
                        if t.pc < m.len() && m[t.pc as int] is MatchEVarLengthen {
                            assert(instr_ok(m, t.pc as int));
                        }
                    },
                    CommandView::MatchEVarLengthen => {
                        let popped = State {
                            border_l: u.projections.last(),
                            projections: u.projections.drop_last(),
                            ..u
                        };
                        let n = popped.node(popped.border_l).next->0;
                        let moved = State { border_l: n, ..popped };
                        if n == popped.border_r {
                            assert(t == fail(moved)->Ok_0);
                            let shortened = State { projections: popped.projections, ..u };
                            assert(went_back(shortened, t));
                            lemma_went_back_from(s, shortened, t, m, prefix);
                        } else {
                            assert(t.projections.len() == s.projections.len());
                            assert(t.projections.take(prefix.len() as int) =~= prefix) by {
                                assert forall|i: int| 0 <= i < prefix.len() implies t.projections[i]
                                    == prefix[i] by {
                                    assert(s.projections.take(prefix.len() as int)[i]
                                        == s.projections[i]);
                                }
                            }
                            assert forall|i: int| 0 <= i < t.jumps.len() implies local_jump(
                                #[trigger] t.jumps[i],
                                m,
                                i,
                                prefix.len(),
                            ) by {
                                if i < s.jumps.len() {
                                    assert(t.jumps[i] == s.jumps[i]);
                                }
                            }
                            assert forall|i: int| 0 <= i && i + 1 < t.jumps.len() implies (
                            #[trigger] t.jumps[i]).projection_index + 2 <= t.jumps[i
                                + 1].projection_index by {
                                assert(t.jumps[i] == s.jumps[i]);
                                if i + 1 < s.jumps.len() {
                                    assert(t.jumps[i + 1] == s.jumps[i + 1]);
                                }
                            }
                            if t.pc < m.len() && m[t.pc as int] is MatchEVarLengthen {
                                assert(instr_ok(m, t.pc as int));
                            }
                        }
                    },
                    CommandView::ConstrainLengthen(n) => {
                        assert forall|i: int| 0 <= i < t.jumps.len() implies local_jump(
                            #[trigger] t.jumps[i],
                            m,
                            i,
                            prefix.len(),
                        ) by {
                            assert(t.jumps[i] == s.jumps[i]);
                        }
                        assert forall|i: int| 0 <= i && i + 1 < t.jumps.len() implies (
                        #[trigger] t.jumps[i]).projection_index + 2 <= t.jumps[i
                            + 1].projection_index by {
                            assert(t.jumps[i] == s.jumps[i]);
                            assert(t.jumps[i + 1] == s.jumps[i + 1]);
                        }
                        if t.jumps.len() > 0 {
                            lemma_jumps_rise(s.jumps, t.jumps.len() - 1, s.jumps.len() - 1);
                            assert(t.jumps.last() == s.jumps[t.jumps.len() - 1]);
                        }
                        if t.pc < m.len() && m[t.pc as int] is MatchEVarLengthen {
                            assert(instr_ok(m, t.pc as int));
                        }
                    },
                    _ => {},
                }
            }
        },
    }
}

/// A choice point keeps no more projections than one above it.
pub proof fn lemma_jumps_rise(jumps: Seq<JumpView>, i: int, k: int)
    requires
        0 <= i <= k < jumps.len(),
        forall|i: int|
            0 <= i && i + 1 < jumps.len() ==> (#[trigger] jumps[i]).projection_index + 2 <= jumps[i
                + 1].projection_index,
    ensures
        jumps[i].projection_index <= jumps[k].projection_index,
    decreases k - i,
{
    if i < k {
        lemma_jumps_rise(jumps, i + 1, k);
    }
}

/// What holds of a block holds after a failure that went back to a choice
/// point of the block.
pub proof fn lemma_went_back_inv(
    s: State,
    u: State,
    t: State,
    m: Seq<CommandView>,
    prefix: Seq<usize>,
)
    requires
        block_inv(s, m, prefix),
        u == (State { pc: s.pc + 1, ..s }),
        went_back(u, t),
        t.commands == s.commands,
    ensures
        block_inv(t, m, prefix),
{
    lemma_went_back_from(s, u, t, m, prefix);
}

/// As [`lemma_went_back_inv`], for a failure in a state `u` that has the
/// choice points of `s` and at least the projections that the newest
/// choice point keeps, less one.
pub proof fn lemma_went_back_from(
    s: State,
    u: State,
    t: State,
    m: Seq<CommandView>,
    prefix: Seq<usize>,
)
    requires
        block_inv(s, m, prefix),
        u.jumps == s.jumps,
        went_back(u, t),
        t.commands == s.commands,
        u.projections == s.projections || (u.projections == s.projections.drop_last()
            && s.projections.len() >= prefix.len() + 2 && (s.jumps.len() > 0
            ==> s.jumps.last().projection_index + 2 <= s.projections.len())),
    ensures
        block_inv(t, m, prefix),
{
    let j = s.jumps.last();
    let _ = s.jumps[s.jumps.len() - 1];
    assert(local_jump(j, m, s.jumps.len() - 1, prefix.len()));
    assert(j.projection_index <= u.projections.len());
    assert(t.projections =~= s.projections.take(j.projection_index as int));
    assert(t.projections.take(prefix.len() as int) =~= prefix) by {
        assert forall|i: int| 0 <= i < prefix.len() implies t.projections[i] == prefix[i] by {
            assert(s.projections.take(prefix.len() as int)[i] == s.projections[i]);
        }
    }
    assert forall|i: int| 0 <= i < t.jumps.len() implies local_jump(
        #[trigger] t.jumps[i],
        m,
        i,
        prefix.len(),
    ) by {
        assert(t.jumps[i] == s.jumps[i]);
    }
    assert forall|i: int| 0 <= i && i + 1 < t.jumps.len() implies (
    #[trigger] t.jumps[i]).projection_index + 2 <= t.jumps[i + 1].projection_index by {
        assert(t.jumps[i] == s.jumps[i]);
        assert(t.jumps[i + 1] == s.jumps[i + 1]);
    }
    if t.jumps.len() > 0 {
        let below = s.jumps[s.jumps.len() - 2];
        assert(t.jumps.last() == below);
        assert(below.projection_index + 2 <= s.jumps[s.jumps.len() - 2 + 1].projection_index);
    }
}

/// The instructions from `pc` on hold one that finalizes the step.
pub open spec fn finalizes(commands: Seq<CommandView>, pc: int) -> bool
    decreases commands.len() - pc,
{
    0 <= pc < commands.len() && (commands[pc] is RewriteFinalize || finalizes(commands, pc + 1))
}

/// The block stands in `code` from the instruction `off` on.
pub open spec fn sits(block: Seq<CommandView>, code: Seq<CommandView>, off: nat) -> bool {
    &&& off + block.len() <= code.len()
    &&& forall|p: int| 0 <= p < block.len() ==> code[p + off] == #[trigger] block[p]
}

/// The state of a block that runs alone, as the state of the same block
/// placed `off` instructions into `code`, with the choice points as they
/// are.
pub open spec fn relocate(t: State, code: Seq<CommandView>, off: nat) -> State {
    State { commands: code, pc: t.pc + off, ..t }
}

/// The outcome of the construction phase of a block that runs alone, as
/// the outcome in the block that is placed.
pub open spec fn relocated(o: Outcome, code: Seq<CommandView>, off: nat) -> Outcome {
    match o {
        Ok(t) => Ok(relocate(t, code, off)),
        Err(e) => Err(e),
    }
}

/// The deferred moves go wrong in one way only.
pub proof fn lemma_transplants_error(
    nodes: Seq<crate::runtime::NodeView>,
    transplants: Seq<crate::machine::Transplant>,
)
    ensures
        apply_transplants(nodes, transplants) matches Err(e) ==> e is IllegalState,
    decreases transplants.len(),
{
    if transplants.len() > 0 {
        let t = transplants[transplants.len() - 1];
        match (nodes[t.start as int].prev, nodes[t.end as int].next) {
            (Some(before), Some(after)) => {
                let cut = crate::runtime::link_spec(nodes, before, after);
                match cut[t.border as int].next {
                    None => {},
                    Some(next) => {
                        lemma_transplants_error(
                            crate::runtime::link_spec(
                                crate::runtime::link_spec(cut, t.end, next),
                                t.border,
                                t.start,
                            ),
                            transplants.drop_last(),
                        );
                    },
                }
            },
            _ => {},
        }
    }
}

/// Copying goes wrong in one way only.
pub proof fn lemma_copy_walk_error(b: Build, cursor: usize, last: usize, budget: nat)
    ensures
        copy_walk(b, cursor, last, budget) matches Err(e) ==> e is IllegalState,
    decreases budget,
{
    if cursor != last && budget > 0 {
        match b.nodes[cursor as int].next {
            None => {},
            Some(c) => match b.nodes[c as int].object {
                crate::runtime::ObjectView::Symbol(sym) => {
                    lemma_copy_walk_error(
                        crate::machine::attach(b, crate::runtime::ObjectView::Symbol(sym)),
                        c,
                        last,
                        (budget - 1) as nat,
                    );
                },
                crate::runtime::ObjectView::StrBracketL => {
                    let a = crate::machine::attach(b, crate::runtime::ObjectView::StrBracketL);
                    lemma_copy_walk_error(
                        Build { l_brackets: a.l_brackets.push(a.border), ..a },
                        c,
                        last,
                        (budget - 1) as nat,
                    );
                },
                crate::runtime::ObjectView::StrBracketR => {
                    let a = crate::machine::attach(b, crate::runtime::ObjectView::StrBracketR);
                    if a.l_brackets.len() > 0 {
                        lemma_copy_walk_error(
                            Build {
                                l_brackets: a.l_brackets.drop_last(),
                                nodes: crate::runtime::pair_spec(
                                    a.nodes,
                                    a.l_brackets.last(),
                                    a.border,
                                ),
                                ..a
                            },
                            c,
                            last,
                            (budget - 1) as nat,
                        );
                    }
                },
                _ => {},
            },
        }
    }
}

/// The construction phase of a placed block is that of the block alone,
/// and it goes wrong in one way only: it never fails to recognize.
pub proof fn lemma_build_placed(s: State, b: Build, code: Seq<CommandView>, off: nat)
    requires
        sits(s.commands, code, off),
        finalizes(s.commands, s.pc as int),
    ensures
        build(relocate(s, code, off), b) == relocated(build(s, b), code, off),
        build(s, b) matches Err(e) ==> e is IllegalState,
    decreases s.commands.len() - s.pc,
{
    let e = relocate(s, code, off);
    let cmd = s.commands[s.pc as int];
    assert(code[(s.pc + off) as int] == cmd);
    let t = State { pc: s.pc + 1, ..s };
    assert(State { pc: e.pc + 1, ..e } == relocate(t, code, off));
    match cmd {
        CommandView::RewriteFinalize => {
            match crate::machine::splice_out(b, t.projections[2]) {
                Ok(nodes) => {
                    lemma_transplants_error(nodes, b.transplants);
                },
                Err(_) => {},
            }
        },
        _ => {
            match cmd {
                CommandView::CopyExpr(n) => {
                    if n != 0 && n < s.projections.len() {
                        match (
                            b.nodes[s.projections[n - 1] as int].prev,
                            b.nodes[b.border as int].next,
                        ) {
                            (Some(cursor), Some(next)) => {
                                lemma_copy_walk_error(
                                    b,
                                    cursor,
                                    s.projections[n as int],
                                    b.nodes.len(),
                                );
                            },
                            _ => {},
                        }
                    }
                },
                _ => {},
            }
            match build_one(b, s.projections, cmd) {
                Err(_) => {},
                Ok(c) => {
                    lemma_build_placed(t, c, code, off);
                },
            }
        },
    }
}

/// The start of the construction phase of a placed block is that of the
/// block alone.
pub proof fn lemma_rewrite_start_placed(
    s: State,
    code: Seq<CommandView>,
    off: nat,
    base: Seq<JumpView>,
)
    requires
        sits(s.commands, code, off),
        finalizes(s.commands, s.pc as int),
    ensures
        rewrite_start(embed(s, code, off, base)) == relocated(rewrite_start(s), code, off),
        rewrite_start(s) matches Err(e) ==> e is IllegalState,
{
    if s.projections.len() > 0 {
        let start = State { jumps: Seq::empty(), ..s };
        let b = Build {
            nodes: s.chain.nodes,
            border: s.projections[0],
            local_dots: Seq::empty(),
            l_brackets: Seq::empty(),
            l_fun_brackets: Seq::empty(),
            transplants: Seq::empty(),
        };
        lemma_build_placed(start, b, code, off);
        assert(State { jumps: Seq::empty(), ..embed(s, code, off, base) } == relocate(
            start,
            code,
            off,
        ));
    }
}

/// How the try of the sentences from a state on ends.
pub enum Attempt {
    /// A sentence matched, and its rewrite led to the state; so many steps
    /// were left.
    Rewritten(State, nat),
    /// No sentence matched; so many steps were left.
    NoMatch(nat),
    /// The instructions did not fit the state.
    Broken(FailureView),
    /// The steps ran out.
    Limit,
}

/// The machine runs from `s` until a rewrite is made, for at most `fuel`
/// steps.
pub open spec fn attempt(defs: Defs, s: State, fuel: nat) -> Attempt
    decreases fuel,
{
    if fuel == 0 {
        Attempt::Limit
    } else if s.pc >= s.commands.len() {
        Attempt::Broken(FailureView::IllegalState)
    } else {
        match step(defs, s) {
            Err(FailureView::RecognitionImpossible) => Attempt::NoMatch((fuel - 1) as nat),
            Err(e) => Attempt::Broken(e),
            Ok(t) => if s.commands[s.pc as int] is RewriteStart {
                Attempt::Rewritten(t, (fuel - 1) as nat)
            } else {
                attempt(defs, t, (fuel - 1) as nat)
            },
        }
    }
}

/// The state in which a block that found no match leaves the machine: the
/// newest choice point of `base` is taken, and of the projections those
/// that the block was entered with are left.
pub open spec fn landing(
    s: State,
    code: Seq<CommandView>,
    base: Seq<JumpView>,
    prefix: Seq<usize>,
) -> State {
    let j = base.last();
    State {
        border_l: j.border_l,
        border_r: j.border_r,
        projections: prefix.take(j.projection_index as int),
        pc: j.command_index,
        jumps: base.drop_last(),
        commands: code,
        ..s
    }
}

/// How the try of a block that is placed ends, given how the try of the
/// block alone ends.
pub open spec fn placed_attempt(
    alone: Attempt,
    defs: Defs,
    s: State,
    code: Seq<CommandView>,
    off: nat,
    base: Seq<JumpView>,
    prefix: Seq<usize>,
) -> Attempt {
    match alone {
        Attempt::Rewritten(t, left) => Attempt::Rewritten(relocate(t, code, off), left),
        Attempt::NoMatch(left) => if base.len() == 0 {
            Attempt::NoMatch(left)
        } else {
            attempt(defs, landing(s, code, base, prefix), left)
        },
        Attempt::Broken(e) => Attempt::Broken(e),
        Attempt::Limit => Attempt::Limit,
    }
}

/// A block is the matching instructions `m` of a sentence, the start of
/// the construction, the instructions of the construction, the end of the
/// step, and the start of the next activation.
pub open spec fn block_of(block: Seq<CommandView>, m: Seq<CommandView>) -> bool {
    &&& match_ok(m)
    &&& m.len() + 3 <= block.len()
    &&& block.take(m.len() as int) == m
    &&& block[m.len() as int] is RewriteStart
    &&& finalizes(block, (m.len() + 1) as int)
    &&& forall|p: int| m.len() < p < block.len() - 2 ==> !(#[trigger] block[p] is RewriteFinalize)
    &&& block[block.len() - 2] is RewriteFinalize
    &&& block[block.len() - 1] is MatchStart
}

/// A block that is placed in the instruction list of a function does what
/// it does alone: it makes the same rewrite, or goes wrong in the same
/// way; and where alone it finds no match, it leaves the machine at the
/// choice point that was set up before it, in the state in which that was
/// set up.
pub proof fn lemma_attempt_placed(
    defs: Defs,
    s: State,
    m: Seq<CommandView>,
    prefix: Seq<usize>,
    code: Seq<CommandView>,
    off: nat,
    base: Seq<JumpView>,
    fuel: nat,
)
    requires
        block_of(s.commands, m),
        block_inv(s, m, prefix),
        sits(s.commands, code, off),
        base.len() > 0 ==> base.last().projection_index <= prefix.len(),
    ensures
        attempt(defs, embed(s, code, off, base), fuel) == placed_attempt(
            attempt(defs, s, fuel),
            defs,
            s,
            code,
            off,
            base,
            prefix,
        ),
    decreases fuel,
{
    reveal(execute);
    if fuel > 0 {
        let e = embed(s, code, off, base);
        let p = s.pc as int;
        let cmd = s.commands[p];
        assert(code[p + off] == cmd);
        let u = State { pc: s.pc + 1, ..s };
        assert(State { pc: e.pc + 1, ..e } == embed(u, code, off, base));
        if p < m.len() {
            assert(s.commands.take(m.len() as int)[p] == cmd);
            assert(instr_ok(m, p));
            lemma_execute_placed(defs, u, cmd, code, off, base);
            lemma_block_step(defs, s, m, prefix);
            match step(defs, s) {
                Ok(t) => {
                    lemma_attempt_placed(defs, t, m, prefix, code, off, base, (fuel - 1) as nat);
                    if base.len() > 0 {
                        assert(landing(t, code, base, prefix) == landing(s, code, base, prefix));
                    }
                },
                Err(FailureView::RecognitionImpossible) => {
                    if base.len() > 0 {
                        let j = base.last();
                        assert(u.projections.take(j.projection_index as int) =~= prefix.take(
                            j.projection_index as int,
                        )) by {
                            assert forall|i: int| 0 <= i < j.projection_index implies u.projections[i]
                                == prefix[i] by {
                                assert(s.projections.take(prefix.len() as int)[i]
                                    == s.projections[i]);
                            }
                        }
                        assert(fall(u, code, base) == Ok::<State, FailureView>(
                            landing(s, code, base, prefix),
                        ));
                    }
                },
                Err(_) => {},
            }
        } else {
            lemma_rewrite_start_placed(u, code, off, base);
        }
    }
}

/// The outcome with `more` steps.
pub open spec fn with_more(x: Attempt, more: nat) -> Attempt {
    match x {
        Attempt::NoMatch(left) => Attempt::NoMatch(left + more),
        Attempt::Rewritten(t, left) => Attempt::Rewritten(t, left + more),
        other => other,
    }
}

/// More steps change nothing of a try that ended within the steps it had.
pub proof fn lemma_attempt_more(defs: Defs, s: State, fuel: nat, more: nat)
    requires
        !(attempt(defs, s, fuel) is Limit),
    ensures
        attempt(defs, s, fuel + more) == with_more(attempt(defs, s, fuel), more),
    decreases fuel,
{
    if fuel > 0 && s.pc < s.commands.len() {
        match step(defs, s) {
            Ok(t) => {
                if !(s.commands[s.pc as int] is RewriteStart) {
                    lemma_attempt_more(defs, t, (fuel - 1) as nat, more);
                }
            },
            Err(_) => {},
        }
    }
}

/// What a try came to, whatever the steps that were left and wherever in
/// which instruction list the machine stands.
pub open spec fn verdict(x: Attempt) -> Attempt {
    match x {
        Attempt::Rewritten(t, _) => Attempt::Rewritten(
            State { commands: Seq::empty(), pc: 0, ..t },
            0,
        ),
        Attempt::NoMatch(_) => Attempt::NoMatch(0),
        other => other,
    }
}

/// Two tries from one state that both ended within their steps came to the
/// same, and took the same number of steps.
pub proof fn lemma_attempt_one(defs: Defs, s: State, f: nat, g: nat)
    requires
        !(attempt(defs, s, f) is Limit),
        !(attempt(defs, s, g) is Limit),
    ensures
        verdict(attempt(defs, s, f)) == verdict(attempt(defs, s, g)),
        attempt(defs, s, f) matches Attempt::NoMatch(left) ==> (attempt(defs, s, g)
            matches Attempt::NoMatch(other) && f - left == g - other),
{
    if f <= g {
        lemma_attempt_more(defs, s, f, (g - f) as nat);
    } else {
        lemma_attempt_more(defs, s, g, (f - g) as nat);
    }
}

/// The state in which a block that runs alone is entered for the
/// activation `a`.
pub open spec fn alone(a: State, block: Seq<CommandView>) -> State {
    State { commands: block, pc: 0, jumps: Seq::empty(), ..a }
}

/// The state of the activation `a` at the instruction `pc` of `code`, with
/// no choice point.
pub open spec fn at(a: State, code: Seq<CommandView>, pc: nat) -> State {
    State { commands: code, pc, jumps: Seq::empty(), ..a }
}

/// The sentences from `k` on are tried one after the other, each alone:
/// the first that matches makes its rewrite, and where one goes wrong the
/// try ends. A transition before each sentence but the last takes a step.
pub open spec fn try_sentences(
    defs: Defs,
    blocks: Seq<Seq<CommandView>>,
    k: int,
    a: State,
    fuel: nat,
) -> Attempt
    decreases blocks.len() - k,
{
    if k < 0 || k >= blocks.len() {
        Attempt::Broken(FailureView::IllegalState)
    } else if k + 1 == blocks.len() {
        attempt(defs, alone(a, blocks[k]), fuel)
    } else if fuel == 0 {
        Attempt::Limit
    } else {
        match attempt(defs, alone(a, blocks[k]), (fuel - 1) as nat) {
            Attempt::NoMatch(left) => try_sentences(defs, blocks, k + 1, a, left),
            other => other,
        }
    }
}

/// Each of the blocks is a block of the matching instructions of the same
/// number.
pub open spec fn blocks_of(blocks: Seq<Seq<CommandView>>, ms: Seq<Seq<CommandView>>) -> bool {
    &&& ms.len() == blocks.len()
    &&& forall|k: int| 0 <= k < blocks.len() ==> block_of(#[trigger] blocks[k], ms[k])
}

/// The instructions of the first `j` sentences stand at the start of the
/// instructions of the first `k`.
pub proof fn lemma_chained_prefix(blocks: Seq<Seq<CommandView>>, j: int, k: int)
    requires
        0 <= j <= k <= blocks.len(),
    ensures
        chained(blocks, j).len() <= chained(blocks, k).len(),
        chained(blocks, k).take(chained(blocks, j).len() as int) == chained(blocks, j),
    decreases k - j,
{
    if j < k {
        lemma_chained_prefix(blocks, j, k - 1);
        let before = chained(blocks, k - 1);
        let whole = chained(blocks, k);
        assert(whole.take(before.len() as int) =~= before);
        assert(whole.take(chained(blocks, j).len() as int) =~= before.take(
            chained(blocks, j).len() as int,
        ));
    } else {
        assert(chained(blocks, k).take(chained(blocks, k).len() as int) =~= chained(blocks, k));
    }
}

/// Where the sentence `k` stands in the instructions of a function.
pub proof fn lemma_chained_at(blocks: Seq<Seq<CommandView>>, k: int)
    requires
        0 <= k < blocks.len(),
    ensures
        k + 1 < blocks.len() ==> chained(blocks, k).len() < chained(
            blocks,
            blocks.len() as int,
        ).len() && chained(blocks, blocks.len() as int)[chained(blocks, k).len() as int]
            == CommandView::SetupTransition(chained(blocks, k + 1).len()) && sits(
            blocks[k],
            chained(blocks, blocks.len() as int),
            chained(blocks, k).len() + 1,
        ) && chained(blocks, k + 1).len() == chained(blocks, k).len() + 1 + blocks[k].len(),
        k + 1 == blocks.len() ==> sits(
            blocks[k],
            chained(blocks, blocks.len() as int),
            chained(blocks, k).len(),
        ),
{
    let code = chained(blocks, blocks.len() as int);
    let before = chained(blocks, k);
    let with = chained(blocks, k + 1);
    lemma_chained_prefix(blocks, k + 1, blocks.len() as int);
    if k + 1 < blocks.len() {
        crate::lowering::lemma_transition_target(blocks, k);
        assert(code[before.len() as int] == code.take(with.len() as int)[before.len() as int]);
        assert forall|p: int| 0 <= p < blocks[k].len() implies code[p + (before.len() + 1)]
            == #[trigger] blocks[k][p] by {
            assert(code[p + before.len() + 1] == code.take(with.len() as int)[p + before.len()
                + 1]);
            assert(with.subrange((before.len() + 1) as int, with.len() as int)[p] == with[p
                + before.len() + 1]);
        }
    } else {
        assert(with == before + blocks[k]);
        assert forall|p: int| 0 <= p < blocks[k].len() implies code[p + before.len()]
            == #[trigger] blocks[k][p] by {}
    }
}

/// A block that is entered alone has what holds of a block.
pub proof fn lemma_alone_inv(a: State, block: Seq<CommandView>, m: Seq<CommandView>)
    requires
        block_of(block, m),
    ensures
        block_inv(alone(a, block), m, a.projections),
{
    let s = alone(a, block);
    assert(m.take(0) =~= Seq::<CommandView>::empty());
    assert(s.projections.take(a.projections.len() as int) =~= a.projections);
    if m.len() > 0 {
        assert(instr_ok(m, 0));
    }
}

/// The first sentence that matches wins: the instructions of a function
/// try its sentences one after the other, and each sentence is tried as if
/// it stood alone.
pub proof fn lemma_function_tries(
    defs: Defs,
    blocks: Seq<Seq<CommandView>>,
    ms: Seq<Seq<CommandView>>,
    k: int,
    a: State,
    fuel: nat,
)
    requires
        blocks_of(blocks, ms),
        0 <= k < blocks.len(),
    ensures
        verdict(
            attempt(
                defs,
                at(a, chained(blocks, blocks.len() as int), chained(blocks, k).len()),
                fuel,
            ),
        ) == verdict(try_sentences(defs, blocks, k, a, fuel)),
        attempt(
            defs,
            at(a, chained(blocks, blocks.len() as int), chained(blocks, k).len()),
            fuel,
        ) is NoMatch ==> attempt(
            defs,
            at(a, chained(blocks, blocks.len() as int), chained(blocks, k).len()),
            fuel,
        ) == try_sentences(defs, blocks, k, a, fuel),
    decreases blocks.len() - k,
{
    reveal(execute);
    let code = chained(blocks, blocks.len() as int);
    let here = chained(blocks, k).len();
    let block = blocks[k];
    let m = ms[k];
    let s = alone(a, block);
    lemma_chained_at(blocks, k);
    lemma_alone_inv(a, block, m);
    let none = Seq::<JumpView>::empty();
    if k + 1 == blocks.len() {
        assert(embed(s, code, here, none) == at(a, code, here)) by {
            assert(none + shift_jumps(s.jumps, here) =~= none);
        }
        lemma_attempt_placed(defs, s, m, a.projections, code, here, none, fuel);
    } else if fuel > 0 {
        let target = chained(blocks, k + 1).len();
        let entry = at(a, code, here);
        let jump = State { pc: here + 1, ..entry }.jump_to(target);
        let base = seq![jump];
        assert(step(defs, entry) == Ok::<State, FailureView>(embed(s, code, here + 1, base))) by {
            assert(base + shift_jumps(s.jumps, here + 1) =~= none.push(jump));
        }
        lemma_attempt_placed(defs, s, m, a.projections, code, here + 1, base, (fuel - 1) as nat);
        match attempt(defs, s, (fuel - 1) as nat) {
            Attempt::NoMatch(left) => {
                assert(landing(s, code, base, a.projections) == at(a, code, target)) by {
                    assert(base.drop_last() =~= none);
                    assert(a.projections.take(a.projections.len() as int) =~= a.projections);
                }
                lemma_function_tries(defs, blocks, ms, k + 1, a, left);
            },
            _ => {},
        }
    }
}

/// The sentences from `k` on are tried alike in two functions that have
/// the same sentences from `k` on.
pub proof fn lemma_try_same_tail(
    defs: Defs,
    blocks: Seq<Seq<CommandView>>,
    others: Seq<Seq<CommandView>>,
    k: int,
    a: State,
    fuel: nat,
)
    requires
        blocks.len() == others.len(),
        forall|i: int| k <= i < blocks.len() ==> blocks[i] == others[i],
        0 <= k,
    ensures
        try_sentences(defs, blocks, k, a, fuel) == try_sentences(defs, others, k, a, fuel),
    decreases blocks.len() - k,
{
    if k < blocks.len() && k + 1 != blocks.len() && fuel > 0 {
        match attempt(defs, alone(a, blocks[k]), (fuel - 1) as nat) {
            Attempt::NoMatch(left) => {
                lemma_try_same_tail(defs, blocks, others, k + 1, a, left);
            },
            _ => {},
        }
    }
}

/// More steps change nothing of a try of sentences that ended within the
/// steps it had.
pub proof fn lemma_try_more(
    defs: Defs,
    blocks: Seq<Seq<CommandView>>,
    k: int,
    a: State,
    fuel: nat,
    more: nat,
)
    requires
        !(try_sentences(defs, blocks, k, a, fuel) is Limit),
    ensures
        try_sentences(defs, blocks, k, a, fuel + more) == with_more(
            try_sentences(defs, blocks, k, a, fuel),
            more,
        ),
    decreases blocks.len() - k,
{
    if 0 <= k < blocks.len() {
        if k + 1 == blocks.len() {
            lemma_attempt_more(defs, alone(a, blocks[k]), fuel, more);
        } else if fuel > 0 {
            lemma_attempt_more(defs, alone(a, blocks[k]), (fuel - 1) as nat, more);
            match attempt(defs, alone(a, blocks[k]), (fuel - 1) as nat) {
                Attempt::NoMatch(left) => {
                    lemma_try_more(defs, blocks, k + 1, a, left, more);
                },
                _ => {},
            }
        }
    }
}

/// Two tries of the sentences from `k` on that both ended within their
/// steps came to the same.
pub proof fn lemma_try_one(
    defs: Defs,
    blocks: Seq<Seq<CommandView>>,
    k: int,
    a: State,
    f: nat,
    g: nat,
)
    requires
        !(try_sentences(defs, blocks, k, a, f) is Limit),
        !(try_sentences(defs, blocks, k, a, g) is Limit),
    ensures
        verdict(try_sentences(defs, blocks, k, a, f)) == verdict(
            try_sentences(defs, blocks, k, a, g),
        ),
{
    if f <= g {
        lemma_try_more(defs, blocks, k, a, f, (g - f) as nat);
    } else {
        lemma_try_more(defs, blocks, k, a, g, (f - g) as nat);
    }
}

/// The order of the sentences: where at least one of the first two
/// sentences of a function does not match the argument, the function whose
/// first two sentences are swapped does to the argument what the function
/// does. The two are tried from one state `a`, each for its own number of
/// steps, and both tries end within their steps.
pub proof fn lemma_swap_first_two(
    defs: Defs,
    first: Seq<CommandView>,
    second: Seq<CommandView>,
    rest: Seq<Seq<CommandView>>,
    m_first: Seq<CommandView>,
    m_second: Seq<CommandView>,
    m_rest: Seq<Seq<CommandView>>,
    a: State,
    f: nat,
    g: nat,
    w: nat,
)
    requires
        block_of(first, m_first),
        block_of(second, m_second),
        blocks_of(rest, m_rest),
        attempt(defs, alone(a, first), w) is NoMatch || attempt(defs, alone(a, second), w) is NoMatch,
        !(attempt(defs, at(a, crate::lowering::flatten(seq![first, second] + rest), 0), f) is Limit),
        !(attempt(defs, at(a, crate::lowering::flatten(seq![second, first] + rest), 0), g) is Limit),
    ensures
        verdict(attempt(defs, at(a, crate::lowering::flatten(seq![first, second] + rest), 0), f))
            == verdict(
            attempt(defs, at(a, crate::lowering::flatten(seq![second, first] + rest), 0), g),
        ),
{
    let blocks = seq![first, second] + rest;
    let swapped = seq![second, first] + rest;
    let ms = seq![m_first, m_second] + m_rest;
    let ms_swapped = seq![m_second, m_first] + m_rest;
    assert(blocks_of(blocks, ms)) by {
        assert forall|k: int| 0 <= k < blocks.len() implies block_of(#[trigger] blocks[k], ms[k]) by {
            if k >= 2 {
                assert(blocks[k] == rest[k - 2]);
                assert(ms[k] == m_rest[k - 2]);
            }
        }
    }
    assert(blocks_of(swapped, ms_swapped)) by {
        assert forall|k: int| 0 <= k < swapped.len() implies block_of(
            #[trigger] swapped[k],
            ms_swapped[k],
        ) by {
            if k >= 2 {
                assert(swapped[k] == rest[k - 2]);
                assert(ms_swapped[k] == m_rest[k - 2]);
            }
        }
    }
    lemma_function_tries(defs, blocks, ms, 0, a, f);
    lemma_function_tries(defs, swapped, ms_swapped, 0, a, g);
    let t = try_sentences(defs, blocks, 0, a, f);
    let u = try_sentences(defs, swapped, 0, a, g);
    let a1 = attempt(defs, alone(a, first), (f - 1) as nat);
    let b2 = attempt(defs, alone(a, second), (g - 1) as nat);
    assert(blocks[0] == first && blocks[1] == second && swapped[0] == second && swapped[1]
        == first);
    assert forall|i: int| 2 <= i < blocks.len() implies blocks[i] == swapped[i] by {}
    lemma_swap_cases(defs, blocks, swapped, a, f, g, w);
}

/// The cases of [`lemma_swap_first_two`], over the tries of the sentences.
pub proof fn lemma_swap_cases(
    defs: Defs,
    blocks: Seq<Seq<CommandView>>,
    swapped: Seq<Seq<CommandView>>,
    a: State,
    f: nat,
    g: nat,
    w: nat,
)
    requires
        blocks.len() == swapped.len(),
        blocks.len() >= 2,
        blocks[0] == swapped[1],
        blocks[1] == swapped[0],
        forall|i: int| 2 <= i < blocks.len() ==> blocks[i] == swapped[i],
        attempt(defs, alone(a, blocks[0]), w) is NoMatch || attempt(defs, alone(a, blocks[1]), w) is NoMatch,
        !(try_sentences(defs, blocks, 0, a, f) is Limit),
        !(try_sentences(defs, swapped, 0, a, g) is Limit),
    ensures
        verdict(try_sentences(defs, blocks, 0, a, f)) == verdict(
            try_sentences(defs, swapped, 0, a, g),
        ),
{
    reveal_with_fuel(try_sentences, 3);
    let first = alone(a, blocks[0]);
    let second = alone(a, blocks[1]);
    let last = blocks.len() == 2;
    // The function proper: the first sentence, then the second.
    let a1 = attempt(defs, first, (f - 1) as nat);
    // The function with the two swapped: the second sentence, then the first.
    let b2 = attempt(defs, second, (g - 1) as nat);
    if attempt(defs, first, w) is NoMatch {
        lemma_attempt_one(defs, first, w, (f - 1) as nat);
        let l1 = a1->NoMatch_0;
        let a2 = if last {
            attempt(defs, second, l1)
        } else {
            attempt(defs, second, (l1 - 1) as nat)
        };
        assert(!(a2 is Limit));
        lemma_attempt_one(defs, second, (g - 1) as nat, if last { l1 } else { (l1 - 1) as nat });
        if b2 is NoMatch {
            let m2 = b2->NoMatch_0;
            let b1 = if last {
                attempt(defs, first, m2)
            } else {
                attempt(defs, first, (m2 - 1) as nat)
            };
            assert(!(b1 is Limit));
            lemma_attempt_one(defs, first, w, if last { m2 } else { (m2 - 1) as nat });
            if !last {
                let l2 = a2->NoMatch_0;
                let m1 = b1->NoMatch_0;
                lemma_try_same_tail(defs, blocks, swapped, 2, a, l2);
                lemma_try_one(defs, swapped, 2, a, l2, m1);
            }
        }
    } else {
        lemma_attempt_one(defs, second, w, (g - 1) as nat);
        let m2 = b2->NoMatch_0;
        let b1 = if last {
            attempt(defs, first, m2)
        } else {
            attempt(defs, first, (m2 - 1) as nat)
        };
        assert(!(b1 is Limit));
        lemma_attempt_one(defs, first, (f - 1) as nat, if last { m2 } else { (m2 - 1) as nat });
        if a1 is NoMatch {
            let l1 = a1->NoMatch_0;
            let a2 = if last {
                attempt(defs, second, l1)
            } else {
                attempt(defs, second, (l1 - 1) as nat)
            };
            assert(!(a2 is Limit));
            lemma_attempt_one(defs, second, w, if last { l1 } else { (l1 - 1) as nat });
            if !last {
                let l2 = a2->NoMatch_0;
                let m1 = b1->NoMatch_0;
                lemma_try_same_tail(defs, blocks, swapped, 2, a, l2);
                lemma_try_one(defs, swapped, 2, a, l2, m1);
            }
        }
    }
}

/// The matching instructions with one more that neither pushes nor gives
/// up choice points are in order, and as many choice points are open.
pub proof fn lemma_push_plain(m: Seq<CommandView>, c: CommandView)
    requires
        match_ok(m),
        plain_match(c),
    ensures
        match_ok(m.push(c)),
        depth(m.push(c)) == depth(m),
{
    let more = m.push(c);
    assert(more.drop_last() =~= m);
    assert forall|p: int| 0 <= p < more.len() implies instr_ok(more, p) by {
        if p < m.len() {
            assert(instr_ok(m, p));
            assert(more.take(p) =~= m.take(p));
        }
    }
}

/// The matching instructions with the lengthening of a variable behind
/// them are in order, and one choice point more is open.
pub proof fn lemma_push_lengthen(m: Seq<CommandView>)
    requires
        match_ok(m),
    ensures
        match_ok(m.push(CommandView::MatchEVarPrepare).push(CommandView::MatchEVarLengthen)),
        depth(m.push(CommandView::MatchEVarPrepare).push(CommandView::MatchEVarLengthen)) == depth(
            m,
        ) + 1,
{
    let one = m.push(CommandView::MatchEVarPrepare);
    let more = one.push(CommandView::MatchEVarLengthen);
    assert(more.drop_last() =~= one);
    assert(one.drop_last() =~= m);
    assert(depth(one) == depth(m));
    assert(depth(more) == depth(one) + 1);
    assert forall|p: int| 0 <= p < more.len() implies instr_ok(more, p) by {
        if p < m.len() {
            assert(instr_ok(m, p));
            assert(more.take(p) =~= m.take(p));
        }
    }
}

/// The matching instructions with a constraint that gives up no more
/// choice points than are open are in order, and so many fewer are open.
pub proof fn lemma_push_constrain(m: Seq<CommandView>, n: nat)
    requires
        match_ok(m),
        n <= depth(m),
    ensures
        match_ok(m.push(CommandView::ConstrainLengthen(n))),
        depth(m.push(CommandView::ConstrainLengthen(n))) == depth(m) - n,
{
    let more = m.push(CommandView::ConstrainLengthen(n));
    assert(more.drop_last() =~= m);
    assert forall|p: int| 0 <= p < more.len() implies instr_ok(more, p) by {
        if p < m.len() {
            assert(instr_ok(m, p));
            assert(more.take(p) =~= m.take(p));
        } else {
            assert(more.take(p) =~= m);
        }
    }
}

/// The commands of a state of the pattern compiler are in order, and as
/// many choice points are open behind them as the state counts.
pub open spec fn code_ok(s: PatternState) -> bool {
    match_ok(s.commands) && depth(s.commands) == s.transition_depth
}

/// Moving the borders keeps the commands in order.
pub proof fn lemma_move_borders_code(s: PatternState, index: int)
    requires
        code_ok(s),
    ensures
        code_ok(pattern::match_move_borders(s, index)),
        pattern::match_move_borders(s, index).transition_depth == s.transition_depth,
{
    if 0 <= index < s.holes.len() {
        let hole = s.holes[index];
        let t = if hole.border_l != s.border_l {
            lemma_push_plain(s.commands, CommandView::MatchMoveBorderL(hole.border_l));
            PatternState {
                border_l: hole.border_l,
                ..s.emit(CommandView::MatchMoveBorderL(hole.border_l))
            }
        } else {
            s
        };
        if hole.border_r != t.border_r {
            lemma_push_plain(t.commands, CommandView::MatchMoveBorderR(hole.border_r));
        }
    }
}

/// The rules for a hole keep the commands in order.
pub proof fn lemma_match_rules_code(t: PatternState, index: int)
    requires
        code_ok(t),
    ensures
        code_ok(pattern::match_rules(t, index)),
{
    let r = pattern::match_rules(t, index);
    if r != t {
        let c = r.commands[r.commands.len() - 1];
        assert(r.commands == t.commands.push(c) && plain_match(c) && r.transition_depth
            == t.transition_depth);
        lemma_push_plain(t.commands, c);
    }
}

/// The lengthening of a variable keeps the commands in order.
pub proof fn lemma_handle_holes_code(s: PatternState)
    requires
        code_ok(s),
    ensures
        code_ok(pattern::handle_holes(s)),
{
    let p = pattern::put_off(s);
    assert(p.commands == s.commands && p.transition_depth == s.transition_depth);
    let t = pattern::lengthen_first(p);
    if t != p {
        let moved = pattern::match_move_borders(p, 0);
        lemma_move_borders_code(p, 0);
        lemma_push_lengthen(moved.commands);
    }
}

/// Taking up a class keeps the commands in order.
pub proof fn lemma_constrain_code(s: PatternState)
    requires
        code_ok(s),
        s.wf(),
    ensures
        code_ok(pattern::constrain_lengthen(s)),
{
    if s.holes_stack.len() > 0 && s.transition_depth_stack.len() > 0 {
        let kept = s.transition_depth_stack[s.transition_depth_stack.len() - 1];
        lemma_push_constrain(s.commands, (s.transition_depth - kept) as nat);
    }
}

/// A step of the pattern compiler keeps the commands in order.
pub proof fn lemma_step_code(s: PatternState)
    requires
        code_ok(s),
        s.wf(),
    ensures
        code_ok(pattern::step(s)),
{
    match pattern::find_hole(s) {
        Some(index) => {
            lemma_move_borders_code(s, index);
            lemma_match_rules_code(pattern::match_move_borders(s, index), index);
        },
        None => {
            if s.holes.len() > 0 {
                lemma_handle_holes_code(s);
            } else {
                lemma_constrain_code(s);
            }
        },
    }
}

/// A compilation keeps the commands in order.
pub proof fn lemma_run_code(s: PatternState)
    requires
        code_ok(s),
        s.wf(),
    ensures
        code_ok(pattern::run(s)),
    decreases pattern::total(s), s.holes_stack.len(),
{
    if !pattern::done(s) {
        crate::pattern_laws::lemma_step(s);
        lemma_step_code(s);
        lemma_run_code(pattern::step(s));
    }
}

/// The instructions from `pc` on finalize where a later one does.
pub proof fn lemma_finalizes(commands: Seq<CommandView>, pc: int, at: int)
    requires
        0 <= pc <= at < commands.len(),
        commands[at] is RewriteFinalize,
    ensures
        finalizes(commands, pc),
    decreases at - pc,
{
    if pc < at {
        lemma_finalizes(commands, pc + 1, at);
    }
}

/// The instructions of a sentence are a block: the matching of the
/// pattern, in order, and then the construction of the rewrite from its
/// start to the end of the step.
pub proof fn lemma_sentence_block(module: Seq<char>, sentence: SentenceView)
    requires
        sentence_ok(sentence),
    ensures
        block_of(
            compile_sentence(module, sentence),
            pattern::compile_pattern(sentence.pattern).commands,
        ),
{
    let start = pattern::initial(sentence.pattern);
    crate::pattern_laws::lemma_initial(sentence.pattern);
    assert(match_ok(start.commands));
    assert(depth(start.commands) == 0);
    lemma_run_code(start);
    let matched = pattern::compile_pattern(sentence.pattern);
    let m = matched.commands;
    let rewrite = compile_rewrite(module, sentence.rewrite, matched.projected_vars);
    let block = compile_sentence(module, sentence);
    assert(block == m + rewrite);
    assert(block.take(m.len() as int) =~= m);
    assert(block[m.len() as int] == rewrite[0]);
    let end = m.len() + 1 + sentence.rewrite.len();
    assert(block[end as int] == rewrite[(1 + sentence.rewrite.len()) as int]);
    assert(block[(end + 1) as int] == rewrite[(2 + sentence.rewrite.len()) as int]);
    lemma_finalizes(block, (m.len() + 1) as int, end as int);
    assert forall|p: int| m.len() < p < block.len() - 2 implies !(
    #[trigger] block[p] is RewriteFinalize) by {
        let k = p - m.len() - 1;
        assert(block[p] == rewrite[p - m.len()]);
        assert(rewrite[k + 1] == crate::lowering::rewrite_command(
            module,
            sentence.rewrite,
            matched.projected_vars,
            k,
        ));
    }
}

/// The order of the sentences of a function that is compiled: where at
/// least one of the first two sentences does not match the argument, the
/// function whose first two sentences are swapped does to the argument
/// what the function does. Both functions are tried from the state `a` of
/// one activation, and both tries end within their steps.
pub proof fn lemma_sentence_order(
    defs: Defs,
    module: Seq<char>,
    name: Seq<char>,
    first: SentenceView,
    second: SentenceView,
    rest: Seq<SentenceView>,
    a: State,
    f: nat,
    g: nat,
    w: nat,
)
    requires
        sentence_ok(first),
        sentence_ok(second),
        forall|k: int| 0 <= k < rest.len() ==> sentence_ok(#[trigger] rest[k]),
        attempt(defs, alone(a, compile_sentence(module, first)), w) is NoMatch || attempt(
            defs,
            alone(a, compile_sentence(module, second)),
            w,
        ) is NoMatch,
        !(attempt(
            defs,
            at(
                a,
                compile_function(module, FunctionView { name, sentences: seq![first, second] + rest }),
                0,
            ),
            f,
        ) is Limit),
        !(attempt(
            defs,
            at(
                a,
                compile_function(module, FunctionView { name, sentences: seq![second, first] + rest }),
                0,
            ),
            g,
        ) is Limit),
    ensures
        verdict(
            attempt(
                defs,
                at(
                    a,
                    compile_function(
                        module,
                        FunctionView { name, sentences: seq![first, second] + rest },
                    ),
                    0,
                ),
                f,
            ),
        ) == verdict(
            attempt(
                defs,
                at(
                    a,
                    compile_function(
                        module,
                        FunctionView { name, sentences: seq![second, first] + rest },
                    ),
                    0,
                ),
                g,
            ),
        ),
{
    let b1 = compile_sentence(module, first);
    let b2 = compile_sentence(module, second);
    let tail = sentence_commands(module, rest);
    let m1 = pattern::compile_pattern(first.pattern).commands;
    let m2 = pattern::compile_pattern(second.pattern).commands;
    let m_tail = Seq::new(rest.len(), |k: int| pattern::compile_pattern(rest[k].pattern).commands);
    lemma_sentence_block(module, first);
    lemma_sentence_block(module, second);
    assert forall|k: int| 0 <= k < tail.len() implies block_of(#[trigger] tail[k], m_tail[k]) by {
        lemma_sentence_block(module, rest[k]);
    }
    assert(sentence_commands(module, seq![first, second] + rest) =~= seq![b1, b2] + tail);
    assert(sentence_commands(module, seq![second, first] + rest) =~= seq![b2, b1] + tail);
    lemma_swap_first_two(defs, b1, b2, tail, m1, m2, m_tail, a, f, g, w);
}

/// The first sentence that matches wins: where the first sentence of a
/// function that is compiled matches the argument, the function makes the
/// rewrite of that sentence, whatever the sentences behind it are.
pub proof fn lemma_first_sentence_wins(
    defs: Defs,
    module: Seq<char>,
    name: Seq<char>,
    first: SentenceView,
    rest: Seq<SentenceView>,
    a: State,
    f: nat,
    w: nat,
)
    requires
        sentence_ok(first),
        forall|k: int| 0 <= k < rest.len() ==> sentence_ok(#[trigger] rest[k]),
        attempt(defs, alone(a, compile_sentence(module, first)), w) is Rewritten,
        !(attempt(
            defs,
            at(a, compile_function(module, FunctionView { name, sentences: seq![first] + rest }), 0),
            f,
        ) is Limit),
    ensures
        verdict(
            attempt(
                defs,
                at(
                    a,
                    compile_function(module, FunctionView { name, sentences: seq![first] + rest }),
                    0,
                ),
                f,
            ),
        ) == verdict(attempt(defs, alone(a, compile_sentence(module, first)), w)),
{
    reveal_with_fuel(try_sentences, 2);
    let block = compile_sentence(module, first);
    let tail = sentence_commands(module, rest);
    let blocks = seq![block] + tail;
    let ms = seq![pattern::compile_pattern(first.pattern).commands] + Seq::new(
        rest.len(),
        |k: int| pattern::compile_pattern(rest[k].pattern).commands,
    );
    lemma_sentence_block(module, first);
    assert forall|k: int| 0 <= k < blocks.len() implies block_of(#[trigger] blocks[k], ms[k]) by {
        if k > 0 {
            lemma_sentence_block(module, rest[k - 1]);
            assert(blocks[k] == tail[k - 1]);
        }
    }
    assert(sentence_commands(module, seq![first] + rest) =~= blocks);
    lemma_function_tries(defs, blocks, ms, 0, a, f);
    assert(blocks[0] == block);
    if blocks.len() == 1 {
        lemma_attempt_one(defs, alone(a, block), w, f);
    } else {
        lemma_attempt_one(defs, alone(a, block), w, (f - 1) as nat);
    }
}

} // verus!
