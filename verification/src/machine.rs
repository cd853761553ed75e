//! The abstract machine as a transition function on mathematical states.
//!
//! A state holds the view field, the instruction list of the active
//! function, the program counter, the two borders of the window, the
//! projections, the stack of choice points and the stack of pending
//! activations. Every instruction is a function from state to outcome; the
//! interpreter in `vm` is proved to compute exactly these functions.

use crate::data::CommandView;
use crate::runtime::{brackets_paired, link_spec, pair_spec, unlink_next_spec, unlink_prev_spec};
use crate::runtime::{lemma_link_well_formed, lemma_pair_well_formed, lemma_push_well_formed};
use crate::runtime::well_formed;
use crate::runtime::{ChainView, NodeView, ObjectView};
use vstd::prelude::*;

verus! {

/// Why an evaluation stopped without a result.
pub enum FailureView {
    /// No sentence of the active function matches its argument.
    RecognitionImpossible,
    /// A call names a function that the program does not define.
    UndefinedFunction(Seq<char>),
    /// The instructions do not fit the state they run in.
    IllegalState,
    /// The bound on the number of steps was reached.
    StepLimit,
}

/// A choice point: what a failure restores.
pub struct JumpView {
    pub border_l: usize,
    pub border_r: usize,
    pub projection_index: nat,
    pub command_index: nat,
}

/// The state of the machine.
pub struct State {
    pub chain: ChainView,
    pub commands: Seq<CommandView>,
    pub pc: nat,
    pub projections: Seq<usize>,
    pub jumps: Seq<JumpView>,
    pub border_l: usize,
    pub border_r: usize,
    pub dots: Seq<usize>,
    pub end: bool,
}

/// What an instruction leaves: the next state, or the failure that ends the
/// evaluation.
pub type Outcome = Result<State, FailureView>;

/// A program: the instruction list of each function, by its qualified name.
pub type Defs = Map<Seq<char>, Seq<CommandView>>;

impl State {
    /// The node in slot `id`.
    pub open spec fn node(self, id: usize) -> NodeView {
        self.chain.nodes[id as int]
    }

    /// The object of the node in slot `id`.
    pub open spec fn object(self, id: usize) -> ObjectView {
        self.chain.nodes[id as int].object
    }

    /// The state with `id` as one more projection.
    pub open spec fn push(self, id: usize) -> State {
        State { projections: self.projections.push(id), ..self }
    }

    /// The state with `nodes` as its arena.
    pub open spec fn with_nodes(self, nodes: Seq<NodeView>) -> State {
        State { chain: ChainView { nodes, ..self.chain }, ..self }
    }

    /// The choice point that a failure now would come back to at `target`.
    pub open spec fn jump_to(self, target: nat) -> JumpView {
        JumpView {
            border_l: self.border_l,
            border_r: self.border_r,
            projection_index: self.projections.len(),
            command_index: target,
        }
    }
}

impl State {
    /// The machine invariant: the arena is well formed, every bracket has
    /// its mate, and every node that the machine holds is a slot of the arena.
    pub open spec fn wf(self) -> bool {
        &&& self.chain.wf()
        &&& brackets_paired(self.chain.nodes, Set::empty())
        &&& self.border_l < self.chain.nodes.len()
        &&& self.border_r < self.chain.nodes.len()
        &&& forall|i: int|
            0 <= i < self.projections.len() ==> #[trigger] self.projections[i]
                < self.chain.nodes.len()
        &&& forall|i: int| 0 <= i < self.dots.len() ==> #[trigger] self.dots[i] < self.chain.nodes.len()
        &&& forall|i: int|
            0 <= i < self.jumps.len() ==> (#[trigger] self.jumps[i]).border_l
                < self.chain.nodes.len() && self.jumps[i].border_r < self.chain.nodes.len()
    }
}

/// Backtracking: the newest choice point is taken off the stack and its
/// borders, projection count and program counter are restored.
pub open spec fn fail(s: State) -> Outcome {
    if s.jumps.len() == 0 {
        Err(FailureView::RecognitionImpossible)
    } else {
        let jump = s.jumps.last();
        Ok(
            State {
                border_l: jump.border_l,
                border_r: jump.border_r,
                projections: if jump.projection_index <= s.projections.len() {
                    s.projections.take(jump.projection_index as int)
                } else {
                    s.projections
                },
                pc: jump.command_index,
                jumps: s.jumps.drop_last(),
                ..s
            },
        )
    }
}

/// The left border moves one node inward; where it meets the right border
/// the window was empty and the machine backtracks. `then` continues a
/// successful move.
pub open spec fn shift_left(s: State, then: spec_fn(State) -> Outcome) -> Outcome {
    match s.node(s.border_l).next {
        None => Err(FailureView::IllegalState),
        Some(n) => {
            let t = State { border_l: n, ..s };
            if n == s.border_r {
                fail(t)
            } else {
                then(t)
            }
        },
    }
}

/// The right border moves one node inward, as the left one does in
/// [`shift_left`].
pub open spec fn shift_right(s: State, then: spec_fn(State) -> Outcome) -> Outcome {
    match s.node(s.border_r).prev {
        None => Err(FailureView::IllegalState),
        Some(p) => {
            let t = State { border_r: p, ..s };
            if s.border_l == p {
                fail(t)
            } else {
                then(t)
            }
        },
    }
}

/// The window must be empty; the machine backtracks where it is not.
pub open spec fn match_empty(s: State) -> Outcome {
    match s.node(s.border_l).next {
        None => Err(FailureView::IllegalState),
        Some(n) => if n == s.border_r {
            Ok(s)
        } else {
            fail(s)
        },
    }
}

/// The left border moves onto a node that must hold the symbol `symbol`;
/// the node is projected.
pub open spec fn match_symbol_l(s: State, symbol: Seq<char>) -> Outcome {
    shift_left(
        s,
        |t: State|
            if t.object(t.border_l) == ObjectView::Symbol(symbol) {
                Ok(t.push(t.border_l))
            } else {
                fail(t)
            },
    )
}

/// The right border moves onto a node that must hold the symbol `symbol`;
/// the node is projected.
pub open spec fn match_symbol_r(s: State, symbol: Seq<char>) -> Outcome {
    shift_right(
        s,
        |t: State|
            if t.object(t.border_r) == ObjectView::Symbol(symbol) {
                Ok(t.push(t.border_r))
            } else {
                fail(t)
            },
    )
}

/// The left border moves onto a node that must be a structural left
/// bracket. The bracket and its mate are projected, and the mate becomes the
/// right border, so that the inside of the bracket is matched next.
pub open spec fn match_str_bracket_l(s: State) -> Outcome {
    shift_left(
        s,
        |t: State|
            if t.object(t.border_l) is StrBracketL {
                match t.node(t.border_l).twin {
                    None => Err(FailureView::IllegalState),
                    Some(mate) => Ok(State { border_r: mate, ..t.push(t.border_l).push(mate) }),
                }
            } else {
                fail(t)
            },
    )
}

/// The right border moves onto a node that must be a structural right
/// bracket. Its mate and the bracket are projected, and the mate becomes the
/// right border, so that what comes before the bracket is matched next.
pub open spec fn match_str_bracket_r(s: State) -> Outcome {
    shift_right(
        s,
        |t: State|
            if t.object(t.border_r) is StrBracketR {
                match t.node(t.border_r).twin {
                    None => Err(FailureView::IllegalState),
                    Some(mate) => Ok(State { border_r: mate, ..t.push(mate).push(t.border_r) }),
                }
            } else {
                fail(t)
            },
    )
}

/// The left border moves onto a node that must hold a symbol; the node is
/// projected as the value of a symbol variable.
pub open spec fn match_s_var_l(s: State) -> Outcome {
    shift_left(
        s,
        |t: State|
            if t.object(t.border_l) is Symbol {
                Ok(t.push(t.border_l))
            } else {
                fail(t)
            },
    )
}

/// The right border moves onto a node that must hold a symbol; the node is
/// projected as the value of a symbol variable.
pub open spec fn match_s_var_r(s: State) -> Outcome {
    shift_right(
        s,
        |t: State|
            if t.object(t.border_r) is Symbol {
                Ok(t.push(t.border_r))
            } else {
                fail(t)
            },
    )
}

/// The left border moves onto a node that must hold the object of the
/// projection `n`: a symbol variable is met again.
pub open spec fn match_s_var_l_proj(s: State, n: nat) -> Outcome {
    shift_left(
        s,
        |t: State|
            if n >= t.projections.len() {
                Err(FailureView::IllegalState)
            } else if t.object(t.border_l) == t.object(t.projections[n as int]) {
                Ok(t.push(t.border_l))
            } else {
                fail(t)
            },
    )
}

/// The right border moves onto a node that must hold the object of the
/// projection `n`: a symbol variable is met again.
pub open spec fn match_s_var_r_proj(s: State, n: nat) -> Outcome {
    shift_right(
        s,
        |t: State|
            if n >= t.projections.len() {
                Err(FailureView::IllegalState)
            } else if t.object(t.border_r) == t.object(t.projections[n as int]) {
                Ok(t.push(t.border_r))
            } else {
                fail(t)
            },
    )
}

/// The left border moves over one term: a symbol, or a bracket with all
/// that is inside. The start and the end of the term are projected.
pub open spec fn match_t_var_l(s: State) -> Outcome {
    shift_left(
        s,
        |t: State|
            if t.object(t.border_l) is StrBracketL {
                match t.node(t.border_l).twin {
                    None => Err(FailureView::IllegalState),
                    Some(mate) => Ok(State { border_l: mate, ..t.push(t.border_l).push(mate) }),
                }
            } else {
                Ok(t.push(t.border_l).push(t.border_l))
            },
    )
}

/// The right border moves over one term, as the left one does in
/// [`match_t_var_l`].
pub open spec fn match_t_var_r(s: State) -> Outcome {
    shift_right(
        s,
        |t: State|
            if t.object(t.border_r) is StrBracketR {
                match t.node(t.border_r).twin {
                    None => Err(FailureView::IllegalState),
                    Some(mate) => Ok(State { border_r: mate, ..t.push(mate).push(t.border_r) }),
                }
            } else {
                Ok(t.push(t.border_r).push(t.border_r))
            },
    )
}

/// The whole window becomes the value of an expression variable.
pub open spec fn match_e_var(s: State) -> Outcome {
    match (s.node(s.border_l).next, s.node(s.border_r).prev) {
        (Some(start), Some(end)) => Ok(s.push(start).push(end)),
        _ => Err(FailureView::IllegalState),
    }
}

/// The walk of a repeated expression variable from the left: `cursor`
/// runs over the projected value up to `last`, the left border follows it
/// node by node, and the objects met must be equal.
pub open spec fn e_var_l_walk(s: State, cursor: usize, last: usize, start: usize, budget: nat)
    -> Outcome
    decreases budget,
{
    if cursor == last {
        Ok(s.push(start).push(s.border_l))
    } else if budget == 0 {
        Err(FailureView::IllegalState)
    } else {
        match s.node(cursor).next {
            None => Err(FailureView::IllegalState),
            Some(c) => shift_left(
                s,
                |t: State|
                    if t.object(c) == t.object(t.border_l) {
                        e_var_l_walk(t, c, last, start, (budget - 1) as nat)
                    } else {
                        fail(t)
                    },
            ),
        }
    }
}

/// An expression variable is met again at the left end: the window must
/// start with a copy, node for node, of the value between the projections
/// `n - 1` and `n`.
pub open spec fn match_e_var_l_proj(s: State, n: nat) -> Outcome {
    if n == 0 || n >= s.projections.len() {
        Err(FailureView::IllegalState)
    } else {
        let first = s.projections[n - 1];
        let last = s.projections[n as int];
        match (s.node(s.border_l).next, s.node(first).prev) {
            (Some(start), Some(cursor)) => e_var_l_walk(
                s,
                cursor,
                last,
                start,
                s.chain.nodes.len(),
            ),
            _ => Err(FailureView::IllegalState),
        }
    }
}

/// The walk of a repeated expression variable from the right, the mirror
/// image of [`e_var_l_walk`].
pub open spec fn e_var_r_walk(s: State, cursor: usize, first: usize, end: usize, budget: nat)
    -> Outcome
    decreases budget,
{
    if cursor == first {
        Ok(s.push(s.border_r).push(end))
    } else if budget == 0 {
        Err(FailureView::IllegalState)
    } else {
        match s.node(cursor).prev {
            None => Err(FailureView::IllegalState),
            Some(c) => shift_right(
                s,
                |t: State|
                    if t.object(c) == t.object(t.border_r) {
                        e_var_r_walk(t, c, first, end, (budget - 1) as nat)
                    } else {
                        fail(t)
                    },
            ),
        }
    }
}

/// An expression variable is met again at the right end: the window must
/// end with a copy, node for node, of the value between the projections
/// `n - 1` and `n`.
pub open spec fn match_e_var_r_proj(s: State, n: nat) -> Outcome {
    if n == 0 || n >= s.projections.len() {
        Err(FailureView::IllegalState)
    } else {
        let first = s.projections[n - 1];
        let last = s.projections[n as int];
        match (s.node(s.border_r).prev, s.node(last).next) {
            (Some(end), Some(cursor)) => e_var_r_walk(s, cursor, first, end, s.chain.nodes.len()),
            _ => Err(FailureView::IllegalState),
        }
    }
}

/// The left border becomes the node of the projection `n`.
pub open spec fn match_move_border_l(s: State, n: nat) -> Outcome {
    if n >= s.projections.len() {
        Err(FailureView::IllegalState)
    } else {
        Ok(State { border_l: s.projections[n as int], ..s })
    }
}

/// The right border becomes the node of the projection `n`.
pub open spec fn match_move_border_r(s: State, n: nat) -> Outcome {
    if n >= s.projections.len() {
        Err(FailureView::IllegalState)
    } else {
        Ok(State { border_r: s.projections[n as int], ..s })
    }
}

/// An open expression variable starts out empty. The choice point that is
/// pushed leads to the lengthening instruction, which is stepped over now.
pub open spec fn prepare_lengthen(s: State) -> Outcome {
    match s.node(s.border_l).next {
        None => Err(FailureView::IllegalState),
        Some(start) => if s.pc >= s.commands.len() {
            Err(FailureView::IllegalState)
        } else {
            let t = s.push(start).push(s.border_l);
            Ok(State { jumps: t.jumps.push(t.jump_to(t.pc)), pc: t.pc + 1, ..t })
        },
    }
}

/// The open expression variable grows by one term, and the instruction
/// pushes itself as the choice point for the next, longer try.
pub open spec fn lengthen(s: State) -> Outcome {
    if s.projections.len() == 0 || s.pc == 0 {
        Err(FailureView::IllegalState)
    } else {
        let popped = State {
            border_l: s.projections.last(),
            projections: s.projections.drop_last(),
            ..s
        };
        shift_left(
            popped,
            |t: State|
                if t.object(t.border_l) is StrBracketL {
                    match t.node(t.border_l).twin {
                        None => Err(FailureView::IllegalState),
                        Some(mate) => {
                            let u = State { border_l: mate, ..t }.push(mate);
                            Ok(State { jumps: u.jumps.push(u.jump_to((u.pc - 1) as nat)), ..u })
                        },
                    }
                } else {
                    let u = t.push(t.border_l);
                    Ok(State { jumps: u.jumps.push(u.jump_to((u.pc - 1) as nat)), ..u })
                },
        )
    }
}

/// A choice point is pushed that leads to `target`, the start of the next
/// sentence.
pub open spec fn setup_transition(s: State, target: nat) -> Outcome {
    Ok(State { jumps: s.jumps.push(s.jump_to(target)), ..s })
}

/// The newest `n` choice points are given up.
pub open spec fn constrain_lengthen(s: State, n: nat) -> Outcome {
    Ok(
        State {
            jumps: if n >= s.jumps.len() {
                Seq::empty()
            } else {
                s.jumps.take(s.jumps.len() - n)
            },
            ..s
        },
    )
}

/// A deferred move of the nodes from `start` to `end` to behind `border`.
pub struct Transplant {
    pub border: usize,
    pub start: usize,
    pub end: usize,
}

/// The state of the construction phase of one step.
pub struct Build {
    /// The arena.
    pub nodes: Seq<NodeView>,
    /// The node behind which the next node is spliced in.
    pub border: usize,
    /// The call brackets closed in this step, in the order of their making.
    pub local_dots: Seq<usize>,
    /// The structural left brackets that wait for their mate.
    pub l_brackets: Seq<usize>,
    /// The call left brackets that wait for their mate.
    pub l_fun_brackets: Seq<usize>,
    pub transplants: Seq<Transplant>,
}

/// A node with `object` that is linked to nothing.
pub open spec fn fresh(object: ObjectView) -> NodeView {
    NodeView { object, prev: None, next: None, twin: None }
}

/// The arena after a new node with `object` was spliced in behind
/// `border`; `None` where `border` has no successor.
pub open spec fn splice(nodes: Seq<NodeView>, border: usize, object: ObjectView) -> Option<
    Seq<NodeView>,
> {
    match nodes[border as int].next {
        None => None,
        Some(next) => {
            let id = nodes.len() as usize;
            Some(link_spec(link_spec(nodes.push(fresh(object)), border, id), id, next))
        },
    }
}

/// The arena after a new node with `object` was hung behind `border`,
/// with no successor yet.
pub open spec fn hang(nodes: Seq<NodeView>, border: usize, object: ObjectView) -> Seq<NodeView> {
    link_spec(nodes.push(fresh(object)), border, nodes.len() as usize)
}

/// A new node with `object` is spliced in behind the border and becomes
/// the border.
pub open spec fn insert(b: Build, object: ObjectView) -> Result<Build, FailureView> {
    match splice(b.nodes, b.border, object) {
        None => Err(FailureView::IllegalState),
        Some(nodes) => Ok(Build { border: b.nodes.len() as usize, nodes, ..b }),
    }
}

/// A new node with `object` is hung behind the border and becomes the
/// border.
pub open spec fn attach(b: Build, object: ObjectView) -> Build {
    Build { border: b.nodes.len() as usize, nodes: hang(b.nodes, b.border, object), ..b }
}

/// The copy of the nodes behind `cursor` up to `last`, hung node by node
/// behind the border. Structural brackets are paired anew; a call bracket
/// or a sentinel cannot be part of a value.
pub open spec fn copy_walk(b: Build, cursor: usize, last: usize, budget: nat) -> Result<
    Build,
    FailureView,
>
    decreases budget,
{
    if cursor == last {
        Ok(b)
    } else if budget == 0 {
        Err(FailureView::IllegalState)
    } else {
        match b.nodes[cursor as int].next {
            None => Err(FailureView::IllegalState),
            Some(c) => match b.nodes[c as int].object {
                ObjectView::Symbol(s) => copy_walk(
                    attach(b, ObjectView::Symbol(s)),
                    c,
                    last,
                    (budget - 1) as nat,
                ),
                ObjectView::StrBracketL => {
                    let a = attach(b, ObjectView::StrBracketL);
                    copy_walk(
                        Build { l_brackets: a.l_brackets.push(a.border), ..a },
                        c,
                        last,
                        (budget - 1) as nat,
                    )
                },
                ObjectView::StrBracketR => {
                    let a = attach(b, ObjectView::StrBracketR);
                    if a.l_brackets.len() == 0 {
                        Err(FailureView::IllegalState)
                    } else {
                        copy_walk(
                            Build {
                                l_brackets: a.l_brackets.drop_last(),
                                nodes: pair_spec(a.nodes, a.l_brackets.last(), a.border),
                                ..a
                            },
                            c,
                            last,
                            (budget - 1) as nat,
                        )
                    }
                },
                _ => Err(FailureView::IllegalState),
            },
        }
    }
}

/// The value between the projections `n - 1` and `n` is copied in behind
/// the border.
pub open spec fn copy_expr(b: Build, projections: Seq<usize>, n: nat) -> Result<
    Build,
    FailureView,
> {
    if n == 0 || n >= projections.len() {
        Err(FailureView::IllegalState)
    } else {
        let first = projections[n - 1];
        let last = projections[n as int];
        match (b.nodes[first as int].prev, b.nodes[b.border as int].next) {
            (Some(cursor), Some(next)) => match copy_walk(b, cursor, last, b.nodes.len()) {
                Err(e) => Err(e),
                Ok(c) => Ok(Build { nodes: link_spec(c.nodes, c.border, next), ..c }),
            },
            _ => Err(FailureView::IllegalState),
        }
    }
}

/// The deferred moves are made, the newest first: the nodes from `start`
/// to `end` are cut out where they are and spliced in behind `border`.
pub open spec fn apply_transplants(nodes: Seq<NodeView>, transplants: Seq<Transplant>) -> Result<
    Seq<NodeView>,
    FailureView,
>
    decreases transplants.len(),
{
    if transplants.len() == 0 {
        Ok(nodes)
    } else {
        let t = transplants.last();
        match (nodes[t.start as int].prev, nodes[t.end as int].next) {
            (Some(before), Some(after)) => {
                let cut = link_spec(nodes, before, after);
                match cut[t.border as int].next {
                    None => Err(FailureView::IllegalState),
                    Some(next) => apply_transplants(
                        link_spec(link_spec(cut, t.end, next), t.border, t.start),
                        transplants.drop_last(),
                    ),
                }
            },
            _ => Err(FailureView::IllegalState),
        }
    }
}

/// The call that was matched leaves the chain: what was built before it
/// is linked to what follows it.
pub open spec fn splice_out(b: Build, call_end: usize) -> Result<Seq<NodeView>, FailureView> {
    if b.border == call_end {
        Ok(b.nodes)
    } else {
        match (b.nodes[call_end as int].next, b.nodes[b.border as int].next) {
            (Some(next), Some(first_out)) => Ok(
                link_spec(
                    unlink_next_spec(unlink_prev_spec(b.nodes, first_out), call_end),
                    b.border,
                    next,
                ),
            ),
            _ => Err(FailureView::IllegalState),
        }
    }
}

/// The end of a step: the call that was matched leaves the chain, what was
/// built takes its place, the deferred moves are made, and the calls that
/// were built become pending activations, the leftmost on top.
pub open spec fn finalize(s: State, b: Build) -> Outcome {
    if s.projections.len() < 3 || b.l_brackets.len() > 0 || b.l_fun_brackets.len() > 0 {
        Err(FailureView::IllegalState)
    } else {
        match splice_out(b, s.projections[2]) {
            Err(e) => Err(e),
            Ok(nodes) => match apply_transplants(nodes, b.transplants) {
                Err(e) => Err(e),
                Ok(moved) => Ok(
                    State {
                        dots: s.dots + b.local_dots.reverse(),
                        projections: Seq::empty(),
                        ..s.with_nodes(moved)
                    },
                ),
            },
        }
    }
}

/// What one instruction of the construction phase does to what is being
/// built.
pub open spec fn build_one(b: Build, projections: Seq<usize>, cmd: CommandView) -> Result<
    Build,
    FailureView,
> {
    match cmd {
        CommandView::InsertSymbol(sym) => insert(b, ObjectView::Symbol(sym)),
        CommandView::InsertStrBracketL => match insert(b, ObjectView::StrBracketL) {
            Err(e) => Err(e),
            Ok(c) => Ok(Build { l_brackets: c.l_brackets.push(c.border), ..c }),
        },
        CommandView::InsertStrBracketR => match insert(b, ObjectView::StrBracketR) {
            Err(e) => Err(e),
            Ok(c) => if c.l_brackets.len() == 0 {
                Err(FailureView::IllegalState)
            } else {
                Ok(
                    Build {
                        l_brackets: c.l_brackets.drop_last(),
                        nodes: pair_spec(c.nodes, c.l_brackets.last(), c.border),
                        ..c
                    },
                )
            },
        },
        CommandView::InsertFunBracketL => match insert(b, ObjectView::FunBracketL) {
            Err(e) => Err(e),
            Ok(c) => Ok(Build { l_fun_brackets: c.l_fun_brackets.push(c.border), ..c }),
        },
        CommandView::InsertFunBracketR => match insert(b, ObjectView::FunBracketR) {
            Err(e) => Err(e),
            Ok(c) => if c.l_fun_brackets.len() == 0 {
                Err(FailureView::IllegalState)
            } else {
                Ok(
                    Build {
                        l_fun_brackets: c.l_fun_brackets.drop_last(),
                        local_dots: c.local_dots.push(c.border),
                        nodes: pair_spec(c.nodes, c.l_fun_brackets.last(), c.border),
                        ..c
                    },
                )
            },
        },
        CommandView::TransplantObject(n) => if n >= projections.len() {
            Err(FailureView::IllegalState)
        } else {
            let node = projections[n as int];
            Ok(
                Build {
                    transplants: b.transplants.push(
                        Transplant { border: b.border, start: node, end: node },
                    ),
                    ..b
                },
            )
        },
        CommandView::TransplantExpr(n) => if n == 0 || n >= projections.len() {
            Err(FailureView::IllegalState)
        } else {
            let start = projections[n - 1];
            let end = projections[n as int];
            if b.nodes[end as int].next == Some(start) {
                Ok(b)
            } else {
                Ok(
                    Build {
                        transplants: b.transplants.push(Transplant { border: b.border, start, end }),
                        ..b
                    },
                )
            }
        },
        CommandView::CopySymbol(n) => if n >= projections.len() {
            Err(FailureView::IllegalState)
        } else {
            match b.nodes[projections[n as int] as int].object {
                ObjectView::Symbol(sym) => insert(b, ObjectView::Symbol(sym)),
                _ => Err(FailureView::IllegalState),
            }
        },
        CommandView::CopyExpr(n) => copy_expr(b, projections, n),
        _ => Err(FailureView::IllegalState),
    }
}

/// The construction phase: the instructions from the program counter on
/// are carried out until one finalizes the step.
pub open spec fn build(s: State, b: Build) -> Outcome
    decreases s.commands.len() - s.pc,
{
    if s.pc >= s.commands.len() {
        Err(FailureView::IllegalState)
    } else {
        let t = State { pc: s.pc + 1, ..s };
        match s.commands[s.pc as int] {
            CommandView::RewriteFinalize => finalize(t, b),
            cmd => match build_one(b, s.projections, cmd) {
                Err(e) => Err(e),
                Ok(c) => build(t, c),
            },
        }
    }
}

/// The match has succeeded: the choice points are dropped and the
/// replacement is built behind the node before the call.
pub open spec fn rewrite_start(s: State) -> Outcome {
    if s.projections.len() == 0 {
        Err(FailureView::IllegalState)
    } else {
        build(
            State { jumps: Seq::empty(), ..s },
            Build {
                nodes: s.chain.nodes,
                border: s.projections[0],
                local_dots: Seq::empty(),
                l_brackets: Seq::empty(),
                l_fun_brackets: Seq::empty(),
                transplants: Seq::empty(),
            },
        )
    }
}

/// Every node named in `ids` is a slot of an arena of `len` slots.
pub open spec fn ids_below(ids: Seq<usize>, len: nat) -> bool {
    forall|i: int| 0 <= i < ids.len() ==> #[trigger] ids[i] < len
}

/// The nodes of `waiting` are distinct left brackets `object` without mate.
pub open spec fn waiting_brackets(nodes: Seq<NodeView>, waiting: Seq<usize>, object: ObjectView)
    -> bool {
    &&& waiting.no_duplicates()
    &&& forall|i: int|
        0 <= i < waiting.len() ==> (#[trigger] waiting[i]) < nodes.len()
            && nodes[waiting[i] as int].object == object && nodes[waiting[i] as int].twin is None
}

/// The invariant of the construction phase but for the pairing: the
/// arena is well formed and every node held is a slot of it.
pub open spec fn build_ids(s: State, b: Build) -> bool {
    &&& well_formed(b.nodes)
    &&& b.border < b.nodes.len()
    &&& s.border_l < b.nodes.len()
    &&& s.border_r < b.nodes.len()
    &&& s.chain.first < b.nodes.len()
    &&& s.chain.last < b.nodes.len()
    &&& s.jumps.len() == 0
    &&& ids_below(s.projections, b.nodes.len())
    &&& ids_below(s.dots, b.nodes.len())
    &&& ids_below(b.local_dots, b.nodes.len())
    &&& waiting_brackets(b.nodes, b.l_brackets, ObjectView::StrBracketL)
    &&& waiting_brackets(b.nodes, b.l_fun_brackets, ObjectView::FunBracketL)
    &&& forall|i: int|
        0 <= i < b.transplants.len() ==> (#[trigger] b.transplants[i]).border < b.nodes.len()
            && b.transplants[i].start < b.nodes.len() && b.transplants[i].end < b.nodes.len()
}

/// The brackets that wait for their mate.
pub open spec fn pending(b: Build) -> Set<usize> {
    Set::new(|id: usize| b.l_brackets.contains(id) || b.l_fun_brackets.contains(id))
}

/// The invariant of the construction phase: the arena is well formed,
/// every bracket but the waiting ones has its mate, and every node held
/// is a slot of the arena.
pub open spec fn build_wf(s: State, b: Build) -> bool {
    &&& build_ids(s, b)
    &&& brackets_paired(b.nodes, pending(b))
}

/// Linking changes neither an object nor a mate.
pub proof fn lemma_link_keeps(nodes: Seq<NodeView>, a: usize, b: usize)
    ensures
        link_spec(nodes, a, b).len() == nodes.len(),
        forall|i: int|
            0 <= i < nodes.len() ==> (#[trigger] link_spec(nodes, a, b)[i]).object
                == nodes[i].object && link_spec(nodes, a, b)[i].twin == nodes[i].twin,
{
}

/// Hanging a new node behind the border keeps the arena well formed, and
/// changes neither an object nor a mate of the nodes that were there.
pub proof fn lemma_hang(nodes: Seq<NodeView>, border: usize, object: ObjectView)
    requires
        well_formed(nodes),
        border < nodes.len(),
        nodes.len() < usize::MAX,
    ensures
        well_formed(hang(nodes, border, object)),
        hang(nodes, border, object).len() == nodes.len() + 1,
        hang(nodes, border, object)[nodes.len() as int].object == object,
        hang(nodes, border, object)[nodes.len() as int].twin is None,
        hang(nodes, border, object)[border as int].next == Some(nodes.len() as usize),
        forall|i: int|
            0 <= i < nodes.len() ==> (#[trigger] hang(nodes, border, object)[i]).object
                == nodes[i].object && hang(nodes, border, object)[i].twin == nodes[i].twin,
{
    let added = nodes.push(fresh(object));
    lemma_push_well_formed(nodes, object);
    lemma_link_well_formed(added, border, nodes.len() as usize);
    lemma_link_keeps(added, border, nodes.len() as usize);
    assert forall|i: int| 0 <= i < nodes.len() implies (#[trigger] hang(
        nodes,
        border,
        object,
    )[i]).object == nodes[i].object && hang(nodes, border, object)[i].twin == nodes[i].twin by {
        assert(added[i] == nodes[i]);
    }
}

/// What holds of a sequence with one more element.
pub proof fn lemma_push_contains(ids: Seq<usize>, id: usize)
    ensures
        forall|x: usize| #[trigger] ids.push(id).contains(x) <==> ids.contains(x) || x == id,
{
    assert forall|x: usize| #[trigger] ids.push(id).contains(x) <==> ids.contains(x) || x
        == id by {
        if ids.contains(x) {
            let k = choose|k: int| 0 <= k < ids.len() && ids[k] == x;
            assert(ids.push(id)[k] == x);
        }
        if x == id {
            assert(ids.push(id)[ids.len() as int] == x);
        }
        if ids.push(id).contains(x) {
            let k = choose|k: int| 0 <= k < ids.push(id).len() && ids.push(id)[k] == x;
            if k < ids.len() {
                assert(ids[k] == x);
            }
        }
    }
}

/// What holds of a sequence of distinct elements without its last.
pub proof fn lemma_drop_last_contains(ids: Seq<usize>)
    requires
        ids.len() > 0,
        ids.no_duplicates(),
    ensures
        forall|x: usize| #[trigger]
            ids.drop_last().contains(x) <==> ids.contains(x) && x != ids.last(),
{
    assert forall|x: usize| #[trigger]
        ids.drop_last().contains(x) <==> ids.contains(x) && x != ids.last() by {
        if ids.drop_last().contains(x) {
            let k = choose|k: int| 0 <= k < ids.drop_last().len() && ids.drop_last()[k] == x;
            assert(ids[k] == x);
        }
        if ids.contains(x) && x != ids.last() {
            let k = choose|k: int| 0 <= k < ids.len() && ids[k] == x;
            assert(ids.drop_last()[k] == x);
        }
    }
}

/// A new node behind the border keeps the invariant but for the pairing,
/// in which the new node is the one bracket more that may lack a mate.
pub proof fn lemma_attach(s: State, b: Build, object: ObjectView)
    requires
        build_wf(s, b),
        b.nodes.len() < usize::MAX,
    ensures
        build_ids(s, attach(b, object)),
        brackets_paired(attach(b, object).nodes, pending(b).insert(b.nodes.len() as usize)),
        !object.is_bracket() ==> build_wf(s, attach(b, object)),
        attach(b, object).nodes[b.nodes.len() as int].object == object,
        attach(b, object).nodes[b.nodes.len() as int].twin is None,
        attach(b, object).nodes.len() == b.nodes.len() + 1,
{
    lemma_hang(b.nodes, b.border, object);
    let after = attach(b, object);
    assert forall|i: int| 0 <= i < b.l_brackets.len() implies (#[trigger] b.l_brackets[i])
        < after.nodes.len() && after.nodes[b.l_brackets[i] as int].object
        == ObjectView::StrBracketL && after.nodes[b.l_brackets[i] as int].twin is None by {
        let _ = b.nodes[b.l_brackets[i] as int];
    }
    assert forall|i: int| 0 <= i < b.l_fun_brackets.len() implies (#[trigger] b.l_fun_brackets[i])
        < after.nodes.len() && after.nodes[b.l_fun_brackets[i] as int].object
        == ObjectView::FunBracketL && after.nodes[b.l_fun_brackets[i] as int].twin is None by {
        let _ = b.nodes[b.l_fun_brackets[i] as int];
    }
    assert forall|i: int|
        0 <= i < after.nodes.len() && (#[trigger] after.nodes[i]).object.is_bracket() && !pending(
            b,
        ).insert(b.nodes.len() as usize).contains(i as usize) implies after.nodes[i].twin is Some by {
        let _ = b.nodes[i];
    }
    if !object.is_bracket() {
        assert(pending(after) == pending(b));
        assert forall|i: int|
            0 <= i < after.nodes.len() && (#[trigger] after.nodes[i]).object.is_bracket()
                && !pending(after).contains(i as usize) implies after.nodes[i].twin is Some by {
            if i < b.nodes.len() {
                let _ = b.nodes[i];
            }
        }
    }
}

/// A new node spliced in behind the border: as [`lemma_attach`].
pub proof fn lemma_insert(s: State, b: Build, object: ObjectView)
    requires
        build_wf(s, b),
        b.nodes.len() < usize::MAX,
        insert(b, object) is Ok,
    ensures
        build_ids(s, insert(b, object)->Ok_0),
        brackets_paired(insert(b, object)->Ok_0.nodes, pending(b).insert(b.nodes.len() as usize)),
        !object.is_bracket() ==> build_wf(s, insert(b, object)->Ok_0),
        insert(b, object)->Ok_0.nodes[b.nodes.len() as int].object == object,
        insert(b, object)->Ok_0.nodes[b.nodes.len() as int].twin is None,
        insert(b, object)->Ok_0.nodes.len() == b.nodes.len() + 1,
{
    lemma_attach(s, b, object);
    let hung = attach(b, object);
    let next = b.nodes[b.border as int].next->0;
    let id = b.nodes.len() as usize;
    assert(b.nodes.push(fresh(object))[b.border as int] == b.nodes[b.border as int]);
    lemma_relink_ids(s, hung, next);
    let after = insert(b, object)->Ok_0;
    assert(after.nodes == link_spec(hung.nodes, id, next));
    lemma_link_keeps(hung.nodes, id, next);
    assert forall|i: int|
        0 <= i < after.nodes.len() && (#[trigger] after.nodes[i]).object.is_bracket() && !pending(
            b,
        ).insert(b.nodes.len() as usize).contains(i as usize) implies after.nodes[i].twin is Some by {
        let _ = hung.nodes[i];
    }
    if !object.is_bracket() {
        assert(pending(after) == pending(b));
        assert forall|i: int|
            0 <= i < after.nodes.len() && (#[trigger] after.nodes[i]).object.is_bracket()
                && !pending(after).contains(i as usize) implies after.nodes[i].twin is Some by {
            let _ = hung.nodes[i];
        }
    }
}

/// The border, a left bracket just made, joins the waiting brackets.
pub proof fn lemma_open(s: State, b: Build, structural: bool)
    requires
        build_ids(s, b),
        brackets_paired(b.nodes, pending(b).insert(b.border)),
        b.nodes[b.border as int].twin is None,
        b.nodes[b.border as int].object == (if structural {
            ObjectView::StrBracketL
        } else {
            ObjectView::FunBracketL
        }),
        !b.l_brackets.contains(b.border),
        !b.l_fun_brackets.contains(b.border),
    ensures
        structural ==> build_wf(s, Build { l_brackets: b.l_brackets.push(b.border), ..b }),
        !structural ==> build_wf(s, Build { l_fun_brackets: b.l_fun_brackets.push(b.border), ..b }),
{
    lemma_push_contains(b.l_brackets, b.border);
    lemma_push_contains(b.l_fun_brackets, b.border);
    if structural {
        let after = Build { l_brackets: b.l_brackets.push(b.border), ..b };
        assert(pending(after) =~= pending(b).insert(b.border));
        assert forall|i: int, j: int|
            0 <= i < after.l_brackets.len() && 0 <= j < after.l_brackets.len() && i
                != j implies after.l_brackets[i] != after.l_brackets[j] by {
            if i < b.l_brackets.len() {
                assert(b.l_brackets.contains(b.l_brackets[i]));
            }
            if j < b.l_brackets.len() {
                assert(b.l_brackets.contains(b.l_brackets[j]));
            }
        }
        assert forall|i: int| 0 <= i < after.l_brackets.len() implies (
        #[trigger] after.l_brackets[i]) < after.nodes.len()
            && after.nodes[after.l_brackets[i] as int].object == ObjectView::StrBracketL
            && after.nodes[after.l_brackets[i] as int].twin is None by {
            if i < b.l_brackets.len() {
                let _ = b.l_brackets[i];
            }
        }
    } else {
        let after = Build { l_fun_brackets: b.l_fun_brackets.push(b.border), ..b };
        assert(pending(after) =~= pending(b).insert(b.border));
        assert forall|i: int, j: int|
            0 <= i < after.l_fun_brackets.len() && 0 <= j < after.l_fun_brackets.len() && i
                != j implies after.l_fun_brackets[i] != after.l_fun_brackets[j] by {
            if i < b.l_fun_brackets.len() {
                assert(b.l_fun_brackets.contains(b.l_fun_brackets[i]));
            }
            if j < b.l_fun_brackets.len() {
                assert(b.l_fun_brackets.contains(b.l_fun_brackets[j]));
            }
        }
        assert forall|i: int| 0 <= i < after.l_fun_brackets.len() implies (
        #[trigger] after.l_fun_brackets[i]) < after.nodes.len()
            && after.nodes[after.l_fun_brackets[i] as int].object == ObjectView::FunBracketL
            && after.nodes[after.l_fun_brackets[i] as int].twin is None by {
            if i < b.l_fun_brackets.len() {
                let _ = b.l_fun_brackets[i];
            }
        }
    }
}

/// The border, a right bracket just made, is paired with the newest
/// waiting left bracket of its kind.
pub proof fn lemma_close(s: State, b: Build, structural: bool)
    requires
        build_ids(s, b),
        brackets_paired(b.nodes, pending(b).insert(b.border)),
        b.nodes[b.border as int].twin is None,
        b.nodes[b.border as int].object == (if structural {
            ObjectView::StrBracketR
        } else {
            ObjectView::FunBracketR
        }),
        structural ==> b.l_brackets.len() > 0,
        !structural ==> b.l_fun_brackets.len() > 0,
    ensures
        structural ==> build_wf(
            s,
            Build {
                l_brackets: b.l_brackets.drop_last(),
                nodes: pair_spec(b.nodes, b.l_brackets.last(), b.border),
                ..b
            },
        ),
        !structural ==> build_ids(
            s,
            Build {
                l_fun_brackets: b.l_fun_brackets.drop_last(),
                nodes: pair_spec(b.nodes, b.l_fun_brackets.last(), b.border),
                ..b
            },
        ) && brackets_paired(
            pair_spec(b.nodes, b.l_fun_brackets.last(), b.border),
            pending(Build { l_fun_brackets: b.l_fun_brackets.drop_last(), ..b }),
        ),
{
    let open = if structural {
        b.l_brackets.last()
    } else {
        b.l_fun_brackets.last()
    };
    assert(b.nodes[open as int].twin is None && b.nodes[open as int].object.opens(
        b.nodes[b.border as int].object,
    )) by {
        if structural {
            let _ = b.l_brackets[b.l_brackets.len() - 1];
        } else {
            let _ = b.l_fun_brackets[b.l_fun_brackets.len() - 1];
        }
    }
    lemma_pair_well_formed(b.nodes, open, b.border);
    let paired = pair_spec(b.nodes, open, b.border);
    let after = if structural {
        Build { l_brackets: b.l_brackets.drop_last(), nodes: paired, ..b }
    } else {
        Build { l_fun_brackets: b.l_fun_brackets.drop_last(), nodes: paired, ..b }
    };
    if structural {
        lemma_drop_last_contains(b.l_brackets);
    } else {
        lemma_drop_last_contains(b.l_fun_brackets);
    }
    assert forall|i: int| 0 <= i < after.l_brackets.len() implies (#[trigger] after.l_brackets[i])
        < paired.len() && paired[after.l_brackets[i] as int].object == ObjectView::StrBracketL
        && paired[after.l_brackets[i] as int].twin is None by {
        let x = after.l_brackets[i];
        assert(b.l_brackets[i] == x);
        assert(b.l_brackets.contains(x));
        if structural {
            assert(after.l_brackets.contains(x));
        }
    }
    assert forall|i: int| 0 <= i < after.l_fun_brackets.len() implies (
    #[trigger] after.l_fun_brackets[i]) < paired.len()
        && paired[after.l_fun_brackets[i] as int].object == ObjectView::FunBracketL
        && paired[after.l_fun_brackets[i] as int].twin is None by {
        let x = after.l_fun_brackets[i];
        assert(b.l_fun_brackets[i] == x);
        assert(b.l_fun_brackets.contains(x));
        if !structural {
            assert(after.l_fun_brackets.contains(x));
        }
    }
    assert forall|i: int|
        0 <= i < paired.len() && (#[trigger] paired[i]).object.is_bracket() && !pending(
            after,
        ).contains(i as usize) implies paired[i].twin is Some by {
        let _ = b.nodes[i];
        if i != open && i != b.border {
            if structural {
                assert(!b.l_brackets.contains(i as usize));
            } else {
                assert(!b.l_fun_brackets.contains(i as usize));
            }
            assert(!pending(b).insert(b.border).contains(i as usize));
        }
    }
    assert(after.l_brackets.no_duplicates());
    assert(after.l_fun_brackets.no_duplicates());
}

/// Linking two nodes keeps the invariant but for the pairing.
pub proof fn lemma_relink_ids(s: State, b: Build, next: usize)
    requires
        build_ids(s, b),
        next < b.nodes.len(),
    ensures
        build_ids(s, Build { nodes: link_spec(b.nodes, b.border, next), ..b }),
{
    lemma_link_well_formed(b.nodes, b.border, next);
    lemma_link_keeps(b.nodes, b.border, next);
    let after = link_spec(b.nodes, b.border, next);
    assert forall|i: int| 0 <= i < b.l_brackets.len() implies (#[trigger] b.l_brackets[i])
        < after.len() && after[b.l_brackets[i] as int].object == ObjectView::StrBracketL
        && after[b.l_brackets[i] as int].twin is None by {
        let _ = b.nodes[b.l_brackets[i] as int];
    }
    assert forall|i: int| 0 <= i < b.l_fun_brackets.len() implies (#[trigger] b.l_fun_brackets[i])
        < after.len() && after[b.l_fun_brackets[i] as int].object == ObjectView::FunBracketL
        && after[b.l_fun_brackets[i] as int].twin is None by {
        let _ = b.nodes[b.l_fun_brackets[i] as int];
    }
}

/// Giving the border its successor back keeps the invariant.
pub proof fn lemma_relink_wf(s: State, b: Build, next: usize)
    requires
        build_wf(s, b),
        next < b.nodes.len(),
    ensures
        build_wf(s, Build { nodes: link_spec(b.nodes, b.border, next), ..b }),
{
    lemma_relink_ids(s, b, next);
    lemma_link_keeps(b.nodes, b.border, next);
    let after = Build { nodes: link_spec(b.nodes, b.border, next), ..b };
    assert(pending(after) == pending(b));
    assert forall|i: int|
        0 <= i < after.nodes.len() && (#[trigger] after.nodes[i]).object.is_bracket() && !pending(
            after,
        ).contains(i as usize) implies after.nodes[i].twin is Some by {
        let _ = b.nodes[i];
    }
}

/// The call that the pending activation `dot` stands for: the node
/// before the call, the node of the function symbol, and the function's
/// instructions.
pub open spec fn resolve(defs: Defs, nodes: Seq<NodeView>, dot: usize) -> Result<
    (usize, usize, Seq<CommandView>),
    FailureView,
> {
    match nodes[dot as int].twin {
        None => Err(FailureView::IllegalState),
        Some(open) => match (nodes[open as int].next, nodes[open as int].prev) {
            (Some(fun), Some(before)) => match nodes[fun as int].object {
                ObjectView::Symbol(name) => if defs.contains_key(name) {
                    Ok((before, fun, defs[name]))
                } else {
                    Err(FailureView::UndefinedFunction(name))
                },
                _ => Err(FailureView::IllegalState),
            },
            _ => Err(FailureView::IllegalState),
        },
    }
}

/// The next activation: the newest pending call becomes the window, its
/// function's instructions become the active ones, and the projections
/// are the node before the call, the function symbol and the closing call
/// bracket. With no call pending the machine halts.
pub open spec fn match_start(defs: Defs, s: State) -> Outcome {
    if s.dots.len() == 0 {
        Ok(State { end: true, ..s })
    } else {
        let dot = s.dots.last();
        match resolve(defs, s.chain.nodes, dot) {
            Err(e) => Err(e),
            Ok((before, fun, commands)) => Ok(
                State {
                    dots: s.dots.drop_last(),
                    border_l: fun,
                    border_r: dot,
                    commands,
                    pc: 0,
                    projections: seq![before, fun, dot],
                    ..s
                },
            ),
        }
    }
}

/// What one instruction does to a state whose program counter is already
/// past it.
#[verifier::opaque]
pub open spec fn execute(defs: Defs, s: State, cmd: CommandView) -> Outcome {
    match cmd {
        CommandView::MatchStart => match_start(defs, s),
        CommandView::MatchEmpty => match_empty(s),
        CommandView::MatchStrBracketL => match_str_bracket_l(s),
        CommandView::MatchStrBracketR => match_str_bracket_r(s),
        CommandView::MatchSymbolL(symbol) => match_symbol_l(s, symbol),
        CommandView::MatchSymbolR(symbol) => match_symbol_r(s, symbol),
        CommandView::MatchSVarL => match_s_var_l(s),
        CommandView::MatchSVarR => match_s_var_r(s),
        CommandView::MatchSVarLProj(n) => match_s_var_l_proj(s, n),
        CommandView::MatchSVarRProj(n) => match_s_var_r_proj(s, n),
        CommandView::MatchTVarL => match_t_var_l(s),
        CommandView::MatchTVarR => match_t_var_r(s),
        CommandView::MatchEVarPrepare => prepare_lengthen(s),
        CommandView::MatchEVar => match_e_var(s),
        CommandView::MatchEVarLengthen => lengthen(s),
        CommandView::MatchEVarLProj(n) => match_e_var_l_proj(s, n),
        CommandView::MatchEVarRProj(n) => match_e_var_r_proj(s, n),
        CommandView::MatchMoveBorderL(n) => match_move_border_l(s, n),
        CommandView::MatchMoveBorderR(n) => match_move_border_r(s, n),
        CommandView::SetupTransition(n) => setup_transition(s, n),
        CommandView::ConstrainLengthen(n) => constrain_lengthen(s, n),
        CommandView::RewriteStart => rewrite_start(s),
        _ => Err(FailureView::IllegalState),
    }
}

/// One step: the instruction at the program counter is fetched, the
/// counter moves on, and the instruction is carried out.
pub open spec fn step(defs: Defs, s: State) -> Outcome {
    if s.pc >= s.commands.len() {
        Err(FailureView::IllegalState)
    } else {
        execute(defs, State { pc: s.pc + 1, ..s }, s.commands[s.pc as int])
    }
}

/// The machine runs until it halts, for at most `limit` steps.
pub open spec fn run(defs: Defs, s: State, limit: nat) -> Outcome
    decreases limit,
{
    if s.end {
        Ok(s)
    } else if limit == 0 {
        Err(FailureView::StepLimit)
    } else {
        match step(defs, s) {
            Err(e) => Err(e),
            Ok(t) => run(defs, t, (limit - 1) as nat),
        }
    }
}

/// The state in which the first activation is started.
pub open spec fn blank(chain: ChainView, dots: Seq<usize>) -> State {
    State {
        chain,
        commands: Seq::empty(),
        pc: 0,
        projections: Seq::empty(),
        jumps: Seq::empty(),
        border_l: chain.first,
        border_r: chain.last,
        dots,
        end: false,
    }
}

/// The view field in which the evaluation of the pending calls `dots` of
/// `chain` ends.
pub open spec fn eval(defs: Defs, chain: ChainView, dots: Seq<usize>, limit: nat) -> Result<
    ChainView,
    FailureView,
> {
    match match_start(defs, blank(chain, dots)) {
        Err(e) => Err(e),
        Ok(s) => match run(defs, s, limit) {
            Err(e) => Err(e),
            Ok(t) => Ok(t.chain),
        },
    }
}

/// The result of evaluating the call of `main` with no argument: the
/// expression that the view field holds when the machine halts. A view
/// field whose chain no longer leads from the first sentinel to the last
/// holds no expression.
pub open spec fn eval_main(defs: Defs, main: Seq<char>, limit: nat) -> Result<
    Seq<ObjectView>,
    FailureView,
> {
    let chain = ChainView { nodes: crate::runtime::init_nodes(main), first: 0, last: 4 };
    match eval(defs, chain, seq![3usize], limit) {
        Err(e) => Err(e),
        Ok(c) => if c.connected() {
            Ok(c.flatten())
        } else {
            Err(FailureView::IllegalState)
        },
    }
}

/// Determinism: the result of an evaluation is a function of the program
/// and the goal. Any two results that meet the contract of the evaluation
/// of one goal in one program are equal.
pub proof fn lemma_eval_deterministic(
    defs: Defs,
    main: Seq<char>,
    limit: nat,
    first: Result<Seq<ObjectView>, FailureView>,
    second: Result<Seq<ObjectView>, FailureView>,
)
    requires
        first == eval_main(defs, main, limit),
        second == eval_main(defs, main, limit),
    ensures
        first == second,
{
}

} // verus!
