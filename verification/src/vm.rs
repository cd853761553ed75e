//! The interpreter: the abstract machine on the arena.
//!
//! Every method carries out one instruction and is proved to compute the
//! transition that `machine` defines for it. A program that does not fit
//! the state it runs in ends the evaluation with an error; it cannot
//! corrupt the arena.

use crate::data::{Command, Program};
use crate::machine;
use crate::machine::{build_wf, Build, FailureView, JumpView, Outcome, State, Transplant};
use crate::runtime::{connected, flatten, init_view, link_nodes, pair_nodes, unlink_next};
use crate::runtime::unlink_prev;
use crate::runtime::{Chain, Node, Object, ObjectView};
use vstd::prelude::*;

verus! {

/// Why an evaluation stopped without a result.
#[derive(Debug, PartialEq, Eq)]
pub enum EvalError {
    /// No sentence of the active function matches its argument.
    RecognitionImpossible,
    /// A call names a function that the program does not define.
    UndefinedFunction(String),
    /// The instructions do not fit the state they run in.
    IllegalState,
    /// The bound on the number of steps was reached.
    StepLimit,
}

impl View for EvalError {
    type V = FailureView;

    open spec fn view(&self) -> FailureView {
        match self {
            EvalError::RecognitionImpossible => FailureView::RecognitionImpossible,
            EvalError::UndefinedFunction(name) => FailureView::UndefinedFunction(name@),
            EvalError::IllegalState => FailureView::IllegalState,
            EvalError::StepLimit => FailureView::StepLimit,
        }
    }
}

/// A choice point.
#[derive(Clone, Copy, Debug)]
pub struct Jump {
    pub border_l: usize,
    pub border_r: usize,
    pub projection_index: usize,
    pub command_index: usize,
}

impl View for Jump {
    type V = JumpView;

    open spec fn view(&self) -> JumpView {
        JumpView {
            border_l: self.border_l,
            border_r: self.border_r,
            projection_index: self.projection_index as nat,
            command_index: self.command_index as nat,
        }
    }
}

impl DeepView for Jump {
    type V = JumpView;

    open spec fn deep_view(&self) -> JumpView {
        self@
    }
}

/// A deferred move of the nodes from `start` to `end` to behind `border`.
#[derive(Clone, Copy, Debug)]
pub struct Move {
    pub border: usize,
    pub start: usize,
    pub end: usize,
}

impl View for Move {
    type V = Transplant;

    open spec fn view(&self) -> Transplant {
        Transplant { border: self.border, start: self.start, end: self.end }
    }
}

impl DeepView for Move {
    type V = Transplant;

    open spec fn deep_view(&self) -> Transplant {
        self@
    }
}

/// What the construction phase of a step keeps beside the arena.
pub struct Builder {
    pub border: usize,
    pub local_dots: Vec<usize>,
    pub l_brackets: Vec<usize>,
    pub l_fun_brackets: Vec<usize>,
    pub transplants: Vec<Move>,
}

impl Builder {
    /// The state of the construction phase on the arena `nodes`.
    pub open spec fn on(&self, nodes: Seq<crate::runtime::NodeView>) -> Build {
        Build {
            nodes,
            border: self.border,
            local_dots: self.local_dots@,
            l_brackets: self.l_brackets@,
            l_fun_brackets: self.l_fun_brackets@,
            transplants: self.transplants.deep_view(),
        }
    }
}

/// Splices a new node with `object` in behind `border` and returns its
/// slot; `None`, with the arena unchanged, where `border` has no successor.
pub fn insert_after(chain: &mut Chain, border: usize, object: Object) -> (r: Option<usize>)
    requires
        old(chain)@.wf(),
        border < old(chain)@.nodes.len(),
    ensures
        final(chain)@.wf(),
        final(chain)@.first == old(chain)@.first,
        final(chain)@.last == old(chain)@.last,
        machine::splice(old(chain)@.nodes, border, object@) == match r {
            Some(_) => Some(final(chain)@.nodes),
            None => None,
        },
        match r {
            Some(id) => id == old(chain)@.nodes.len(),
            None => final(chain)@ == old(chain)@,
        },
{
    match chain.node(border).next {
        None => None,
        Some(next) => {
            let id = chain.add(Node::new(object));
            proof {
                crate::runtime::lemma_push_well_formed(old(chain)@.nodes, object@);
            }
            link_nodes(chain, border, id);
            link_nodes(chain, id, next);
            Some(id)
        },
    }
}

/// Hangs a new node with `object` behind `border`, with no successor yet,
/// and returns its slot.
pub fn attach_after(chain: &mut Chain, border: usize, object: Object) -> (id: usize)
    requires
        old(chain)@.wf(),
        border < old(chain)@.nodes.len(),
    ensures
        final(chain)@.wf(),
        final(chain)@.first == old(chain)@.first,
        final(chain)@.last == old(chain)@.last,
        final(chain)@.nodes == machine::hang(old(chain)@.nodes, border, object@),
        id == old(chain)@.nodes.len(),
{
    let id = chain.add(Node::new(object));
    proof {
        crate::runtime::lemma_push_well_formed(old(chain)@.nodes, object@);
    }
    link_nodes(chain, border, id);
    id
}

/// The machine: the view field and the registers.
pub struct VM<'a> {
    pub defs: &'a Program,
    pub commands: &'a Vec<Command>,
    pub command_index: usize,
    pub projections: Vec<usize>,
    pub jumps: Vec<Jump>,
    pub border_l: usize,
    pub border_r: usize,
    pub dots: Vec<usize>,
    pub end: bool,
    pub chain: Chain,
}

impl<'a> View for VM<'a> {
    type V = State;

    open spec fn view(&self) -> State {
        State {
            chain: self.chain@,
            commands: self.commands.deep_view(),
            pc: self.command_index as nat,
            projections: self.projections@,
            jumps: self.jumps.deep_view(),
            border_l: self.border_l,
            border_r: self.border_r,
            dots: self.dots@,
            end: self.end,
        }
    }
}

/// The outcome that a method reports: the state it left, or the failure.
pub open spec fn outcome(r: Result<(), EvalError>, s: State) -> Outcome {
    match r {
        Ok(_) => Ok(s),
        Err(e) => Err(e@),
    }
}

impl<'a> VM<'a> {
    /// Backtracks to the newest choice point.
    pub fn fail(&mut self) -> (r: Result<(), EvalError>)
        requires
            old(self)@.wf(),
        ensures
            outcome(r, final(self)@) == machine::fail(old(self)@),
            r is Ok ==> final(self)@.wf(),
            final(self).defs == old(self).defs,
    {
        match self.jumps.pop() {
            None => Err(EvalError::RecognitionImpossible),
            Some(jump) => {
                assert(jump@ == old(self)@.jumps.last());
                self.border_l = jump.border_l;
                self.border_r = jump.border_r;
                self.projections.truncate(jump.projection_index);
                self.command_index = jump.command_index;
                assert(self.jumps.deep_view() =~= old(self)@.jumps.drop_last());
                assert(self.projections@ =~= machine::fail(old(self)@)->Ok_0.projections);
                Ok(())
            },
        }
    }

    /// Moves the left border one node inward. `Ok(true)`: it moved;
    /// `Ok(false)`: it met the right border and the machine backtracked.
    pub fn shift_border1(&mut self) -> (r: Result<bool, EvalError>)
        requires
            old(self)@.wf(),
        ensures
            forall|then: spec_fn(State) -> Outcome| #[trigger]
                machine::shift_left(old(self)@, then) == match r {
                    Ok(true) => then(final(self)@),
                    Ok(false) => Ok(final(self)@),
                    Err(e) => Err(e@),
                },
            r is Ok ==> final(self)@.wf(),
            r == Ok::<bool, EvalError>(true) ==> final(self)@ == (State {
                border_l: final(self).border_l,
                ..old(self)@
            }),
            final(self).defs == old(self).defs,
    {
        match self.chain.node(self.border_l).next {
            None => Err(EvalError::IllegalState),
            Some(n) => {
                self.border_l = n;
                if n == self.border_r {
                    match self.fail() {
                        Ok(()) => Ok(false),
                        Err(e) => Err(e),
                    }
                } else {
                    Ok(true)
                }
            },
        }
    }

    /// Moves the right border one node inward, as `shift_border1` moves
    /// the left one.
    pub fn shift_border2(&mut self) -> (r: Result<bool, EvalError>)
        requires
            old(self)@.wf(),
        ensures
            forall|then: spec_fn(State) -> Outcome| #[trigger]
                machine::shift_right(old(self)@, then) == match r {
                    Ok(true) => then(final(self)@),
                    Ok(false) => Ok(final(self)@),
                    Err(e) => Err(e@),
                },
            r is Ok ==> final(self)@.wf(),
            r == Ok::<bool, EvalError>(true) ==> final(self)@ == (State {
                border_r: final(self).border_r,
                ..old(self)@
            }),
            final(self).defs == old(self).defs,
    {
        match self.chain.node(self.border_r).prev {
            None => Err(EvalError::IllegalState),
            Some(p) => {
                self.border_r = p;
                if self.border_l == p {
                    match self.fail() {
                        Ok(()) => Ok(false),
                        Err(e) => Err(e),
                    }
                } else {
                    Ok(true)
                }
            },
        }
    }

    /// Requires the window to be empty.
    pub fn match_empty(&mut self) -> (r: Result<(), EvalError>)
        requires
            old(self)@.wf(),
        ensures
            outcome(r, final(self)@) == machine::match_empty(old(self)@),
            r is Ok ==> final(self)@.wf(),
            final(self).defs == old(self).defs,
    {
        match self.chain.node(self.border_l).next {
            None => Err(EvalError::IllegalState),
            Some(n) => if n == self.border_r {
                Ok(())
            } else {
                self.fail()
            },
        }
    }

    /// Matches the symbol `symbol` at the left end of the window.
    pub fn match_symbol_l(&mut self, symbol: &String) -> (r: Result<(), EvalError>)
        requires
            old(self)@.wf(),
        ensures
            outcome(r, final(self)@) == machine::match_symbol_l(old(self)@, symbol@),
            r is Ok ==> final(self)@.wf(),
            final(self).defs == old(self).defs,
    {
        if self.shift_border1()? {
            let matches = match &self.chain.node(self.border_l).object {
                Object::Symbol(s) => *s == *symbol,
                _ => false,
            };
            if matches {
                self.projections.push(self.border_l);
                Ok(())
            } else {
                self.fail()
            }
        } else {
            Ok(())
        }
    }

    /// Matches the symbol `symbol` at the right end of the window.
    pub fn match_symbol_r(&mut self, symbol: &String) -> (r: Result<(), EvalError>)
        requires
            old(self)@.wf(),
        ensures
            outcome(r, final(self)@) == machine::match_symbol_r(old(self)@, symbol@),
            r is Ok ==> final(self)@.wf(),
            final(self).defs == old(self).defs,
    {
        if self.shift_border2()? {
            let matches = match &self.chain.node(self.border_r).object {
                Object::Symbol(s) => *s == *symbol,
                _ => false,
            };
            if matches {
                self.projections.push(self.border_r);
                Ok(())
            } else {
                self.fail()
            }
        } else {
            Ok(())
        }
    }

    /// Matches a structural bracket at the left end of the window and turns to
    /// its inside.
    pub fn match_str_bracket_l(&mut self) -> (r: Result<(), EvalError>)
        requires
            old(self)@.wf(),
        ensures
            outcome(r, final(self)@) == machine::match_str_bracket_l(old(self)@),
            r is Ok ==> final(self)@.wf(),
            final(self).defs == old(self).defs,
    {
        if self.shift_border1()? {
            let node = self.chain.node(self.border_l);
            match node.object {
                Object::StrBracketL => match node.twin {
                    None => Err(EvalError::IllegalState),
                    Some(mate) => {
                        self.border_r = mate;
                        self.projections.push(self.border_l);
                        self.projections.push(mate);
                        Ok(())
                    },
                },
                _ => self.fail(),
            }
        } else {
            Ok(())
        }
    }

    /// Matches a structural bracket at the right end of the window and turns
    /// to what comes before it.
    pub fn match_str_bracket_r(&mut self) -> (r: Result<(), EvalError>)
        requires
            old(self)@.wf(),
        ensures
            outcome(r, final(self)@) == machine::match_str_bracket_r(old(self)@),
            r is Ok ==> final(self)@.wf(),
            final(self).defs == old(self).defs,
    {
        if self.shift_border2()? {
            let node = self.chain.node(self.border_r);
            match node.object {
                Object::StrBracketR => match node.twin {
                    None => Err(EvalError::IllegalState),
                    Some(mate) => {
                        self.projections.push(mate);
                        self.projections.push(self.border_r);
                        self.border_r = mate;
                        Ok(())
                    },
                },
                _ => self.fail(),
            }
        } else {
            Ok(())
        }
    }

    /// Matches a symbol variable at the left end of the window.
    pub fn match_s_var_l(&mut self) -> (r: Result<(), EvalError>)
        requires
            old(self)@.wf(),
        ensures
            outcome(r, final(self)@) == machine::match_s_var_l(old(self)@),
            r is Ok ==> final(self)@.wf(),
            final(self).defs == old(self).defs,
    {
        if self.shift_border1()? {
            if self.chain.node(self.border_l).object.symbol().is_none() {
                self.fail()
            } else {
                self.projections.push(self.border_l);
                Ok(())
            }
        } else {
            Ok(())
        }
    }

    /// Matches a symbol variable at the right end of the window.
    pub fn match_s_var_r(&mut self) -> (r: Result<(), EvalError>)
        requires
            old(self)@.wf(),
        ensures
            outcome(r, final(self)@) == machine::match_s_var_r(old(self)@),
            r is Ok ==> final(self)@.wf(),
            final(self).defs == old(self).defs,
    {
        if self.shift_border2()? {
            if self.chain.node(self.border_r).object.symbol().is_none() {
                self.fail()
            } else {
                self.projections.push(self.border_r);
                Ok(())
            }
        } else {
            Ok(())
        }
    }

    /// Matches a symbol variable that is met again at the left end.
    pub fn match_s_var_l_proj(&mut self, n: usize) -> (r: Result<(), EvalError>)
        requires
            old(self)@.wf(),
        ensures
            outcome(r, final(self)@) == machine::match_s_var_l_proj(old(self)@, n as nat),
            r is Ok ==> final(self)@.wf(),
            final(self).defs == old(self).defs,
    {
        if self.shift_border1()? {
            if n >= self.projections.len() {
                return Err(EvalError::IllegalState);
            }
            let known = self.projections[n];
            if self.chain.node(self.border_l).object.same(&self.chain.node(known).object) {
                self.projections.push(self.border_l);
                Ok(())
            } else {
                self.fail()
            }
        } else {
            Ok(())
        }
    }

    /// Matches a symbol variable that is met again at the right end.
    pub fn match_s_var_r_proj(&mut self, n: usize) -> (r: Result<(), EvalError>)
        requires
            old(self)@.wf(),
        ensures
            outcome(r, final(self)@) == machine::match_s_var_r_proj(old(self)@, n as nat),
            r is Ok ==> final(self)@.wf(),
            final(self).defs == old(self).defs,
    {
        if self.shift_border2()? {
            if n >= self.projections.len() {
                return Err(EvalError::IllegalState);
            }
            let known = self.projections[n];
            if self.chain.node(self.border_r).object.same(&self.chain.node(known).object) {
                self.projections.push(self.border_r);
                Ok(())
            } else {
                self.fail()
            }
        } else {
            Ok(())
        }
    }

    /// Matches a term variable at the left end of the window.
    pub fn match_t_var_l(&mut self) -> (r: Result<(), EvalError>)
        requires
            old(self)@.wf(),
        ensures
            outcome(r, final(self)@) == machine::match_t_var_l(old(self)@),
            r is Ok ==> final(self)@.wf(),
            final(self).defs == old(self).defs,
    {
        if self.shift_border1()? {
            let node = self.chain.node(self.border_l);
            match node.object {
                Object::StrBracketL => match node.twin {
                    None => Err(EvalError::IllegalState),
                    Some(mate) => {
                        self.projections.push(self.border_l);
                        self.border_l = mate;
                        self.projections.push(mate);
                        Ok(())
                    },
                },
                _ => {
                    self.projections.push(self.border_l);
                    self.projections.push(self.border_l);
                    Ok(())
                },
            }
        } else {
            Ok(())
        }
    }

    /// Matches a term variable at the right end of the window.
    pub fn match_t_var_r(&mut self) -> (r: Result<(), EvalError>)
        requires
            old(self)@.wf(),
        ensures
            outcome(r, final(self)@) == machine::match_t_var_r(old(self)@),
            r is Ok ==> final(self)@.wf(),
            final(self).defs == old(self).defs,
    {
        if self.shift_border2()? {
            let node = self.chain.node(self.border_r);
            match node.object {
                Object::StrBracketR => match node.twin {
                    None => Err(EvalError::IllegalState),
                    Some(mate) => {
                        let to_insert = self.border_r;
                        self.border_r = mate;
                        self.projections.push(mate);
                        self.projections.push(to_insert);
                        Ok(())
                    },
                },
                _ => {
                    self.projections.push(self.border_r);
                    self.projections.push(self.border_r);
                    Ok(())
                },
            }
        } else {
            Ok(())
        }
    }

    /// Gives the whole window to an expression variable.
    pub fn match_e_var(&mut self) -> (r: Result<(), EvalError>)
        requires
            old(self)@.wf(),
        ensures
            outcome(r, final(self)@) == machine::match_e_var(old(self)@),
            r is Ok ==> final(self)@.wf(),
            final(self).defs == old(self).defs,
    {
        let start = self.chain.node(self.border_l).next;
        let end = self.chain.node(self.border_r).prev;
        match (start, end) {
            (Some(start), Some(end)) => {
                self.projections.push(start);
                self.projections.push(end);
                Ok(())
            },
            _ => Err(EvalError::IllegalState),
        }
    }

    /// Matches an expression variable that is met again at the left end.
    pub fn match_e_var_l_proj(&mut self, n: usize) -> (r: Result<(), EvalError>)
        requires
            old(self)@.wf(),
        ensures
            outcome(r, final(self)@) == machine::match_e_var_l_proj(old(self)@, n as nat),
            r is Ok ==> final(self)@.wf(),
            final(self).defs == old(self).defs,
    {
        if n == 0 || n >= self.projections.len() {
            return Err(EvalError::IllegalState);
        }
        let first = self.projections[n - 1];
        let last = self.projections[n];
        let start = match self.chain.node(self.border_l).next {
            None => { return Err(EvalError::IllegalState); },
            Some(start) => start,
        };
        let mut cursor = match self.chain.node(first).prev {
            None => { return Err(EvalError::IllegalState); },
            Some(cursor) => cursor,
        };
        let mut budget = self.chain.len();
        let ghost goal = machine::match_e_var_l_proj(old(self)@, n as nat);
        while cursor != last
            invariant
                self@.wf(),
                cursor < self@.chain.nodes.len(),
                start < self@.chain.nodes.len(),
                machine::e_var_l_walk(self@, cursor, last, start, budget as nat) == goal,
                goal == machine::match_e_var_l_proj(old(self)@, n as nat),
                self.defs == old(self).defs,
            decreases budget,
        {
            if budget == 0 {
                return Err(EvalError::IllegalState);
            }
            budget = budget - 1;
            cursor = match self.chain.node(cursor).next {
                None => { return Err(EvalError::IllegalState); },
                Some(c) => c,
            };
            if !self.shift_border1()? {
                return Ok(());
            }
            if !self.chain.node(cursor).object.same(&self.chain.node(self.border_l).object) {
                return self.fail();
            }
        }
        self.projections.push(start);
        self.projections.push(self.border_l);
        Ok(())
    }

    /// Matches an expression variable that is met again at the right end.
    pub fn match_e_var_r_proj(&mut self, n: usize) -> (r: Result<(), EvalError>)
        requires
            old(self)@.wf(),
        ensures
            outcome(r, final(self)@) == machine::match_e_var_r_proj(old(self)@, n as nat),
            r is Ok ==> final(self)@.wf(),
            final(self).defs == old(self).defs,
    {
        if n == 0 || n >= self.projections.len() {
            return Err(EvalError::IllegalState);
        }
        let first = self.projections[n - 1];
        let last = self.projections[n];
        let end = match self.chain.node(self.border_r).prev {
            None => { return Err(EvalError::IllegalState); },
            Some(end) => end,
        };
        let mut cursor = match self.chain.node(last).next {
            None => { return Err(EvalError::IllegalState); },
            Some(cursor) => cursor,
        };
        let mut budget = self.chain.len();
        let ghost goal = machine::match_e_var_r_proj(old(self)@, n as nat);
        while cursor != first
            invariant
                self@.wf(),
                cursor < self@.chain.nodes.len(),
                end < self@.chain.nodes.len(),
                machine::e_var_r_walk(self@, cursor, first, end, budget as nat) == goal,
                goal == machine::match_e_var_r_proj(old(self)@, n as nat),
                self.defs == old(self).defs,
            decreases budget,
        {
            if budget == 0 {
                return Err(EvalError::IllegalState);
            }
            budget = budget - 1;
            cursor = match self.chain.node(cursor).prev {
                None => { return Err(EvalError::IllegalState); },
                Some(c) => c,
            };
            if !self.shift_border2()? {
                return Ok(());
            }
            if !self.chain.node(cursor).object.same(&self.chain.node(self.border_r).object) {
                return self.fail();
            }
        }
        self.projections.push(self.border_r);
        self.projections.push(end);
        Ok(())
    }

    /// Moves the left border to the projection `n`.
    pub fn match_move_border_l(&mut self, n: usize) -> (r: Result<(), EvalError>)
        requires
            old(self)@.wf(),
        ensures
            outcome(r, final(self)@) == machine::match_move_border_l(old(self)@, n as nat),
            r is Ok ==> final(self)@.wf(),
            final(self).defs == old(self).defs,
    {
        if n >= self.projections.len() {
            return Err(EvalError::IllegalState);
        }
        self.border_l = self.projections[n];
        Ok(())
    }

    /// Moves the right border to the projection `n`.
    pub fn match_move_border_r(&mut self, n: usize) -> (r: Result<(), EvalError>)
        requires
            old(self)@.wf(),
        ensures
            outcome(r, final(self)@) == machine::match_move_border_r(old(self)@, n as nat),
            r is Ok ==> final(self)@.wf(),
            final(self).defs == old(self).defs,
    {
        if n >= self.projections.len() {
            return Err(EvalError::IllegalState);
        }
        self.border_r = self.projections[n];
        Ok(())
    }

    /// Starts an open expression variable out empty and pushes the choice
    /// point that lengthens it.
    pub fn prepare_lengthen(&mut self) -> (r: Result<(), EvalError>)
        requires
            old(self)@.wf(),
        ensures
            outcome(r, final(self)@) == machine::prepare_lengthen(old(self)@),
            r is Ok ==> final(self)@.wf(),
            final(self).defs == old(self).defs,
    {
        match self.chain.node(self.border_l).next {
            None => Err(EvalError::IllegalState),
            Some(start) => {
                if self.command_index >= self.commands.len() {
                    return Err(EvalError::IllegalState);
                }
                self.projections.push(start);
                self.projections.push(self.border_l);
                self.jumps.push(
                    Jump {
                        border_l: self.border_l,
                        border_r: self.border_r,
                        projection_index: self.projections.len(),
                        command_index: self.command_index,
                    },
                );
                self.command_index = self.command_index + 1;
                assert(self@.jumps =~= machine::prepare_lengthen(old(self)@)->Ok_0.jumps);
                Ok(())
            },
        }
    }

    /// Lengthens an open expression variable by one term.
    pub fn lengthen(&mut self) -> (r: Result<(), EvalError>)
        requires
            old(self)@.wf(),
        ensures
            outcome(r, final(self)@) == machine::lengthen(old(self)@),
            r is Ok ==> final(self)@.wf(),
            final(self).defs == old(self).defs,
    {
        if self.command_index == 0 {
            return Err(EvalError::IllegalState);
        }
        match self.projections.pop() {
            None => Err(EvalError::IllegalState),
            Some(end) => {
                self.border_l = end;
                assert(self.projections@ =~= old(self)@.projections.drop_last());
                let ghost popped = self@;
                if self.shift_border1()? {
                    let node = self.chain.node(self.border_l);
                    match node.object {
                        Object::StrBracketL => match node.twin {
                            None => { return Err(EvalError::IllegalState); },
                            Some(mate) => {
                                self.border_l = mate;
                            },
                        },
                        _ => {},
                    }
                    self.projections.push(self.border_l);
                    self.jumps.push(
                        Jump {
                            border_l: self.border_l,
                            border_r: self.border_r,
                            projection_index: self.projections.len(),
                            command_index: self.command_index - 1,
                        },
                    );
                    assert(self@.jumps =~= machine::lengthen(old(self)@)->Ok_0.jumps);
                    Ok(())
                } else {
                    Ok(())
                }
            },
        }
    }

    /// Pushes the choice point that leads to the next sentence.
    pub fn setup_transition(&mut self, command_index: usize) -> (r: Result<(), EvalError>)
        requires
            old(self)@.wf(),
        ensures
            outcome(r, final(self)@) == machine::setup_transition(old(self)@, command_index as nat),
            r is Ok ==> final(self)@.wf(),
            final(self).defs == old(self).defs,
    {
        self.jumps.push(
            Jump {
                border_l: self.border_l,
                border_r: self.border_r,
                projection_index: self.projections.len(),
                command_index,
            },
        );
        assert(self@.jumps =~= machine::setup_transition(
            old(self)@,
            command_index as nat,
        )->Ok_0.jumps);
        Ok(())
    }

    /// Gives up the newest `n` choice points.
    pub fn constrain_lengthen(&mut self, n: usize) -> (r: Result<(), EvalError>)
        requires
            old(self)@.wf(),
        ensures
            outcome(r, final(self)@) == machine::constrain_lengthen(old(self)@, n as nat),
            r is Ok ==> final(self)@.wf(),
            final(self).defs == old(self).defs,
    {
        let keep = if n >= self.jumps.len() {
            0
        } else {
            self.jumps.len() - n
        };
        self.jumps.truncate(keep);
        assert(self@.jumps =~= machine::constrain_lengthen(old(self)@, n as nat)->Ok_0.jumps);
        Ok(())
    }

    /// Copies the value between the projections `n - 1` and `n` in behind
    /// the border.
    pub fn copy_expr(&mut self, b: &mut Builder, n: usize) -> (r: Result<(), EvalError>)
        requires
            build_wf(old(self)@, old(b).on(old(self)@.chain.nodes)),
        ensures
            machine::copy_expr(
                old(b).on(old(self)@.chain.nodes),
                old(self)@.projections,
                n as nat,
            ) == match r {
                Ok(_) => Ok(final(b).on(final(self)@.chain.nodes)),
                Err(e) => Err(e@),
            },
            r is Ok ==> build_wf(final(self)@, final(b).on(final(self)@.chain.nodes)),
            final(self)@ == old(self)@.with_nodes(final(self)@.chain.nodes),
            final(self).defs == old(self).defs,
            final(self).commands == old(self).commands,
    {
        if n == 0 || n >= self.projections.len() {
            return Err(EvalError::IllegalState);
        }
        let first = self.projections[n - 1];
        let last = self.projections[n];
        let mut cursor = match self.chain.node(first).prev {
            None => { return Err(EvalError::IllegalState); },
            Some(cursor) => cursor,
        };
        let next = match self.chain.node(b.border).next {
            None => { return Err(EvalError::IllegalState); },
            Some(next) => next,
        };
        let mut budget = self.chain.len();
        let ghost start = b.on(self@.chain.nodes);
        let ghost cursor0 = cursor;
        let ghost goal = machine::copy_walk(start, cursor, last, budget as nat);
        while cursor != last
            invariant
                n != 0,
                n < old(self)@.projections.len(),
                last == old(self)@.projections[n as int],
                old(self)@.chain.nodes[old(self)@.projections[n - 1] as int].prev == Some(cursor0),
                old(self)@.chain.nodes[old(b).border as int].next == Some(next),
                start == old(b).on(old(self)@.chain.nodes),
                goal == machine::copy_walk(start, cursor0, last, start.nodes.len()),
                build_wf(self@, b.on(self@.chain.nodes)),
                cursor < self@.chain.nodes.len(),
                next < self@.chain.nodes.len(),
                machine::copy_walk(b.on(self@.chain.nodes), cursor, last, budget as nat) == goal,
                self@ == old(self)@.with_nodes(self@.chain.nodes),
                self.defs == old(self).defs,
                self.commands == old(self).commands,
            decreases budget,
        {
            if budget == 0 {
                return Err(EvalError::IllegalState);
            }
            budget = budget - 1;
            cursor = match self.chain.node(cursor).next {
                None => { return Err(EvalError::IllegalState); },
                Some(c) => c,
            };
            let ghost before = b.on(self@.chain.nodes);
            match &self.chain.node(cursor).object {
                Object::Symbol(sym) => {
                    let copy = Object::Symbol(sym.clone());
                    b.border = attach_after(&mut self.chain, b.border, copy);
                    proof {
                        machine::lemma_attach(old(self)@, before, copy@);
                    }
                },
                Object::StrBracketL => {
                    b.border = attach_after(&mut self.chain, b.border, Object::StrBracketL);
                    proof {
                        machine::lemma_attach(old(self)@, before, ObjectView::StrBracketL);
                        machine::lemma_open(self@, b.on(self@.chain.nodes), true);
                    }
                    b.l_brackets.push(b.border);
                },
                Object::StrBracketR => {
                    b.border = attach_after(&mut self.chain, b.border, Object::StrBracketR);
                    proof {
                        machine::lemma_attach(old(self)@, before, ObjectView::StrBracketR);
                        if b.l_brackets.len() > 0 {
                            machine::lemma_close(self@, b.on(self@.chain.nodes), true);
                        }
                    }
                    match b.l_brackets.pop() {
                        None => { return Err(EvalError::IllegalState); },
                        Some(open) => {
                            pair_nodes(&mut self.chain, open, b.border);
                        },
                    }
                },
                _ => { return Err(EvalError::IllegalState); },
            }
        }
        link_nodes(&mut self.chain, b.border, next);
        proof {
            machine::lemma_relink_wf(old(self)@, b.on(self@.chain.nodes), next);
        }
        Ok(())
    }

    /// Closes the step: the matched call leaves the chain, the deferred
    /// moves are made, and the calls that were built become pending.
    pub fn finalize(&mut self, b: Builder) -> (r: Result<(), EvalError>)
        requires
            build_wf(old(self)@, b.on(old(self)@.chain.nodes)),
        ensures
            outcome(r, final(self)@) == machine::finalize(
                old(self)@,
                b.on(old(self)@.chain.nodes),
            ),
            r is Ok ==> final(self)@.wf(),
            final(self).defs == old(self).defs,
    {
        if self.projections.len() < 3 || b.l_brackets.len() > 0 || b.l_fun_brackets.len() > 0 {
            return Err(EvalError::IllegalState);
        }
        let ghost start = b.on(self@.chain.nodes);
        assert(machine::pending(start) =~= Set::empty());
        let call_end = self.projections[2];
        if !splice_out(&mut self.chain, b.border, call_end) {
            return Err(EvalError::IllegalState);
        }
        let mut transplants = b.transplants;
        if !apply_transplants(&mut self.chain, &mut transplants) {
            return Err(EvalError::IllegalState);
        }
        let mut local_dots = b.local_dots;
        push_reversed(&mut self.dots, &mut local_dots);
        self.projections.clear();
        Ok(())
    }

    /// Splices a node with `object`, which is no bracket, in behind the
    /// border.
    pub fn build_plain(&mut self, b: &mut Builder, object: Object) -> (r: Result<(), EvalError>)
        requires
            build_wf(old(self)@, old(b).on(old(self)@.chain.nodes)),
            !object@.is_bracket(),
        ensures
            machine::insert(old(b).on(old(self)@.chain.nodes), object@) == match r {
                Ok(_) => Ok(final(b).on(final(self)@.chain.nodes)),
                Err(e) => Err(e@),
            },
            r is Ok ==> build_wf(final(self)@, final(b).on(final(self)@.chain.nodes)),
            final(self)@ == old(self)@.with_nodes(final(self)@.chain.nodes),
            final(self).defs == old(self).defs,
            final(self).commands == old(self).commands,
    {
        let ghost before = b.on(self@.chain.nodes);
        match insert_after(&mut self.chain, b.border, object) {
            None => Err(EvalError::IllegalState),
            Some(id) => {
                b.border = id;
                proof {
                    machine::lemma_insert(old(self)@, before, object@);
                }
                Ok(())
            },
        }
    }

    /// Splices a left bracket in behind the border; it waits for its mate.
    pub fn build_open(&mut self, b: &mut Builder, structural: bool) -> (r: Result<(), EvalError>)
        requires
            build_wf(old(self)@, old(b).on(old(self)@.chain.nodes)),
        ensures
            machine::build_one(
                old(b).on(old(self)@.chain.nodes),
                old(self)@.projections,
                if structural {
                    crate::data::CommandView::InsertStrBracketL
                } else {
                    crate::data::CommandView::InsertFunBracketL
                },
            ) == match r {
                Ok(_) => Ok(final(b).on(final(self)@.chain.nodes)),
                Err(e) => Err(e@),
            },
            r is Ok ==> build_wf(final(self)@, final(b).on(final(self)@.chain.nodes)),
            final(self)@ == old(self)@.with_nodes(final(self)@.chain.nodes),
            final(self).defs == old(self).defs,
            final(self).commands == old(self).commands,
    {
        let ghost before = b.on(self@.chain.nodes);
        let object = if structural {
            Object::StrBracketL
        } else {
            Object::FunBracketL
        };
        match insert_after(&mut self.chain, b.border, object) {
            None => Err(EvalError::IllegalState),
            Some(id) => {
                b.border = id;
                proof {
                    machine::lemma_insert(old(self)@, before, object@);
                    assert(!b.l_brackets@.contains(id)) by {
                        if b.l_brackets@.contains(id) {
                            let k = choose|k: int|
                                0 <= k < b.l_brackets@.len() && b.l_brackets@[k] == id;
                        }
                    }
                    assert(!b.l_fun_brackets@.contains(id)) by {
                        if b.l_fun_brackets@.contains(id) {
                            let k = choose|k: int|
                                0 <= k < b.l_fun_brackets@.len() && b.l_fun_brackets@[k] == id;
                        }
                    }
                    machine::lemma_open(old(self)@, b.on(self@.chain.nodes), structural);
                }
                if structural {
                    b.l_brackets.push(id);
                } else {
                    b.l_fun_brackets.push(id);
                }
                Ok(())
            },
        }
    }

    /// Splices a right bracket in behind the border and pairs it with the
    /// newest waiting left bracket of its kind. A call bracket that is
    /// closed is a call to make.
    pub fn build_close(&mut self, b: &mut Builder, structural: bool) -> (r: Result<(), EvalError>)
        requires
            build_wf(old(self)@, old(b).on(old(self)@.chain.nodes)),
        ensures
            machine::build_one(
                old(b).on(old(self)@.chain.nodes),
                old(self)@.projections,
                if structural {
                    crate::data::CommandView::InsertStrBracketR
                } else {
                    crate::data::CommandView::InsertFunBracketR
                },
            ) == match r {
                Ok(_) => Ok(final(b).on(final(self)@.chain.nodes)),
                Err(e) => Err(e@),
            },
            r is Ok ==> build_wf(final(self)@, final(b).on(final(self)@.chain.nodes)),
            final(self)@ == old(self)@.with_nodes(final(self)@.chain.nodes),
            final(self).defs == old(self).defs,
            final(self).commands == old(self).commands,
    {
        let ghost before = b.on(self@.chain.nodes);
        let object = if structural {
            Object::StrBracketR
        } else {
            Object::FunBracketR
        };
        match insert_after(&mut self.chain, b.border, object) {
            None => Err(EvalError::IllegalState),
            Some(id) => {
                b.border = id;
                let ghost inserted = b.on(self@.chain.nodes);
                proof {
                    machine::lemma_insert(old(self)@, before, object@);
                }
                let waiting = if structural {
                    b.l_brackets.pop()
                } else {
                    b.l_fun_brackets.pop()
                };
                match waiting {
                    None => Err(EvalError::IllegalState),
                    Some(open) => {
                        proof {
                            machine::lemma_close(old(self)@, inserted, structural);
                        }
                        pair_nodes(&mut self.chain, open, id);
                        if !structural {
                            b.local_dots.push(id);
                        }
                        Ok(())
                    },
                }
            },
        }
    }

    /// Carries out one instruction of the construction phase.
    pub fn build_step(&mut self, b: &mut Builder, cmd: &Command) -> (r: Result<(), EvalError>)
        requires
            build_wf(old(self)@, old(b).on(old(self)@.chain.nodes)),
        ensures
            machine::build_one(
                old(b).on(old(self)@.chain.nodes),
                old(self)@.projections,
                cmd@,
            ) == match r {
                Ok(_) => Ok(final(b).on(final(self)@.chain.nodes)),
                Err(e) => Err(e@),
            },
            r is Ok ==> build_wf(final(self)@, final(b).on(final(self)@.chain.nodes)),
            final(self)@ == old(self)@.with_nodes(final(self)@.chain.nodes),
            final(self).defs == old(self).defs,
            final(self).commands == old(self).commands,
    {
        let ghost before = b.on(self@.chain.nodes);
        match cmd {
            Command::InsertSymbol(sym) => self.build_plain(b, Object::Symbol(sym.clone())),
            Command::InsertStrBracketL => self.build_open(b, true),
            Command::InsertStrBracketR => self.build_close(b, true),
            Command::InsertFunBracketL => self.build_open(b, false),
            Command::InsertFunBracketR => self.build_close(b, false),
            Command::TransplantObject(n) => {
                if *n >= self.projections.len() {
                    return Err(EvalError::IllegalState);
                }
                let node = self.projections[*n];
                b.transplants.push(Move { border: b.border, start: node, end: node });
                assert(b.transplants.deep_view() =~= before.transplants.push(
                    Transplant { border: b.border, start: node, end: node },
                ));
                assert(machine::pending(b.on(self@.chain.nodes)) == machine::pending(before));
                Ok(())
            },
            Command::TransplantExpr(n) => {
                if *n == 0 || *n >= self.projections.len() {
                    return Err(EvalError::IllegalState);
                }
                let start = self.projections[*n - 1];
                let end = self.projections[*n];
                let adjacent = match self.chain.node(end).next {
                    Some(next) => next == start,
                    None => false,
                };
                if !adjacent {
                    b.transplants.push(Move { border: b.border, start, end });
                    assert(b.transplants.deep_view() =~= before.transplants.push(
                        Transplant { border: b.border, start, end },
                    ));
                    assert(machine::pending(b.on(self@.chain.nodes)) == machine::pending(before));
                }
                Ok(())
            },
            Command::CopySymbol(n) => {
                if *n >= self.projections.len() {
                    return Err(EvalError::IllegalState);
                }
                let source = self.projections[*n];
                match &self.chain.node(source).object {
                    Object::Symbol(sym) => self.build_plain(b, Object::Symbol(sym.clone())),
                    _ => Err(EvalError::IllegalState),
                }
            },
            Command::CopyExpr(n) => self.copy_expr(b, *n),
            _ => Err(EvalError::IllegalState),
        }
    }

    /// The construction phase of a step, from the first instruction after
    /// the match to the one that finalizes.
    pub fn rewrite_start(&mut self) -> (r: Result<(), EvalError>)
        requires
            old(self)@.wf(),
        ensures
            outcome(r, final(self)@) == machine::rewrite_start(old(self)@),
            r is Ok ==> final(self)@.wf(),
            final(self).defs == old(self).defs,
    {
        if self.projections.len() == 0 {
            return Err(EvalError::IllegalState);
        }
        self.jumps.clear();
        let mut b = Builder {
            border: self.projections[0],
            local_dots: Vec::new(),
            l_brackets: Vec::new(),
            l_fun_brackets: Vec::new(),
            transplants: Vec::new(),
        };
        let commands: &'a Vec<Command> = self.commands;
        let ghost base = self@;
        assert(self.jumps.deep_view() =~= Seq::empty());
        assert(b.transplants.deep_view() =~= Seq::empty());
        assert(base == State { jumps: Seq::empty(), ..old(self)@ });
        assert(machine::pending(b.on(base.chain.nodes)) =~= Set::empty());
        loop
            invariant
                commands == self.commands,
                self.defs == old(self).defs,
                base == (State { jumps: Seq::empty(), ..old(self)@ }),
                old(self)@.projections.len() > 0,
                self@ == (State { pc: self@.pc, ..base.with_nodes(self@.chain.nodes) }),
                build_wf(self@, b.on(self@.chain.nodes)),
                machine::build(self@.with_nodes(base.chain.nodes), b.on(self@.chain.nodes))
                    == machine::rewrite_start(old(self)@),
            decreases self@.commands.len() - self@.pc,
        {
            if self.command_index >= commands.len() {
                return Err(EvalError::IllegalState);
            }
            let cmd = &commands[self.command_index];
            assert(cmd@ == self@.commands[self@.pc as int]);
            self.command_index = self.command_index + 1;
            match cmd {
                Command::RewriteFinalize => {
                    return self.finalize(b);
                },
                _ => {
                    self.build_step(&mut b, cmd)?;
                },
            }
        }
    }

    /// Starts the next pending call, or halts where none is pending.
    pub fn match_start(&mut self) -> (r: Result<(), EvalError>)
        requires
            old(self)@.wf(),
        ensures
            outcome(r, final(self)@) == machine::match_start(old(self).defs@, old(self)@),
            r is Ok ==> final(self)@.wf(),
            final(self).defs == old(self).defs,
    {
        if self.dots.len() == 0 {
            self.end = true;
            return Ok(());
        }
        let dot = self.dots[self.dots.len() - 1];
        let defs: &'a Program = self.defs;
        let (before, fun, commands) = resolve(defs, &self.chain, dot)?;
        self.dots.pop();
        self.border_l = fun;
        self.border_r = dot;
        self.commands = commands;
        self.command_index = 0;
        self.projections.clear();
        self.projections.push(before);
        self.projections.push(fun);
        self.projections.push(dot);
        assert(self@.dots =~= old(self)@.dots.drop_last());
        assert(self@.projections =~= seq![before, fun, dot]);
        Ok(())
    }

    /// Carries out `cmd`; the program counter is already past it.
    pub fn execute_cmd(&mut self, cmd: &Command) -> (r: Result<(), EvalError>)
        requires
            old(self)@.wf(),
        ensures
            outcome(r, final(self)@) == machine::execute(old(self).defs@, old(self)@, cmd@),
            r is Ok ==> final(self)@.wf(),
            final(self).defs == old(self).defs,
    {
        reveal(machine::execute);
        match cmd {
            Command::MatchStart => self.match_start(),
            Command::MatchEmpty => self.match_empty(),
            Command::MatchStrBracketL => self.match_str_bracket_l(),
            Command::MatchStrBracketR => self.match_str_bracket_r(),
            Command::MatchSymbolL(symbol) => self.match_symbol_l(symbol),
            Command::MatchSymbolR(symbol) => self.match_symbol_r(symbol),
            Command::MatchSVarL => self.match_s_var_l(),
            Command::MatchSVarR => self.match_s_var_r(),
            Command::MatchSVarLProj(n) => self.match_s_var_l_proj(*n),
            Command::MatchSVarRProj(n) => self.match_s_var_r_proj(*n),
            Command::MatchTVarL => self.match_t_var_l(),
            Command::MatchTVarR => self.match_t_var_r(),
            Command::MatchEVarPrepare => self.prepare_lengthen(),
            Command::MatchEVar => self.match_e_var(),
            Command::MatchEVarLengthen => self.lengthen(),
            Command::MatchEVarLProj(n) => self.match_e_var_l_proj(*n),
            Command::MatchEVarRProj(n) => self.match_e_var_r_proj(*n),
            Command::MatchMoveBorderL(n) => self.match_move_border_l(*n),
            Command::MatchMoveBorderR(n) => self.match_move_border_r(*n),
            Command::SetupTransition(n) => self.setup_transition(*n),
            Command::ConstrainLengthen(n) => self.constrain_lengthen(*n),
            Command::RewriteStart => self.rewrite_start(),
            _ => Err(EvalError::IllegalState),
        }
    }

    /// One step of the machine.
    pub fn step(&mut self) -> (r: Result<(), EvalError>)
        requires
            old(self)@.wf(),
        ensures
            outcome(r, final(self)@) == machine::step(old(self).defs@, old(self)@),
            r is Ok ==> final(self)@.wf(),
            final(self).defs == old(self).defs,
    {
        let commands: &'a Vec<Command> = self.commands;
        if self.command_index >= commands.len() {
            return Err(EvalError::IllegalState);
        }
        let cmd = &commands[self.command_index];
        assert(cmd@ == self@.commands[self@.pc as int]);
        self.command_index = self.command_index + 1;
        self.execute_cmd(cmd)
    }
}

/// Takes the matched call out of the chain: what was built before it is
/// linked to what follows its closing bracket `call_end`. `false`, where a
/// link that this needs is missing.
pub fn splice_out(chain: &mut Chain, border: usize, call_end: usize) -> (done: bool)
    requires
        old(chain)@.wf(),
        border < old(chain)@.nodes.len(),
        call_end < old(chain)@.nodes.len(),
    ensures
        final(chain)@.wf(),
        final(chain)@.first == old(chain)@.first,
        final(chain)@.last == old(chain)@.last,
        final(chain)@.nodes.len() == old(chain)@.nodes.len(),
        forall|i: int|
            0 <= i < old(chain)@.nodes.len() ==> (#[trigger] final(chain)@.nodes[i]).object == old(
                chain,
            )@.nodes[i].object && final(chain)@.nodes[i].twin == old(chain)@.nodes[i].twin,
        forall|b: Build|
            b.nodes == old(chain)@.nodes && b.border == border ==> #[trigger] machine::splice_out(
                b,
                call_end,
            ) == (if done {
                Ok::<_, FailureView>(final(chain)@.nodes)
            } else {
                Err(FailureView::IllegalState)
            }),
{
    if border == call_end {
        return true;
    }
    let next = match chain.node(call_end).next {
        None => { return false; },
        Some(next) => next,
    };
    let first_out = match chain.node(border).next {
        None => { return false; },
        Some(first_out) => first_out,
    };
    let ghost start = chain@.nodes;
    unlink_prev(chain, first_out);
    unlink_next(chain, call_end);
    link_nodes(chain, border, next);
    proof {
        let n1 = crate::runtime::unlink_prev_spec(start, first_out);
        let n2 = crate::runtime::unlink_next_spec(n1, call_end);
        machine::lemma_link_keeps(n2, border, next);
        assert forall|i: int| 0 <= i < start.len() implies (#[trigger] chain@.nodes[i]).object
            == start[i].object && chain@.nodes[i].twin == start[i].twin by {
            let _ = n2[i];
            let _ = n1[i];
        }
    }
    true
}

/// Makes the deferred moves, the newest first. `false`, where a link that
/// a move needs is missing.
pub fn apply_transplants(chain: &mut Chain, transplants: &mut Vec<Move>) -> (done: bool)
    requires
        old(chain)@.wf(),
        forall|i: int|
            0 <= i < old(transplants).len() ==> (#[trigger] old(transplants).deep_view()[i]).border
                < old(chain)@.nodes.len() && old(transplants).deep_view()[i].start < old(
                chain,
            )@.nodes.len() && old(transplants).deep_view()[i].end < old(chain)@.nodes.len(),
    ensures
        final(chain)@.wf(),
        final(chain)@.first == old(chain)@.first,
        final(chain)@.last == old(chain)@.last,
        final(chain)@.nodes.len() == old(chain)@.nodes.len(),
        forall|i: int|
            0 <= i < old(chain)@.nodes.len() ==> (#[trigger] final(chain)@.nodes[i]).object == old(
                chain,
            )@.nodes[i].object && final(chain)@.nodes[i].twin == old(chain)@.nodes[i].twin,
        machine::apply_transplants(old(chain)@.nodes, old(transplants).deep_view()) == (if done {
            Ok::<_, FailureView>(final(chain)@.nodes)
        } else {
            Err(FailureView::IllegalState)
        }),
{
    let ghost start = chain@.nodes;
    while transplants.len() > 0
        invariant
            chain@.wf(),
            chain@.first == old(chain)@.first,
            chain@.last == old(chain)@.last,
            chain@.nodes.len() == start.len(),
            start == old(chain)@.nodes,
            forall|i: int|
                0 <= i < start.len() ==> (#[trigger] chain@.nodes[i]).object == start[i].object
                    && chain@.nodes[i].twin == start[i].twin,
            forall|i: int|
                0 <= i < transplants.len() ==> (#[trigger] transplants.deep_view()[i]).border
                    < start.len() && transplants.deep_view()[i].start < start.len()
                    && transplants.deep_view()[i].end < start.len(),
            machine::apply_transplants(chain@.nodes, transplants.deep_view())
                == machine::apply_transplants(start, old(transplants).deep_view()),
        decreases transplants.len(),
    {
        let ghost before = transplants.deep_view();
        let ghost nodes = chain@.nodes;
        let t = transplants.pop().unwrap();
        assert(t@ == before.last());
        assert(transplants.deep_view() =~= before.drop_last());
        let prev = match chain.node(t.start).prev {
            None => { return false; },
            Some(prev) => prev,
        };
        let after = match chain.node(t.end).next {
            None => { return false; },
            Some(after) => after,
        };
        link_nodes(chain, prev, after);
        let next = match chain.node(t.border).next {
            None => { return false; },
            Some(next) => next,
        };
        link_nodes(chain, t.end, next);
        link_nodes(chain, t.border, t.start);
        proof {
            let cut = crate::runtime::link_spec(nodes, prev, after);
            let n2 = crate::runtime::link_spec(cut, t.end, next);
            machine::lemma_link_keeps(nodes, prev, after);
            machine::lemma_link_keeps(cut, t.end, next);
            machine::lemma_link_keeps(n2, t.border, t.start);
            assert forall|i: int| 0 <= i < start.len() implies (#[trigger] chain@.nodes[i]).object
                == start[i].object && chain@.nodes[i].twin == start[i].twin by {
                let _ = n2[i];
                let _ = cut[i];
                let _ = nodes[i];
            }
            assert forall|i: int| 0 <= i < transplants.len() implies (
            #[trigger] transplants.deep_view()[i]).border < start.len()
                && transplants.deep_view()[i].start < start.len()
                && transplants.deep_view()[i].end < start.len() by {
                let _ = before[i];
            }
        }
    }
    true
}

/// Moves the elements of `from` onto `onto`, the last first.
pub fn push_reversed(onto: &mut Vec<usize>, from: &mut Vec<usize>)
    ensures
        final(onto)@ == old(onto)@ + old(from)@.reverse(),
        final(from)@.len() == 0,
{
    while from.len() > 0
        invariant
            onto@ + from@.reverse() == old(onto)@ + old(from)@.reverse(),
        decreases from.len(),
    {
        let ghost before = from@;
        let ghost was = onto@;
        let id = from.pop().unwrap();
        onto.push(id);
        assert(onto@ + from@.reverse() =~= was + before.reverse());
    }
    assert(from@.reverse() =~= Seq::empty());
    assert(onto@ =~= old(onto)@ + old(from)@.reverse());
}

/// Finds the call that the pending activation `dot` stands for.
pub fn resolve<'a>(defs: &'a Program, chain: &Chain, dot: usize) -> (r: Result<
    (usize, usize, &'a Vec<Command>),
    EvalError,
>)
    requires
        chain@.wf(),
        dot < chain@.nodes.len(),
    ensures
        machine::resolve(defs@, chain@.nodes, dot) == match r {
            Ok((before, fun, commands)) => Ok((before, fun, commands.deep_view())),
            Err(e) => Err(e@),
        },
        r matches Ok((before, fun, _)) ==> before < chain@.nodes.len() && fun
            < chain@.nodes.len(),
{
    let open = match chain.node(dot).twin {
        None => { return Err(EvalError::IllegalState); },
        Some(open) => open,
    };
    let fun = chain.node(open).next;
    let before = chain.node(open).prev;
    match (fun, before) {
        (Some(fun), Some(before)) => match chain.node(fun).object.symbol() {
            None => Err(EvalError::IllegalState),
            Some(name) => match defs.get(name.as_str()) {
                None => Err(EvalError::UndefinedFunction(name.clone())),
                Some(commands) => Ok((before, fun, commands)),
            },
        },
        _ => Err(EvalError::IllegalState),
    }
}

/// The machine at the start of the newest pending call of `dots`.
pub fn init_vm<'a>(defs: &'a Program, dots: Vec<usize>, chain: Chain) -> (r: Result<
    VM<'a>,
    EvalError,
>)
    requires
        chain@.wf(),
        crate::runtime::brackets_paired(chain@.nodes, Set::empty()),
        machine::ids_below(dots@, chain@.nodes.len()),
        dots@.len() > 0,
    ensures
        machine::match_start(defs@, machine::blank(chain@, dots@)) == match r {
            Ok(vm) => Ok(vm@),
            Err(e) => Err(e@),
        },
        r matches Ok(vm) ==> vm@.wf() && vm.defs == defs,
{
    let mut dots = dots;
    let dot = dots[dots.len() - 1];
    let (before, fun, commands) = resolve(defs, &chain, dot)?;
    dots.pop();
    let mut projections: Vec<usize> = Vec::new();
    projections.push(before);
    projections.push(fun);
    projections.push(dot);
    let vm = VM {
        defs,
        commands,
        command_index: 0,
        projections,
        jumps: Vec::new(),
        border_l: fun,
        border_r: dot,
        dots,
        end: false,
        chain,
    };
    assert(vm@.jumps =~= Seq::empty());
    assert(vm@.projections =~= seq![before, fun, dot]);
    Ok(vm)
}

/// The most steps that [`eval_main`] takes.
pub const STEP_LIMIT: u64 = 0xffff_ffff_ffff_ffff;

/// Evaluates the pending calls `dots` of `chain`, in at most `limit`
/// steps, and returns the view field in which the evaluation ends.
pub fn eval(defs: &Program, dots: Vec<usize>, chain: Chain, limit: u64) -> (r: Result<
    Chain,
    EvalError,
>)
    requires
        chain@.wf(),
        crate::runtime::brackets_paired(chain@.nodes, Set::empty()),
        machine::ids_below(dots@, chain@.nodes.len()),
        dots@.len() > 0,
    ensures
        machine::eval(defs@, chain@, dots@, limit as nat) == match r {
            Ok(c) => Ok(c@),
            Err(e) => Err(e@),
        },
        r matches Ok(c) ==> c@.wf() && crate::runtime::brackets_paired(c@.nodes, Set::empty()),
{
    let ghost chain0 = chain@;
    let ghost dots0 = dots@;
    let mut vm = init_vm(defs, dots, chain)?;
    let ghost start = vm@;
    let mut left = limit;
    while !vm.end
        invariant
            vm@.wf(),
            vm.defs == defs,
            chain0 == chain@,
            dots0 == dots@,
            machine::match_start(defs@, machine::blank(chain0, dots0)) == Ok::<State, FailureView>(
                start,
            ),
            machine::run(defs@, vm@, left as nat) == machine::run(defs@, start, limit as nat),
        decreases left,
    {
        if left == 0 {
            return Err(EvalError::StepLimit);
        }
        left = left - 1;
        vm.step()?;
    }
    Ok(vm.chain)
}

/// Evaluates the call of `main` with no argument and returns the
/// expression that is left when no call is pending any more.
pub fn eval_main(defs: &Program, main: &str) -> (r: Result<Vec<Object>, EvalError>)
    ensures
        machine::eval_main(defs@, main@, STEP_LIMIT as nat) == match r {
            Ok(objects) => Ok(objects.deep_view()),
            Err(e) => Err(e@),
        },
{
    let (dots, chain) = init_view(main);
    let chain = eval(defs, dots, chain, STEP_LIMIT)?;
    if !connected(&chain) {
        return Err(EvalError::IllegalState);
    }
    Ok(flatten(&chain))
}

} // verus!
