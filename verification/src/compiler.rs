//! The compiler: from a module to the instruction list of each function.
//!
//! The pattern of a sentence is compiled by working off holes, as `pattern`
//! defines it; a hole is kept as a range of the pattern. Every function
//! here is proved to compute what `pattern` and `lowering` define.

use crate::data::{Command, CommandView, Function, Object, ObjectView, Program, RefalModule};
use crate::data::{Error, Sentence};
use crate::parser::parse_input;
use crate::lowering;
use crate::pattern;
use crate::pattern::{DecompositionView, HoleView, PatternState};
use crate::pattern_laws;
use vstd::hash_map::StringHashMap;
use vstd::hash_set::StringHashSet;
use vstd::prelude::*;
use vstd::string::StringExecFns;

verus! {

/// A hole: the objects of the pattern from `start` up to `end`, between
/// the projection slots `border_l` and `border_r`.
#[derive(Clone, Copy, Debug)]
pub struct Hole {
    pub border_l: usize,
    pub border_r: usize,
    pub start: usize,
    pub end: usize,
}

impl Hole {
    /// The hole as a slice of `pattern`.
    pub open spec fn on(self, pattern: Seq<ObjectView>) -> HoleView {
        HoleView {
            border_l: self.border_l as nat,
            border_r: self.border_r as nat,
            objects: pattern.subrange(self.start as int, self.end as int),
        }
    }

    /// The hole is a range of a pattern of `len` objects.
    pub open spec fn within(self, len: nat) -> bool {
        self.start <= self.end <= len
    }
}

/// The holes as slices of `pattern`.
pub open spec fn holes_on(holes: Seq<Hole>, pattern: Seq<ObjectView>) -> Seq<HoleView> {
    Seq::new(holes.len(), |i: int| holes[i].on(pattern))
}

/// The classes that were put off as slices of `pattern`.
pub open spec fn stack_on(stack: Seq<Vec<Hole>>, pattern: Seq<ObjectView>) -> Seq<Seq<HoleView>> {
    Seq::new(stack.len(), |j: int| holes_on(stack[j]@, pattern))
}

/// The slots of the variables as naturals.
pub open spec fn slots(vars: Map<Seq<char>, usize>) -> Map<Seq<char>, nat> {
    Map::new(|v: Seq<char>| vars.contains_key(v), |v: Seq<char>| vars[v] as nat)
}

/// The transition depths as naturals.
pub open spec fn depths(stack: Seq<usize>) -> Seq<nat> {
    Seq::new(stack.len(), |j: int| stack[j] as nat)
}

/// The state of the compilation of one pattern.
pub struct State<'a> {
    pub pattern: &'a Vec<Object>,
    pub border_l: usize,
    pub border_r: usize,
    pub next_element: usize,
    pub transition_depth: usize,
    pub projected_vars: StringHashMap<usize>,
    pub holes_stack: Vec<Vec<Hole>>,
    pub holes: Vec<Hole>,
    pub transition_depth_stack: Vec<usize>,
    pub commands: Vec<Command>,
}

impl<'a> View for State<'a> {
    type V = PatternState;

    open spec fn view(&self) -> PatternState {
        PatternState {
            border_l: self.border_l as nat,
            border_r: self.border_r as nat,
            next_element: self.next_element as nat,
            transition_depth: self.transition_depth as nat,
            projected_vars: slots(self.projected_vars@),
            holes: holes_on(self.holes@, self.pattern.deep_view()),
            holes_stack: stack_on(self.holes_stack@, self.pattern.deep_view()),
            transition_depth_stack: depths(self.transition_depth_stack@),
            commands: self.commands.deep_view(),
        }
    }
}

impl<'a> State<'a> {
    /// The invariant: that of the compilation, every hole is a range of
    /// the pattern, and the slots given out and what is left to do stay
    /// within what the pattern's length allows.
    pub open spec fn inv(&self) -> bool {
        &&& self@.wf()
        &&& forall|i: int| 0 <= i < self.holes@.len() ==> (#[trigger] self.holes@[i]).within(self.pattern@.len())
        &&& forall|j: int, i: int|
            0 <= j < self.holes_stack@.len() && 0 <= i < self.holes_stack@[j]@.len() ==> (
            #[trigger] self.holes_stack@[j]@[i]).within(self.pattern@.len())
        &&& self@.next_element + pattern::total(self@) <= 4 + 2 * self.pattern@.len()
        &&& 4 + 2 * self.pattern@.len() <= usize::MAX
        &&& self@.transition_depth <= self@.next_element
    }

    /// The object `i` of the pattern.
    pub fn object(&self, i: usize) -> (r: &'a Object)
        requires
            i < self.pattern@.len(),
        ensures
            r@ == self.pattern.deep_view()[i as int],
    {
        &self.pattern[i]
    }

    /// The slot of a variable, if it has one.
    pub fn slot(&self, v: &String) -> (r: Option<usize>)
        ensures
            match r {
                Some(slot) => self@.projected().contains(v@) && self@.projected_vars[v@] == slot,
                None => !self@.projected().contains(v@),
            },
    {
        match self.projected_vars.get(v.as_str()) {
            Some(slot) => Some(*slot),
            None => None,
        }
    }

    /// Appends a command.
    pub fn emit(&mut self, cmd: Command)
        ensures
            final(self)@ == old(self)@.emit(cmd@),
            final(self).pattern == old(self).pattern,
            final(self).holes == old(self).holes,
            final(self).holes_stack == old(self).holes_stack,
    {
        self.commands.push(cmd);
        assert(self.commands.deep_view() =~= old(self).commands.deep_view().push(cmd@));
    }

    /// Gives a variable its slot.
    pub fn bind(&mut self, v: &String, slot: usize)
        ensures
            final(self)@ == old(self)@.bind(v@, slot as nat),
            final(self).pattern == old(self).pattern,
            final(self).holes == old(self).holes,
            final(self).holes_stack == old(self).holes_stack,
    {
        self.projected_vars.insert(v.clone(), slot);
        assert(slots(self.projected_vars@) =~= slots(old(self).projected_vars@).insert(
            v@,
            slot as nat,
        ));
    }
}

/// The first hole that can be matched from an end.
pub fn find_hole(state: &State) -> (r: Option<usize>)
    requires
        state.inv(),
    ensures
        pattern::find_hole(state@) == match r {
            Some(i) => Some(i as int),
            None => None,
        },
        r matches Some(i) ==> i < state.holes@.len(),
{
    let mut i: usize = 0;
    proof {
        pattern_laws::lemma_find_hole(state@.holes, state@.projected(), 0);
    }
    while i < state.holes.len()
        invariant
            state.inv(),
            i <= state.holes@.len(),
            pattern::find_hole_from(state@.holes, state@.projected(), i as int)
                == pattern::find_hole(state@),
        decreases state.holes@.len() - i,
    {
        let hole = state.holes[i];
        assert(state@.holes[i as int] == hole.on(state.pattern.deep_view()));
        assert(hole.within(state.pattern@.len()));
        if !non_trivial_hole(state, hole) {
            return Some(i);
        }
        i = i + 1;
    }
    None
}

/// Whether the hole lies between two open expression variables.
pub fn non_trivial_hole(state: &State, hole: Hole) -> (r: bool)
    requires
        hole.within(state.pattern@.len()),
    ensures
        r == pattern::non_trivial_hole(
            hole.on(state.pattern.deep_view()).objects,
            state@.projected(),
        ),
{
    if hole.end - hole.start <= 1 {
        return false;
    }
    let ghost objects = hole.on(state.pattern.deep_view()).objects;
    assert(objects.first() == state.pattern.deep_view()[hole.start as int]);
    assert(objects.last() == state.pattern.deep_view()[hole.end - 1]);
    let first_open = match state.object(hole.start) {
        Object::EVar(v) => state.slot(v).is_none(),
        _ => false,
    };
    let last_open = match state.object(hole.end - 1) {
        Object::EVar(v) => state.slot(v).is_none(),
        _ => false,
    };
    first_open && last_open
}

/// Moves the machine's borders to those of the hole `index`.
pub fn match_move_borders(state: &mut State, index: usize)
    ensures
        final(state)@ == pattern::match_move_borders(old(state)@, index as int),
        old(state).inv() ==> final(state).inv(),
        final(state).pattern == old(state).pattern,
        final(state).holes == old(state).holes,
        final(state).holes_stack == old(state).holes_stack,
{
    proof {
        if state.inv() {
            pattern_laws::lemma_move_borders(state@, index as int);
        }
    }
    if index < state.holes.len() {
        let hole = state.holes[index];
        assert(state@.holes[index as int] == hole.on(state.pattern.deep_view()));
        if hole.border_l != state.border_l {
            state.emit(Command::MatchMoveBorderL(hole.border_l));
            state.border_l = hole.border_l;
        }
        if hole.border_r != state.border_r {
            state.emit(Command::MatchMoveBorderR(hole.border_r));
            state.border_r = hole.border_r;
        }
    }
}

/// Takes the hole `index` out of the holes.
pub fn remove_hole(state: &mut State, index: usize)
    requires
        index < old(state).holes@.len(),
    ensures
        final(state)@ == (PatternState {
            holes: old(state)@.holes.remove(index as int),
            ..old(state)@
        }),
        final(state).holes@ == old(state).holes@.remove(index as int),
        final(state).pattern == old(state).pattern,
        final(state).holes_stack == old(state).holes_stack,
{
    state.holes.remove(index);
    assert(state@.holes =~= old(state)@.holes.remove(index as int));
}

/// Matches an empty hole.
pub fn match_empty(state: &mut State, index: usize) -> (r: bool)
    requires
        old(state).inv(),
    ensures
        match pattern::match_empty(old(state)@, index as int) {
            Some(t) => r && final(state)@ == t,
            None => !r && final(state)@ == old(state)@,
        },
        final(state).inv(),
        final(state).pattern == old(state).pattern,
{
    if index >= state.holes.len() {
        return false;
    }
    let hole = state.holes[index];
    assert(state@.holes[index as int] == hole.on(state.pattern.deep_view()));
    if hole.start != hole.end {
        return false;
    }
    proof {
        pattern_laws::lemma_match_empty(state@, index as int);
    }
    state.emit(Command::MatchEmpty);
    remove_hole(state, index);
    true
}

/// Matches a hole that is one open expression variable.
pub fn match_e_var(state: &mut State, index: usize) -> (r: bool)
    requires
        old(state).inv(),
    ensures
        match pattern::match_e_var(old(state)@, index as int) {
            Some(t) => r && final(state)@ == t,
            None => !r && final(state)@ == old(state)@,
        },
        final(state).inv(),
        final(state).pattern == old(state).pattern,
{
    if index >= state.holes.len() {
        return false;
    }
    let hole = state.holes[index];
    assert(state@.holes[index as int] == hole.on(state.pattern.deep_view()));
    if hole.end - hole.start != 1 {
        return false;
    }
    assert(hole.on(state.pattern.deep_view()).objects[0] == state.pattern.deep_view()[hole.start as int]);
    match state.object(hole.start) {
        Object::EVar(v) => {
            if state.slot(v).is_some() {
                return false;
            }
            proof {
                pattern_laws::lemma_match_e_var(state@, index as int);
            }
            state.emit(Command::MatchEVar);
            state.bind(v, state.next_element + 1);
            remove_hole(state, index);
            state.next_element = state.next_element + 2;
            true
        },
        _ => false,
    }
}

/// Puts `first` and `second` in the place of the hole `index`.
pub fn split_hole(state: &mut State, index: usize, first: Hole, second: Hole)
    requires
        index < old(state).holes@.len(),
    ensures
        final(state)@ == (PatternState {
            holes: old(state)@.holes.remove(index as int).insert(
                index as int,
                second.on(old(state).pattern.deep_view()),
            ).insert(index as int, first.on(old(state).pattern.deep_view())),
            ..old(state)@
        }),
        final(state).holes@ == old(state).holes@.remove(index as int).insert(
            index as int,
            second,
        ).insert(index as int, first),
        final(state).pattern == old(state).pattern,
        final(state).holes_stack == old(state).holes_stack,
{
    state.holes.remove(index);
    state.holes.insert(index, second);
    state.holes.insert(index, first);
    assert(state@.holes =~= old(state)@.holes.remove(index as int).insert(
        index as int,
        second.on(old(state).pattern.deep_view()),
    ).insert(index as int, first.on(old(state).pattern.deep_view())));
}

/// Puts `hole` in the place of the hole `index`.
pub fn replace_hole(state: &mut State, index: usize, hole: Hole)
    requires
        index < old(state).holes@.len(),
    ensures
        final(state)@ == (PatternState {
            holes: old(state)@.holes.update(index as int, hole.on(old(state).pattern.deep_view())),
            ..old(state)@
        }),
        final(state).holes@ == old(state).holes@.update(index as int, hole),
        final(state).pattern == old(state).pattern,
        final(state).holes_stack == old(state).holes_stack,
{
    state.holes[index] = hole;
    assert(state@.holes =~= old(state)@.holes.update(
        index as int,
        hole.on(old(state).pattern.deep_view()),
    ));
}

/// The place in `pattern` of the right bracket that closes the left
/// bracket at `start`, within the hole up to `end`; `start` where there is
/// none.
pub fn find_closing(pattern: &Vec<Object>, start: usize, end: usize) -> (r: usize)
    requires
        start < end <= pattern@.len(),
    ensures
        r - start == pattern::closing(
            pattern.deep_view().subrange(start as int, end as int),
            1,
            1,
        ),
        start <= r < end,
{
    let ghost objects = pattern.deep_view().subrange(start as int, end as int);
    let mut depth: usize = 1;
    let mut i: usize = start + 1;
    while i < end
        invariant
            start < i <= end <= pattern@.len(),
            1 <= depth <= i - start,
            objects == pattern.deep_view().subrange(start as int, end as int),
            pattern::closing(objects, i - start, depth as int) == pattern::closing(objects, 1, 1),
        decreases end - i,
    {
        assert(objects[i - start] == pattern.deep_view()[i as int]);
        match &pattern[i] {
            Object::StrBracketR => {
                if depth <= 1 {
                    return i;
                }
                depth = depth - 1;
            },
            Object::StrBracketL => {
                depth = depth + 1;
            },
            _ => {},
        }
        i = i + 1;
    }
    start
}

/// The place in `pattern` of the left bracket that opens the right
/// bracket at `end - 1`, within the hole from `start`; `start` where there
/// is none.
pub fn find_opening(pattern: &Vec<Object>, start: usize, end: usize) -> (r: usize)
    requires
        start < end <= pattern@.len(),
    ensures
        r - start == pattern::opening(
            pattern.deep_view().subrange(start as int, end as int),
            end - start - 2,
            1,
        ),
        start <= r < end,
{
    let ghost objects = pattern.deep_view().subrange(start as int, end as int);
    let mut depth: usize = 1;
    let mut i: usize = end - 1;
    while i > start
        invariant
            start <= i < end <= pattern@.len(),
            1 <= depth <= end - i,
            objects == pattern.deep_view().subrange(start as int, end as int),
            pattern::opening(objects, i - start - 1, depth as int) == pattern::opening(
                objects,
                end - start - 2,
                1,
            ),
        decreases i,
    {
        i = i - 1;
        assert(objects[i - start] == pattern.deep_view()[i as int]);
        match &pattern[i] {
            Object::StrBracketL => {
                if depth <= 1 {
                    return i;
                }
                depth = depth - 1;
            },
            Object::StrBracketR => {
                depth = depth + 1;
            },
            _ => {},
        }
    }
    start
}

/// Matches a hole that starts with a structural bracket.
pub fn match_str_bracket_l(state: &mut State, index: usize) -> (r: bool)
    requires
        old(state).inv(),
    ensures
        match pattern::match_str_bracket_l(old(state)@, index as int) {
            Some(t) => r && final(state)@ == t,
            None => !r && final(state)@ == old(state)@,
        },
        final(state).inv(),
        final(state).pattern == old(state).pattern,
{
    if index >= state.holes.len() {
        return false;
    }
    let hole = state.holes[index];
    assert(state@.holes[index as int] == hole.on(state.pattern.deep_view()));
    if hole.start == hole.end {
        return false;
    }
    let ghost objects = hole.on(state.pattern.deep_view()).objects;
    assert(objects[0] == state.pattern.deep_view()[hole.start as int]);
    match state.object(hole.start) {
        Object::StrBracketL => {
            proof {
                pattern_laws::lemma_match_str_bracket_l(state@, index as int);
                pattern_laws::lemma_weight_at(state@.holes, index as int);
            }
            let right = find_closing(state.pattern, hole.start, hole.end);
            state.emit(Command::MatchStrBracketL);
            let inside = Hole {
                border_l: state.next_element,
                border_r: state.next_element + 1,
                start: hole.start + 1,
                end: right,
            };
            let after = Hole {
                border_l: state.next_element + 1,
                border_r: hole.border_r,
                start: right + 1,
                end: hole.end,
            };
            proof {
                let whole = state.pattern.deep_view();
                assert(inside.on(whole).objects =~= objects.subrange(1, right - hole.start));
                assert(after.on(whole).objects =~= objects.subrange(
                    right - hole.start + 1,
                    objects.len() as int,
                ));
            }
            state.border_l = state.next_element;
            state.border_r = state.next_element + 1;
            split_hole(state, index, inside, after);
            state.next_element = state.next_element + 2;
            true
        },
        _ => false,
    }
}

/// Matches a hole that ends with a structural bracket.
pub fn match_str_bracket_r(state: &mut State, index: usize) -> (r: bool)
    requires
        old(state).inv(),
    ensures
        match pattern::match_str_bracket_r(old(state)@, index as int) {
            Some(t) => r && final(state)@ == t,
            None => !r && final(state)@ == old(state)@,
        },
        final(state).inv(),
        final(state).pattern == old(state).pattern,
{
    if index >= state.holes.len() {
        return false;
    }
    let hole = state.holes[index];
    assert(state@.holes[index as int] == hole.on(state.pattern.deep_view()));
    if hole.start == hole.end {
        return false;
    }
    let ghost objects = hole.on(state.pattern.deep_view()).objects;
    assert(objects.last() == state.pattern.deep_view()[hole.end - 1]);
    match state.object(hole.end - 1) {
        Object::StrBracketR => {
            proof {
                pattern_laws::lemma_match_str_bracket_r(state@, index as int);
                pattern_laws::lemma_weight_at(state@.holes, index as int);
            }
            let left = find_opening(state.pattern, hole.start, hole.end);
            state.emit(Command::MatchStrBracketR);
            let before = Hole {
                border_l: hole.border_l,
                border_r: state.next_element,
                start: hole.start,
                end: left,
            };
            let inside = Hole {
                border_l: state.next_element,
                border_r: state.next_element + 1,
                start: left + 1,
                end: hole.end - 1,
            };
            proof {
                let whole = state.pattern.deep_view();
                assert(before.on(whole).objects =~= objects.subrange(0, left - hole.start));
                assert(inside.on(whole).objects =~= objects.subrange(
                    left - hole.start + 1,
                    objects.len() - 1,
                ));
            }
            state.border_l = hole.border_l;
            state.border_r = state.next_element;
            split_hole(state, index, before, inside);
            state.next_element = state.next_element + 2;
            true
        },
        _ => false,
    }
}

/// The state after the first object of the hole `index` was matched and
/// took `slots` projection slots.
pub fn advance_left(state: &mut State, index: usize, slots: usize)
    requires
        index < old(state).holes@.len(),
        old(state).holes@[index as int].start < old(state).holes@[index as int].end,
        old(state).holes@[index as int].end <= old(state).pattern@.len(),
        1 <= slots,
        old(state).next_element + slots <= usize::MAX,
    ensures
        final(state)@ == pattern::advance_left(old(state)@, index as int, slots as nat),
        final(state).holes@ == old(state).holes@.update(
            index as int,
            final(state).holes@[index as int],
        ),
        final(state).holes@[index as int].within(old(state).pattern@.len()),
        final(state).pattern == old(state).pattern,
        final(state).holes_stack == old(state).holes_stack,
{
    let hole = state.holes[index];
    assert(state@.holes[index as int] == hole.on(state.pattern.deep_view()));
    let border = state.next_element + slots - 1;
    let rest = Hole { border_l: border, border_r: hole.border_r, start: hole.start + 1, end: hole.end };
    assert(rest.on(state.pattern.deep_view()).objects =~= hole.on(
        state.pattern.deep_view(),
    ).objects.drop_first());
    state.border_l = border;
    state.border_r = hole.border_r;
    replace_hole(state, index, rest);
    state.next_element = state.next_element + slots;
}

/// The state after the last object of the hole `index` was matched and
/// took `slots` projection slots.
pub fn advance_right(state: &mut State, index: usize, slots: usize)
    requires
        index < old(state).holes@.len(),
        old(state).holes@[index as int].start < old(state).holes@[index as int].end,
        old(state).holes@[index as int].end <= old(state).pattern@.len(),
        1 <= slots,
        old(state).next_element + slots <= usize::MAX,
    ensures
        final(state)@ == pattern::advance_right(old(state)@, index as int, slots as nat),
        final(state).holes@ == old(state).holes@.update(
            index as int,
            final(state).holes@[index as int],
        ),
        final(state).holes@[index as int].within(old(state).pattern@.len()),
        final(state).pattern == old(state).pattern,
        final(state).holes_stack == old(state).holes_stack,
{
    let hole = state.holes[index];
    assert(state@.holes[index as int] == hole.on(state.pattern.deep_view()));
    let rest = Hole {
        border_l: hole.border_l,
        border_r: state.next_element,
        start: hole.start,
        end: hole.end - 1,
    };
    assert(rest.on(state.pattern.deep_view()).objects =~= hole.on(
        state.pattern.deep_view(),
    ).objects.drop_last());
    state.border_l = hole.border_l;
    state.border_r = state.next_element;
    replace_hole(state, index, rest);
    state.next_element = state.next_element + slots;
}

/// Matches a hole that starts with a symbol or a symbol variable.
pub fn match_s_l(state: &mut State, index: usize) -> (r: bool)
    requires
        old(state).inv(),
    ensures
        match pattern::match_s_l(old(state)@, index as int) {
            Some(t) => r && final(state)@ == t,
            None => !r && final(state)@ == old(state)@,
        },
        final(state).inv(),
        final(state).pattern == old(state).pattern,
{
    if index >= state.holes.len() {
        return false;
    }
    let hole = state.holes[index];
    assert(state@.holes[index as int] == hole.on(state.pattern.deep_view()));
    if hole.start == hole.end {
        return false;
    }
    assert(hole.on(state.pattern.deep_view()).objects[0] == state.pattern.deep_view()[hole.start as int]);
    proof {
        if pattern::match_s_l(state@, index as int) is Some {
            pattern_laws::lemma_match_s_l(state@, index as int);
        }
    }
    match state.object(hole.start) {
        Object::Symbol(sym) => {
            state.emit(Command::MatchSymbolL(sym.clone()));
        },
        Object::SVar(v) => {
            match state.slot(v) {
                None => {
                    state.emit(Command::MatchSVarL);
                    state.bind(v, state.next_element);
                },
                Some(slot) => {
                    state.emit(Command::MatchSVarLProj(slot));
                },
            }
        },
        _ => { return false; },
    }
    advance_left(state, index, 1);
    true
}

/// Matches a hole that starts with a term variable or with an expression
/// variable that is projected.
pub fn match_e_l(state: &mut State, index: usize) -> (r: bool)
    requires
        old(state).inv(),
    ensures
        match pattern::match_e_l(old(state)@, index as int) {
            Some(t) => r && final(state)@ == t,
            None => !r && final(state)@ == old(state)@,
        },
        final(state).inv(),
        final(state).pattern == old(state).pattern,
{
    if index >= state.holes.len() {
        return false;
    }
    let hole = state.holes[index];
    assert(state@.holes[index as int] == hole.on(state.pattern.deep_view()));
    if hole.start == hole.end {
        return false;
    }
    assert(hole.on(state.pattern.deep_view()).objects[0] == state.pattern.deep_view()[hole.start as int]);
    proof {
        if pattern::match_e_l(state@, index as int) is Some {
            pattern_laws::lemma_match_e_l(state@, index as int);
        }
    }
    match state.object(hole.start) {
        Object::TVar(v) => {
            match state.slot(v) {
                None => {
                    state.emit(Command::MatchTVarL);
                    state.bind(v, state.next_element + 1);
                },
                Some(slot) => {
                    state.emit(Command::MatchEVarLProj(slot));
                },
            }
        },
        Object::EVar(v) => {
            match state.slot(v) {
                None => { return false; },
                Some(slot) => {
                    state.emit(Command::MatchEVarLProj(slot));
                },
            }
        },
        _ => { return false; },
    }
    advance_left(state, index, 2);
    true
}

/// Matches a hole that ends with a symbol or a symbol variable.
pub fn match_s_r(state: &mut State, index: usize) -> (r: bool)
    requires
        old(state).inv(),
    ensures
        match pattern::match_s_r(old(state)@, index as int) {
            Some(t) => r && final(state)@ == t,
            None => !r && final(state)@ == old(state)@,
        },
        final(state).inv(),
        final(state).pattern == old(state).pattern,
{
    if index >= state.holes.len() {
        return false;
    }
    let hole = state.holes[index];
    assert(state@.holes[index as int] == hole.on(state.pattern.deep_view()));
    if hole.start == hole.end {
        return false;
    }
    assert(hole.on(state.pattern.deep_view()).objects.last() == state.pattern.deep_view()[hole.end - 1]);
    proof {
        if pattern::match_s_r(state@, index as int) is Some {
            pattern_laws::lemma_match_s_r(state@, index as int);
        }
    }
    match state.object(hole.end - 1) {
        Object::Symbol(sym) => {
            state.emit(Command::MatchSymbolR(sym.clone()));
        },
        Object::SVar(v) => {
            match state.slot(v) {
                None => {
                    state.emit(Command::MatchSVarR);
                    state.bind(v, state.next_element);
                },
                Some(slot) => {
                    state.emit(Command::MatchSVarRProj(slot));
                },
            }
        },
        _ => { return false; },
    }
    advance_right(state, index, 1);
    true
}

/// Matches a hole that ends with a term variable or with an expression
/// variable that is projected.
pub fn match_e_r(state: &mut State, index: usize) -> (r: bool)
    requires
        old(state).inv(),
    ensures
        match pattern::match_e_r(old(state)@, index as int) {
            Some(t) => r && final(state)@ == t,
            None => !r && final(state)@ == old(state)@,
        },
        final(state).inv(),
        final(state).pattern == old(state).pattern,
{
    if index >= state.holes.len() {
        return false;
    }
    let hole = state.holes[index];
    assert(state@.holes[index as int] == hole.on(state.pattern.deep_view()));
    if hole.start == hole.end {
        return false;
    }
    assert(hole.on(state.pattern.deep_view()).objects.last() == state.pattern.deep_view()[hole.end - 1]);
    proof {
        if pattern::match_e_r(state@, index as int) is Some {
            pattern_laws::lemma_match_e_r(state@, index as int);
        }
    }
    match state.object(hole.end - 1) {
        Object::TVar(v) => {
            match state.slot(v) {
                None => {
                    state.emit(Command::MatchTVarR);
                    state.bind(v, state.next_element + 1);
                },
                Some(slot) => {
                    state.emit(Command::MatchEVarRProj(slot));
                },
            }
        },
        Object::EVar(v) => {
            match state.slot(v) {
                None => { return false; },
                Some(slot) => {
                    state.emit(Command::MatchEVarRProj(slot));
                },
            }
        },
        _ => { return false; },
    }
    advance_right(state, index, 2);
    true
}

/// The names of the variables of a hole.
pub fn vars(pattern: &Vec<Object>, hole: Hole) -> (r: StringHashSet)
    requires
        hole.within(pattern@.len()),
    ensures
        r@ == pattern::vars(hole.on(pattern.deep_view()).objects),
{
    let mut r = StringHashSet::new();
    add_vars(pattern, hole, &mut r);
    assert(r@ =~= pattern::vars(hole.on(pattern.deep_view()).objects));
    r
}

/// Adds the names of the variables of a hole to `x`.
pub fn add_vars(pattern: &Vec<Object>, hole: Hole, x: &mut StringHashSet)
    requires
        hole.within(pattern@.len()),
    ensures
        final(x)@ == old(x)@.union(pattern::vars(hole.on(pattern.deep_view()).objects)),
{
    let ghost objects = hole.on(pattern.deep_view()).objects;
    let mut i: usize = hole.start;
    assert(objects.take(0) =~= Seq::empty());
    assert(x@ =~= old(x)@.union(pattern::vars(objects.take(0))));
    while i < hole.end
        invariant
            hole.start <= i <= hole.end <= pattern@.len(),
            objects == hole.on(pattern.deep_view()).objects,
            x@ == old(x)@.union(pattern::vars(objects.take(i - hole.start))),
        decreases hole.end - i,
    {
        let ghost k = i - hole.start;
        assert(objects[k] == pattern.deep_view()[i as int]);
        let ghost before = x@;
        match &pattern[i] {
            Object::EVar(v) | Object::SVar(v) | Object::TVar(v) => {
                x.insert(v.clone());
            },
            _ => {},
        }
        proof {
            pattern_laws::lemma_vars_take(objects, k);
            assert(x@ =~= old(x)@.union(pattern::vars(objects.take(k + 1))));
        }
        i = i + 1;
    }
    assert(objects.take(hole.end - hole.start) =~= objects);
}

/// Whether a variable of the hole is in `among` and is not projected.
pub fn has_free_var(
    pattern: &Vec<Object>,
    hole: Hole,
    among: &StringHashSet,
    projected_vars: &StringHashMap<usize>,
) -> (r: bool)
    requires
        hole.within(pattern@.len()),
    ensures
        r == pattern::has_free_var(
            hole.on(pattern.deep_view()).objects,
            among@,
            slots(projected_vars@).dom(),
        ),
{
    let ghost objects = hole.on(pattern.deep_view()).objects;
    let ghost projected = slots(projected_vars@).dom();
    let mut i: usize = hole.start;
    while i < hole.end
        invariant
            hole.start <= i <= hole.end <= pattern@.len(),
            objects == hole.on(pattern.deep_view()).objects,
            projected == slots(projected_vars@).dom(),
            forall|k: int|
                0 <= k < i - hole.start ==> !pattern::free_var(
                    #[trigger] objects[k],
                    among@,
                    projected,
                ),
        decreases hole.end - i,
    {
        assert(objects[i - hole.start] == pattern.deep_view()[i as int]);
        let free = match &pattern[i] {
            Object::EVar(v) | Object::SVar(v) | Object::TVar(v) => among.contains(v.as_str())
                && !projected_vars.contains_key(v.as_str()),
            _ => false,
        };
        if free {
            assert(pattern::free_var(objects[i - hole.start], among@, projected));
            return true;
        }
        i = i + 1;
    }
    false
}

/// The division of holes into classes.
pub struct Decomposition {
    pub n: usize,
    pub classes: Vec<usize>,
}

impl View for Decomposition {
    type V = DecompositionView;

    open spec fn view(&self) -> DecompositionView {
        DecompositionView { n: self.n as nat, classes: depths(self.classes@) }
    }
}

/// The first hole without class.
pub fn first_unclassed(classes: &Vec<usize>) -> (r: Option<usize>)
    ensures
        pattern::first_unclassed(depths(classes@), 0) == match r {
            Some(i) => Some(i as int),
            None => None,
        },
        r matches Some(i) ==> i < classes@.len() && classes@[i as int] == 0,
{
    let mut i: usize = 0;
    while i < classes.len()
        invariant
            i <= classes@.len(),
            pattern::first_unclassed(depths(classes@), i as int) == pattern::first_unclassed(
                depths(classes@),
                0,
            ),
        decreases classes@.len() - i,
    {
        if classes[i] == 0 {
            return Some(i);
        }
        i = i + 1;
    }
    None
}

/// The first hole without class that has a variable of `x` that is not
/// projected.
pub fn first_free(
    pattern: &Vec<Object>,
    holes: &Vec<Hole>,
    projected_vars: &StringHashMap<usize>,
    classes: &Vec<usize>,
    x: &StringHashSet,
) -> (r: Option<usize>)
    requires
        forall|i: int| 0 <= i < holes@.len() ==> (#[trigger] holes@[i]).within(pattern@.len()),
        classes@.len() == holes@.len(),
    ensures
        pattern::first_free(
            holes_on(holes@, pattern.deep_view()),
            slots(projected_vars@).dom(),
            depths(classes@),
            x@,
            0,
        ) == match r {
            Some(i) => Some(i as int),
            None => None,
        },
        r matches Some(i) ==> i < holes@.len() && classes@[i as int] == 0,
{
    let mut i: usize = 0;
    while i < holes.len()
        invariant
            i <= holes@.len(),
            classes@.len() == holes@.len(),
            forall|i: int| 0 <= i < holes@.len() ==> (#[trigger] holes@[i]).within(pattern@.len()),
            pattern::first_free(
                holes_on(holes@, pattern.deep_view()),
                slots(projected_vars@).dom(),
                depths(classes@),
                x@,
                i as int,
            ) == pattern::first_free(
                holes_on(holes@, pattern.deep_view()),
                slots(projected_vars@).dom(),
                depths(classes@),
                x@,
                0,
            ),
        decreases holes@.len() - i,
    {
        assert(holes_on(holes@, pattern.deep_view())[i as int] == holes@[i as int].on(
            pattern.deep_view(),
        ));
        if classes[i] == 0 && has_free_var(pattern, holes[i], x, projected_vars) {
            return Some(i);
        }
        i = i + 1;
    }
    None
}

/// Divides the holes into classes. Two holes are of one class where a
/// chain of shared variables that are not projected links them. A class
/// is founded by the first hole without class and takes in, one after the
/// other, the first hole without class that shares such a variable with
/// it, so that the classes are numbered by their first holes.
pub fn decompose_holes(
    pattern: &Vec<Object>,
    holes: &Vec<Hole>,
    projected_vars: &StringHashMap<usize>,
) -> (d: Decomposition)
    requires
        forall|i: int| 0 <= i < holes@.len() ==> (#[trigger] holes@[i]).within(pattern@.len()),
    ensures
        d@ == pattern::decompose_holes(
            holes_on(holes@, pattern.deep_view()),
            slots(projected_vars@).dom(),
        ),
        pattern::is_decomposition(
            holes_on(holes@, pattern.deep_view()),
            slots(projected_vars@).dom(),
            d@,
        ),
        d.classes@.len() == holes@.len(),
{
    let ghost all = holes_on(holes@, pattern.deep_view());
    let ghost projected = slots(projected_vars@).dom();
    let mut n: usize = 0;
    let mut classes: Vec<usize> = Vec::new();
    while classes.len() < holes.len()
        invariant
            classes@.len() <= holes@.len(),
            forall|i: int| 0 <= i < classes@.len() ==> classes@[i] == 0,
        decreases holes@.len() - classes@.len(),
    {
        classes.push(0);
    }
    assert(depths(classes@) =~= Seq::new(all.len(), |i: int| 0nat));
    proof {
        pattern_laws::lemma_unclassed_bound(depths(classes@));
        pattern_laws::lemma_division(all, projected);
    }
    let mut dividing = true;
    while dividing
        invariant
            all == holes_on(holes@, pattern.deep_view()),
            projected == slots(projected_vars@).dom(),
            forall|i: int| 0 <= i < holes@.len() ==> (#[trigger] holes@[i]).within(pattern@.len()),
            classes@.len() == holes@.len(),
            n + pattern::unclassed(depths(classes@)) <= holes@.len(),
            dividing ==> pattern::decompose_from(all, projected, depths(classes@), n as nat)
                == pattern::decompose_holes(all, projected),
            !dividing ==> (DecompositionView { n: n as nat, classes: depths(classes@) })
                == pattern::decompose_holes(all, projected),
        decreases pattern::unclassed(depths(classes@)) + if dividing { 1nat } else { 0nat },
    {
        match first_unclassed(&classes) {
            None => {
                dividing = false;
            },
            Some(j) => {
                let ghost before = depths(classes@);
                proof {
                    assert(before[j as int] == 0);
                    pattern::lemma_unclassed_update(before, j as int, (n + 1) as nat);
                    assert(pattern::unclassed(before) >= 1);
                }
                assert(n < holes.len());
                n = n + 1;
                classes[j] = n;
                assert(depths(classes@) =~= before.update(j as int, n as nat));
                assert(all[j as int] == holes@[j as int].on(pattern.deep_view()));
                let mut x = vars(pattern, holes[j]);
                let ghost founded = depths(classes@);
                let ghost grown = pattern::grow_class(all, projected, founded, n as nat, x@);
                proof {
                    pattern::lemma_grow_class(all, projected, founded, n as nat, x@);
                }
                let mut growing = true;
                while growing
                    invariant
                        all == holes_on(holes@, pattern.deep_view()),
                        projected == slots(projected_vars@).dom(),
                        forall|i: int|
                            0 <= i < holes@.len() ==> (#[trigger] holes@[i]).within(
                                pattern@.len(),
                            ),
                        classes@.len() == holes@.len(),
                        n >= 1,
                        pattern::unclassed(depths(classes@)) <= pattern::unclassed(founded),
                        growing ==> pattern::grow_class(
                            all,
                            projected,
                            depths(classes@),
                            n as nat,
                            x@,
                        ) == grown,
                        !growing ==> depths(classes@) == grown,
                    decreases pattern::unclassed(depths(classes@)) + if growing { 1nat } else { 0nat },
                {
                    match first_free(pattern, holes, projected_vars, &classes, &x) {
                        None => {
                            growing = false;
                        },
                        Some(i) => {
                            let ghost was = depths(classes@);
                            proof {
                                pattern::lemma_first_free(all, projected, was, x@, 0);
                                pattern::lemma_unclassed_update(was, i as int, n as nat);
                            }
                            classes[i] = n;
                            assert(depths(classes@) =~= was.update(i as int, n as nat));
                            assert(all[i as int] == holes@[i as int].on(pattern.deep_view()));
                            add_vars(pattern, holes[i], &mut x);
                        },
                    }
                }
            },
        }
    }
    Decomposition { n, classes }
}

/// The holes of class `c`, in their order.
pub fn bucket(holes: &Vec<Hole>, classes: &Vec<usize>, c: usize) -> (r: Vec<Hole>)
    requires
        classes@.len() == holes@.len(),
    ensures
        forall|pattern: Seq<ObjectView>| #[trigger]
            holes_on(r@, pattern) == pattern::bucket(
                holes_on(holes@, pattern),
                depths(classes@),
                c as nat,
            ),
        forall|k: int| 0 <= k < r@.len() ==> holes@.contains(#[trigger] r@[k]),
{
    let mut r: Vec<Hole> = Vec::new();
    let mut i: usize = 0;
    assert forall|pattern: Seq<ObjectView>| #[trigger]
        holes_on(r@, pattern) == pattern::bucket(
            holes_on(holes@.take(0), pattern),
            depths(classes@.take(0)),
            c as nat,
        ) by {
        assert(holes_on(r@, pattern) =~= Seq::empty());
    }
    while i < holes.len()
        invariant
            i <= holes@.len(),
            classes@.len() == holes@.len(),
            forall|pattern: Seq<ObjectView>| #[trigger]
                holes_on(r@, pattern) == pattern::bucket(
                    holes_on(holes@.take(i as int), pattern),
                    depths(classes@.take(i as int)),
                    c as nat,
                ),
            forall|k: int| 0 <= k < r@.len() ==> holes@.contains(#[trigger] r@[k]),
        decreases holes@.len() - i,
    {
        let ghost before = r@;
        if classes[i] == c {
            r.push(holes[i]);
        }
        proof {
            assert forall|pattern: Seq<ObjectView>| #[trigger]
                holes_on(r@, pattern) == pattern::bucket(
                    holes_on(holes@.take(i + 1), pattern),
                    depths(classes@.take(i + 1)),
                    c as nat,
                ) by {
                let more = holes_on(holes@.take(i + 1), pattern);
                let less = holes_on(holes@.take(i as int), pattern);
                assert(more.drop_last() =~= less);
                assert(depths(classes@.take(i + 1)).drop_last() =~= depths(classes@.take(i as int)));
                assert(more.last() == holes@[i as int].on(pattern));
                assert(depths(classes@.take(i + 1)).last() == classes@[i as int]);
                assert(holes_on(before, pattern) == pattern::bucket(
                    less,
                    depths(classes@.take(i as int)),
                    c as nat,
                ));
                if classes@[i as int] == c {
                    assert(holes_on(r@, pattern) =~= holes_on(before, pattern).push(
                        holes@[i as int].on(pattern),
                    ));
                }
            }
            assert forall|k: int| 0 <= k < r@.len() implies holes@.contains(#[trigger] r@[k]) by {
                if k < before.len() {
                    assert(r@[k] == before[k]);
                } else {
                    assert(r@[k] == holes@[i as int]);
                }
            }
        }
        i = i + 1;
    }
    assert(holes@.take(holes@.len() as int) =~= holes@);
    assert(classes@.take(holes@.len() as int) =~= classes@);
    r
}

/// Puts the classes of holes but the first off; the first stays.
pub fn put_off(state: &mut State, d: &Decomposition)
    requires
        old(state).inv(),
        d@ == pattern::decompose_holes(old(state)@.holes, old(state)@.projected()),
        d.classes@.len() == old(state).holes@.len(),
        d.n > 1,
    ensures
        final(state)@ == pattern::put_off(old(state)@),
        final(state).pattern == old(state).pattern,
        forall|i: int|
            0 <= i < final(state).holes@.len() ==> (#[trigger] final(state).holes@[i]).within(
                final(state).pattern@.len(),
            ),
        forall|j: int, i: int|
            0 <= j < final(state).holes_stack@.len() && 0 <= i < final(state).holes_stack@[j]@.len()
                ==> (#[trigger] final(state).holes_stack@[j]@[i]).within(
                final(state).pattern@.len(),
            ),
{
    let ghost whole = state.pattern.deep_view();
    let ghost all = state@.holes;
    let ghost classes = depths(d.classes@);
    let mut c: usize = 1;
    assert(state@.holes_stack + pattern::buckets(all, classes, 2, 1) =~= state@.holes_stack);
    assert(state@.transition_depth_stack + Seq::new(0, |i: int| state@.transition_depth)
        =~= state@.transition_depth_stack);
    while c < d.n
        invariant
            1 <= c <= d.n,
            whole == state.pattern.deep_view(),
            all == old(state)@.holes,
            classes == depths(d.classes@),
            d.classes@.len() == state.holes@.len(),
            state.holes == old(state).holes,
            state.pattern == old(state).pattern,
            state@ == (PatternState {
                holes_stack: old(state)@.holes_stack + pattern::buckets(all, classes, 2, c as nat),
                transition_depth_stack: old(state)@.transition_depth_stack + Seq::new(
                    (c - 1) as nat,
                    |i: int| old(state)@.transition_depth,
                ),
                ..old(state)@
            }),
            forall|i: int|
                0 <= i < state.holes@.len() ==> (#[trigger] state.holes@[i]).within(
                    state.pattern@.len(),
                ),
            forall|j: int, i: int|
                0 <= j < state.holes_stack@.len() && 0 <= i < state.holes_stack@[j]@.len() ==> (
                #[trigger] state.holes_stack@[j]@[i]).within(state.pattern@.len()),
        decreases d.n - c,
    {
        c = c + 1;
        let class = bucket(&state.holes, &d.classes, c);
        let ghost stack = state.holes_stack@;
        let ghost depth_stack = state@.transition_depth_stack;
        state.holes_stack.push(class);
        state.transition_depth_stack.push(state.transition_depth);
        proof {
            assert(holes_on(class@, whole) == pattern::bucket(all, classes, c as nat));
            assert(state@.holes_stack =~= (old(state)@.holes_stack + pattern::buckets(
                all,
                classes,
                2,
                (c - 1) as nat,
            )).push(pattern::bucket(all, classes, c as nat)));
            assert(state@.holes_stack =~= old(state)@.holes_stack + pattern::buckets(
                all,
                classes,
                2,
                c as nat,
            ));
            assert(state@.transition_depth_stack =~= depth_stack.push(
                old(state)@.transition_depth,
            ));
            assert(depth_stack == old(state)@.transition_depth_stack + Seq::new(
                (c - 2) as nat,
                |i: int| old(state)@.transition_depth,
            ));
            assert(state@.transition_depth_stack =~= old(state)@.transition_depth_stack + Seq::new(
                (c - 1) as nat,
                |i: int| old(state)@.transition_depth,
            ));
            assert forall|j: int, i: int|
                0 <= j < state.holes_stack@.len() && 0 <= i < state.holes_stack@[j]@.len() implies (
            #[trigger] state.holes_stack@[j]@[i]).within(state.pattern@.len()) by {
                if j < stack.len() {
                    assert(state.holes_stack@[j] == stack[j]);
                } else {
                    assert(state.holes_stack@[j] == class);
                    assert(state.holes@.contains(class@[i]));
                }
            }
        }
    }
    let first = bucket(&state.holes, &d.classes, 1);
    proof {
        assert forall|i: int| 0 <= i < first@.len() implies (#[trigger] first@[i]).within(
            state.pattern@.len(),
        ) by {
            assert(state.holes@.contains(first@[i]));
        }
    }
    state.holes = first;
}

/// Lengthens the expression variable at the head of the first hole.
pub fn lengthen_first(state: &mut State)
    requires
        forall|i: int|
            0 <= i < old(state).holes@.len() ==> (#[trigger] old(state).holes@[i]).within(
                old(state).pattern@.len(),
            ),
        old(state).next_element + 2 <= usize::MAX,
        old(state).transition_depth < usize::MAX,
    ensures
        final(state)@ == pattern::lengthen_first(old(state)@),
        final(state).pattern == old(state).pattern,
        final(state).holes_stack == old(state).holes_stack,
        forall|i: int|
            0 <= i < final(state).holes@.len() ==> (#[trigger] final(state).holes@[i]).within(
                final(state).pattern@.len(),
            ),
{
    if state.holes.len() == 0 {
        return ;
    }
    let hole = state.holes[0];
    assert(state@.holes[0] == hole.on(state.pattern.deep_view()));
    if hole.start == hole.end {
        return ;
    }
    assert(hole.on(state.pattern.deep_view()).objects[0] == state.pattern.deep_view()[hole.start as int]);
    match state.object(hole.start) {
        Object::EVar(v) => {
            match_move_borders(state, 0);
            state.emit(Command::MatchEVarPrepare);
            state.emit(Command::MatchEVarLengthen);
            state.bind(v, state.next_element + 1);
            state.transition_depth = state.transition_depth + 1;
            let ghost holes = state.holes@;
            advance_left(state, 0, 2);
            assert forall|i: int| 0 <= i < state.holes@.len() implies (
            #[trigger] state.holes@[i]).within(state.pattern@.len()) by {
                if i > 0 {
                    assert(state.holes@[i] == holes[i]);
                }
            }
        },
        _ => {},
    }
}

/// Where no hole can be matched from an end: the holes are divided into
/// classes, all but the first are put off, and an open variable is
/// lengthened.
pub fn handle_holes(state: &mut State)
    requires
        old(state).inv(),
        old(state).holes@.len() > 0,
        pattern::find_hole(old(state)@) is None,
    ensures
        final(state)@ == pattern::handle_holes(old(state)@),
        final(state).inv(),
        final(state).pattern == old(state).pattern,
{
    proof {
        pattern_laws::lemma_handle_holes(state@);
        pattern_laws::lemma_put_off(state@);
        assert(slots(state.projected_vars@).dom() =~= state@.projected());
    }
    let d = decompose_holes(state.pattern, &state.holes, &state.projected_vars);
    if d.n > 1 {
        put_off(state, &d);
    }
    lengthen_first(state);
}

/// Where a class is matched: gives up the choice points that it pushed and
/// takes up the class that was put off last.
pub fn constrain_lengthen(state: &mut State)
    requires
        old(state).inv(),
        old(state).holes@.len() == 0,
    ensures
        final(state)@ == pattern::constrain_lengthen(old(state)@),
        final(state).inv(),
        final(state).pattern == old(state).pattern,
{
    if state.holes_stack.len() > 0 && state.transition_depth_stack.len() > 0 {
        proof {
            pattern_laws::lemma_constrain_lengthen(state@);
        }
        let ghost stack = state.holes_stack@;
        let ghost depth_stack = state.transition_depth_stack@;
        let depth = state.transition_depth_stack.pop().unwrap();
        let holes = state.holes_stack.pop().unwrap();
        assert(depths(depth_stack).last() == depth);
        assert(stack_on(stack, state.pattern.deep_view()).last() == holes_on(
            holes@,
            state.pattern.deep_view(),
        ));
        state.emit(Command::ConstrainLengthen(state.transition_depth - depth));
        state.transition_depth = depth;
        state.holes = holes;
        proof {
            assert(state@.holes_stack =~= old(state)@.holes_stack.drop_last());
            assert(state@.transition_depth_stack =~= old(state)@.transition_depth_stack.drop_last());
            assert forall|i: int| 0 <= i < state.holes@.len() implies (
            #[trigger] state.holes@[i]).within(state.pattern@.len()) by {
                assert(state.holes@[i] == stack[stack.len() - 1]@[i]);
            }
            assert forall|j: int, i: int|
                0 <= j < state.holes_stack@.len() && 0 <= i < state.holes_stack@[j]@.len() implies (
            #[trigger] state.holes_stack@[j]@[i]).within(state.pattern@.len()) by {
                assert(state.holes_stack@[j] == stack[j]);
            }
        }
    }
}

/// What the compilation of a pattern gives.
pub struct PatternCompile {
    pub commands: Vec<Command>,
    pub projected_vars: StringHashMap<usize>,
}

/// Compiles a pattern: the instructions that match it, and the slot in
/// which each of its variables ends. The variables that get a slot are
/// those of the pattern; the slots are from 3 on, and no two variables
/// have the same.
pub fn compile_pattern(pattern: &Vec<Object>) -> (r: PatternCompile)
    requires
        pattern::balanced(pattern.deep_view()),
        pattern::plain(pattern.deep_view()),
        4 + 2 * pattern@.len() <= usize::MAX,
    ensures
        r.commands.deep_view() == pattern::compile_pattern(pattern.deep_view()).commands,
        slots(r.projected_vars@) == pattern::compile_pattern(pattern.deep_view()).projected_vars,
        r.projected_vars@.dom() == pattern::vars(pattern.deep_view()),
        forall|v: Seq<char>| #[trigger]
            r.projected_vars@.contains_key(v) ==> 3 <= r.projected_vars@[v] < 4 + 2
                * pattern@.len(),
        forall|v: Seq<char>, w: Seq<char>|
            #![trigger r.projected_vars@.contains_key(v), r.projected_vars@.contains_key(w)]
            r.projected_vars@.contains_key(v) && r.projected_vars@.contains_key(w) && v != w
                ==> r.projected_vars@[v] != r.projected_vars@[w],
{
    let mut holes: Vec<Hole> = Vec::new();
    holes.push(Hole { border_l: 1, border_r: 2, start: 0, end: pattern.len() });
    let mut state = State {
        pattern,
        border_l: 1,
        border_r: 2,
        next_element: 3,
        transition_depth: 0,
        projected_vars: StringHashMap::new(),
        holes_stack: Vec::new(),
        transition_depth_stack: Vec::new(),
        holes,
        commands: Vec::new(),
    };
    proof {
        let whole = pattern.deep_view();
        pattern_laws::lemma_initial(whole);
        assert(whole.subrange(0, whole.len() as int) =~= whole);
        assert(state@.holes =~= pattern::initial(whole).holes);
        assert(state@.holes_stack =~= pattern::initial(whole).holes_stack);
        assert(state@.transition_depth_stack =~= pattern::initial(whole).transition_depth_stack);
        assert(state@.commands =~= pattern::initial(whole).commands);
        assert(state@.projected_vars =~= pattern::initial(whole).projected_vars);
        assert(state@ == pattern::initial(whole));
    }
    let mut working = true;
    while working
        invariant
            state.inv(),
            state.pattern == pattern,
            working ==> pattern::run(state@) == pattern::compile_pattern(pattern.deep_view()),
            !working ==> state@ == pattern::compile_pattern(pattern.deep_view()),
        decreases pattern::total(state@), state@.holes_stack.len(), if working { 1nat } else { 0nat },
    {
        proof {
            if !pattern::done(state@) {
                pattern_laws::lemma_step(state@);
            }
        }
        match find_hole(&state) {
            Some(index) => {
                match_move_borders(&mut state, index);
                if !match_empty(&mut state, index) {
                    if !match_e_var(&mut state, index) {
                        if !match_str_bracket_l(&mut state, index) {
                            if !match_s_l(&mut state, index) {
                                if !match_e_l(&mut state, index) {
                                    if !match_str_bracket_r(&mut state, index) {
                                        if !match_s_r(&mut state, index) {
                                            match_e_r(&mut state, index);
                                        }
                                    }
                                }
                            }
                        }
                    }
                }
            },
            None => {
                if state.holes.len() > 0 {
                    handle_holes(&mut state);
                } else if state.holes_stack.len() > 0 {
                    constrain_lengthen(&mut state);
                } else {
                    working = false;
                }
            },
        }
    }
    let r = PatternCompile { commands: state.commands, projected_vars: state.projected_vars };
    proof {
        let whole = pattern.deep_view();
        let end = pattern::compile_pattern(whole);
        crate::slots::lemma_pattern_slots(whole);
        assert(r.projected_vars@.dom() =~= pattern::vars(whole)) by {
            assert(slots(r.projected_vars@).dom() =~= r.projected_vars@.dom());
        }
        assert forall|v: Seq<char>| #[trigger] r.projected_vars@.contains_key(v) implies 3
            <= r.projected_vars@[v] < 4 + 2 * pattern@.len() by {
            assert(pattern::vars(whole).contains(v));
            assert(end.projected_vars[v] == r.projected_vars@[v] as nat);
        }
        assert forall|v: Seq<char>, w: Seq<char>|
            #![trigger r.projected_vars@.contains_key(v), r.projected_vars@.contains_key(w)]
            r.projected_vars@.contains_key(v) && r.projected_vars@.contains_key(w) && v
                != w implies r.projected_vars@[v] != r.projected_vars@[w] by {
            assert(pattern::vars(whole).contains(v) && pattern::vars(whole).contains(w));
            assert(end.projected_vars[v] == r.projected_vars@[v] as nat);
            assert(end.projected_vars[w] == r.projected_vars@[w] as nat);
        }
    }
    r
}

/// Whether `c` occurs in `s`.
pub fn contains_char(s: &str, c: char) -> (r: bool)
    ensures
        r == s@.contains(c),
{
    let mut found = false;
    for x in it: s.chars()
        invariant
            it.seq() == s@,
            found == it.seq().take(it.index() as int).contains(c),
    {
        let ghost k = it.index() as int;
        proof {
            let more = it.seq().take(k + 1);
            let less = it.seq().take(k);
            if less.contains(c) {
                let j = choose|j: int| 0 <= j < less.len() && less[j] == c;
                assert(more[j] == c);
            }
            if more.contains(c) {
                let j = choose|j: int| 0 <= j < more.len() && more[j] == c;
                if j < k {
                    assert(less[j] == c);
                }
            }
            if x == c {
                assert(more[k] == c);
            }
        }
        if x == c {
            found = true;
        }
    }
    assert(s@.take(s@.len() as int) =~= s@);
    found
}

/// The qualified name of `fun` in `module`.
pub fn qualify(module: &str, fun: &str) -> (r: String)
    ensures
        r@ == lowering::qualify(module@, fun@),
{
    if contains_char(fun, '.') {
        fun.to_owned()
    } else {
        let mut r = module.to_owned();
        r.push('.');
        r.append(fun);
        r
    }
}

/// Compiles a rewrite: one instruction for each object, between the start
/// of the construction and the end of the step.
pub fn compile_rewrite(
    module: &str,
    expression: &Vec<Object>,
    projected_vars: &StringHashMap<usize>,
) -> (commands: Vec<Command>)
    requires
        forall|v: Seq<char>|
            pattern::vars(expression.deep_view()).contains(v) ==> projected_vars@.contains_key(v),
    ensures
        commands.deep_view() == lowering::compile_rewrite(
            module@,
            expression.deep_view(),
            slots(projected_vars@),
        ),
{
    let ghost rewrite = expression.deep_view();
    let ghost table = slots(projected_vars@);
    let mut used = StringHashSet::new();
    let mut commands: Vec<Command> = Vec::new();
    commands.push(Command::RewriteStart);
    let mut prev_fun_br = false;
    let mut i: usize = 0;
    assert(rewrite.take(0) =~= Seq::empty());
    assert(used@ =~= pattern::vars(rewrite.take(0)));
    assert(commands.deep_view() =~= seq![CommandView::RewriteStart] + Seq::new(
        0,
        |k: int| lowering::rewrite_command(module@, rewrite, table, k),
    ));
    while i < expression.len()
        invariant
            i <= expression@.len(),
            rewrite == expression.deep_view(),
            table == slots(projected_vars@),
            forall|v: Seq<char>|
                pattern::vars(rewrite).contains(v) ==> projected_vars@.contains_key(v),
            used@ == pattern::vars(rewrite.take(i as int)),
            prev_fun_br == (i > 0 && rewrite[i - 1] is FunBracketL),
            commands.deep_view() == seq![CommandView::RewriteStart] + Seq::new(
                i as nat,
                |k: int| lowering::rewrite_command(module@, rewrite, table, k),
            ),
        decreases expression@.len() - i,
    {
        let obj = &expression[i];
        assert(obj@ == rewrite[i as int]);
        proof {
            pattern_laws::lemma_vars_take(rewrite, i as int);
            if obj@.var_name() is Some {
                assert(pattern::vars(rewrite).contains(obj@.var_name()->0));
            }
        }
        let ghost before = commands.deep_view();
        let ghost used_before = used@;
        let cmd = match obj {
            Object::Symbol(image) => {
                if prev_fun_br {
                    Command::InsertSymbol(qualify(module, image.as_str()))
                } else {
                    Command::InsertSymbol(image.clone())
                }
            },
            Object::StrBracketL => Command::InsertStrBracketL,
            Object::StrBracketR => Command::InsertStrBracketR,
            Object::FunBracketL => Command::InsertFunBracketL,
            Object::FunBracketR => Command::InsertFunBracketR,
            Object::SVar(v) => {
                let slot = *projected_vars.get(v.as_str()).unwrap();
                if used.insert(v.clone()) {
                    Command::TransplantObject(slot)
                } else {
                    Command::CopySymbol(slot)
                }
            },
            Object::EVar(v) => {
                let slot = *projected_vars.get(v.as_str()).unwrap();
                if used.insert(v.clone()) {
                    Command::TransplantExpr(slot)
                } else {
                    Command::CopyExpr(slot)
                }
            },
            Object::TVar(v) => {
                let slot = *projected_vars.get(v.as_str()).unwrap();
                if used.insert(v.clone()) {
                    Command::TransplantExpr(slot)
                } else {
                    Command::CopyExpr(slot)
                }
            },
        };
        assert(cmd@ == lowering::rewrite_command(module@, rewrite, table, i as int));
        assert(used@ =~= pattern::vars(rewrite.take(i + 1)));
        prev_fun_br = match obj {
            Object::FunBracketL => true,
            _ => false,
        };
        commands.push(cmd);
        assert(commands.deep_view() =~= seq![CommandView::RewriteStart] + Seq::new(
            (i + 1) as nat,
            |k: int| lowering::rewrite_command(module@, rewrite, table, k),
        )) by {
            assert(commands.deep_view() =~= before.push(cmd@));
        }
        i = i + 1;
    }
    let ghost before = commands.deep_view();
    commands.push(Command::RewriteFinalize);
    commands.push(Command::MatchStart);
    assert(commands.deep_view() =~= before + seq![
        CommandView::RewriteFinalize,
        CommandView::MatchStart,
    ]);
    commands
}

/// Compiles a sentence: the instructions that match its pattern, then
/// those that build its rewrite.
pub fn compile_sentence(module: &str, sentence: &Sentence) -> (commands: Vec<Command>)
    requires
        lowering::sentence_ok(sentence@),
    ensures
        commands.deep_view() == lowering::compile_sentence(module@, sentence@),
{
    let result = compile_pattern(&sentence.pattern);
    proof {
        pattern_laws::lemma_compile_pattern(sentence@.pattern);
        assert forall|v: Seq<char>|
            pattern::vars(sentence.rewrite.deep_view()).contains(
                v,
            ) implies result.projected_vars@.contains_key(v) by {
            assert(pattern::vars(sentence@.pattern).contains(v));
            assert(pattern::compile_pattern(sentence@.pattern).projected().contains(v));
            assert(slots(result.projected_vars@).dom().contains(v));
        }
    }
    let mut rewrite = compile_rewrite(module, &sentence.rewrite, &result.projected_vars);
    let mut commands = result.commands;
    let ghost first = commands.deep_view();
    let ghost second = rewrite.deep_view();
    commands.append(&mut rewrite);
    assert(commands.deep_view() =~= first + second);
    commands
}

/// Chains the instructions of the sentences of a function: every sentence
/// but the last is led by a transition to where the next sentence starts.
pub fn flatten(sentence_commands: Vec<Vec<Command>>) -> (result: Vec<Command>)
    ensures
        result.deep_view() == lowering::flatten(sentence_commands.deep_view()),
{
    let ghost sentences = sentence_commands.deep_view();
    let mut list = sentence_commands;
    let mut result: Vec<Command> = Vec::new();
    let mut k: usize = 0;
    assert(result.deep_view() =~= Seq::empty());
    while k < list.len()
        invariant
            k <= list@.len(),
            list@.len() == sentences.len(),
            forall|j: int| k <= j < list@.len() ==> (#[trigger] list@[j]).deep_view() == sentences[j],
            result.deep_view() == lowering::chained(sentences, k as int),
        decreases list@.len() - k,
    {
        let ghost done = result.deep_view();
        let ghost cur = sentences[k as int];
        assert(list@[k as int].deep_view() == cur);
        let last = k + 1 >= list.len();
        let mut commands: Vec<Command> = Vec::new();
        core::mem::swap(&mut commands, &mut list[k]);
        assert(commands.deep_view() == cur);
        if !last {
            let at = result.len();
            result.push(Command::SetupTransition(0));
            result.append(&mut commands);
            let target = result.len();
            result[at] = Command::SetupTransition(target);
            assert(result.deep_view() =~= done.push(
                CommandView::SetupTransition(done.len() + cur.len() + 1),
            ) + cur);
        } else {
            result.append(&mut commands);
            assert(result.deep_view() =~= done + cur);
        }
        k = k + 1;
    }
    result
}

/// Compiles a function.
pub fn compile_function(module: &str, f: &Function) -> (commands: Vec<Command>)
    requires
        lowering::function_ok(f@),
    ensures
        commands.deep_view() == lowering::compile_function(module@, f@),
{
    let mut sentence_commands: Vec<Vec<Command>> = Vec::new();
    let mut k: usize = 0;
    while k < f.sentences.len()
        invariant
            k <= f.sentences@.len(),
            lowering::function_ok(f@),
            sentence_commands.deep_view() == lowering::sentence_commands(
                module@,
                f@.sentences.take(k as int),
            ),
        decreases f.sentences@.len() - k,
    {
        let sentence = &f.sentences[k];
        assert(sentence@ == f@.sentences[k as int]);
        let ghost before = sentence_commands.deep_view();
        let commands = compile_sentence(module, sentence);
        sentence_commands.push(commands);
        assert(sentence_commands.deep_view() =~= before.push(
            lowering::compile_sentence(module@, sentence@),
        ));
        assert(sentence_commands.deep_view() =~= lowering::sentence_commands(
            module@,
            f@.sentences.take(k + 1),
        ));
        k = k + 1;
    }
    assert(f@.sentences.take(f@.sentences.len() as int) =~= f@.sentences);
    flatten(sentence_commands)
}

/// Compiles a module: the instruction list of each function under the
/// function's qualified name.
pub fn compile_module(m: &RefalModule) -> (defs: Program)
    requires
        lowering::module_ok(m@),
    ensures
        defs@ == lowering::compile_module(m@),
{
    let mut defs = Program::new();
    let mut k: usize = 0;
    while k < m.functions.len()
        invariant
            k <= m.functions@.len(),
            lowering::module_ok(m@),
            defs@ == lowering::defs_upto(m@, k as nat),
        decreases m.functions@.len() - k,
    {
        let f = &m.functions[k];
        assert(f@ == m@.functions[k as int]);
        defs.insert(qualify(m.name.as_str(), f.name.as_str()), compile_function(m.name.as_str(), f));
        k = k + 1;
    }
    defs
}

/// Whether a sentence can be compiled.
pub fn check_sentence(sentence: &Sentence) -> (ok: bool)
    ensures
        ok == lowering::sentence_ok(sentence@),
{
    let ghost whole = sentence.pattern.deep_view();
    let ghost rewrite = sentence.rewrite.deep_view();
    let len = sentence.pattern.len();
    if len > (usize::MAX - 4) / 2 {
        return false;
    }
    let mut depth: usize = 0;
    let mut i: usize = 0;
    while i < len
        invariant
            whole == sentence.pattern.deep_view(),
            len == whole.len(),
            i <= len,
            depth == pattern::net(whole, i as int),
            depth <= i,
            forall|k: int| 0 <= k < i ==> !(#[trigger] whole[k]).is_fun_bracket(),
            forall|j: int| 0 <= j <= i ==> #[trigger] pattern::net(whole, j) >= 0,
        decreases len - i,
    {
        assert(whole[i as int] == sentence.pattern@[i as int]@);
        match &sentence.pattern[i] {
            Object::FunBracketL | Object::FunBracketR => {
                return false;
            },
            Object::StrBracketL => {
                depth = depth + 1;
            },
            Object::StrBracketR => {
                if depth == 0 {
                    assert(pattern::net(whole, i + 1) < 0);
                    return false;
                }
                depth = depth - 1;
            },
            _ => {},
        }
        i = i + 1;
    }
    if depth != 0 {
        return false;
    }
    let mut bound = StringHashSet::new();
    add_vars(&sentence.pattern, Hole { border_l: 0, border_r: 0, start: 0, end: len }, &mut bound);
    assert(whole.subrange(0, len as int) =~= whole);
    assert(bound@ =~= pattern::vars(whole));
    let mut k: usize = 0;
    while k < sentence.rewrite.len()
        invariant
            rewrite == sentence.rewrite.deep_view(),
            whole == sentence.pattern.deep_view(),
            k <= rewrite.len(),
            bound@ == pattern::vars(whole),
            forall|j: int|
                0 <= j < k ==> ((#[trigger] rewrite[j]).var_name() matches Some(v)
                    ==> pattern::vars(whole).contains(v)),
        decreases rewrite.len() - k,
    {
        assert(rewrite[k as int] == sentence.rewrite@[k as int]@);
        match &sentence.rewrite[k] {
            Object::EVar(v) | Object::SVar(v) | Object::TVar(v) => {
                if !bound.contains(v.as_str()) {
                    assert(pattern::vars(sentence@.rewrite).contains(v@));
                    assert(!pattern::vars(sentence@.pattern).contains(v@));
                    return false;
                }
            },
            _ => {},
        }
        k = k + 1;
    }
    assert forall|v: Seq<char>| pattern::vars(rewrite).contains(v) implies pattern::vars(
        whole,
    ).contains(v) by {
        let j = choose|j: int| 0 <= j < rewrite.len() && (#[trigger] rewrite[j]).var_name() == Some(v);
    }
    true
}

/// Whether every sentence of a function can be compiled.
pub fn check_function(f: &Function) -> (ok: bool)
    ensures
        ok == lowering::function_ok(f@),
{
    let mut k: usize = 0;
    while k < f.sentences.len()
        invariant
            k <= f.sentences@.len(),
            forall|j: int| 0 <= j < k ==> lowering::sentence_ok(#[trigger] f@.sentences[j]),
        decreases f.sentences@.len() - k,
    {
        assert(f@.sentences[k as int] == f.sentences@[k as int]@);
        if !check_sentence(&f.sentences[k]) {
            return false;
        }
        k = k + 1;
    }
    true
}

/// Whether a module can be compiled.
pub fn check_module(m: &RefalModule) -> (ok: bool)
    ensures
        ok == lowering::module_ok(m@),
{
    let mut k: usize = 0;
    while k < m.functions.len()
        invariant
            k <= m.functions@.len(),
            forall|j: int| 0 <= j < k ==> lowering::function_ok(#[trigger] m@.functions[j]),
        decreases m.functions@.len() - k,
    {
        assert(m@.functions[k as int] == m.functions@[k as int]@);
        if !check_function(&m.functions[k]) {
            return false;
        }
        k = k + 1;
    }
    true
}

/// Compiles the module that `input` is.
pub fn compile(input: &str) -> (r: Result<Program, Error>)
    ensures
        lowering::compile(input@) == match r {
            Ok(defs) => Ok(defs@),
            Err(e) => Err(e),
        },
{
    let module = parse_input(input)?;
    if !check_module(&module) {
        return Err(Error::Parsing);
    }
    Ok(compile_module(&module))
}

} // verus!
