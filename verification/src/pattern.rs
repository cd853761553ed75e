//! The pattern compiler as a transition function on mathematical states.
//!
//! A pattern is compiled by working off a set of holes: contiguous slices
//! of the pattern that are not matched yet, each between two projection
//! slots. A step picks the first hole that can be matched from one of its
//! ends and emits the instruction for that end; where every hole lies
//! between two open expression variables, the holes are divided into
//! classes that share no free variable and one variable is lengthened.

use crate::data::{CommandView, ObjectView};
use vstd::prelude::*;

verus! {

/// A slice of the pattern that is still to be matched, between the
/// projection slots `border_l` and `border_r`.
pub struct HoleView {
    pub border_l: nat,
    pub border_r: nat,
    pub objects: Seq<ObjectView>,
}

/// The state of the compilation of one pattern.
pub struct PatternState {
    /// The slots that the machine's borders hold at this point.
    pub border_l: nat,
    pub border_r: nat,
    /// The slot that the next projection fills.
    pub next_element: nat,
    /// The number of lengthening choice points of the current branch.
    pub transition_depth: nat,
    /// The slot in which each variable met so far ends.
    pub projected_vars: Map<Seq<char>, nat>,
    pub holes: Seq<HoleView>,
    /// The classes of holes that are put off, the next on top.
    pub holes_stack: Seq<Seq<HoleView>>,
    /// The transition depth at which each class was put off.
    pub transition_depth_stack: Seq<nat>,
    pub commands: Seq<CommandView>,
}

/// The left structural brackets minus the right ones among the first `i`
/// objects.
pub open spec fn net(objects: Seq<ObjectView>, i: int) -> int
    decreases i,
{
    if i <= 0 || i > objects.len() {
        0
    } else {
        net(objects, i - 1) + match objects[i - 1] {
            ObjectView::StrBracketL => 1int,
            ObjectView::StrBracketR => -1int,
            _ => 0int,
        }
    }
}

/// The structural brackets nest properly.
pub open spec fn balanced(objects: Seq<ObjectView>) -> bool {
    &&& net(objects, objects.len() as int) == 0
    &&& forall|i: int| 0 <= i <= objects.len() ==> #[trigger] net(objects, i) >= 0
}

/// No call bracket occurs.
pub open spec fn plain(objects: Seq<ObjectView>) -> bool {
    forall|i: int| 0 <= i < objects.len() ==> !(#[trigger] objects[i]).is_fun_bracket()
}

/// The index of the right bracket that closes the `depth` brackets open
/// at `i`, found by counting from `i` on; 0 where there is none.
pub open spec fn closing(objects: Seq<ObjectView>, i: int, depth: int) -> int
    decreases objects.len() - i,
{
    if i < 0 || i >= objects.len() {
        0
    } else {
        match objects[i] {
            ObjectView::StrBracketR => if depth <= 1 {
                i
            } else {
                closing(objects, i + 1, depth - 1)
            },
            ObjectView::StrBracketL => closing(objects, i + 1, depth + 1),
            _ => closing(objects, i + 1, depth),
        }
    }
}

/// The index of the left bracket that opens the `depth` brackets closed
/// behind `i`, found by counting from `i` down; 0 where there is none.
pub open spec fn opening(objects: Seq<ObjectView>, i: int, depth: int) -> int
    decreases i + 1,
{
    if i < 0 || i >= objects.len() {
        0
    } else {
        match objects[i] {
            ObjectView::StrBracketL => if depth <= 1 {
                i
            } else {
                opening(objects, i - 1, depth - 1)
            },
            ObjectView::StrBracketR => opening(objects, i - 1, depth + 1),
            _ => opening(objects, i - 1, depth),
        }
    }
}

/// The variable is an expression variable that is not projected yet.
pub open spec fn open_e_var(object: ObjectView, projected: Set<Seq<char>>) -> bool {
    match object {
        ObjectView::EVar(v) => !projected.contains(v),
        _ => false,
    }
}

/// The hole lies between two open expression variables, so that neither
/// end says where it starts or stops.
pub open spec fn non_trivial_hole(objects: Seq<ObjectView>, projected: Set<Seq<char>>) -> bool {
    &&& objects.len() > 1
    &&& open_e_var(objects.first(), projected)
    &&& open_e_var(objects.last(), projected)
}

/// The first hole from `from` on that can be matched from an end.
pub open spec fn find_hole_from(holes: Seq<HoleView>, projected: Set<Seq<char>>, from: int)
    -> Option<int>
    decreases holes.len() - from,
{
    if from < 0 || from >= holes.len() {
        None
    } else if !non_trivial_hole(holes[from].objects, projected) {
        Some(from)
    } else {
        find_hole_from(holes, projected, from + 1)
    }
}

impl PatternState {
    /// The variables that have a slot.
    pub open spec fn projected(self) -> Set<Seq<char>> {
        self.projected_vars.dom()
    }

    /// The state with `cmd` as one more command.
    pub open spec fn emit(self, cmd: CommandView) -> PatternState {
        PatternState { commands: self.commands.push(cmd), ..self }
    }

    /// The state in which the variable `v` ends in `slot`.
    pub open spec fn bind(self, v: Seq<char>, slot: nat) -> PatternState {
        PatternState { projected_vars: self.projected_vars.insert(v, slot), ..self }
    }
}

/// The state at the start: one hole with the whole pattern between the
/// slots of the function symbol and of the closing call bracket.
pub open spec fn initial(pattern: Seq<ObjectView>) -> PatternState {
    PatternState {
        border_l: 1,
        border_r: 2,
        next_element: 3,
        transition_depth: 0,
        projected_vars: Map::empty(),
        holes: seq![HoleView { border_l: 1, border_r: 2, objects: pattern }],
        holes_stack: Seq::empty(),
        transition_depth_stack: Seq::empty(),
        commands: Seq::empty(),
    }
}

/// The first hole that can be matched from an end.
pub open spec fn find_hole(s: PatternState) -> Option<int> {
    find_hole_from(s.holes, s.projected(), 0)
}

/// The machine's borders are moved to those of the hole `index`, where
/// they differ.
pub open spec fn match_move_borders(s: PatternState, index: int) -> PatternState {
    if 0 <= index < s.holes.len() {
        let hole = s.holes[index];
        let t = if hole.border_l != s.border_l {
            PatternState { border_l: hole.border_l, ..s.emit(CommandView::MatchMoveBorderL(hole.border_l)) }
        } else {
            s
        };
        if hole.border_r != t.border_r {
            PatternState { border_r: hole.border_r, ..t.emit(CommandView::MatchMoveBorderR(hole.border_r)) }
        } else {
            t
        }
    } else {
        s
    }
}

/// An empty hole: the window must be empty.
pub open spec fn match_empty(s: PatternState, index: int) -> Option<PatternState> {
    if 0 <= index < s.holes.len() && s.holes[index].objects.len() == 0 {
        Some(PatternState { holes: s.holes.remove(index), ..s.emit(CommandView::MatchEmpty) })
    } else {
        None
    }
}

/// A hole that is one open expression variable: it takes the window.
pub open spec fn match_e_var(s: PatternState, index: int) -> Option<PatternState> {
    if 0 <= index < s.holes.len() && s.holes[index].objects.len() == 1 {
        match s.holes[index].objects[0] {
            ObjectView::EVar(v) => if !s.projected().contains(v) {
                Some(
                    PatternState {
                        holes: s.holes.remove(index),
                        next_element: s.next_element + 2,
                        ..s.emit(CommandView::MatchEVar).bind(v, s.next_element + 1)
                    },
                )
            } else {
                None
            },
            _ => None,
        }
    } else {
        None
    }
}

/// A hole that starts with a structural bracket is split into what is
/// inside the bracket and what follows its mate.
pub open spec fn match_str_bracket_l(s: PatternState, index: int) -> Option<PatternState> {
    if 0 <= index < s.holes.len() && s.holes[index].objects.len() > 0
        && s.holes[index].objects[0] is StrBracketL {
        let hole = s.holes[index];
        let right = closing(hole.objects, 1, 1);
        if 1 <= right < hole.objects.len() {
            let inside = HoleView {
                border_l: s.next_element,
                border_r: s.next_element + 1,
                objects: hole.objects.subrange(1, right),
            };
            let after = HoleView {
                border_l: s.next_element + 1,
                border_r: hole.border_r,
                objects: hole.objects.subrange(right + 1, hole.objects.len() as int),
            };
            Some(
                PatternState {
                    border_l: s.next_element,
                    border_r: s.next_element + 1,
                    holes: s.holes.remove(index).insert(index, after).insert(index, inside),
                    next_element: s.next_element + 2,
                    ..s.emit(CommandView::MatchStrBracketL)
                },
            )
        } else {
            None
        }
    } else {
        None
    }
}

/// The state after the first object of the hole `index` was matched and
/// took `slots` projection slots.
pub open spec fn advance_left(s: PatternState, index: int, slots: nat) -> PatternState {
    let hole = s.holes[index];
    let border = (s.next_element + slots - 1) as nat;
    PatternState {
        border_l: border,
        border_r: hole.border_r,
        holes: s.holes.update(
            index,
            HoleView { border_l: border, border_r: hole.border_r, objects: hole.objects.drop_first() },
        ),
        next_element: s.next_element + slots,
        ..s
    }
}

/// The state after the last object of the hole `index` was matched and
/// took `slots` projection slots.
pub open spec fn advance_right(s: PatternState, index: int, slots: nat) -> PatternState {
    let hole = s.holes[index];
    PatternState {
        border_l: hole.border_l,
        border_r: s.next_element,
        holes: s.holes.update(
            index,
            HoleView {
                border_l: hole.border_l,
                border_r: s.next_element,
                objects: hole.objects.drop_last(),
            },
        ),
        next_element: s.next_element + slots,
        ..s
    }
}

/// A hole that starts with a symbol or a symbol variable.
pub open spec fn match_s_l(s: PatternState, index: int) -> Option<PatternState> {
    if 0 <= index < s.holes.len() && s.holes[index].objects.len() > 0 {
        match s.holes[index].objects[0] {
            ObjectView::Symbol(sym) => Some(
                advance_left(s.emit(CommandView::MatchSymbolL(sym)), index, 1),
            ),
            ObjectView::SVar(v) => if s.projected().contains(v) {
                Some(
                    advance_left(
                        s.emit(CommandView::MatchSVarLProj(s.projected_vars[v])),
                        index,
                        1,
                    ),
                )
            } else {
                Some(
                    advance_left(
                        s.emit(CommandView::MatchSVarL).bind(v, s.next_element),
                        index,
                        1,
                    ),
                )
            },
            _ => None,
        }
    } else {
        None
    }
}

/// A hole that starts with a term variable or with an expression variable
/// that is projected already.
pub open spec fn match_e_l(s: PatternState, index: int) -> Option<PatternState> {
    if 0 <= index < s.holes.len() && s.holes[index].objects.len() > 0 {
        match s.holes[index].objects[0] {
            ObjectView::TVar(v) => if s.projected().contains(v) {
                Some(
                    advance_left(
                        s.emit(CommandView::MatchEVarLProj(s.projected_vars[v])),
                        index,
                        2,
                    ),
                )
            } else {
                Some(
                    advance_left(
                        s.emit(CommandView::MatchTVarL).bind(v, s.next_element + 1),
                        index,
                        2,
                    ),
                )
            },
            ObjectView::EVar(v) => if s.projected().contains(v) {
                Some(
                    advance_left(
                        s.emit(CommandView::MatchEVarLProj(s.projected_vars[v])),
                        index,
                        2,
                    ),
                )
            } else {
                None
            },
            _ => None,
        }
    } else {
        None
    }
}

/// A hole that ends with a structural bracket is split into what comes
/// before the bracket's mate and what is inside.
pub open spec fn match_str_bracket_r(s: PatternState, index: int) -> Option<PatternState> {
    if 0 <= index < s.holes.len() && s.holes[index].objects.len() > 0
        && s.holes[index].objects.last() is StrBracketR {
        let hole = s.holes[index];
        let last = hole.objects.len() - 1;
        let left = opening(hole.objects, last - 1, 1);
        if 0 <= left < last && hole.objects[left] is StrBracketL {
            let before = HoleView {
                border_l: hole.border_l,
                border_r: s.next_element,
                objects: hole.objects.subrange(0, left),
            };
            let inside = HoleView {
                border_l: s.next_element,
                border_r: s.next_element + 1,
                objects: hole.objects.subrange(left + 1, last),
            };
            Some(
                PatternState {
                    border_l: hole.border_l,
                    border_r: s.next_element,
                    holes: s.holes.remove(index).insert(index, inside).insert(index, before),
                    next_element: s.next_element + 2,
                    ..s.emit(CommandView::MatchStrBracketR)
                },
            )
        } else {
            None
        }
    } else {
        None
    }
}

/// A hole that ends with a symbol or a symbol variable.
pub open spec fn match_s_r(s: PatternState, index: int) -> Option<PatternState> {
    if 0 <= index < s.holes.len() && s.holes[index].objects.len() > 0 {
        match s.holes[index].objects.last() {
            ObjectView::Symbol(sym) => Some(
                advance_right(s.emit(CommandView::MatchSymbolR(sym)), index, 1),
            ),
            ObjectView::SVar(v) => if s.projected().contains(v) {
                Some(
                    advance_right(
                        s.emit(CommandView::MatchSVarRProj(s.projected_vars[v])),
                        index,
                        1,
                    ),
                )
            } else {
                Some(
                    advance_right(
                        s.emit(CommandView::MatchSVarR).bind(v, s.next_element),
                        index,
                        1,
                    ),
                )
            },
            _ => None,
        }
    } else {
        None
    }
}

/// A hole that ends with a term variable or with an expression variable
/// that is projected already.
pub open spec fn match_e_r(s: PatternState, index: int) -> Option<PatternState> {
    if 0 <= index < s.holes.len() && s.holes[index].objects.len() > 0 {
        match s.holes[index].objects.last() {
            ObjectView::TVar(v) => if s.projected().contains(v) {
                Some(
                    advance_right(
                        s.emit(CommandView::MatchEVarRProj(s.projected_vars[v])),
                        index,
                        2,
                    ),
                )
            } else {
                Some(
                    advance_right(
                        s.emit(CommandView::MatchTVarR).bind(v, s.next_element + 1),
                        index,
                        2,
                    ),
                )
            },
            ObjectView::EVar(v) => if s.projected().contains(v) {
                Some(
                    advance_right(
                        s.emit(CommandView::MatchEVarRProj(s.projected_vars[v])),
                        index,
                        2,
                    ),
                )
            } else {
                None
            },
            _ => None,
        }
    } else {
        None
    }
}

/// The rules for a hole in their order: empty, lone expression variable,
/// then the left end, then the right end. The first that applies is
/// taken.
pub open spec fn match_rules(t: PatternState, index: int) -> PatternState {
    if match_empty(t, index) is Some {
        match_empty(t, index)->0
    } else if match_e_var(t, index) is Some {
        match_e_var(t, index)->0
    } else if match_str_bracket_l(t, index) is Some {
        match_str_bracket_l(t, index)->0
    } else if match_s_l(t, index) is Some {
        match_s_l(t, index)->0
    } else if match_e_l(t, index) is Some {
        match_e_l(t, index)->0
    } else if match_str_bracket_r(t, index) is Some {
        match_str_bracket_r(t, index)->0
    } else if match_s_r(t, index) is Some {
        match_s_r(t, index)->0
    } else if match_e_r(t, index) is Some {
        match_e_r(t, index)->0
    } else {
        t
    }
}

/// The hole `index` is matched from an end: the borders are moved to it,
/// and the first rule that applies is taken.
pub open spec fn match_hole(s: PatternState, index: int) -> PatternState {
    match_rules(match_move_borders(s, index), index)
}

/// The names of the variables among `objects`.
pub open spec fn vars(objects: Seq<ObjectView>) -> Set<Seq<char>> {
    Set::new(
        |v: Seq<char>|
            exists|i: int| 0 <= i < objects.len() && (#[trigger] objects[i]).var_name() == Some(v),
    )
}

/// The object is a variable that is in `among` and not projected.
pub open spec fn free_var(object: ObjectView, among: Set<Seq<char>>, projected: Set<Seq<char>>)
    -> bool {
    match object.var_name() {
        Some(v) => among.contains(v) && !projected.contains(v),
        None => false,
    }
}

/// A variable of `objects` is in `among` and not projected.
pub open spec fn has_free_var(
    objects: Seq<ObjectView>,
    among: Set<Seq<char>>,
    projected: Set<Seq<char>>,
) -> bool {
    exists|i: int| 0 <= i < objects.len() && free_var(#[trigger] objects[i], among, projected)
}

/// The division of the holes into classes: `classes[i]` is the class of
/// the hole `i`, from 1 to `n`; 0 marks a hole that has no class yet.
pub struct DecompositionView {
    pub n: nat,
    pub classes: Seq<nat>,
}

/// The first hole from `from` on that has no class.
pub open spec fn first_unclassed(classes: Seq<nat>, from: int) -> Option<int>
    decreases classes.len() - from,
{
    if from < 0 || from >= classes.len() {
        None
    } else if classes[from] == 0 {
        Some(from)
    } else {
        first_unclassed(classes, from + 1)
    }
}

/// The first hole without class from `from` on that has a variable of `x`
/// that is not projected.
pub open spec fn first_free(
    holes: Seq<HoleView>,
    projected: Set<Seq<char>>,
    classes: Seq<nat>,
    x: Set<Seq<char>>,
    from: int,
) -> Option<int>
    decreases holes.len() - from,
{
    if from < 0 || from >= holes.len() || from >= classes.len() {
        None
    } else if classes[from] == 0 && has_free_var(holes[from].objects, x, projected) {
        Some(from)
    } else {
        first_free(holes, projected, classes, x, from + 1)
    }
}

/// The number of holes without class.
pub open spec fn unclassed(classes: Seq<nat>) -> nat
    decreases classes.len(),
{
    if classes.len() == 0 {
        0
    } else {
        unclassed(classes.drop_last()) + if classes.last() == 0 {
            1nat
        } else {
            0nat
        }
    }
}

/// The class `n`, whose variables so far are `x`, takes in holes until no
/// hole without class shares a variable that is not projected with it:
/// the first hole without class that has such a variable of `x` joins the
/// class, and its variables join `x`.
pub open spec fn grow_class(
    holes: Seq<HoleView>,
    projected: Set<Seq<char>>,
    classes: Seq<nat>,
    n: nat,
    x: Set<Seq<char>>,
) -> Seq<nat>
    decreases unclassed(classes),
{
    match first_free(holes, projected, classes, x, 0) {
        None => classes,
        Some(i) => {
            if n == 0 {
                classes
            } else {
                proof {
                    lemma_first_free(holes, projected, classes, x, 0);
                    lemma_unclassed_update(classes, i, n);
                }
                grow_class(
                    holes,
                    projected,
                    classes.update(i, n),
                    n,
                    x.union(vars(holes[i].objects)),
                )
            }
        },
    }
}

/// What [`first_free`] finds is the first hole without class from `from`
/// on that has a variable of `x` that is not projected.
pub proof fn lemma_first_free(
    holes: Seq<HoleView>,
    projected: Set<Seq<char>>,
    classes: Seq<nat>,
    x: Set<Seq<char>>,
    from: int,
)
    requires
        0 <= from,
    ensures
        first_free(holes, projected, classes, x, from) matches Some(i) ==> from <= i < holes.len()
            && i < classes.len() && classes[i] == 0 && has_free_var(
            holes[i].objects,
            x,
            projected,
        ),
        forall|k: int|
            from <= k < (match first_free(holes, projected, classes, x, from) {
                Some(i) => i,
                None => if holes.len() <= classes.len() {
                    holes.len() as int
                } else {
                    classes.len() as int
                },
            }) ==> !(classes[k] == 0 && has_free_var(#[trigger] holes[k].objects, x, projected)),
    decreases holes.len() - from,
{
    if from >= holes.len() || from >= classes.len() {
    } else if classes[from] == 0 && has_free_var(holes[from].objects, x, projected) {
    } else {
        lemma_first_free(holes, projected, classes, x, from + 1);
    }
}

/// A hole that gets a class is one hole less without class.
pub proof fn lemma_unclassed_update(classes: Seq<nat>, i: int, n: nat)
    requires
        0 <= i < classes.len(),
        classes[i] == 0,
        n > 0,
    ensures
        unclassed(classes.update(i, n)) + 1 == unclassed(classes),
    decreases classes.len(),
{
    let after = classes.update(i, n);
    if i == classes.len() - 1 {
        assert(after.drop_last() =~= classes.drop_last());
    } else {
        lemma_unclassed_update(classes.drop_last(), i, n);
        assert(after.drop_last() =~= classes.drop_last().update(i, n));
    }
}

/// The classes are made one after the other: the first hole without class
/// founds the next class, which then grows as far as it can.
pub open spec fn decompose_from(
    holes: Seq<HoleView>,
    projected: Set<Seq<char>>,
    classes: Seq<nat>,
    n: nat,
) -> DecompositionView
    decreases unclassed(classes),
{
    if classes.len() != holes.len() {
        DecompositionView { n, classes }
    } else {
        match first_unclassed(classes, 0) {
            None => DecompositionView { n, classes },
            Some(j) => {
                proof {
                    lemma_first_unclassed(classes, 0);
                    lemma_unclassed_update(classes, j, n + 1);
                    lemma_grow_class(
                        holes,
                        projected,
                        classes.update(j, n + 1),
                        n + 1,
                        vars(holes[j].objects),
                    );
                }
                decompose_from(
                    holes,
                    projected,
                    grow_class(
                        holes,
                        projected,
                        classes.update(j, n + 1),
                        n + 1,
                        vars(holes[j].objects),
                    ),
                    n + 1,
                )
            },
        }
    }
}

/// What [`first_unclassed`] finds is a hole without class, and the first.
pub proof fn lemma_first_unclassed(classes: Seq<nat>, from: int)
    ensures
        first_unclassed(classes, from) matches Some(i) ==> from <= i < classes.len() && classes[i]
            == 0 && forall|k: int| from <= k < i ==> classes[k] != 0,
        first_unclassed(classes, from) is None ==> forall|k: int|
            0 <= from <= k < classes.len() ==> classes[k] != 0,
    decreases classes.len() - from,
{
    if from < 0 || from >= classes.len() {
    } else if classes[from] == 0 {
    } else {
        lemma_first_unclassed(classes, from + 1);
    }
}

/// A class that grows keeps the classes that are given, gives no other
/// class than its own, and leaves no more holes without class.
pub proof fn lemma_grow_class(
    holes: Seq<HoleView>,
    projected: Set<Seq<char>>,
    classes: Seq<nat>,
    n: nat,
    x: Set<Seq<char>>,
)
    ensures
        grow_class(holes, projected, classes, n, x).len() == classes.len(),
        unclassed(grow_class(holes, projected, classes, n, x)) <= unclassed(classes),
        forall|i: int|
            0 <= i < classes.len() ==> (classes[i] != 0 ==> #[trigger] grow_class(
                holes,
                projected,
                classes,
                n,
                x,
            )[i] == classes[i]) && (classes[i] == 0 ==> grow_class(
                holes,
                projected,
                classes,
                n,
                x,
            )[i] == 0 || grow_class(holes, projected, classes, n, x)[i] == n),
    decreases unclassed(classes),
{
    match first_free(holes, projected, classes, x, 0) {
        None => {},
        Some(i) => {
            lemma_first_free(holes, projected, classes, x, 0);
            if n != 0 {
                lemma_unclassed_update(classes, i, n);
                lemma_grow_class(
                    holes,
                    projected,
                    classes.update(i, n),
                    n,
                    x.union(vars(holes[i].objects)),
                );
            }
        },
    }
}

/// Two holes have a variable in common that is not projected.
pub open spec fn shares(a: HoleView, b: HoleView, projected: Set<Seq<char>>) -> bool {
    exists|v: Seq<char>|
        vars(a.objects).contains(v) && vars(b.objects).contains(v) && !projected.contains(v)
}

/// The holes of `chain` lead from the hole `i` to the hole `k`, each
/// sharing a variable that is not projected with the next.
pub open spec fn is_chain(
    holes: Seq<HoleView>,
    projected: Set<Seq<char>>,
    chain: Seq<int>,
    i: int,
    k: int,
) -> bool {
    &&& chain.len() >= 1
    &&& chain[0] == i
    &&& chain[chain.len() - 1] == k
    &&& forall|p: int| 0 <= p < chain.len() ==> 0 <= #[trigger] chain[p] < holes.len()
    &&& forall|p: int|
        0 <= p && p + 1 < chain.len() ==> shares(
            holes[#[trigger] chain[p]],
            holes[chain[p + 1]],
            projected,
        )
}

/// The holes `i` and `k` are linked by a chain of shared variables that
/// are not projected.
pub open spec fn linked(holes: Seq<HoleView>, projected: Set<Seq<char>>, i: int, k: int) -> bool {
    exists|chain: Seq<int>| is_chain(holes, projected, chain, i, k)
}

/// The hole `i` is the first of the class `c`, and every hole before it
/// is of an earlier class.
pub open spec fn founder(classes: Seq<nat>, i: int, c: nat) -> bool {
    &&& 0 <= i < classes.len()
    &&& classes[i] == c
    &&& forall|k: int| 0 <= k < i ==> 1 <= #[trigger] classes[k] < c
}

/// The class `c` has a first hole before which every hole is of an
/// earlier class.
pub open spec fn has_founder(classes: Seq<nat>, c: nat) -> bool {
    exists|i: int| founder(classes, i, c)
}

/// What a division of holes into classes is. Every hole has a class from
/// 1 to `n`; every class is used, and the classes are numbered by their
/// first holes; two holes that share a variable that is not projected are
/// of one class; and two holes of one class are linked by a chain of such
/// shared variables.
pub open spec fn is_decomposition(
    holes: Seq<HoleView>,
    projected: Set<Seq<char>>,
    d: DecompositionView,
) -> bool {
    &&& d.classes.len() == holes.len()
    &&& forall|i: int| 0 <= i < holes.len() ==> 1 <= #[trigger] d.classes[i] <= d.n
    &&& forall|c: nat| 1 <= c <= d.n ==> #[trigger] has_founder(d.classes, c)
    &&& forall|i: int, k: int|
        0 <= i < holes.len() && 0 <= k < holes.len() && #[trigger] shares(
            holes[i],
            holes[k],
            projected,
        ) ==> d.classes[i] == d.classes[k]
    &&& forall|i: int, k: int|
        0 <= i < holes.len() && 0 <= k < holes.len() && d.classes[i] == d.classes[k]
            ==> #[trigger] linked(holes, projected, i, k)
}

/// The division of `holes` into classes: two holes are of one class
/// where a chain of shared variables that are not projected links them.
/// The classes are numbered by their first holes.
pub open spec fn decompose_holes(holes: Seq<HoleView>, projected: Set<Seq<char>>)
    -> DecompositionView {
    decompose_from(holes, projected, Seq::new(holes.len(), |i: int| 0nat), 0)
}

/// The holes of class `c`, in their order.
pub open spec fn bucket(holes: Seq<HoleView>, classes: Seq<nat>, c: nat) -> Seq<HoleView>
    decreases holes.len(),
{
    if holes.len() == 0 || classes.len() != holes.len() {
        Seq::empty()
    } else {
        let rest = bucket(holes.drop_last(), classes.drop_last(), c);
        if classes.last() == c {
            rest.push(holes.last())
        } else {
            rest
        }
    }
}

/// The classes from `from` to `to`, one after the other.
pub open spec fn buckets(holes: Seq<HoleView>, classes: Seq<nat>, from: nat, to: nat) -> Seq<
    Seq<HoleView>,
>
    decreases to,
{
    if to < from || to == 0 {
        Seq::empty()
    } else {
        buckets(holes, classes, from, (to - 1) as nat).push(bucket(holes, classes, to))
    }
}

/// The classes of holes but the first are put off; the first stays.
pub open spec fn put_off(s: PatternState) -> PatternState {
    let d = decompose_holes(s.holes, s.projected());
    if d.n > 1 {
        PatternState {
            holes: bucket(s.holes, d.classes, 1),
            holes_stack: s.holes_stack + buckets(s.holes, d.classes, 2, d.n),
            transition_depth_stack: s.transition_depth_stack + Seq::new(
                (d.n - 1) as nat,
                |i: int| s.transition_depth,
            ),
            ..s
        }
    } else {
        s
    }
}

/// The expression variable at the head of the first hole is lengthened
/// term by term, starting empty.
pub open spec fn lengthen_first(s: PatternState) -> PatternState {
    if s.holes.len() > 0 && s.holes[0].objects.len() > 0 {
        match s.holes[0].objects[0] {
            ObjectView::EVar(v) => {
                let t = match_move_borders(s, 0).emit(CommandView::MatchEVarPrepare).emit(
                    CommandView::MatchEVarLengthen,
                ).bind(v, s.next_element + 1);
                advance_left(PatternState { transition_depth: s.transition_depth + 1, ..t }, 0, 2)
            },
            _ => s,
        }
    } else {
        s
    }
}

/// No hole can be matched from an end: the holes are divided into
/// classes, and an open variable of the first class is lengthened.
pub open spec fn handle_holes(s: PatternState) -> PatternState {
    lengthen_first(put_off(s))
}

/// A class is matched: the choice points that it pushed are given up, and
/// the class that was put off last is taken up.
pub open spec fn constrain_lengthen(s: PatternState) -> PatternState {
    if s.holes_stack.len() > 0 && s.transition_depth_stack.len() > 0 {
        let depth = s.transition_depth_stack.last();
        PatternState {
            transition_depth: depth,
            holes: s.holes_stack.last(),
            holes_stack: s.holes_stack.drop_last(),
            transition_depth_stack: s.transition_depth_stack.drop_last(),
            ..s.emit(CommandView::ConstrainLengthen((s.transition_depth - depth) as nat))
        }
    } else {
        s
    }
}

/// Nothing is left to match.
pub open spec fn done(s: PatternState) -> bool {
    s.holes.len() == 0 && s.holes_stack.len() == 0
}

/// One step of the compilation.
pub open spec fn step(s: PatternState) -> PatternState {
    match find_hole(s) {
        Some(index) => match_hole(s, index),
        None => if s.holes.len() > 0 {
            handle_holes(s)
        } else {
            constrain_lengthen(s)
        },
    }
}

/// The hole is a well-nested slice without call brackets.
pub open spec fn hole_ok(hole: HoleView) -> bool {
    balanced(hole.objects) && plain(hole.objects)
}

/// Every hole is a well-nested slice without call brackets.
pub open spec fn holes_ok(holes: Seq<HoleView>) -> bool {
    forall|i: int| 0 <= i < holes.len() ==> hole_ok(#[trigger] holes[i])
}

impl PatternState {
    /// The invariant of the compilation: every hole is a well-nested slice
    /// without call brackets, and each class that was put off has its
    /// transition depth, none deeper than the current one or than that of
    /// a class put off later.
    pub open spec fn wf(self) -> bool {
        &&& holes_ok(self.holes)
        &&& forall|j: int| 0 <= j < self.holes_stack.len() ==> holes_ok(#[trigger] self.holes_stack[j])
        &&& self.holes_stack.len() == self.transition_depth_stack.len()
        &&& forall|j: int|
            0 <= j < self.transition_depth_stack.len() ==> #[trigger] self.transition_depth_stack[j]
                <= self.transition_depth
        &&& forall|j: int, k: int|
            0 <= j <= k < self.transition_depth_stack.len() ==> self.transition_depth_stack[j]
                <= self.transition_depth_stack[k]
    }
}

/// What is left to do for a hole: twice its objects, and one.
pub open spec fn weight(holes: Seq<HoleView>) -> nat
    decreases holes.len(),
{
    if holes.len() == 0 {
        0
    } else {
        weight(holes.drop_last()) + 2 * holes.last().objects.len() + 1
    }
}

/// What is left to do for the classes that were put off.
pub open spec fn stack_weight(stack: Seq<Seq<HoleView>>) -> nat
    decreases stack.len(),
{
    if stack.len() == 0 {
        0
    } else {
        stack_weight(stack.drop_last()) + weight(stack.last())
    }
}

/// What is left to do in a state.
pub open spec fn total(s: PatternState) -> nat {
    weight(s.holes) + stack_weight(s.holes_stack)
}

/// The variable `v` occurs in a hole.
pub open spec fn in_holes(holes: Seq<HoleView>, v: Seq<char>) -> bool {
    exists|i: int| 0 <= i < holes.len() && vars((#[trigger] holes[i]).objects).contains(v)
}

/// The variable `v` occurs in a hole of a class that was put off.
pub open spec fn in_stack(stack: Seq<Seq<HoleView>>, v: Seq<char>) -> bool {
    exists|j: int| 0 <= j < stack.len() && in_holes(#[trigger] stack[j], v)
}

/// The variable `v` is projected or occurs in a hole that is still to be
/// matched.
pub open spec fn covered(s: PatternState, v: Seq<char>) -> bool {
    ||| s.projected().contains(v)
    ||| in_holes(s.holes, v)
    ||| in_stack(s.holes_stack, v)
}

/// `t` is a state that comes after `s`: the invariant holds, no more is
/// left to do, the slots that were given out are paid for by what was
/// done, and no variable got lost.
pub open spec fn follows(s: PatternState, t: PatternState) -> bool {
    &&& t.wf()
    &&& total(t) <= total(s)
    &&& t.next_element + total(t) <= s.next_element + total(s)
    &&& s.next_element <= t.next_element
    &&& t.transition_depth + s.next_element <= s.transition_depth + t.next_element
    &&& forall|v: Seq<char>| covered(s, v) ==> covered(t, v)
}

/// `t` comes after `s`, and less is left to do.
pub open spec fn advances(s: PatternState, t: PatternState) -> bool {
    &&& follows(s, t)
    &&& (total(t) < total(s) || (total(t) == total(s) && t.holes_stack.len()
        < s.holes_stack.len()))
}

/// The compilation from the state `s` on, to the end.
pub open spec fn run(s: PatternState) -> PatternState
    decreases total(s), s.holes_stack.len(),
    when s.wf()
{
    if done(s) {
        s
    } else {
        proof {
            crate::pattern_laws::lemma_step(s);
        }
        run(step(s))
    }
}

/// The compilation of a pattern: the instructions that match it, and the
/// slot in which each of its variables ends.
pub open spec fn compile_pattern(pattern: Seq<ObjectView>) -> PatternState {
    run(initial(pattern))
}

} // verus!
