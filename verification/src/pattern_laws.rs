//! What holds of the steps of the pattern compiler: every step keeps the
//! invariant and leaves less to do, so that the compilation ends, and no
//! variable of the pattern gets lost on the way.

use crate::data::ObjectView;
use crate::pattern::{advance_left, advance_right, advances, covered, follows, holes_ok, in_holes};
use crate::pattern::{balanced, closing, hole_ok, net, opening, plain, stack_weight, weight};
use crate::pattern::{find_hole_from, match_e_l, match_e_r, match_e_var, match_empty};
use crate::pattern::{match_move_borders, match_s_l, match_s_r, match_str_bracket_l};
use crate::pattern::{in_stack, match_str_bracket_r, non_trivial_hole, total, vars};
use crate::pattern::{bucket, buckets, constrain_lengthen, decompose_from, decompose_holes};
use crate::pattern::{done, find_hole, first_unclassed, grow_class, handle_holes, lemma_first_unclassed};
use crate::pattern::{lemma_grow_class, lengthen_first, match_hole, match_rules, open_e_var};
use crate::pattern::{compile_pattern, initial, put_off, run, step};
use crate::pattern::{first_free, free_var, has_free_var, lemma_first_free, unclassed};
use crate::pattern::{founder, has_founder, is_chain, is_decomposition, linked, shares};
use crate::pattern::{DecompositionView, HoleView, PatternState};
use vstd::prelude::*;

verus! {

/// The count within a slice is the difference of two counts within the
/// whole.
pub proof fn lemma_net_subrange(objects: Seq<ObjectView>, a: int, b: int, i: int)
    requires
        0 <= a <= b <= objects.len(),
        0 <= i <= b - a,
    ensures
        net(objects.subrange(a, b), i) == net(objects, a + i) - net(objects, a),
    decreases i,
{
    if i > 0 {
        lemma_net_subrange(objects, a, b, i - 1);
        assert(objects.subrange(a, b)[i - 1] == objects[a + i - 1]);
    }
}

/// A slice between two points of equal count, above which the count stays
/// in between, is well nested.
pub proof fn lemma_balanced_subrange(objects: Seq<ObjectView>, a: int, b: int)
    requires
        0 <= a <= b <= objects.len(),
        net(objects, a) == net(objects, b),
        forall|j: int| a <= j <= b ==> net(objects, j) >= net(objects, a),
    ensures
        balanced(objects.subrange(a, b)),
{
    let sub = objects.subrange(a, b);
    lemma_net_subrange(objects, a, b, b - a);
    assert forall|i: int| 0 <= i <= sub.len() implies #[trigger] net(sub, i) >= 0 by {
        lemma_net_subrange(objects, a, b, i);
    }
}

/// A slice of a sequence without call brackets has none.
pub proof fn lemma_plain_subrange(objects: Seq<ObjectView>, a: int, b: int)
    requires
        0 <= a <= b <= objects.len(),
        plain(objects),
    ensures
        plain(objects.subrange(a, b)),
{
    let sub = objects.subrange(a, b);
    assert forall|i: int| 0 <= i < sub.len() implies !(#[trigger] sub[i]).is_fun_bracket() by {
        assert(sub[i] == objects[a + i]);
    }
}

/// A well-nested sequence starts with no right bracket and ends with no
/// left bracket.
pub proof fn lemma_balanced_ends(objects: Seq<ObjectView>)
    requires
        balanced(objects),
        objects.len() > 0,
    ensures
        !(objects.first() is StrBracketR),
        !(objects.last() is StrBracketL),
{
    assert(net(objects, 0) == 0);
    assert(net(objects, 1) >= 0);
    assert(net(objects, objects.len() - 1) >= 0);
}

/// The search for the closing bracket finds it, and the count stays above
/// the start on the way.
pub proof fn lemma_closing(objects: Seq<ObjectView>, i: int, depth: int)
    requires
        balanced(objects),
        1 <= i <= objects.len(),
        depth >= 1,
        net(objects, i) == depth,
        forall|j: int| 1 <= j <= i ==> net(objects, j) >= 1,
    ensures
        i <= closing(objects, i, depth) < objects.len(),
        objects[closing(objects, i, depth)] is StrBracketR,
        net(objects, closing(objects, i, depth)) == 1,
        net(objects, closing(objects, i, depth) + 1) == 0,
        forall|j: int| 1 <= j <= closing(objects, i, depth) ==> net(objects, j) >= 1,
    decreases objects.len() - i,
{
    if i >= objects.len() {
        assert(net(objects, objects.len() as int) == 0);
    } else {
        assert(net(objects, i + 1) == net(objects, i) + match objects[i] {
            ObjectView::StrBracketL => 1int,
            ObjectView::StrBracketR => -1int,
            _ => 0int,
        });
        match objects[i] {
            ObjectView::StrBracketR => {
                if depth > 1 {
                    assert forall|j: int| 1 <= j <= i + 1 implies net(objects, j) >= 1 by {}
                    lemma_closing(objects, i + 1, depth - 1);
                }
            },
            ObjectView::StrBracketL => {
                assert forall|j: int| 1 <= j <= i + 1 implies net(objects, j) >= 1 by {}
                lemma_closing(objects, i + 1, depth + 1);
            },
            _ => {
                assert forall|j: int| 1 <= j <= i + 1 implies net(objects, j) >= 1 by {}
                lemma_closing(objects, i + 1, depth);
            },
        }
    }
}

/// The search for the opening bracket finds it, and the count stays above
/// the end on the way.
pub proof fn lemma_opening(objects: Seq<ObjectView>, i: int, depth: int)
    requires
        balanced(objects),
        -1 <= i < objects.len() - 1,
        depth >= 1,
        net(objects, i + 1) == depth,
        forall|j: int| i + 1 <= j <= objects.len() - 1 ==> net(objects, j) >= 1,
    ensures
        0 <= opening(objects, i, depth) <= i,
        objects[opening(objects, i, depth)] is StrBracketL,
        net(objects, opening(objects, i, depth)) == 0,
        forall|j: int|
            opening(objects, i, depth) + 1 <= j <= objects.len() - 1 ==> net(objects, j) >= 1,
    decreases i + 1,
{
    if i < 0 {
        assert(net(objects, 0) == 0);
    } else {
        assert(net(objects, i + 1) == net(objects, i) + match objects[i] {
            ObjectView::StrBracketL => 1int,
            ObjectView::StrBracketR => -1int,
            _ => 0int,
        });
        assert(net(objects, i) >= 0);
        match objects[i] {
            ObjectView::StrBracketL => {
                if depth > 1 {
                    assert forall|j: int| i <= j <= objects.len() - 1 implies net(objects, j)
                        >= 1 by {}
                    lemma_opening(objects, i - 1, depth - 1);
                }
            },
            ObjectView::StrBracketR => {
                assert forall|j: int| i <= j <= objects.len() - 1 implies net(objects, j) >= 1 by {}
                lemma_opening(objects, i - 1, depth + 1);
            },
            _ => {
                assert forall|j: int| i <= j <= objects.len() - 1 implies net(objects, j) >= 1 by {}
                lemma_opening(objects, i - 1, depth);
            },
        }
    }
}

/// A well-nested hole that starts with a left bracket splits into two
/// well-nested holes: what is inside the bracket and what follows its mate.
pub proof fn lemma_split_left(objects: Seq<ObjectView>)
    requires
        balanced(objects),
        plain(objects),
        objects.len() > 0,
        objects[0] is StrBracketL,
    ensures
        1 <= closing(objects, 1, 1) < objects.len(),
        objects[closing(objects, 1, 1)] is StrBracketR,
        balanced(objects.subrange(1, closing(objects, 1, 1))),
        plain(objects.subrange(1, closing(objects, 1, 1))),
        balanced(objects.subrange(closing(objects, 1, 1) + 1, objects.len() as int)),
        plain(objects.subrange(closing(objects, 1, 1) + 1, objects.len() as int)),
{
    assert(net(objects, 0) == 0);
    assert(net(objects, 1) == 1);
    lemma_closing(objects, 1, 1);
    let right = closing(objects, 1, 1);
    lemma_balanced_subrange(objects, 1, right);
    lemma_balanced_subrange(objects, right + 1, objects.len() as int);
    lemma_plain_subrange(objects, 1, right);
    lemma_plain_subrange(objects, right + 1, objects.len() as int);
}

/// A well-nested hole that ends with a right bracket splits into two
/// well-nested holes: what comes before the bracket's mate and what is
/// inside.
pub proof fn lemma_split_right(objects: Seq<ObjectView>)
    requires
        balanced(objects),
        plain(objects),
        objects.len() > 0,
        objects.last() is StrBracketR,
    ensures
        0 <= opening(objects, objects.len() - 2, 1) < objects.len() - 1,
        objects[opening(objects, objects.len() - 2, 1)] is StrBracketL,
        balanced(objects.subrange(0, opening(objects, objects.len() - 2, 1))),
        plain(objects.subrange(0, opening(objects, objects.len() - 2, 1))),
        balanced(
            objects.subrange(opening(objects, objects.len() - 2, 1) + 1, objects.len() - 1),
        ),
        plain(objects.subrange(opening(objects, objects.len() - 2, 1) + 1, objects.len() - 1)),
{
    let last = objects.len() - 1;
    assert(net(objects, last + 1) == 0);
    assert(net(objects, last) == 1);
    assert(net(objects, 0) == 0);
    if last == 0 {
        assert(false);
    }
    lemma_opening(objects, last - 1, 1);
    let left = opening(objects, last - 1, 1);
    assert(net(objects, left + 1) == 1);
    lemma_balanced_subrange(objects, 0, left);
    lemma_balanced_subrange(objects, left + 1, last);
    lemma_plain_subrange(objects, 0, left);
    lemma_plain_subrange(objects, left + 1, last);
}

/// A well-nested hole without its first object, which is no bracket, is
/// well nested.
pub proof fn lemma_drop_first_ok(hole: HoleView)
    requires
        hole_ok(hole),
        hole.objects.len() > 0,
        !(hole.objects[0] is StrBracketL),
    ensures
        balanced(hole.objects.drop_first()),
        plain(hole.objects.drop_first()),
{
    let objects = hole.objects;
    lemma_balanced_ends(objects);
    assert(net(objects, 0) == 0);
    assert(net(objects, 1) == 0);
    assert(objects.drop_first() == objects.subrange(1, objects.len() as int));
    lemma_balanced_subrange(objects, 1, objects.len() as int);
    lemma_plain_subrange(objects, 1, objects.len() as int);
}

/// A well-nested hole without its last object, which is no bracket, is
/// well nested.
pub proof fn lemma_drop_last_ok(hole: HoleView)
    requires
        hole_ok(hole),
        hole.objects.len() > 0,
        !(hole.objects.last() is StrBracketR),
    ensures
        balanced(hole.objects.drop_last()),
        plain(hole.objects.drop_last()),
{
    let objects = hole.objects;
    lemma_balanced_ends(objects);
    assert(net(objects, objects.len() as int) == 0);
    assert(net(objects, objects.len() - 1) == 0);
    assert(net(objects, 0) == 0);
    assert(objects.drop_last() == objects.subrange(0, objects.len() - 1));
    lemma_balanced_subrange(objects, 0, objects.len() - 1);
    lemma_plain_subrange(objects, 0, objects.len() - 1);
}

/// What is left to do for the holes without one of them.
pub proof fn lemma_weight_remove(holes: Seq<HoleView>, i: int)
    requires
        0 <= i < holes.len(),
    ensures
        weight(holes.remove(i)) + 2 * holes[i].objects.len() + 1 == weight(holes),
    decreases holes.len(),
{
    if i == holes.len() - 1 {
        assert(holes.remove(i) =~= holes.drop_last());
    } else {
        lemma_weight_remove(holes.drop_last(), i);
        assert(holes.remove(i).drop_last() =~= holes.drop_last().remove(i));
        assert(holes.remove(i).last() == holes.last());
    }
}

/// What is left to do for the holes with one more.
pub proof fn lemma_weight_insert(holes: Seq<HoleView>, i: int, hole: HoleView)
    requires
        0 <= i <= holes.len(),
    ensures
        weight(holes.insert(i, hole)) == weight(holes) + 2 * hole.objects.len() + 1,
{
    assert(holes.insert(i, hole).remove(i) =~= holes);
    lemma_weight_remove(holes.insert(i, hole), i);
}

/// What is left to do for the holes with one of them replaced.
pub proof fn lemma_weight_update(holes: Seq<HoleView>, i: int, hole: HoleView)
    requires
        0 <= i < holes.len(),
    ensures
        weight(holes.update(i, hole)) + 2 * holes[i].objects.len() == weight(holes) + 2
            * hole.objects.len(),
{
    assert(holes.update(i, hole).remove(i) =~= holes.remove(i));
    lemma_weight_remove(holes.update(i, hole), i);
    lemma_weight_remove(holes, i);
}

/// What is left to do for the stack with one class more.
pub proof fn lemma_stack_weight_push(stack: Seq<Seq<HoleView>>, holes: Seq<HoleView>)
    ensures
        stack_weight(stack.push(holes)) == stack_weight(stack) + weight(holes),
{
    assert(stack.push(holes).drop_last() =~= stack);
}

/// A hole weighs no more than all the holes.
pub proof fn lemma_weight_at(holes: Seq<HoleView>, i: int)
    requires
        0 <= i < holes.len(),
    ensures
        2 * holes[i].objects.len() + 1 <= weight(holes),
{
    lemma_weight_remove(holes, i);
}

/// A variable of a sequence is its first object or a variable of the rest.
pub proof fn lemma_vars_drop_first(objects: Seq<ObjectView>, v: Seq<char>)
    requires
        objects.len() > 0,
        vars(objects).contains(v),
    ensures
        objects[0].var_name() == Some(v) || vars(objects.drop_first()).contains(v),
{
    let i = choose|i: int| 0 <= i < objects.len() && (#[trigger] objects[i]).var_name() == Some(v);
    if i > 0 {
        assert(objects.drop_first()[i - 1] == objects[i]);
    }
}

/// A variable of a sequence is its last object or a variable of the rest.
pub proof fn lemma_vars_drop_last(objects: Seq<ObjectView>, v: Seq<char>)
    requires
        objects.len() > 0,
        vars(objects).contains(v),
    ensures
        objects.last().var_name() == Some(v) || vars(objects.drop_last()).contains(v),
{
    let i = choose|i: int| 0 <= i < objects.len() && (#[trigger] objects[i]).var_name() == Some(v);
    if i < objects.len() - 1 {
        assert(objects.drop_last()[i] == objects[i]);
    }
}

/// A variable of a sequence is a variable of one of the two slices beside
/// an object that is no variable.
pub proof fn lemma_vars_split(objects: Seq<ObjectView>, a: int, m: int, b: int, v: Seq<char>)
    requires
        0 <= a <= m < b <= objects.len(),
        objects[m].var_name() is None,
        vars(objects.subrange(a, b)).contains(v),
    ensures
        vars(objects.subrange(a, m)).contains(v) || vars(objects.subrange(m + 1, b)).contains(v),
{
    let sub = objects.subrange(a, b);
    let i = choose|i: int| 0 <= i < sub.len() && (#[trigger] sub[i]).var_name() == Some(v);
    if a + i < m {
        assert(objects.subrange(a, m)[i] == sub[i]);
    } else {
        assert(objects.subrange(m + 1, b)[a + i - m - 1] == sub[i]);
    }
}

/// A variable of the holes is a variable of the hole taken out or of the
/// holes that stay.
pub proof fn lemma_in_holes_remove(holes: Seq<HoleView>, i: int, v: Seq<char>)
    requires
        0 <= i < holes.len(),
        in_holes(holes, v),
    ensures
        vars(holes[i].objects).contains(v) || in_holes(holes.remove(i), v),
{
    let k = choose|k: int| 0 <= k < holes.len() && vars((#[trigger] holes[k]).objects).contains(v);
    if k < i {
        assert(holes.remove(i)[k] == holes[k]);
    } else if k > i {
        assert(holes.remove(i)[k - 1] == holes[k]);
    }
}

/// A variable of the holes stays one where a hole comes in.
pub proof fn lemma_in_holes_insert(holes: Seq<HoleView>, i: int, hole: HoleView, v: Seq<char>)
    requires
        0 <= i <= holes.len(),
        in_holes(holes, v) || vars(hole.objects).contains(v),
    ensures
        in_holes(holes.insert(i, hole), v),
{
    let after = holes.insert(i, hole);
    if vars(hole.objects).contains(v) {
        assert(after[i] == hole);
    } else {
        let k = choose|k: int|
            0 <= k < holes.len() && vars((#[trigger] holes[k]).objects).contains(v);
        if k < i {
            assert(after[k] == holes[k]);
        } else {
            assert(after[k + 1] == holes[k]);
        }
    }
}

/// A variable of the holes is a variable of the hole that is replaced or
/// of the holes after the replacement.
pub proof fn lemma_in_holes_update(holes: Seq<HoleView>, i: int, hole: HoleView, v: Seq<char>)
    requires
        0 <= i < holes.len(),
        in_holes(holes, v),
    ensures
        (vars(holes[i].objects).contains(v) && !vars(hole.objects).contains(v)) || in_holes(
            holes.update(i, hole),
            v,
        ),
{
    let after = holes.update(i, hole);
    let k = choose|k: int| 0 <= k < holes.len() && vars((#[trigger] holes[k]).objects).contains(v);
    if k != i {
        assert(after[k] == holes[k]);
    } else if vars(hole.objects).contains(v) {
        assert(after[i] == hole);
    }
}

/// What [`find_hole_from`] finds is the first hole from `from` on that can
/// be matched from an end.
pub proof fn lemma_find_hole(holes: Seq<HoleView>, projected: Set<Seq<char>>, from: int)
    requires
        0 <= from,
    ensures
        find_hole_from(holes, projected, from) matches Some(i) ==> from <= i < holes.len()
            && !non_trivial_hole(holes[i].objects, projected),
        forall|k: int|
            from <= k < (match find_hole_from(holes, projected, from) {
                Some(i) => i,
                None => holes.len() as int,
            }) ==> non_trivial_hole(#[trigger] holes[k].objects, projected),
    decreases holes.len() - from,
{
    if from >= holes.len() {
    } else if !non_trivial_hole(holes[from].objects, projected) {
    } else {
        lemma_find_hole(holes, projected, from + 1);
    }
}

/// Moving the borders changes nothing but the borders and the commands.
pub proof fn lemma_move_borders(s: PatternState, index: int)
    requires
        s.wf(),
    ensures
        follows(s, match_move_borders(s, index)),
        match_move_borders(s, index) == (PatternState {
            border_l: match_move_borders(s, index).border_l,
            border_r: match_move_borders(s, index).border_r,
            commands: match_move_borders(s, index).commands,
            ..s
        }),
{
    let t = match_move_borders(s, index);
    assert(t.holes == s.holes);
    assert(t.holes_stack == s.holes_stack);
    assert(t.projected_vars == s.projected_vars);
}

/// An empty hole that is matched is a hole less.
pub proof fn lemma_match_empty(s: PatternState, index: int)
    requires
        s.wf(),
        match_empty(s, index) is Some,
    ensures
        advances(s, match_empty(s, index)->0),
        total(match_empty(s, index)->0) < total(s),
        match_empty(s, index)->0.holes_stack == s.holes_stack,
{
    let t = match_empty(s, index)->0;
    lemma_weight_remove(s.holes, index);
    assert forall|i: int| 0 <= i < t.holes.len() implies hole_ok(#[trigger] t.holes[i]) by {
        if i < index {
            assert(t.holes[i] == s.holes[i]);
        } else {
            assert(t.holes[i] == s.holes[i + 1]);
        }
    }
    assert(t.holes_stack == s.holes_stack);
    assert(t.projected_vars == s.projected_vars);
    assert forall|v: Seq<char>| covered(s, v) implies covered(t, v) by {
        if in_holes(s.holes, v) {
            lemma_in_holes_remove(s.holes, index, v);
            if vars(s.holes[index].objects).contains(v) {
                let i = choose|i: int|
                    0 <= i < s.holes[index].objects.len() && (
                    #[trigger] s.holes[index].objects[i]).var_name() == Some(v);
            }
        }
    }
}

/// A lone expression variable that is matched is a hole less, and the
/// variable is projected.
pub proof fn lemma_match_e_var(s: PatternState, index: int)
    requires
        s.wf(),
        match_e_var(s, index) is Some,
    ensures
        advances(s, match_e_var(s, index)->0),
        total(match_e_var(s, index)->0) < total(s),
        match_e_var(s, index)->0.holes_stack == s.holes_stack,
{
    let t = match_e_var(s, index)->0;
    lemma_weight_remove(s.holes, index);
    assert forall|i: int| 0 <= i < t.holes.len() implies hole_ok(#[trigger] t.holes[i]) by {
        if i < index {
            assert(t.holes[i] == s.holes[i]);
        } else {
            assert(t.holes[i] == s.holes[i + 1]);
        }
    }
    assert(t.holes_stack == s.holes_stack);
    assert forall|v: Seq<char>| covered(s, v) implies covered(t, v) by {
        if s.projected().contains(v) {
            assert(t.projected().contains(v));
        } else if in_holes(s.holes, v) {
            lemma_in_holes_remove(s.holes, index, v);
            if vars(s.holes[index].objects).contains(v) {
                let i = choose|i: int|
                    0 <= i < s.holes[index].objects.len() && (
                    #[trigger] s.holes[index].objects[i]).var_name() == Some(v);
                assert(i == 0);
                assert(t.projected().contains(v));
            }
        }
    }
}

/// A hole split at a leading bracket leaves two holes that weigh less.
pub proof fn lemma_match_str_bracket_l(s: PatternState, index: int)
    requires
        s.wf(),
        0 <= index < s.holes.len(),
        s.holes[index].objects.len() > 0,
        s.holes[index].objects[0] is StrBracketL,
    ensures
        match_str_bracket_l(s, index) is Some,
        advances(s, match_str_bracket_l(s, index)->0),
        total(match_str_bracket_l(s, index)->0) < total(s),
        match_str_bracket_l(s, index)->0.holes_stack == s.holes_stack,
        s.holes[index].objects.len() >= 2,
{
    let hole = s.holes[index];
    lemma_split_left(hole.objects);
    let right = closing(hole.objects, 1, 1);
    let t = match_str_bracket_l(s, index)->0;
    let inside = t.holes[index];
    let after = t.holes[index + 1];
    let removed = s.holes.remove(index);
    lemma_weight_remove(s.holes, index);
    lemma_weight_insert(removed, index, after);
    lemma_weight_insert(removed.insert(index, after), index, inside);
    assert forall|i: int| 0 <= i < t.holes.len() implies hole_ok(#[trigger] t.holes[i]) by {
        if i < index {
            assert(t.holes[i] == s.holes[i]);
        } else if i > index + 1 {
            assert(t.holes[i] == s.holes[i - 1]);
        }
    }
    assert(t.holes_stack == s.holes_stack);
    assert(t.projected_vars == s.projected_vars);
    assert forall|v: Seq<char>| covered(s, v) implies covered(t, v) by {
        if in_holes(s.holes, v) {
            lemma_in_holes_remove(s.holes, index, v);
            if in_holes(removed, v) {
                lemma_in_holes_insert(removed, index, after, v);
                lemma_in_holes_insert(removed.insert(index, after), index, inside, v);
            } else {
                lemma_vars_drop_first(hole.objects, v);
                assert(hole.objects.drop_first() =~= hole.objects.subrange(
                    1,
                    hole.objects.len() as int,
                ));
                lemma_vars_split(hole.objects, 1, right, hole.objects.len() as int, v);
                if vars(after.objects).contains(v) {
                    lemma_in_holes_insert(removed, index, after, v);
                }
                lemma_in_holes_insert(removed.insert(index, after), index, inside, v);
            }
        }
    }
}

/// A hole split at a trailing bracket leaves two holes that weigh less.
pub proof fn lemma_match_str_bracket_r(s: PatternState, index: int)
    requires
        s.wf(),
        0 <= index < s.holes.len(),
        s.holes[index].objects.len() > 0,
        s.holes[index].objects.last() is StrBracketR,
    ensures
        match_str_bracket_r(s, index) is Some,
        advances(s, match_str_bracket_r(s, index)->0),
        total(match_str_bracket_r(s, index)->0) < total(s),
        match_str_bracket_r(s, index)->0.holes_stack == s.holes_stack,
        s.holes[index].objects.len() >= 2,
{
    let hole = s.holes[index];
    lemma_split_right(hole.objects);
    let last = hole.objects.len() - 1;
    let left = opening(hole.objects, last - 1, 1);
    let t = match_str_bracket_r(s, index)->0;
    let before = t.holes[index];
    let inside = t.holes[index + 1];
    let removed = s.holes.remove(index);
    lemma_weight_remove(s.holes, index);
    lemma_weight_insert(removed, index, inside);
    lemma_weight_insert(removed.insert(index, inside), index, before);
    assert forall|i: int| 0 <= i < t.holes.len() implies hole_ok(#[trigger] t.holes[i]) by {
        if i < index {
            assert(t.holes[i] == s.holes[i]);
        } else if i > index + 1 {
            assert(t.holes[i] == s.holes[i - 1]);
        }
    }
    assert(t.holes_stack == s.holes_stack);
    assert(t.projected_vars == s.projected_vars);
    assert forall|v: Seq<char>| covered(s, v) implies covered(t, v) by {
        if in_holes(s.holes, v) {
            lemma_in_holes_remove(s.holes, index, v);
            if in_holes(removed, v) {
                lemma_in_holes_insert(removed, index, inside, v);
                lemma_in_holes_insert(removed.insert(index, inside), index, before, v);
            } else {
                lemma_vars_drop_last(hole.objects, v);
                assert(hole.objects.drop_last() =~= hole.objects.subrange(0, last));
                lemma_vars_split(hole.objects, 0, left, last, v);
                if vars(inside.objects).contains(v) {
                    lemma_in_holes_insert(removed, index, inside, v);
                }
                lemma_in_holes_insert(removed.insert(index, inside), index, before, v);
            }
        }
    }
}

/// The first object of a hole is matched: what holds where the state `u`
/// that is advanced differs from `s` in commands, bindings and depth only,
/// and the object, if a variable, is bound in `u`.
pub proof fn lemma_advance_left(s: PatternState, u: PatternState, index: int, slots: nat)
    requires
        s.wf(),
        0 <= index < s.holes.len(),
        s.holes[index].objects.len() > 0,
        !(s.holes[index].objects[0] is StrBracketL),
        1 <= slots <= 2,
        u == (PatternState {
            commands: u.commands,
            projected_vars: u.projected_vars,
            transition_depth: u.transition_depth,
            border_l: u.border_l,
            border_r: u.border_r,
            ..s
        }),
        s.transition_depth <= u.transition_depth <= s.transition_depth + 1,
        forall|v: Seq<char>| s.projected().contains(v) ==> u.projected().contains(v),
        s.holes[index].objects[0].var_name() matches Some(v) ==> u.projected().contains(v),
    ensures
        follows(s, advance_left(u, index, slots)),
        total(advance_left(u, index, slots)) + 2 == total(s),
        advance_left(u, index, slots).holes_stack == s.holes_stack,
{
    let hole = s.holes[index];
    let t = advance_left(u, index, slots);
    lemma_drop_first_ok(hole);
    lemma_weight_update(s.holes, index, t.holes[index]);
    assert forall|i: int| 0 <= i < t.holes.len() implies hole_ok(#[trigger] t.holes[i]) by {
        if i != index {
            assert(t.holes[i] == s.holes[i]);
        }
    }
    assert(t.holes_stack == s.holes_stack);
    assert(t.projected_vars == u.projected_vars);
    assert forall|v: Seq<char>| covered(s, v) implies covered(t, v) by {
        if s.projected().contains(v) {
            assert(t.projected().contains(v));
        } else if in_holes(s.holes, v) {
            lemma_in_holes_update(s.holes, index, t.holes[index], v);
            if vars(hole.objects).contains(v) {
                lemma_vars_drop_first(hole.objects, v);
            }
        }
    }
}

/// The last object of a hole is matched: as [`lemma_advance_left`].
pub proof fn lemma_advance_right(s: PatternState, u: PatternState, index: int, slots: nat)
    requires
        s.wf(),
        0 <= index < s.holes.len(),
        s.holes[index].objects.len() > 0,
        !(s.holes[index].objects.last() is StrBracketR),
        1 <= slots <= 2,
        u == (PatternState {
            commands: u.commands,
            projected_vars: u.projected_vars,
            border_l: u.border_l,
            border_r: u.border_r,
            ..s
        }),
        forall|v: Seq<char>| s.projected().contains(v) ==> u.projected().contains(v),
        s.holes[index].objects.last().var_name() matches Some(v) ==> u.projected().contains(v),
    ensures
        follows(s, advance_right(u, index, slots)),
        total(advance_right(u, index, slots)) + 2 == total(s),
        advance_right(u, index, slots).holes_stack == s.holes_stack,
{
    let hole = s.holes[index];
    let t = advance_right(u, index, slots);
    lemma_drop_last_ok(hole);
    lemma_weight_update(s.holes, index, t.holes[index]);
    assert forall|i: int| 0 <= i < t.holes.len() implies hole_ok(#[trigger] t.holes[i]) by {
        if i != index {
            assert(t.holes[i] == s.holes[i]);
        }
    }
    assert(t.holes_stack == s.holes_stack);
    assert(t.projected_vars == u.projected_vars);
    assert forall|v: Seq<char>| covered(s, v) implies covered(t, v) by {
        if s.projected().contains(v) {
            assert(t.projected().contains(v));
        } else if in_holes(s.holes, v) {
            lemma_in_holes_update(s.holes, index, t.holes[index], v);
            if vars(hole.objects).contains(v) {
                lemma_vars_drop_last(hole.objects, v);
            }
        }
    }
}

/// A leading symbol or symbol variable that is matched.
pub proof fn lemma_match_s_l(s: PatternState, index: int)
    requires
        s.wf(),
        match_s_l(s, index) is Some,
    ensures
        advances(s, match_s_l(s, index)->0),
        total(match_s_l(s, index)->0) < total(s),
        match_s_l(s, index)->0.holes_stack == s.holes_stack,
{
    let t = match_s_l(s, index)->0;
    let u = PatternState {
        commands: t.commands,
        projected_vars: t.projected_vars,
        ..s
    };
    assert(t == advance_left(u, index, 1));
    lemma_advance_left(s, u, index, 1);
}

/// A leading term variable or projected expression variable that is
/// matched.
pub proof fn lemma_match_e_l(s: PatternState, index: int)
    requires
        s.wf(),
        match_e_l(s, index) is Some,
    ensures
        advances(s, match_e_l(s, index)->0),
        total(match_e_l(s, index)->0) < total(s),
        match_e_l(s, index)->0.holes_stack == s.holes_stack,
{
    let t = match_e_l(s, index)->0;
    let u = PatternState {
        commands: t.commands,
        projected_vars: t.projected_vars,
        ..s
    };
    assert(t == advance_left(u, index, 2));
    lemma_advance_left(s, u, index, 2);
}

/// A trailing symbol or symbol variable that is matched.
pub proof fn lemma_match_s_r(s: PatternState, index: int)
    requires
        s.wf(),
        match_s_r(s, index) is Some,
    ensures
        advances(s, match_s_r(s, index)->0),
        total(match_s_r(s, index)->0) < total(s),
        match_s_r(s, index)->0.holes_stack == s.holes_stack,
{
    let t = match_s_r(s, index)->0;
    let u = PatternState {
        commands: t.commands,
        projected_vars: t.projected_vars,
        ..s
    };
    assert(t == advance_right(u, index, 1));
    lemma_advance_right(s, u, index, 1);
}

/// A trailing term variable or projected expression variable that is
/// matched.
pub proof fn lemma_match_e_r(s: PatternState, index: int)
    requires
        s.wf(),
        match_e_r(s, index) is Some,
    ensures
        advances(s, match_e_r(s, index)->0),
        total(match_e_r(s, index)->0) < total(s),
        match_e_r(s, index)->0.holes_stack == s.holes_stack,
{
    let t = match_e_r(s, index)->0;
    let u = PatternState {
        commands: t.commands,
        projected_vars: t.projected_vars,
        ..s
    };
    assert(t == advance_right(u, index, 2));
    lemma_advance_right(s, u, index, 2);
}

/// The classes that a decomposition gives: every hole has one, from 1 to
/// `n`, and the first hole is of the first class.
pub open spec fn classes_ok(d: DecompositionView, len: nat) -> bool {
    &&& d.classes.len() == len
    &&& forall|i: int| 0 <= i < len ==> 1 <= #[trigger] d.classes[i] <= d.n
    &&& len > 0 ==> d.classes[0] == 1
}

/// The rounds of a decomposition leave every hole with a class.
pub proof fn lemma_decompose_from(
    holes: Seq<HoleView>,
    projected: Set<Seq<char>>,
    classes: Seq<nat>,
    n: nat,
)
    requires
        classes.len() == holes.len(),
        forall|i: int| 0 <= i < classes.len() ==> #[trigger] classes[i] <= n,
        n > 0 && holes.len() > 0 ==> classes[0] == 1,
        n == 0 ==> forall|i: int| 0 <= i < classes.len() ==> #[trigger] classes[i] == 0,
    ensures
        classes_ok(decompose_from(holes, projected, classes, n), holes.len()),
    decreases crate::pattern::unclassed(classes),
{
    lemma_first_unclassed(classes, 0);
    match first_unclassed(classes, 0) {
        None => {},
        Some(j) => {
            let founded = classes.update(j, n + 1);
            let x = vars(holes[j].objects);
            crate::pattern::lemma_unclassed_update(classes, j, n + 1);
            lemma_grow_class(holes, projected, founded, n + 1, x);
            let grown = grow_class(holes, projected, founded, n + 1, x);
            assert forall|i: int| 0 <= i < grown.len() implies #[trigger] grown[i] <= n + 1 by {
                let _ = founded[i];
            }
            if n == 0 {
                assert(j == 0) by {
                    if j > 0 {
                        assert(classes[0] == 0);
                    }
                }
            }
            assert(grown[0] == 1) by {
                let _ = founded[0];
            }
            lemma_decompose_from(holes, projected, grown, n + 1);
        },
    }
}

/// A decomposition gives every hole a class, and the first hole the first.
pub proof fn lemma_decompose(holes: Seq<HoleView>, projected: Set<Seq<char>>)
    ensures
        classes_ok(decompose_holes(holes, projected), holes.len()),
{
    lemma_decompose_from(holes, projected, Seq::new(holes.len(), |i: int| 0nat), 0);
}

/// A hole is in the class that it has, and a class holds holes only.
pub proof fn lemma_bucket(holes: Seq<HoleView>, classes: Seq<nat>, c: nat)
    requires
        classes.len() == holes.len(),
    ensures
        forall|i: int|
            0 <= i < holes.len() && classes[i] == c ==> bucket(holes, classes, c).contains(
                #[trigger] holes[i],
            ),
        forall|k: int|
            0 <= k < bucket(holes, classes, c).len() ==> holes.contains(
                #[trigger] bucket(holes, classes, c)[k],
            ),
    decreases holes.len(),
{
    if holes.len() > 0 {
        let rest = bucket(holes.drop_last(), classes.drop_last(), c);
        let all = bucket(holes, classes, c);
        lemma_bucket(holes.drop_last(), classes.drop_last(), c);
        assert forall|i: int| 0 <= i < holes.len() && classes[i] == c implies all.contains(
            #[trigger] holes[i],
        ) by {
            if i < holes.len() - 1 {
                assert(holes.drop_last()[i] == holes[i]);
                assert(rest.contains(holes[i]));
                let k = choose|k: int| 0 <= k < rest.len() && rest[k] == holes[i];
                assert(all[k] == holes[i]);
            } else {
                assert(all[all.len() - 1] == holes[i]);
            }
        }
        assert forall|k: int| 0 <= k < all.len() implies holes.contains(#[trigger] all[k]) by {
            if k < rest.len() {
                assert(all[k] == rest[k]);
                assert(holes.drop_last().contains(rest[k]));
                let i = choose|i: int|
                    0 <= i < holes.drop_last().len() && holes.drop_last()[i] == rest[k];
                assert(holes[i] == all[k]);
            } else {
                assert(all[k] == holes[holes.len() - 1]);
            }
        }
    }
}

/// The classes from `from` to `to` are as many as they are numbered, each
/// in its place.
pub proof fn lemma_buckets(holes: Seq<HoleView>, classes: Seq<nat>, from: nat, to: nat)
    requires
        1 <= from <= to + 1,
    ensures
        buckets(holes, classes, from, to).len() == to + 1 - from,
        forall|k: int|
            0 <= k < to + 1 - from ==> #[trigger] buckets(holes, classes, from, to)[k] == bucket(
                holes,
                classes,
                (from + k) as nat,
            ),
    decreases to,
{
    if to >= from {
        lemma_buckets(holes, classes, from, (to - 1) as nat);
    }
}

/// What the classes up to `n` weigh together.
pub open spec fn buckets_weight(holes: Seq<HoleView>, classes: Seq<nat>, n: nat) -> nat
    decreases n,
{
    if n == 0 {
        0
    } else {
        buckets_weight(holes, classes, (n - 1) as nat) + weight(bucket(holes, classes, n))
    }
}

/// A hole more, of class `c`, makes the classes up to `n` heavier by
/// that hole where `c` is among them.
pub proof fn lemma_buckets_weight_push(
    holes: Seq<HoleView>,
    classes: Seq<nat>,
    hole: HoleView,
    c: nat,
    n: nat,
)
    requires
        classes.len() == holes.len(),
    ensures
        buckets_weight(holes.push(hole), classes.push(c), n) == buckets_weight(holes, classes, n)
            + if 1 <= c <= n {
            2 * hole.objects.len() + 1
        } else {
            0
        },
    decreases n,
{
    if n > 0 {
        lemma_buckets_weight_push(holes, classes, hole, c, (n - 1) as nat);
        assert(holes.push(hole).drop_last() =~= holes);
        assert(classes.push(c).drop_last() =~= classes);
        if c == n {
            assert(bucket(holes.push(hole), classes.push(c), n).drop_last() =~= bucket(
                holes,
                classes,
                n,
            ));
        }
    }
}

/// The classes weigh together what the holes weigh.
pub proof fn lemma_buckets_weight(holes: Seq<HoleView>, classes: Seq<nat>, n: nat)
    requires
        classes.len() == holes.len(),
        forall|i: int| 0 <= i < holes.len() ==> 1 <= #[trigger] classes[i] <= n,
    ensures
        buckets_weight(holes, classes, n) == weight(holes),
    decreases holes.len(),
{
    if holes.len() == 0 {
        lemma_buckets_weight_empty(classes, n);
        assert(holes =~= Seq::empty());
    } else {
        let h = holes.drop_last();
        let c = classes.drop_last();
        assert forall|i: int| 0 <= i < h.len() implies 1 <= #[trigger] c[i] <= n by {
            assert(c[i] == classes[i]);
        }
        lemma_buckets_weight(h, c, n);
        lemma_buckets_weight_push(h, c, holes.last(), classes.last(), n);
        assert(h.push(holes.last()) =~= holes);
        assert(c.push(classes.last()) =~= classes);
        assert(1 <= classes[classes.len() - 1] <= n);
    }
}

/// The classes of no holes weigh nothing.
pub proof fn lemma_buckets_weight_empty(classes: Seq<nat>, n: nat)
    ensures
        buckets_weight(Seq::empty(), classes, n) == 0,
    decreases n,
{
    if n > 0 {
        lemma_buckets_weight_empty(classes, (n - 1) as nat);
    }
}

/// The stack with the classes from 2 to `n` on it weighs what it weighed
/// and what those classes weigh.
pub proof fn lemma_stack_weight_buckets(
    stack: Seq<Seq<HoleView>>,
    holes: Seq<HoleView>,
    classes: Seq<nat>,
    n: nat,
)
    requires
        n >= 1,
    ensures
        stack_weight(stack + buckets(holes, classes, 2, n)) + weight(bucket(holes, classes, 1))
            == stack_weight(stack) + buckets_weight(holes, classes, n),
    decreases n,
{
    if n == 1 {
        assert(stack + buckets(holes, classes, 2, 1) =~= stack);
        assert(buckets_weight(holes, classes, 0) == 0);
    } else {
        lemma_stack_weight_buckets(stack, holes, classes, (n - 1) as nat);
        let below = stack + buckets(holes, classes, 2, (n - 1) as nat);
        assert(stack + buckets(holes, classes, 2, n) =~= below.push(bucket(holes, classes, n)));
        lemma_stack_weight_push(below, bucket(holes, classes, n));
    }
}

/// Putting classes off keeps the invariant, the weight, the variables and
/// everything but the holes and the stacks; the holes that stay are among
/// those that were there, and there is one.
pub proof fn lemma_put_off(s: PatternState)
    requires
        s.wf(),
        s.holes.len() > 0,
    ensures
        put_off(s).wf(),
        total(put_off(s)) == total(s),
        put_off(s).holes.len() > 0,
        forall|k: int|
            0 <= k < put_off(s).holes.len() ==> s.holes.contains(#[trigger] put_off(s).holes[k]),
        forall|v: Seq<char>| covered(s, v) ==> covered(put_off(s), v),
        put_off(s) == (PatternState {
            holes: put_off(s).holes,
            holes_stack: put_off(s).holes_stack,
            transition_depth_stack: put_off(s).transition_depth_stack,
            ..s
        }),
        put_off(s).holes_stack.len() >= s.holes_stack.len(),
{
    let d = decompose_holes(s.holes, s.projected());
    lemma_decompose(s.holes, s.projected());
    let t = put_off(s);
    if d.n > 1 {
        lemma_bucket(s.holes, d.classes, 1);
        lemma_buckets(s.holes, d.classes, 2, d.n);
        lemma_buckets_weight(s.holes, d.classes, d.n);
        lemma_stack_weight_buckets(s.holes_stack, s.holes, d.classes, d.n);
        assert(t.holes.contains(s.holes[0]));
        assert forall|i: int| 0 <= i < t.holes.len() implies hole_ok(#[trigger] t.holes[i]) by {
            assert(s.holes.contains(t.holes[i]));
            let k = choose|k: int| 0 <= k < s.holes.len() && s.holes[k] == t.holes[i];
        }
        assert forall|j: int| 0 <= j < t.holes_stack.len() implies holes_ok(
            #[trigger] t.holes_stack[j],
        ) by {
            if j >= s.holes_stack.len() {
                let c = (2 + j - s.holes_stack.len()) as nat;
                let class = bucket(s.holes, d.classes, c);
                assert(t.holes_stack[j] == buckets(s.holes, d.classes, 2, d.n)[j
                    - s.holes_stack.len()]);
                lemma_bucket(s.holes, d.classes, c);
                assert forall|i: int| 0 <= i < class.len() implies hole_ok(#[trigger] class[i]) by {
                    assert(s.holes.contains(class[i]));
                    let k = choose|k: int| 0 <= k < s.holes.len() && s.holes[k] == class[i];
                }
            } else {
                assert(t.holes_stack[j] == s.holes_stack[j]);
            }
        }
        assert forall|v: Seq<char>| covered(s, v) implies covered(t, v) by {
            if s.projected().contains(v) {
            } else if in_holes(s.holes, v) {
                let i = choose|i: int|
                    0 <= i < s.holes.len() && vars((#[trigger] s.holes[i]).objects).contains(v);
                let c = d.classes[i];
                lemma_bucket(s.holes, d.classes, c);
                let class = bucket(s.holes, d.classes, c);
                assert(class.contains(s.holes[i]));
                let k = choose|k: int| 0 <= k < class.len() && class[k] == s.holes[i];
                assert(in_holes(class, v));
                if c >= 2 {
                    let j = s.holes_stack.len() + c - 2;
                    assert(t.holes_stack[j] == buckets(s.holes, d.classes, 2, d.n)[c - 2]);
                    assert(in_stack(t.holes_stack, v));
                }
            } else {
                let j = choose|j: int|
                    0 <= j < s.holes_stack.len() && in_holes(#[trigger] s.holes_stack[j], v);
                assert(t.holes_stack[j] == s.holes_stack[j]);
            }
        }
    }
}

/// Lengthening an open variable of a state in which no hole can be matched
/// from an end keeps the invariant and leaves less to do.
pub proof fn lemma_handle_holes(s: PatternState)
    requires
        s.wf(),
        s.holes.len() > 0,
        find_hole(s) is None,
    ensures
        advances(s, handle_holes(s)),
        total(handle_holes(s)) < total(s),
        handle_holes(s).next_element == s.next_element + 2,
{
    lemma_put_off(s);
    lemma_find_hole(s.holes, s.projected(), 0);
    let p = put_off(s);
    assert(s.holes.contains(p.holes[0]));
    let k = choose|k: int| 0 <= k < s.holes.len() && s.holes[k] == p.holes[0];
    assert(non_trivial_hole(s.holes[k].objects, s.projected()));
    let hole = p.holes[0];
    assert(open_e_var(hole.objects[0], s.projected()));
    let t = lengthen_first(p);
    let m = match_move_borders(p, 0);
    lemma_move_borders(p, 0);
    let u = PatternState {
        commands: t.commands,
        projected_vars: t.projected_vars,
        transition_depth: p.transition_depth + 1,
        ..m
    };
    assert(t == advance_left(u, 0, 2));
    lemma_advance_left(p, u, 0, 2);
    assert forall|v: Seq<char>| covered(s, v) implies covered(t, v) by {
        assert(covered(p, v));
    }
}

/// Taking up a class that was put off keeps the invariant and the weight,
/// and the stack is lower.
pub proof fn lemma_constrain_lengthen(s: PatternState)
    requires
        s.wf(),
        s.holes.len() == 0,
        s.holes_stack.len() > 0,
    ensures
        advances(s, constrain_lengthen(s)),
        s.transition_depth_stack.last() <= s.transition_depth,
{
    let t = constrain_lengthen(s);
    let top = s.transition_depth_stack[s.transition_depth_stack.len() - 1];
    assert(t.holes == s.holes_stack[s.holes_stack.len() - 1]);
    assert forall|j: int| 0 <= j < t.holes_stack.len() implies holes_ok(
        #[trigger] t.holes_stack[j],
    ) by {
        assert(t.holes_stack[j] == s.holes_stack[j]);
    }
    assert forall|j: int| 0 <= j < t.transition_depth_stack.len() implies (
    #[trigger] t.transition_depth_stack[j]) <= t.transition_depth by {
        assert(t.transition_depth_stack[j] == s.transition_depth_stack[j]);
    }
    assert forall|j: int, k: int|
        0 <= j <= k < t.transition_depth_stack.len() implies t.transition_depth_stack[j]
        <= t.transition_depth_stack[k] by {
        assert(t.transition_depth_stack[j] == s.transition_depth_stack[j]);
        assert(t.transition_depth_stack[k] == s.transition_depth_stack[k]);
    }
    assert forall|v: Seq<char>| covered(s, v) implies covered(t, v) by {
        if s.projected().contains(v) {
        } else if in_holes(s.holes, v) {
        } else {
            let j = choose|j: int|
                0 <= j < s.holes_stack.len() && in_holes(#[trigger] s.holes_stack[j], v);
            if j < s.holes_stack.len() - 1 {
                assert(t.holes_stack[j] == s.holes_stack[j]);
            }
        }
    }
}

/// A hole that can be matched from an end is matched by one of the rules,
/// which keeps the invariant and leaves less to do.
pub proof fn lemma_match_hole(s: PatternState, index: int)
    requires
        s.wf(),
        0 <= index < s.holes.len(),
        !non_trivial_hole(s.holes[index].objects, s.projected()),
    ensures
        advances(s, match_hole(s, index)),
        total(match_hole(s, index)) < total(s),
        match_hole(s, index).holes_stack == s.holes_stack,
{
    let t = match_move_borders(s, index);
    lemma_move_borders(s, index);
    let objects = t.holes[index].objects;
    assert forall|v: Seq<char>| covered(s, v) implies covered(match_hole(s, index), v) by {
        assert(covered(t, v));
        lemma_match_hole_moved(t, index);
    }
    lemma_match_hole_moved(t, index);
}

/// As [`lemma_match_hole`], for a state whose borders are moved already.
pub proof fn lemma_match_hole_moved(t: PatternState, index: int)
    requires
        t.wf(),
        0 <= index < t.holes.len(),
        !non_trivial_hole(t.holes[index].objects, t.projected()),
    ensures
        advances(t, match_rules(t, index)),
        total(match_rules(t, index)) < total(t),
        match_rules(t, index).holes_stack == t.holes_stack,
{
    let objects = t.holes[index].objects;
    if match_empty(t, index) is Some {
        lemma_match_empty(t, index);
    } else if match_e_var(t, index) is Some {
        lemma_match_e_var(t, index);
    } else if objects[0] is StrBracketL {
        lemma_match_str_bracket_l(t, index);
    } else if match_s_l(t, index) is Some {
        lemma_match_s_l(t, index);
    } else if match_e_l(t, index) is Some {
        lemma_match_e_l(t, index);
    } else if objects.last() is StrBracketR {
        lemma_match_str_bracket_r(t, index);
    } else if match_s_r(t, index) is Some {
        lemma_match_s_r(t, index);
    } else if match_e_r(t, index) is Some {
        lemma_match_e_r(t, index);
    } else {
        lemma_balanced_ends(objects);
        assert(plain(objects));
        let _ = objects[0];
        let _ = objects[objects.len() - 1];
        assert(false);
    }
}

/// Every step of a state in which something is left to match keeps the
/// invariant and leaves less to do.
pub proof fn lemma_step(s: PatternState)
    requires
        s.wf(),
        !done(s),
    ensures
        advances(s, step(s)),
{
    lemma_find_hole(s.holes, s.projected(), 0);
    match find_hole(s) {
        Some(index) => {
            lemma_match_hole(s, index);
        },
        None => {
            if s.holes.len() > 0 {
                lemma_handle_holes(s);
            } else {
                lemma_constrain_lengthen(s);
            }
        },
    }
}

/// The start of a compilation has the invariant where the pattern is a
/// well-nested sequence without call brackets.
pub proof fn lemma_initial(pattern: Seq<ObjectView>)
    requires
        balanced(pattern),
        plain(pattern),
    ensures
        initial(pattern).wf(),
        total(initial(pattern)) == 2 * pattern.len() + 1,
        forall|v: Seq<char>| vars(pattern).contains(v) ==> covered(initial(pattern), v),
{
    let s = initial(pattern);
    assert(s.holes.drop_last() =~= Seq::empty());
    assert(weight(s.holes.drop_last()) == 0);
    assert forall|v: Seq<char>| vars(pattern).contains(v) implies covered(s, v) by {
        assert(vars(s.holes[0].objects).contains(v));
    }
}

/// A compilation ends with nothing left to match, keeps the invariant and
/// loses no variable, and gives out no more slots than what was left to do
/// pays for.
pub proof fn lemma_run(s: PatternState)
    requires
        s.wf(),
    ensures
        done(run(s)),
        follows(s, run(s)),
    decreases total(s), s.holes_stack.len(),
{
    if !done(s) {
        lemma_step(s);
        lemma_run(step(s));
        let t = step(s);
        let r = run(s);
        assert forall|v: Seq<char>| covered(s, v) implies covered(r, v) by {
            assert(covered(t, v));
        }
    } else {
        assert forall|v: Seq<char>| covered(s, v) implies covered(s, v) by {}
    }
}

/// Every variable of a pattern is projected when the pattern is compiled.
pub proof fn lemma_compile_pattern(pattern: Seq<ObjectView>)
    requires
        balanced(pattern),
        plain(pattern),
    ensures
        forall|v: Seq<char>|
            vars(pattern).contains(v) ==> compile_pattern(pattern).projected().contains(v),
        compile_pattern(pattern).next_element <= 4 + 2 * pattern.len(),
{
    lemma_initial(pattern);
    lemma_run(initial(pattern));
    let r = compile_pattern(pattern);
    assert forall|v: Seq<char>| vars(pattern).contains(v) implies r.projected().contains(v) by {
        assert(covered(initial(pattern), v));
        assert(covered(r, v));
        if in_holes(r.holes, v) {
            let i = choose|i: int|
                0 <= i < r.holes.len() && vars((#[trigger] r.holes[i]).objects).contains(v);
        }
        if in_stack(r.holes_stack, v) {
            let j = choose|j: int|
                0 <= j < r.holes_stack.len() && in_holes(#[trigger] r.holes_stack[j], v);
        }
    }
}

/// No more holes are without class than there are holes.
pub proof fn lemma_unclassed_bound(classes: Seq<nat>)
    ensures
        unclassed(classes) <= classes.len(),
    decreases classes.len(),
{
    if classes.len() > 0 {
        lemma_unclassed_bound(classes.drop_last());
    }
}

/// A hole is linked to itself.
pub proof fn lemma_linked_self(holes: Seq<HoleView>, projected: Set<Seq<char>>, i: int)
    requires
        0 <= i < holes.len(),
    ensures
        linked(holes, projected, i, i),
{
    assert(is_chain(holes, projected, seq![i], i, i));
}

/// A hole that shares a variable that is not projected with the end of a
/// chain lengthens the chain.
pub proof fn lemma_linked_step(
    holes: Seq<HoleView>,
    projected: Set<Seq<char>>,
    i: int,
    k: int,
    m: int,
)
    requires
        linked(holes, projected, i, k),
        0 <= m < holes.len(),
        shares(holes[k], holes[m], projected),
    ensures
        linked(holes, projected, i, m),
{
    let chain = choose|chain: Seq<int>| is_chain(holes, projected, chain, i, k);
    let longer = chain.push(m);
    assert forall|p: int| 0 <= p < longer.len() implies 0 <= #[trigger] longer[p]
        < holes.len() by {
        if p < chain.len() {
            assert(longer[p] == chain[p]);
        }
    }
    assert forall|p: int| 0 <= p && p + 1 < longer.len() implies shares(
        holes[#[trigger] longer[p]],
        holes[longer[p + 1]],
        projected,
    ) by {
        assert(longer[p] == chain[p]);
        if p + 1 < chain.len() {
            assert(longer[p + 1] == chain[p + 1]);
        }
    }
    assert(is_chain(holes, projected, longer, i, m));
}

/// Two holes share a variable whichever is named first.
pub proof fn lemma_shares_sym(a: HoleView, b: HoleView, projected: Set<Seq<char>>)
    requires
        shares(a, b, projected),
    ensures
        shares(b, a, projected),
{
    let v = choose|v: Seq<char>|
        vars(a.objects).contains(v) && vars(b.objects).contains(v) && !projected.contains(v);
    assert(vars(b.objects).contains(v) && vars(a.objects).contains(v) && !projected.contains(v));
}

/// A chain links its ends whichever is named first.
pub proof fn lemma_linked_sym(holes: Seq<HoleView>, projected: Set<Seq<char>>, i: int, k: int)
    requires
        linked(holes, projected, i, k),
    ensures
        linked(holes, projected, k, i),
{
    let chain = choose|chain: Seq<int>| is_chain(holes, projected, chain, i, k);
    let back = chain.reverse();
    let n = chain.len() as int;
    assert forall|p: int| 0 <= p < back.len() implies 0 <= #[trigger] back[p] < holes.len() by {
        assert(back[p] == chain[n - 1 - p]);
    }
    assert forall|p: int| 0 <= p && p + 1 < back.len() implies shares(
        holes[#[trigger] back[p]],
        holes[back[p + 1]],
        projected,
    ) by {
        assert(back[p] == chain[n - 1 - p]);
        assert(back[p + 1] == chain[n - 2 - p]);
        let q = n - 2 - p;
        assert(shares(holes[chain[q]], holes[chain[q + 1]], projected));
        lemma_shares_sym(holes[chain[q]], holes[chain[q + 1]], projected);
    }
    assert(back[0] == chain[n - 1]);
    assert(back[n - 1] == chain[0]);
    assert(is_chain(holes, projected, back, k, i));
}

/// Two chains of which the second starts where the first ends make one.
pub proof fn lemma_linked_trans(
    holes: Seq<HoleView>,
    projected: Set<Seq<char>>,
    i: int,
    k: int,
    m: int,
)
    requires
        linked(holes, projected, i, k),
        linked(holes, projected, k, m),
    ensures
        linked(holes, projected, i, m),
{
    let first = choose|chain: Seq<int>| is_chain(holes, projected, chain, i, k);
    let second = choose|chain: Seq<int>| is_chain(holes, projected, chain, k, m);
    let rest = second.subrange(1, second.len() as int);
    let whole = first + rest;
    let n = first.len() as int;
    assert forall|p: int| 0 <= p < whole.len() implies 0 <= #[trigger] whole[p]
        < holes.len() by {
        if p < n {
            assert(whole[p] == first[p]);
        } else {
            assert(whole[p] == second[p - n + 1]);
        }
    }
    assert forall|p: int| 0 <= p && p + 1 < whole.len() implies shares(
        holes[#[trigger] whole[p]],
        holes[whole[p + 1]],
        projected,
    ) by {
        if p + 1 < n {
            assert(whole[p] == first[p]);
            assert(whole[p + 1] == first[p + 1]);
        } else if p + 1 == n {
            assert(whole[p] == first[p]);
            assert(first[p] == second[0]);
            assert(whole[p + 1] == second[1]);
            assert(shares(holes[second[0int]], holes[second[0int + 1]], projected));
        } else {
            let q = p - n + 1;
            assert(whole[p] == second[q]);
            assert(whole[p + 1] == second[q + 1]);
            assert(shares(holes[second[q]], holes[second[q + 1]], projected));
        }
    }
    assert(whole[0] == first[0]);
    if rest.len() == 0 {
        assert(whole[whole.len() - 1] == first[n - 1]);
    } else {
        assert(whole[whole.len() - 1] == second[second.len() - 1]);
    }
    assert(is_chain(holes, projected, whole, i, m));
}

/// The variable `v` occurs in a hole of the class `n`.
pub open spec fn in_class(holes: Seq<HoleView>, classes: Seq<nat>, n: nat, v: Seq<char>) -> bool {
    exists|i: int|
        0 <= i < holes.len() && #[trigger] classes[i] == n && vars(holes[i].objects).contains(v)
}

/// What holds of a class `n` while it grows: `x` holds the variables of
/// its holes and no other, and every hole of it is linked to the hole `j`
/// that founded it.
pub open spec fn class_inv(
    holes: Seq<HoleView>,
    projected: Set<Seq<char>>,
    classes: Seq<nat>,
    n: nat,
    x: Set<Seq<char>>,
    j: int,
) -> bool {
    &&& classes.len() == holes.len()
    &&& n >= 1
    &&& 0 <= j < holes.len()
    &&& classes[j] == n
    &&& forall|v: Seq<char>| x.contains(v) ==> in_class(holes, classes, n, v)
    &&& forall|i: int, v: Seq<char>|
        0 <= i < holes.len() && classes[i] == n && #[trigger] vars(holes[i].objects).contains(v)
            ==> x.contains(v)
    &&& forall|i: int|
        0 <= i < holes.len() && #[trigger] classes[i] == n ==> linked(holes, projected, j, i)
}

/// A hole with a variable of `x` that is not projected shares it with a
/// hole of the class whose variables `x` holds.
pub proof fn lemma_free_shares(
    holes: Seq<HoleView>,
    projected: Set<Seq<char>>,
    classes: Seq<nat>,
    n: nat,
    x: Set<Seq<char>>,
    j: int,
    k: int,
) -> (i: int)
    requires
        class_inv(holes, projected, classes, n, x, j),
        0 <= k < holes.len(),
        has_free_var(holes[k].objects, x, projected),
    ensures
        0 <= i < holes.len(),
        classes[i] == n,
        shares(holes[i], holes[k], projected),
{
    let objects = holes[k].objects;
    let q = choose|q: int| 0 <= q < objects.len() && free_var(#[trigger] objects[q], x, projected);
    let v = objects[q].var_name()->0;
    assert(vars(objects).contains(v));
    assert(in_class(holes, classes, n, v));
    let i = choose|i: int|
        0 <= i < holes.len() && #[trigger] classes[i] == n && vars(holes[i].objects).contains(v);
    assert(vars(holes[i].objects).contains(v) && vars(holes[k].objects).contains(v)
        && !projected.contains(v));
    i
}

/// A class that has grown: every hole of it is linked to the hole that
/// founded it, and no hole of it shares a variable that is not projected
/// with a hole that is left without class.
pub proof fn lemma_grow_class_links(
    holes: Seq<HoleView>,
    projected: Set<Seq<char>>,
    classes: Seq<nat>,
    n: nat,
    x: Set<Seq<char>>,
    j: int,
)
    requires
        class_inv(holes, projected, classes, n, x, j),
    ensures
        forall|i: int|
            0 <= i < holes.len() && #[trigger] grow_class(holes, projected, classes, n, x)[i] == n
                ==> linked(holes, projected, j, i),
        forall|i: int, k: int|
            0 <= i < holes.len() && 0 <= k < holes.len() && grow_class(
                holes,
                projected,
                classes,
                n,
                x,
            )[i] == n && grow_class(holes, projected, classes, n, x)[k] == 0 ==> !#[trigger] shares(
                holes[i],
                holes[k],
                projected,
            ),
    decreases unclassed(classes),
{
    lemma_first_free(holes, projected, classes, x, 0);
    match first_free(holes, projected, classes, x, 0) {
        None => {
            assert forall|i: int, k: int|
                0 <= i < holes.len() && 0 <= k < holes.len() && classes[i] == n && classes[k]
                    == 0 implies !#[trigger] shares(holes[i], holes[k], projected) by {
                if shares(holes[i], holes[k], projected) {
                    let v = choose|v: Seq<char>|
                        vars(holes[i].objects).contains(v) && vars(holes[k].objects).contains(v)
                            && !projected.contains(v);
                    assert(x.contains(v));
                    let q = choose|q: int|
                        0 <= q < holes[k].objects.len() && (
                        #[trigger] holes[k].objects[q]).var_name() == Some(v);
                    assert(free_var(holes[k].objects[q], x, projected));
                    assert(has_free_var(holes[k].objects, x, projected));
                }
            }
        },
        Some(i0) => {
            let grown = classes.update(i0, n);
            let more = x.union(vars(holes[i0].objects));
            crate::pattern::lemma_unclassed_update(classes, i0, n);
            let near = lemma_free_shares(holes, projected, classes, n, x, j, i0);
            assert(linked(holes, projected, j, near));
            lemma_linked_step(holes, projected, j, near, i0);
            assert forall|v: Seq<char>| more.contains(v) implies in_class(holes, grown, n, v) by {
                if x.contains(v) {
                    assert(in_class(holes, classes, n, v));
                    let i = choose|i: int|
                        0 <= i < holes.len() && #[trigger] classes[i] == n && vars(
                            holes[i].objects,
                        ).contains(v);
                    assert(grown[i] == n);
                } else {
                    assert(grown[i0] == n);
                }
            }
            assert forall|i: int|
                0 <= i < holes.len() && #[trigger] grown[i] == n implies linked(
                holes,
                projected,
                j,
                i,
            ) by {
                if i != i0 {
                    assert(classes[i] == n);
                }
            }
            assert(class_inv(holes, projected, grown, n, more, j)) by {
                assert forall|i: int, v: Seq<char>|
                    0 <= i < holes.len() && grown[i] == n && #[trigger] vars(
                        holes[i].objects,
                    ).contains(v) implies more.contains(v) by {
                    if i != i0 {
                        assert(classes[i] == n);
                    }
                }
            }
            lemma_grow_class_links(holes, projected, grown, n, more, j);
        },
    }
}

/// What holds of the classes between two rounds of a division: the
/// classes up to `n` are made, each with its first hole, and of the holes
/// that have a class those that share a variable that is not projected
/// are of one class, and those of one class are linked.
pub open spec fn classes_inv(
    holes: Seq<HoleView>,
    projected: Set<Seq<char>>,
    classes: Seq<nat>,
    n: nat,
) -> bool {
    &&& classes.len() == holes.len()
    &&& forall|i: int| 0 <= i < holes.len() ==> #[trigger] classes[i] <= n
    &&& forall|c: nat| 1 <= c <= n ==> #[trigger] has_founder(classes, c)
    &&& forall|i: int, k: int|
        0 <= i < holes.len() && 0 <= k < holes.len() && classes[i] != 0 && #[trigger] shares(
            holes[i],
            holes[k],
            projected,
        ) ==> classes[k] == classes[i]
    &&& forall|i: int, k: int|
        0 <= i < holes.len() && 0 <= k < holes.len() && classes[i] != 0 && classes[i]
            == classes[k] ==> #[trigger] linked(holes, projected, i, k)
}

/// A round of a division keeps what holds of the classes.
pub proof fn lemma_round(
    holes: Seq<HoleView>,
    projected: Set<Seq<char>>,
    classes: Seq<nat>,
    n: nat,
    j: int,
)
    requires
        classes_inv(holes, projected, classes, n),
        first_unclassed(classes, 0) == Some(j),
    ensures
        classes_inv(
            holes,
            projected,
            grow_class(
                holes,
                projected,
                classes.update(j, n + 1),
                n + 1,
                vars(holes[j].objects),
            ),
            n + 1,
        ),
{
    lemma_first_unclassed(classes, 0);
    let founded = classes.update(j, n + 1);
    let x = vars(holes[j].objects);
    let grown = grow_class(holes, projected, founded, n + 1, x);
    lemma_grow_class(holes, projected, founded, n + 1, x);
    lemma_linked_self(holes, projected, j);
    assert(class_inv(holes, projected, founded, n + 1, x, j)) by {
        assert forall|v: Seq<char>| x.contains(v) implies in_class(holes, founded, n + 1, v) by {
            assert(founded[j] == n + 1);
        }
        assert forall|i: int|
            0 <= i < holes.len() && #[trigger] founded[i] == n + 1 implies linked(
            holes,
            projected,
            j,
            i,
        ) by {
            if i != j {
                assert(classes[i] == n + 1);
            }
        }
        assert forall|i: int, v: Seq<char>|
            0 <= i < holes.len() && founded[i] == n + 1 && #[trigger] vars(
                holes[i].objects,
            ).contains(v) implies x.contains(v) by {
            if i != j {
                assert(classes[i] == n + 1);
            }
        }
    }
    lemma_grow_class_links(holes, projected, founded, n + 1, x, j);
    assert forall|i: int| 0 <= i < holes.len() implies #[trigger] grown[i] <= n + 1 by {
        let _ = founded[i];
        let _ = classes[i];
    }
    assert forall|c: nat| 1 <= c <= n + 1 implies #[trigger] has_founder(grown, c) by {
        if c <= n {
            assert(has_founder(classes, c));
            let i = choose|i: int| founder(classes, i, c);
            assert forall|k: int| 0 <= k < i implies 1 <= #[trigger] grown[k] < c by {
                assert(1 <= classes[k] < c);
                let _ = founded[k];
            }
            let _ = founded[i];
            assert(founder(grown, i, c));
        } else {
            assert forall|k: int| 0 <= k < j implies 1 <= #[trigger] grown[k] < c by {
                assert(classes[k] != 0);
                assert(classes[k] <= n);
                let _ = founded[k];
            }
            let _ = founded[j];
            assert(founder(grown, j, c));
        }
    }
    assert forall|i: int, k: int|
        0 <= i < holes.len() && 0 <= k < holes.len() && grown[i] != 0 && #[trigger] shares(
            holes[i],
            holes[k],
            projected,
        ) implies grown[k] == grown[i] by {
        let _ = founded[i];
        let _ = founded[k];
        if classes[i] != 0 {
            assert(classes[k] == classes[i]);
        } else {
            assert(grown[i] == n + 1);
            if classes[k] != 0 {
                lemma_shares_sym(holes[i], holes[k], projected);
                assert(classes[i] == classes[k]);
            }
        }
    }
    assert forall|i: int, k: int|
        0 <= i < holes.len() && 0 <= k < holes.len() && grown[i] != 0 && grown[i]
            == grown[k] implies #[trigger] linked(holes, projected, i, k) by {
        let _ = founded[i];
        let _ = founded[k];
        if classes[i] != 0 && classes[k] != 0 {
            assert(classes[i] == classes[k]);
        } else if classes[i] == 0 && classes[k] == 0 {
            assert(grown[i] == n + 1);
            lemma_linked_sym(holes, projected, j, i);
            lemma_linked_trans(holes, projected, i, j, k);
        } else {
            assert(grown[i] <= n || grown[k] <= n);
            assert(classes[i] <= n && classes[k] <= n);
        }
    }
}

/// The rounds of a division give a division.
pub proof fn lemma_division_from(
    holes: Seq<HoleView>,
    projected: Set<Seq<char>>,
    classes: Seq<nat>,
    n: nat,
)
    requires
        classes_inv(holes, projected, classes, n),
    ensures
        is_decomposition(holes, projected, decompose_from(holes, projected, classes, n)),
    decreases unclassed(classes),
{
    lemma_first_unclassed(classes, 0);
    match first_unclassed(classes, 0) {
        None => {},
        Some(j) => {
            let founded = classes.update(j, n + 1);
            let x = vars(holes[j].objects);
            crate::pattern::lemma_unclassed_update(classes, j, n + 1);
            lemma_grow_class(holes, projected, founded, n + 1, x);
            lemma_round(holes, projected, classes, n, j);
            lemma_division_from(
                holes,
                projected,
                grow_class(holes, projected, founded, n + 1, x),
                n + 1,
            );
        },
    }
}

/// The classes into which holes are divided are what a division is:
/// every hole has a class, the classes are numbered by their first holes,
/// two holes that share a variable that is not projected are of one class,
/// and two holes of one class are linked by a chain of such shared
/// variables.
pub proof fn lemma_division(holes: Seq<HoleView>, projected: Set<Seq<char>>)
    ensures
        is_decomposition(holes, projected, decompose_holes(holes, projected)),
{
    let none = Seq::new(holes.len(), |i: int| 0nat);
    lemma_division_from(holes, projected, none, 0);
}

/// The variables among the first `k + 1` objects are those among the
/// first `k` and the object `k`, if it is one.
pub proof fn lemma_vars_take(objects: Seq<ObjectView>, k: int)
    requires
        0 <= k < objects.len(),
    ensures
        forall|v: Seq<char>|
            vars(objects.take(k + 1)).contains(v) <==> (vars(objects.take(k)).contains(v)
                || objects[k].var_name() == Some(v)),
{
    let more = vars(objects.take(k + 1));
    let less = vars(objects.take(k));
    assert forall|v: Seq<char>| more.contains(v) <==> (less.contains(v) || objects[k].var_name()
        == Some(v)) by {
        if more.contains(v) {
            let j = choose|j: int|
                0 <= j < objects.take(k + 1).len() && (#[trigger] objects.take(k + 1)[j]).var_name()
                    == Some(v);
            if j < k {
                assert(objects.take(k)[j] == objects.take(k + 1)[j]);
            }
        }
        if less.contains(v) {
            let j = choose|j: int|
                0 <= j < objects.take(k).len() && (#[trigger] objects.take(k)[j]).var_name()
                    == Some(v);
            assert(objects.take(k + 1)[j] == objects.take(k)[j]);
        }
        if objects[k].var_name() == Some(v) {
            assert(objects.take(k + 1)[k] == objects[k]);
        }
    }
}

} // verus!
