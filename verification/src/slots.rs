//! The projection slots that the pattern compiler gives to the variables:
//! from 3 on, a different slot to each variable, and a slot to the
//! variables of the pattern and to no other.

use crate::data::ObjectView;
use crate::pattern::{advance_left, advance_right, bucket, buckets, compile_pattern};
use crate::pattern::{constrain_lengthen, decompose_holes, done, find_hole, handle_holes, initial};
use crate::pattern::{lengthen_first, match_e_l, match_e_r, match_e_var, match_empty};
use crate::pattern::{match_move_borders, match_rules, match_s_l, match_s_r, match_str_bracket_l};
use crate::pattern::{match_str_bracket_r, put_off, run, step, total, vars};
use crate::pattern::{balanced, plain, HoleView, PatternState};
use crate::pattern_laws::{lemma_bucket, lemma_buckets, lemma_compile_pattern, lemma_decompose};
use crate::pattern_laws::{lemma_initial, lemma_step};
use vstd::prelude::*;

verus! {

/// Every variable among `objects` is in `all`.
pub open spec fn vars_in(objects: Seq<ObjectView>, all: Set<Seq<char>>) -> bool {
    forall|k: int|
        0 <= k < objects.len() ==> ((#[trigger] objects[k]).var_name() matches Some(v)
            ==> all.contains(v))
}

/// Every variable of every hole is in `all`.
pub open spec fn holes_in(holes: Seq<HoleView>, all: Set<Seq<char>>) -> bool {
    forall|i: int| 0 <= i < holes.len() ==> vars_in((#[trigger] holes[i]).objects, all)
}

/// The slots that are given out are in order: each is from 3 on and below
/// the next one to give, no two variables have the same, and every
/// variable that has one or that is still to be matched is in `all`.
pub open spec fn slots_inv(s: PatternState, all: Set<Seq<char>>) -> bool {
    &&& s.next_element >= 3
    &&& holes_in(s.holes, all)
    &&& forall|j: int| 0 <= j < s.holes_stack.len() ==> holes_in(#[trigger] s.holes_stack[j], all)
    &&& forall|v: Seq<char>| #[trigger]
        s.projected_vars.contains_key(v) ==> all.contains(v) && 3 <= s.projected_vars[v]
            && s.projected_vars[v] < s.next_element
    &&& forall|v: Seq<char>, w: Seq<char>|
        #![trigger s.projected_vars.contains_key(v), s.projected_vars.contains_key(w)]
        s.projected_vars.contains_key(v) && s.projected_vars.contains_key(w) && v != w
            ==> s.projected_vars[v] != s.projected_vars[w]
}

/// `t` has the slots of `s` and at most one more, for a variable of `all`,
/// from the next slot of `s` on and below the next slot of `t`.
pub open spec fn one_more(s: PatternState, t: PatternState, all: Set<Seq<char>>) -> bool {
    &&& s.next_element <= t.next_element
    &&& t.projected_vars == s.projected_vars || exists|v: Seq<char>, slot: nat|
        t.projected_vars == s.projected_vars.insert(v, slot) && all.contains(v) && s.next_element
            <= slot < t.next_element
}

/// One slot more keeps the slots in order.
pub proof fn lemma_one_more(s: PatternState, t: PatternState, all: Set<Seq<char>>)
    requires
        slots_inv(s, all),
        one_more(s, t, all),
        holes_in(t.holes, all),
        forall|j: int| 0 <= j < t.holes_stack.len() ==> holes_in(#[trigger] t.holes_stack[j], all),
    ensures
        slots_inv(t, all),
{
    if t.projected_vars != s.projected_vars {
        let (v, slot) = choose|v: Seq<char>, slot: nat|
            t.projected_vars == s.projected_vars.insert(v, slot) && all.contains(v)
                && s.next_element <= slot < t.next_element;
        assert forall|u: Seq<char>| #[trigger] t.projected_vars.contains_key(u) implies all.contains(
            u,
        ) && 3 <= t.projected_vars[u] && t.projected_vars[u] < t.next_element by {
            if u != v {
                assert(s.projected_vars.contains_key(u));
                assert(t.projected_vars[u] == s.projected_vars[u]);
            }
        }
        assert forall|u: Seq<char>, w: Seq<char>|
            #![trigger t.projected_vars.contains_key(u), t.projected_vars.contains_key(w)]
            t.projected_vars.contains_key(u) && t.projected_vars.contains_key(w) && u
                != w implies t.projected_vars[u] != t.projected_vars[w] by {
            if u != v {
                assert(s.projected_vars.contains_key(u));
                assert(t.projected_vars[u] == s.projected_vars[u]);
            }
            if w != v {
                assert(s.projected_vars.contains_key(w));
                assert(t.projected_vars[w] == s.projected_vars[w]);
            }
        }
    }
}

/// The variables of a slice are variables of the whole.
pub proof fn lemma_vars_in_subrange(
    objects: Seq<ObjectView>,
    a: int,
    b: int,
    all: Set<Seq<char>>,
)
    requires
        0 <= a <= b <= objects.len(),
        vars_in(objects, all),
    ensures
        vars_in(objects.subrange(a, b), all),
{
    let sub = objects.subrange(a, b);
    assert forall|k: int| 0 <= k < sub.len() implies ((#[trigger] sub[k]).var_name() matches Some(
        v,
    ) ==> all.contains(v)) by {
        assert(sub[k] == objects[a + k]);
    }
}

/// The holes without one of them are among the holes.
pub proof fn lemma_holes_in_remove(holes: Seq<HoleView>, i: int, all: Set<Seq<char>>)
    requires
        0 <= i < holes.len(),
        holes_in(holes, all),
    ensures
        holes_in(holes.remove(i), all),
{
    let rest = holes.remove(i);
    assert forall|k: int| 0 <= k < rest.len() implies vars_in((#[trigger] rest[k]).objects, all) by {
        if k < i {
            assert(rest[k] == holes[k]);
        } else {
            assert(rest[k] == holes[k + 1]);
        }
    }
}

/// The holes with one more whose variables are in `all`.
pub proof fn lemma_holes_in_insert(
    holes: Seq<HoleView>,
    i: int,
    hole: HoleView,
    all: Set<Seq<char>>,
)
    requires
        0 <= i <= holes.len(),
        holes_in(holes, all),
        vars_in(hole.objects, all),
    ensures
        holes_in(holes.insert(i, hole), all),
{
    let more = holes.insert(i, hole);
    assert forall|k: int| 0 <= k < more.len() implies vars_in((#[trigger] more[k]).objects, all) by {
        if k < i {
            assert(more[k] == holes[k]);
        } else if k > i {
            assert(more[k] == holes[k - 1]);
        }
    }
}

/// The holes with one replaced by a hole whose variables are in `all`.
pub proof fn lemma_holes_in_update(
    holes: Seq<HoleView>,
    i: int,
    hole: HoleView,
    all: Set<Seq<char>>,
)
    requires
        0 <= i < holes.len(),
        holes_in(holes, all),
        vars_in(hole.objects, all),
    ensures
        holes_in(holes.update(i, hole), all),
{
    let more = holes.update(i, hole);
    assert forall|k: int| 0 <= k < more.len() implies vars_in((#[trigger] more[k]).objects, all) by {
        if k != i {
            assert(more[k] == holes[k]);
        }
    }
}

/// The rules that take a hole away or split it keep the slots in order.
pub proof fn lemma_slots_split(s: PatternState, index: int, all: Set<Seq<char>>)
    requires
        slots_inv(s, all),
    ensures
        match_empty(s, index) matches Some(t) ==> slots_inv(t, all),
        match_e_var(s, index) matches Some(t) ==> slots_inv(t, all),
        match_str_bracket_l(s, index) matches Some(t) ==> slots_inv(t, all),
        match_str_bracket_r(s, index) matches Some(t) ==> slots_inv(t, all),
{
    if 0 <= index < s.holes.len() {
        let hole = s.holes[index];
        let objects = hole.objects;
        lemma_holes_in_remove(s.holes, index, all);
        let rest = s.holes.remove(index);
        match match_empty(s, index) {
            Some(t) => {
                lemma_one_more(s, t, all);
            },
            None => {},
        }
        match match_e_var(s, index) {
            Some(t) => {
                let v = objects[0].var_name()->0;
                assert(t.projected_vars == s.projected_vars.insert(v, s.next_element + 1));
                lemma_one_more(s, t, all);
            },
            None => {},
        }
        match match_str_bracket_l(s, index) {
            Some(t) => {
                let right = crate::pattern::closing(objects, 1, 1);
                lemma_vars_in_subrange(objects, 1, right, all);
                lemma_vars_in_subrange(objects, right + 1, objects.len() as int, all);
                let after = t.holes[index + 1];
                let inside = t.holes[index];
                lemma_holes_in_insert(rest, index, after, all);
                lemma_holes_in_insert(rest.insert(index, after), index, inside, all);
                lemma_one_more(s, t, all);
            },
            None => {},
        }
        match match_str_bracket_r(s, index) {
            Some(t) => {
                let last = objects.len() - 1;
                let left = crate::pattern::opening(objects, last - 1, 1);
                lemma_vars_in_subrange(objects, 0, left, all);
                lemma_vars_in_subrange(objects, left + 1, last, all);
                let before = t.holes[index];
                let inside = t.holes[index + 1];
                lemma_holes_in_insert(rest, index, inside, all);
                lemma_holes_in_insert(rest.insert(index, inside), index, before, all);
                lemma_one_more(s, t, all);
            },
            None => {},
        }
    }
}

/// A hole that loses its first object keeps the slots in order, where the
/// state `u` that is advanced has at most one slot more than `s`.
pub proof fn lemma_slots_advance_left(
    s: PatternState,
    u: PatternState,
    index: int,
    slots: nat,
    all: Set<Seq<char>>,
)
    requires
        slots_inv(s, all),
        0 <= index < s.holes.len(),
        s.holes[index].objects.len() > 0,
        u.holes == s.holes,
        u.holes_stack == s.holes_stack,
        u.next_element == s.next_element,
        one_more(s, PatternState { next_element: s.next_element + slots, ..u }, all),
    ensures
        slots_inv(advance_left(u, index, slots), all),
{
    let t = advance_left(u, index, slots);
    let objects = s.holes[index].objects;
    assert(objects.drop_first() == objects.subrange(1, objects.len() as int));
    lemma_vars_in_subrange(objects, 1, objects.len() as int, all);
    lemma_holes_in_update(s.holes, index, t.holes[index], all);
    assert(one_more(s, t, all));
    lemma_one_more(s, t, all);
}

/// A hole that loses its last object keeps the slots in order, where the
/// state `u` that is advanced has at most one slot more than `s`.
pub proof fn lemma_slots_advance_right(
    s: PatternState,
    u: PatternState,
    index: int,
    slots: nat,
    all: Set<Seq<char>>,
)
    requires
        slots_inv(s, all),
        0 <= index < s.holes.len(),
        s.holes[index].objects.len() > 0,
        u.holes == s.holes,
        u.holes_stack == s.holes_stack,
        u.next_element == s.next_element,
        one_more(s, PatternState { next_element: s.next_element + slots, ..u }, all),
    ensures
        slots_inv(advance_right(u, index, slots), all),
{
    let t = advance_right(u, index, slots);
    let objects = s.holes[index].objects;
    assert(objects.drop_last() == objects.subrange(0, objects.len() - 1));
    lemma_vars_in_subrange(objects, 0, objects.len() - 1, all);
    lemma_holes_in_update(s.holes, index, t.holes[index], all);
    assert(one_more(s, t, all));
    lemma_one_more(s, t, all);
}

/// The rules that match the first object of a hole keep the slots in
/// order.
pub proof fn lemma_slots_left(s: PatternState, index: int, all: Set<Seq<char>>)
    requires
        slots_inv(s, all),
    ensures
        match_s_l(s, index) matches Some(t) ==> slots_inv(t, all),
        match_e_l(s, index) matches Some(t) ==> slots_inv(t, all),
{
    if 0 <= index < s.holes.len() && s.holes[index].objects.len() > 0 {
        let first = s.holes[index].objects[0];
        match match_s_l(s, index) {
            Some(t) => {
                let u = PatternState { commands: t.commands, projected_vars: t.projected_vars, ..s };
                assert(t == advance_left(u, index, 1));
                if u.projected_vars != s.projected_vars {
                    let v = first.var_name()->0;
                    assert(u.projected_vars == s.projected_vars.insert(v, s.next_element));
                }
                lemma_slots_advance_left(s, u, index, 1, all);
            },
            None => {},
        }
        match match_e_l(s, index) {
            Some(t) => {
                let u = PatternState { commands: t.commands, projected_vars: t.projected_vars, ..s };
                assert(t == advance_left(u, index, 2));
                if u.projected_vars != s.projected_vars {
                    let v = first.var_name()->0;
                    assert(u.projected_vars == s.projected_vars.insert(v, s.next_element + 1));
                }
                lemma_slots_advance_left(s, u, index, 2, all);
            },
            None => {},
        }
    }
}

/// The rules that match the last object of a hole keep the slots in order.
pub proof fn lemma_slots_right(s: PatternState, index: int, all: Set<Seq<char>>)
    requires
        slots_inv(s, all),
    ensures
        match_s_r(s, index) matches Some(t) ==> slots_inv(t, all),
        match_e_r(s, index) matches Some(t) ==> slots_inv(t, all),
{
    if 0 <= index < s.holes.len() && s.holes[index].objects.len() > 0 {
        let last = s.holes[index].objects[s.holes[index].objects.len() - 1];
        match match_s_r(s, index) {
            Some(t) => {
                let u = PatternState { commands: t.commands, projected_vars: t.projected_vars, ..s };
                assert(t == advance_right(u, index, 1));
                if u.projected_vars != s.projected_vars {
                    let v = last.var_name()->0;
                    assert(u.projected_vars == s.projected_vars.insert(v, s.next_element));
                }
                lemma_slots_advance_right(s, u, index, 1, all);
            },
            None => {},
        }
        match match_e_r(s, index) {
            Some(t) => {
                let u = PatternState { commands: t.commands, projected_vars: t.projected_vars, ..s };
                assert(t == advance_right(u, index, 2));
                if u.projected_vars != s.projected_vars {
                    let v = last.var_name()->0;
                    assert(u.projected_vars == s.projected_vars.insert(v, s.next_element + 1));
                }
                lemma_slots_advance_right(s, u, index, 2, all);
            },
            None => {},
        }
    }
}

/// Moving the borders gives out no slot.
pub proof fn lemma_slots_move(s: PatternState, index: int, all: Set<Seq<char>>)
    requires
        slots_inv(s, all),
    ensures
        slots_inv(match_move_borders(s, index), all),
{
    let t = match_move_borders(s, index);
    assert(t.holes == s.holes && t.holes_stack == s.holes_stack && t.projected_vars
        == s.projected_vars && t.next_element == s.next_element);
}

/// Putting classes off keeps the slots in order.
pub proof fn lemma_slots_put_off(s: PatternState, all: Set<Seq<char>>)
    requires
        slots_inv(s, all),
    ensures
        slots_inv(put_off(s), all),
{
    let d = decompose_holes(s.holes, s.projected());
    lemma_decompose(s.holes, s.projected());
    let t = put_off(s);
    if d.n > 1 {
        lemma_buckets(s.holes, d.classes, 2, d.n);
        assert forall|c: nat| holes_in(#[trigger] bucket(s.holes, d.classes, c), all) by {
            let class = bucket(s.holes, d.classes, c);
            lemma_bucket(s.holes, d.classes, c);
            assert forall|i: int| 0 <= i < class.len() implies vars_in(
                (#[trigger] class[i]).objects,
                all,
            ) by {
                assert(s.holes.contains(class[i]));
                let k = choose|k: int| 0 <= k < s.holes.len() && s.holes[k] == class[i];
            }
        }
        assert forall|j: int| 0 <= j < t.holes_stack.len() implies holes_in(
            #[trigger] t.holes_stack[j],
            all,
        ) by {
            if j < s.holes_stack.len() {
                assert(t.holes_stack[j] == s.holes_stack[j]);
            } else {
                let c = (2 + j - s.holes_stack.len()) as nat;
                assert(t.holes_stack[j] == buckets(s.holes, d.classes, 2, d.n)[j
                    - s.holes_stack.len()]);
                assert(holes_in(bucket(s.holes, d.classes, c), all));
            }
        }
        assert(holes_in(bucket(s.holes, d.classes, 1), all));
    }
}

/// The lengthening of a variable keeps the slots in order.
pub proof fn lemma_slots_handle_holes(s: PatternState, all: Set<Seq<char>>)
    requires
        slots_inv(s, all),
    ensures
        slots_inv(handle_holes(s), all),
{
    lemma_slots_put_off(s, all);
    let p = put_off(s);
    let t = lengthen_first(p);
    if t != p {
        let v = p.holes[0].objects[0].var_name()->0;
        let m = match_move_borders(p, 0);
        lemma_slots_move(p, 0, all);
        let u = PatternState {
            commands: t.commands,
            projected_vars: t.projected_vars,
            transition_depth: p.transition_depth + 1,
            ..m
        };
        assert(t == advance_left(u, 0, 2));
        assert(u.projected_vars == m.projected_vars.insert(v, m.next_element + 1));
        lemma_slots_advance_left(m, u, 0, 2, all);
    }
}

/// Taking up a class keeps the slots in order.
pub proof fn lemma_slots_constrain(s: PatternState, all: Set<Seq<char>>)
    requires
        slots_inv(s, all),
    ensures
        slots_inv(constrain_lengthen(s), all),
{
    let t = constrain_lengthen(s);
    if s.holes_stack.len() > 0 && s.transition_depth_stack.len() > 0 {
        assert(t.holes == s.holes_stack[s.holes_stack.len() - 1]);
        assert forall|j: int| 0 <= j < t.holes_stack.len() implies holes_in(
            #[trigger] t.holes_stack[j],
            all,
        ) by {
            assert(t.holes_stack[j] == s.holes_stack[j]);
        }
    }
}

/// A step of the pattern compiler keeps the slots in order.
pub proof fn lemma_slots_step(s: PatternState, all: Set<Seq<char>>)
    requires
        slots_inv(s, all),
    ensures
        slots_inv(step(s), all),
{
    match find_hole(s) {
        Some(index) => {
            let t = match_move_borders(s, index);
            lemma_slots_move(s, index, all);
            lemma_slots_split(t, index, all);
            lemma_slots_left(t, index, all);
            lemma_slots_right(t, index, all);
        },
        None => {
            if s.holes.len() > 0 {
                lemma_slots_handle_holes(s, all);
            } else {
                lemma_slots_constrain(s, all);
            }
        },
    }
}

/// A compilation keeps the slots in order.
pub proof fn lemma_slots_run(s: PatternState, all: Set<Seq<char>>)
    requires
        s.wf(),
        slots_inv(s, all),
    ensures
        slots_inv(run(s), all),
    decreases total(s), s.holes_stack.len(),
{
    if !done(s) {
        lemma_step(s);
        lemma_slots_step(s, all);
        lemma_slots_run(step(s), all);
    }
}

/// The slots of a pattern that is compiled: the variables that have a slot
/// are the variables of the pattern, every slot is from 3 on and below the
/// number of slots that the pattern takes, and no two variables have the
/// same slot.
pub proof fn lemma_pattern_slots(pattern: Seq<ObjectView>)
    requires
        balanced(pattern),
        plain(pattern),
    ensures
        compile_pattern(pattern).projected() == vars(pattern),
        forall|v: Seq<char>| #[trigger]
            vars(pattern).contains(v) ==> 3 <= compile_pattern(pattern).projected_vars[v]
                && compile_pattern(pattern).projected_vars[v] < compile_pattern(
                pattern,
            ).next_element,
        forall|v: Seq<char>, w: Seq<char>|
            #![trigger vars(pattern).contains(v), vars(pattern).contains(w)]
            vars(pattern).contains(v) && vars(pattern).contains(w) && v != w ==> compile_pattern(
                pattern,
            ).projected_vars[v] != compile_pattern(pattern).projected_vars[w],
        compile_pattern(pattern).next_element <= 4 + 2 * pattern.len(),
{
    let start = initial(pattern);
    let all = vars(pattern);
    lemma_initial(pattern);
    assert(vars_in(pattern, all));
    assert(slots_inv(start, all));
    lemma_slots_run(start, all);
    lemma_compile_pattern(pattern);
    let end = compile_pattern(pattern);
    assert(end.projected() =~= all);
}

} // verus!
