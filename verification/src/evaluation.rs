//! The order of the sentences over a whole evaluation: a program all of
//! whose functions are compiled, and the program in which the first two
//! sentences of one function are swapped, evaluate a goal to the same
//! view field where no argument is matched by both sentences.

use crate::data::{CommandView, FunctionView, SentenceView};
use crate::lowering::{chained, compile_function, compile_sentence, flatten, sentence_commands};
use crate::lowering::sentence_ok;
use crate::machine::{build, build_one, execute, match_start, resolve, run, step};
use crate::machine::{Build, Defs, FailureView, JumpView, Outcome, State};
use crate::ordering::{alone, at, attempt, block_inv, block_of, blocks_of, embed, instr_ok};
use crate::ordering::{landing, lemma_alone_inv, lemma_attempt_one};
use crate::ordering::{lemma_block_step, lemma_chained_at, lemma_execute_placed};
use crate::ordering::{lemma_function_tries, lemma_rewrite_start_placed, lemma_sentence_block};
use crate::ordering::{lemma_swap_cases, shift_jumps, sits, try_sentences, verdict};
use crate::ordering::Attempt;
use crate::pattern;
use vstd::prelude::*;

verus! {

/// What an evaluation comes to from a state on, given how the try of the
/// sentences from that state ends: after a rewrite the evaluation goes on
/// with the steps that are left, and a try that fails ends it.
pub open spec fn after(defs: Defs, x: Attempt) -> Outcome {
    match x {
        Attempt::Rewritten(t, left) => run(defs, t, left),
        Attempt::NoMatch(_) => Err(FailureView::RecognitionImpossible),
        Attempt::Broken(e) => Err(e),
        Attempt::Limit => Err(FailureView::StepLimit),
    }
}

/// The state behind a rewrite in the instructions `code`: the machine
/// stands before the start of the next activation, with no choice point.
pub open spec fn rewritten_ok(t: State, code: Seq<CommandView>, end: bool) -> bool {
    &&& t.commands == code
    &&& t.pc < code.len()
    &&& code[t.pc as int] is MatchStart
    &&& t.jumps.len() == 0
    &&& t.end == end
}

/// What holds of the try of the sentences from the state `x` on in the
/// instructions `code`, for `fuel` steps: it does not depend on the
/// program, the evaluation goes on behind it, and a rewrite leaves the
/// machine before the start of the next activation.
pub open spec fn facts(defs: Defs, other: Defs, x: State, code: Seq<CommandView>, fuel: nat)
    -> bool {
    &&& attempt(other, x, fuel) == attempt(defs, x, fuel)
    &&& !x.end ==> run(defs, x, fuel) == after(defs, attempt(defs, x, fuel))
    &&& !x.end ==> run(other, x, fuel) == after(other, attempt(defs, x, fuel))
    &&& attempt(defs, x, fuel) matches Attempt::Rewritten(t, left) ==> rewritten_ok(t, code, x.end)
        && left < fuel
}

/// The construction phase of a block ends behind the end of the step, the
/// last instruction but one of the block.
pub proof fn lemma_build_ends(s: State, b: Build)
    requires
        s.commands.len() >= 2,
        s.pc <= s.commands.len() - 2,
        s.commands[s.commands.len() - 2] is RewriteFinalize,
        forall|p: int|
            s.pc <= p < s.commands.len() - 2 ==> !(#[trigger] s.commands[p] is RewriteFinalize),
    ensures
        build(s, b) matches Ok(t) ==> t.pc == s.commands.len() - 1 && t.commands == s.commands
            && t.jumps == s.jumps && t.end == s.end,
    decreases s.commands.len() - s.pc,
{
    let t = State { pc: s.pc + 1, ..s };
    match s.commands[s.pc as int] {
        CommandView::RewriteFinalize => {},
        cmd => {
            match build_one(b, s.projections, cmd) {
                Err(_) => {},
                Ok(c) => {
                    lemma_build_ends(t, c);
                },
            }
        },
    }
}

/// What holds of the try of a block that is placed, where it holds of the
/// state in which a block that finds no match leaves the machine.
pub proof fn lemma_placed_facts(
    defs: Defs,
    other: Defs,
    s: State,
    m: Seq<CommandView>,
    prefix: Seq<usize>,
    code: Seq<CommandView>,
    off: nat,
    base: Seq<JumpView>,
    fuel: nat,
)
    requires
        block_of(s.commands, m),
        block_inv(s, m, prefix),
        sits(s.commands, code, off),
        base.len() > 0 ==> base.last().projection_index <= prefix.len(),
        base.len() > 0 ==> forall|g: nat|
            g < fuel ==> #[trigger] facts(defs, other, landing(s, code, base, prefix), code, g),
    ensures
        facts(defs, other, embed(s, code, off, base), code, fuel),
    decreases fuel,
{
    reveal(execute);
    let e = embed(s, code, off, base);
    if fuel > 0 {
        let p = s.pc as int;
        let cmd = s.commands[p];
        assert(code[p + off] == cmd);
        let u = State { pc: s.pc + 1, ..s };
        assert(State { pc: e.pc + 1, ..e } == embed(u, code, off, base));
        if p < m.len() {
            assert(s.commands.take(m.len() as int)[p] == cmd);
            assert(instr_ok(m, p));
            lemma_execute_placed(defs, u, cmd, code, off, base);
            lemma_execute_placed(other, u, cmd, code, off, base);
            assert(execute(other, u, cmd) == execute(defs, u, cmd));
            lemma_block_step(defs, s, m, prefix);
            match step(defs, s) {
                Ok(t) => {
                    if base.len() > 0 {
                        assert(landing(t, code, base, prefix) == landing(s, code, base, prefix));
                    }
                    lemma_placed_facts(
                        defs,
                        other,
                        t,
                        m,
                        prefix,
                        code,
                        off,
                        base,
                        (fuel - 1) as nat,
                    );
                },
                Err(FailureView::RecognitionImpossible) => {
                    if base.len() > 0 {
                        let j = base.last();
                        assert(u.projections.take(j.projection_index as int) =~= prefix.take(
                            j.projection_index as int,
                        )) by {
                            assert forall|i: int| 0 <= i < j.projection_index implies u.projections[i]
                                == prefix[i] by {
                                assert(s.projections.take(prefix.len() as int)[i]
                                    == s.projections[i]);
                            }
                        }
                        assert(crate::ordering::fall(u, code, base) == Ok::<State, FailureView>(
                            landing(s, code, base, prefix),
                        ));
                        assert(facts(
                            defs,
                            other,
                            landing(s, code, base, prefix),
                            code,
                            (fuel - 1) as nat,
                        ));
                    }
                },
                Err(_) => {},
            }
        } else {
            lemma_rewrite_start_placed(u, code, off, base);
            if u.projections.len() > 0 {
                let start = State { jumps: Seq::empty(), ..u };
                let b = Build {
                    nodes: u.chain.nodes,
                    border: u.projections[0],
                    local_dots: Seq::empty(),
                    l_brackets: Seq::empty(),
                    l_fun_brackets: Seq::empty(),
                    transplants: Seq::empty(),
                };
                lemma_build_ends(start, b);
                match build(start, b) {
                    Ok(t) => {
                        assert(code[(t.pc + off) as int] == s.commands[t.pc as int]);
                    },
                    Err(_) => {},
                }
            }
        }
    }
}

/// What holds of the try of the sentences of a function from the sentence
/// `k` on.
pub proof fn lemma_function_facts(
    defs: Defs,
    other: Defs,
    blocks: Seq<Seq<CommandView>>,
    ms: Seq<Seq<CommandView>>,
    k: int,
    a: State,
    fuel: nat,
)
    requires
        blocks_of(blocks, ms),
        0 <= k < blocks.len(),
    ensures
        facts(
            defs,
            other,
            at(a, chained(blocks, blocks.len() as int), chained(blocks, k).len()),
            chained(blocks, blocks.len() as int),
            fuel,
        ),
    decreases blocks.len() - k, fuel,
{
    reveal(execute);
    let code = chained(blocks, blocks.len() as int);
    let here = chained(blocks, k).len();
    let block = blocks[k];
    let m = ms[k];
    let s = alone(a, block);
    lemma_chained_at(blocks, k);
    lemma_alone_inv(a, block, m);
    let none = Seq::<JumpView>::empty();
    if k + 1 == blocks.len() {
        assert(embed(s, code, here, none) == at(a, code, here)) by {
            assert(none + shift_jumps(s.jumps, here) =~= none);
        }
        lemma_placed_facts(defs, other, s, m, a.projections, code, here, none, fuel);
    } else if fuel > 0 {
        let target = chained(blocks, k + 1).len();
        let entry = at(a, code, here);
        let jump = State { pc: here + 1, ..entry }.jump_to(target);
        let base = seq![jump];
        let inside = embed(s, code, here + 1, base);
        assert(step(defs, entry) == Ok::<State, FailureView>(inside)) by {
            assert(base + shift_jumps(s.jumps, here + 1) =~= none.push(jump));
        }
        assert(step(other, entry) == Ok::<State, FailureView>(inside));
        assert(landing(s, code, base, a.projections) == at(a, code, target)) by {
            assert(base.drop_last() =~= none);
            assert(a.projections.take(a.projections.len() as int) =~= a.projections);
        }
        assert forall|g: nat| g < fuel - 1 implies #[trigger] facts(
            defs,
            other,
            landing(s, code, base, a.projections),
            code,
            g,
        ) by {
            lemma_function_facts(defs, other, blocks, ms, k + 1, a, g);
        }
        lemma_placed_facts(
            defs,
            other,
            s,
            m,
            a.projections,
            code,
            here + 1,
            base,
            (fuel - 1) as nat,
        );
    }
}

/// The instructions are those of a function that is compiled: the blocks
/// of its sentences, chained; or none, where it has no sentence.
pub open spec fn compiled(code: Seq<CommandView>) -> bool {
    code.len() == 0 || exists|blocks: Seq<Seq<CommandView>>, ms: Seq<Seq<CommandView>>|
        blocks_of(blocks, ms) && blocks.len() >= 1 && code == flatten(blocks)
}

/// The instructions of a function that is compiled are those of a function
/// that is compiled.
pub proof fn lemma_compiled(module: Seq<char>, f: FunctionView)
    requires
        crate::lowering::function_ok(f),
    ensures
        compiled(compile_function(module, f)),
{
    let blocks = sentence_commands(module, f.sentences);
    let ms = Seq::new(
        f.sentences.len(),
        |k: int| pattern::compile_pattern(f.sentences[k].pattern).commands,
    );
    if f.sentences.len() > 0 {
        assert forall|k: int| 0 <= k < blocks.len() implies block_of(#[trigger] blocks[k], ms[k]) by {
            lemma_sentence_block(module, f.sentences[k]);
        }
        assert(blocks_of(blocks, ms));
    }
}

/// Every function of a module that is compiled is compiled.
pub proof fn lemma_compiled_module(m: crate::data::ModuleView, k: nat)
    requires
        crate::lowering::module_ok(m),
        k <= m.functions.len(),
    ensures
        forall|n: Seq<char>| #[trigger]
            crate::lowering::defs_upto(m, k).contains_key(n) ==> compiled(
                crate::lowering::defs_upto(m, k)[n],
            ),
    decreases k,
{
    if k > 0 {
        lemma_compiled_module(m, (k - 1) as nat);
        let f = m.functions[k - 1];
        assert(crate::lowering::function_ok(f));
        lemma_compiled(m.name, f);
        let before = crate::lowering::defs_upto(m, (k - 1) as nat);
        let now = crate::lowering::defs_upto(m, k);
        let key = crate::lowering::qualify(m.name, f.name);
        assert(now == before.insert(key, compile_function(m.name, f)));
        assert forall|n: Seq<char>| #[trigger] now.contains_key(n) implies compiled(now[n]) by {
            if n != key {
                assert(before.contains_key(n));
            }
        }
    }
}

/// The states of two programs at the start of one activation: they differ
/// in the instructions at most, which are those of one compiled function
/// in both, or those of the function `first` and of the function `second`.
pub open spec fn entered(s: State, t: State, first: Seq<CommandView>, second: Seq<CommandView>)
    -> bool {
    &&& s.pc == 0
    &&& s.jumps.len() == 0
    &&& !s.end
    &&& t == (State { commands: t.commands, ..s })
    &&& (s.commands == t.commands && compiled(s.commands)) || (s.commands == first && t.commands
        == second)
}

/// The one program has the functions of the other, with the same
/// instructions but for the function `name`, which has `first` in the one
/// and `second` in the other; and every function is compiled.
pub open spec fn same_but(
    defs: Defs,
    other: Defs,
    name: Seq<char>,
    first: Seq<CommandView>,
    second: Seq<CommandView>,
) -> bool {
    &&& defs.contains_key(name)
    &&& defs[name] == first
    &&& other == defs.insert(name, second)
    &&& forall|n: Seq<char>| #[trigger] defs.contains_key(n) ==> compiled(defs[n])
}

/// No argument is matched by both sentences: from no state do the tries of
/// both blocks, each alone, end with a rewrite.
pub open spec fn never_both(defs: Defs, first: Seq<CommandView>, second: Seq<CommandView>) -> bool {
    forall|a: State, f: nat, g: nat|
        !(#[trigger] attempt(defs, alone(a, first), f) is Rewritten && #[trigger] attempt(
            defs,
            alone(a, second),
            g,
        ) is Rewritten)
}

/// The tries of one activation in the two programs come to the same.
pub proof fn lemma_entered_attempts(
    defs: Defs,
    other: Defs,
    b1: Seq<CommandView>,
    b2: Seq<CommandView>,
    rest: Seq<Seq<CommandView>>,
    m1: Seq<CommandView>,
    m2: Seq<CommandView>,
    m_rest: Seq<Seq<CommandView>>,
    s: State,
    t: State,
    n: nat,
    k: nat,
)
    requires
        block_of(b1, m1),
        block_of(b2, m2),
        blocks_of(rest, m_rest),
        never_both(defs, b1, b2),
        entered(s, t, flatten(seq![b1, b2] + rest), flatten(seq![b2, b1] + rest)),
        attempt(defs, s, n) is Rewritten,
        attempt(other, t, k) is Rewritten,
    ensures
        verdict(attempt(defs, s, n)) == verdict(attempt(other, t, k)),
        facts(defs, other, s, s.commands, n),
        facts(other, defs, t, t.commands, k),
{
    let none = Seq::<JumpView>::empty();
    assert(s.jumps =~= none);
    let blocks = seq![b1, b2] + rest;
    let swapped = seq![b2, b1] + rest;
    let ms = seq![m1, m2] + m_rest;
    let ms_swapped = seq![m2, m1] + m_rest;
    if s.commands == t.commands && compiled(s.commands) {
        assert(s == t);
        let (bl, mm) = choose|bl: Seq<Seq<CommandView>>, mm: Seq<Seq<CommandView>>|
            blocks_of(bl, mm) && bl.len() >= 1 && s.commands == flatten(bl);
        assert(s == at(s, flatten(bl), chained(bl, 0).len()));
        lemma_function_facts(defs, other, bl, mm, 0, s, n);
        lemma_function_facts(other, defs, bl, mm, 0, s, k);
        lemma_function_facts(defs, other, bl, mm, 0, s, k);
        lemma_attempt_one(defs, s, n, k);
    } else {
        assert(blocks_of(blocks, ms)) by {
            assert forall|i: int| 0 <= i < blocks.len() implies block_of(
                #[trigger] blocks[i],
                ms[i],
            ) by {
                if i >= 2 {
                    assert(blocks[i] == rest[i - 2]);
                    assert(ms[i] == m_rest[i - 2]);
                }
            }
        }
        assert(blocks_of(swapped, ms_swapped)) by {
            assert forall|i: int| 0 <= i < swapped.len() implies block_of(
                #[trigger] swapped[i],
                ms_swapped[i],
            ) by {
                if i >= 2 {
                    assert(swapped[i] == rest[i - 2]);
                    assert(ms_swapped[i] == m_rest[i - 2]);
                }
            }
        }
        assert(s == at(s, flatten(blocks), chained(blocks, 0).len()));
        assert(t == at(s, flatten(swapped), chained(swapped, 0).len()));
        lemma_function_facts(defs, other, blocks, ms, 0, s, n);
        lemma_function_facts(other, defs, swapped, ms_swapped, 0, s, k);
        lemma_function_facts(defs, other, swapped, ms_swapped, 0, s, k);
        lemma_function_tries(defs, blocks, ms, 0, s, n);
        lemma_function_tries(defs, swapped, ms_swapped, 0, s, k);
        assert(blocks[0] == b1 && blocks[1] == b2 && swapped[0] == b2 && swapped[1] == b1);
        assert forall|i: int| 2 <= i < blocks.len() implies blocks[i] == swapped[i] by {}
        reveal_with_fuel(try_sentences, 3);
        let a1 = attempt(defs, alone(s, b1), (n - 1) as nat);
        let a2 = attempt(defs, alone(s, b2), (k - 1) as nat);
        assert(!(a1 is Rewritten && a2 is Rewritten));
        if a1 is NoMatch {
            lemma_swap_cases(defs, blocks, swapped, s, n, k, (n - 1) as nat);
        } else {
            assert(a2 is NoMatch);
            lemma_swap_cases(defs, blocks, swapped, s, n, k, (k - 1) as nat);
        }
    }
}

/// The order of the sentences over a whole evaluation: two programs that
/// differ in the order of the first two sentences of one function, of
/// which no argument is matched by both, come from the start of one
/// activation to the same view field, where both evaluations end.
pub proof fn lemma_swap_run(
    defs: Defs,
    other: Defs,
    name: Seq<char>,
    b1: Seq<CommandView>,
    b2: Seq<CommandView>,
    rest: Seq<Seq<CommandView>>,
    m1: Seq<CommandView>,
    m2: Seq<CommandView>,
    m_rest: Seq<Seq<CommandView>>,
    s: State,
    t: State,
    n: nat,
    k: nat,
)
    requires
        block_of(b1, m1),
        block_of(b2, m2),
        blocks_of(rest, m_rest),
        never_both(defs, b1, b2),
        same_but(defs, other, name, flatten(seq![b1, b2] + rest), flatten(seq![b2, b1] + rest)),
        entered(s, t, flatten(seq![b1, b2] + rest), flatten(seq![b2, b1] + rest)),
        run(defs, s, n) is Ok,
        run(other, t, k) is Ok,
    ensures
        run(defs, s, n)->Ok_0.chain == run(other, t, k)->Ok_0.chain,
    decreases n,
{
    reveal(execute);
    let first = flatten(seq![b1, b2] + rest);
    let second = flatten(seq![b2, b1] + rest);
    let none = Seq::<JumpView>::empty();
    assert(s.jumps =~= none);
    // Both evaluations go on behind the first rewrite.
    lemma_entry_facts(defs, other, b1, b2, rest, m1, m2, m_rest, s, t, n, k);
    let x = attempt(defs, s, n);
    let y = attempt(other, t, k);
    lemma_entered_attempts(defs, other, b1, b2, rest, m1, m2, m_rest, s, t, n, k);
    let u = x->Rewritten_0;
    let left = x->Rewritten_1;
    let v = y->Rewritten_0;
    let other_left = y->Rewritten_1;
    assert(v == State { commands: v.commands, pc: v.pc, ..u });
    let u1 = State { pc: u.pc + 1, ..u };
    let v1 = State { pc: v.pc + 1, ..v };
    assert(step(defs, u) == match_start(defs, u1));
    assert(step(other, v) == match_start(other, v1));
    if u.dots.len() > 0 {
        let dot = u.dots[u.dots.len() - 1];
        match resolve(defs, u.chain.nodes, dot) {
            Ok((before, fun, commands)) => {
                let called = u.chain.nodes[fun as int].object->Symbol_0;
                assert(other.contains_key(called));
                let next = match_start(defs, u1)->Ok_0;
                let other_next = match_start(other, v1)->Ok_0;
                assert(entered(next, other_next, first, second)) by {
                    if called != name {
                        assert(other[called] == defs[called]);
                    }
                }
                lemma_swap_run(
                    defs,
                    other,
                    name,
                    b1,
                    b2,
                    rest,
                    m1,
                    m2,
                    m_rest,
                    next,
                    other_next,
                    (left - 1) as nat,
                    (other_left - 1) as nat,
                );
            },
            Err(_) => {},
        }
    }
}

/// At the start of an activation from which both evaluations end, both
/// tries end with a rewrite, and the evaluations go on behind it.
pub proof fn lemma_entry_facts(
    defs: Defs,
    other: Defs,
    b1: Seq<CommandView>,
    b2: Seq<CommandView>,
    rest: Seq<Seq<CommandView>>,
    m1: Seq<CommandView>,
    m2: Seq<CommandView>,
    m_rest: Seq<Seq<CommandView>>,
    s: State,
    t: State,
    n: nat,
    k: nat,
)
    requires
        block_of(b1, m1),
        block_of(b2, m2),
        blocks_of(rest, m_rest),
        entered(s, t, flatten(seq![b1, b2] + rest), flatten(seq![b2, b1] + rest)),
        run(defs, s, n) is Ok,
        run(other, t, k) is Ok,
    ensures
        attempt(defs, s, n) is Rewritten,
        attempt(other, t, k) is Rewritten,
{
    let none = Seq::<JumpView>::empty();
    assert(s.jumps =~= none);
    let blocks = seq![b1, b2] + rest;
    let swapped = seq![b2, b1] + rest;
    let ms = seq![m1, m2] + m_rest;
    let ms_swapped = seq![m2, m1] + m_rest;
    if s.commands == t.commands && compiled(s.commands) {
        assert(s == t);
        if s.commands.len() > 0 {
            let (bl, mm) = choose|bl: Seq<Seq<CommandView>>, mm: Seq<Seq<CommandView>>|
                blocks_of(bl, mm) && bl.len() >= 1 && s.commands == flatten(bl);
            assert(s == at(s, flatten(bl), chained(bl, 0).len()));
            lemma_function_facts(defs, other, bl, mm, 0, s, n);
            lemma_function_facts(other, defs, bl, mm, 0, s, k);
        }
    } else {
        assert(blocks_of(blocks, ms)) by {
            assert forall|i: int| 0 <= i < blocks.len() implies block_of(
                #[trigger] blocks[i],
                ms[i],
            ) by {
                if i >= 2 {
                    assert(blocks[i] == rest[i - 2]);
                    assert(ms[i] == m_rest[i - 2]);
                }
            }
        }
        assert(blocks_of(swapped, ms_swapped)) by {
            assert forall|i: int| 0 <= i < swapped.len() implies block_of(
                #[trigger] swapped[i],
                ms_swapped[i],
            ) by {
                if i >= 2 {
                    assert(swapped[i] == rest[i - 2]);
                    assert(ms_swapped[i] == m_rest[i - 2]);
                }
            }
        }
        assert(s == at(s, flatten(blocks), chained(blocks, 0).len()));
        assert(t == at(s, flatten(swapped), chained(swapped, 0).len()));
        lemma_function_facts(defs, other, blocks, ms, 0, s, n);
        lemma_function_facts(other, defs, swapped, ms_swapped, 0, s, k);
    }
}

/// The order of the sentences: let two programs, all of whose functions
/// are compiled, differ in the order of the first two sentences of one
/// function only, and let no argument be matched by both sentences. Then
/// the two programs evaluate every goal to the same expression, where both
/// evaluations end with one.
pub proof fn lemma_sentence_order_eval(
    defs: Defs,
    other: Defs,
    module: Seq<char>,
    key: Seq<char>,
    name: Seq<char>,
    first: SentenceView,
    second: SentenceView,
    rest: Seq<SentenceView>,
    main: Seq<char>,
    n: nat,
    k: nat,
)
    requires
        sentence_ok(first),
        sentence_ok(second),
        forall|i: int| 0 <= i < rest.len() ==> sentence_ok(#[trigger] rest[i]),
        same_but(
            defs,
            other,
            key,
            compile_function(module, FunctionView { name, sentences: seq![first, second] + rest }),
            compile_function(module, FunctionView { name, sentences: seq![second, first] + rest }),
        ),
        never_both(defs, compile_sentence(module, first), compile_sentence(module, second)),
        crate::machine::eval_main(defs, main, n) is Ok,
        crate::machine::eval_main(other, main, k) is Ok,
    ensures
        crate::machine::eval_main(defs, main, n) == crate::machine::eval_main(other, main, k),
{
    let b1 = compile_sentence(module, first);
    let b2 = compile_sentence(module, second);
    let tail = sentence_commands(module, rest);
    let m1 = pattern::compile_pattern(first.pattern).commands;
    let m2 = pattern::compile_pattern(second.pattern).commands;
    let m_tail = Seq::new(rest.len(), |i: int| pattern::compile_pattern(rest[i].pattern).commands);
    lemma_sentence_block(module, first);
    lemma_sentence_block(module, second);
    assert forall|i: int| 0 <= i < tail.len() implies block_of(#[trigger] tail[i], m_tail[i]) by {
        lemma_sentence_block(module, rest[i]);
    }
    assert(sentence_commands(module, seq![first, second] + rest) =~= seq![b1, b2] + tail);
    assert(sentence_commands(module, seq![second, first] + rest) =~= seq![b2, b1] + tail);
    let one = flatten(seq![b1, b2] + tail);
    let two = flatten(seq![b2, b1] + tail);
    let chain = crate::runtime::ChainView {
        nodes: crate::runtime::init_nodes(main),
        first: 0,
        last: 4,
    };
    let start = crate::machine::blank(chain, seq![3usize]);
    let s = match_start(defs, start)->Ok_0;
    let t = match_start(other, start)->Ok_0;
    let called = chain.nodes[2].object->Symbol_0;
    assert(defs.contains_key(called));
    assert(entered(s, t, one, two)) by {
        if called != key {
            assert(other[called] == defs[called]);
        }
    }
    lemma_swap_run(defs, other, key, b1, b2, tail, m1, m2, m_tail, s, t, n, k);
}

} // verus!
