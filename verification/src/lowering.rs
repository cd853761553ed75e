//! What the compiler makes of a rewrite, a sentence, a function and a
//! module, and which modules it takes.

use crate::data::{CommandView, Error, FunctionView, ModuleView, ObjectView, SentenceView};
use crate::parser::parse_spec;
use crate::pattern::{balanced, compile_pattern, plain, vars};
use vstd::prelude::*;

verus! {

/// The qualified name of `fun` in `module`: `fun` itself where it holds a
/// dot, else the module's name, a dot, and `fun`.
pub open spec fn qualify(module: Seq<char>, fun: Seq<char>) -> Seq<char> {
    if fun.contains('.') {
        fun
    } else {
        module + seq!['.'] + fun
    }
}

/// The instruction for the object `i` of a rewrite. A symbol right behind
/// a call bracket is a function's name and is qualified. The first use of
/// a variable moves its value, every later use copies it.
pub open spec fn rewrite_command(
    module: Seq<char>,
    rewrite: Seq<ObjectView>,
    slots: Map<Seq<char>, nat>,
    i: int,
) -> CommandView {
    match rewrite[i] {
        ObjectView::Symbol(sym) => if i > 0 && rewrite[i - 1] is FunBracketL {
            CommandView::InsertSymbol(qualify(module, sym))
        } else {
            CommandView::InsertSymbol(sym)
        },
        ObjectView::StrBracketL => CommandView::InsertStrBracketL,
        ObjectView::StrBracketR => CommandView::InsertStrBracketR,
        ObjectView::FunBracketL => CommandView::InsertFunBracketL,
        ObjectView::FunBracketR => CommandView::InsertFunBracketR,
        ObjectView::SVar(v) => if vars(rewrite.take(i)).contains(v) {
            CommandView::CopySymbol(slots[v])
        } else {
            CommandView::TransplantObject(slots[v])
        },
        ObjectView::EVar(v) => if vars(rewrite.take(i)).contains(v) {
            CommandView::CopyExpr(slots[v])
        } else {
            CommandView::TransplantExpr(slots[v])
        },
        ObjectView::TVar(v) => if vars(rewrite.take(i)).contains(v) {
            CommandView::CopyExpr(slots[v])
        } else {
            CommandView::TransplantExpr(slots[v])
        },
    }
}

/// The instructions that build a rewrite: one for each object, between
/// the start of the construction and the end of the step.
pub open spec fn compile_rewrite(
    module: Seq<char>,
    rewrite: Seq<ObjectView>,
    slots: Map<Seq<char>, nat>,
) -> Seq<CommandView> {
    seq![CommandView::RewriteStart] + Seq::new(
        rewrite.len(),
        |i: int| rewrite_command(module, rewrite, slots, i),
    ) + seq![CommandView::RewriteFinalize, CommandView::MatchStart]
}

/// The instructions of a sentence: those that match its pattern, then
/// those that build its rewrite.
pub open spec fn compile_sentence(module: Seq<char>, sentence: SentenceView) -> Seq<CommandView> {
    let matched = compile_pattern(sentence.pattern);
    matched.commands + compile_rewrite(module, sentence.rewrite, matched.projected_vars)
}

/// The instructions of the first `k` sentences of a function. Every
/// sentence but the last of the function is led by a transition to where
/// the next sentence starts.
pub open spec fn chained(sentences: Seq<Seq<CommandView>>, k: int) -> Seq<CommandView>
    decreases k,
{
    if k <= 0 || k > sentences.len() {
        Seq::empty()
    } else {
        let before = chained(sentences, k - 1);
        let sentence = sentences[k - 1];
        if k < sentences.len() {
            before.push(CommandView::SetupTransition(before.len() + sentence.len() + 1)) + sentence
        } else {
            before + sentence
        }
    }
}

/// The instruction list of a function whose sentences have the given
/// instructions.
pub open spec fn flatten(sentences: Seq<Seq<CommandView>>) -> Seq<CommandView> {
    chained(sentences, sentences.len() as int)
}

/// The transition before a sentence that is not the last leads to the
/// start of the next sentence: to the instruction behind the sentence.
pub proof fn lemma_transition_target(sentences: Seq<Seq<CommandView>>, k: int)
    requires
        0 <= k,
        k + 1 < sentences.len(),
    ensures
        chained(sentences, k + 1).len() == chained(sentences, k).len() + 1 + sentences[k].len(),
        chained(sentences, k + 1)[chained(sentences, k).len() as int]
            == CommandView::SetupTransition(chained(sentences, k + 1).len()),
        chained(sentences, k + 1).subrange(
            (chained(sentences, k).len() + 1) as int,
            chained(sentences, k + 1).len() as int,
        ) == sentences[k],
        chained(sentences, k + 1).subrange(0, chained(sentences, k).len() as int) == chained(
            sentences,
            k,
        ),
{
    let before = chained(sentences, k);
    let after = chained(sentences, k + 1);
    assert(after.subrange((before.len() + 1) as int, after.len() as int) =~= sentences[k]);
    assert(after.subrange(0, before.len() as int) =~= before);
}

/// The instructions of the sentences of a function.
pub open spec fn sentence_commands(module: Seq<char>, sentences: Seq<SentenceView>) -> Seq<
    Seq<CommandView>,
> {
    Seq::new(sentences.len(), |k: int| compile_sentence(module, sentences[k]))
}

/// The instruction list of a function.
pub open spec fn compile_function(module: Seq<char>, f: FunctionView) -> Seq<CommandView> {
    flatten(sentence_commands(module, f.sentences))
}

/// The definitions of the first `k` functions of a module. Of two
/// functions with one qualified name, as `F` and `T.F` in the module `T`,
/// the later one stays.
pub open spec fn defs_upto(m: ModuleView, k: nat) -> Map<Seq<char>, Seq<CommandView>>
    decreases k,
{
    if k == 0 || k > m.functions.len() {
        Map::empty()
    } else {
        defs_upto(m, (k - 1) as nat).insert(
            qualify(m.name, m.functions[k - 1].name),
            compile_function(m.name, m.functions[k - 1]),
        )
    }
}

/// The definitions of a module: the instruction list of each function under
/// the function's qualified name.
pub open spec fn compile_module(m: ModuleView) -> Map<Seq<char>, Seq<CommandView>> {
    defs_upto(m, m.functions.len())
}

/// A sentence that can be compiled: the structural brackets of the
/// pattern nest properly, the pattern has no call bracket, every variable
/// of the rewrite occurs in the pattern, and the slots that the pattern
/// needs can be counted.
pub open spec fn sentence_ok(s: SentenceView) -> bool {
    &&& 4 + 2 * s.pattern.len() <= usize::MAX
    &&& plain(s.pattern)
    &&& balanced(s.pattern)
    &&& forall|v: Seq<char>| vars(s.rewrite).contains(v) ==> vars(s.pattern).contains(v)
}

/// A function whose sentences can all be compiled.
pub open spec fn function_ok(f: FunctionView) -> bool {
    forall|k: int| 0 <= k < f.sentences.len() ==> sentence_ok(#[trigger] f.sentences[k])
}

/// A module whose functions can all be compiled.
pub open spec fn module_ok(m: ModuleView) -> bool {
    forall|k: int| 0 <= k < m.functions.len() ==> function_ok(#[trigger] m.functions[k])
}

/// What a text compiles to: the definitions of the module that it is. A
/// text that is no module, or a module that cannot be compiled, is a
/// parsing error.
pub open spec fn compile(text: Seq<char>) -> Result<Map<Seq<char>, Seq<CommandView>>, Error> {
    match parse_spec(text) {
        Err(e) => Err(e),
        Ok(module) => if module_ok(module) {
            Ok(compile_module(module))
        } else {
            Err(Error::Parsing)
        },
    }
}

/// A rewrite in which the name of every function that is called is
/// qualified: a symbol right behind a call bracket that holds no dot gets
/// the module's name and a dot before it.
pub open spec fn globalize_expression(module: Seq<char>, expression: Seq<ObjectView>) -> Seq<
    ObjectView,
> {
    Seq::new(
        expression.len(),
        |i: int|
            match expression[i] {
                ObjectView::Symbol(name) => if i > 0 && expression[i - 1] is FunBracketL {
                    ObjectView::Symbol(qualify(module, name))
                } else {
                    expression[i]
                },
                other => other,
            },
    )
}

/// A sentence with the names that its rewrite calls qualified.
pub open spec fn globalize_sentence(module: Seq<char>, sentence: SentenceView) -> SentenceView {
    SentenceView {
        pattern: sentence.pattern,
        rewrite: globalize_expression(module, sentence.rewrite),
    }
}

/// A function under its global name, the module's name, a dot and its
/// own, with the names that its sentences call qualified.
pub open spec fn globalize_function(module: Seq<char>, function: FunctionView) -> FunctionView {
    FunctionView {
        name: module + seq!['.'] + function.name,
        sentences: Seq::new(
            function.sentences.len(),
            |k: int| globalize_sentence(module, function.sentences[k]),
        ),
    }
}

/// A module with every function under its global name.
pub open spec fn globalize_module(module: ModuleView) -> ModuleView {
    ModuleView {
        name: module.name,
        functions: Seq::new(
            module.functions.len(),
            |k: int| globalize_function(module.name, module.functions[k]),
        ),
    }
}

/// Of the uses of a variable in a rewrite exactly one moves its value, the
/// first; every later use copies it.
pub proof fn lemma_one_move(
    module: Seq<char>,
    rewrite: Seq<ObjectView>,
    slots: Map<Seq<char>, nat>,
    i: int,
    j: int,
)
    requires
        0 <= i < j < rewrite.len(),
        rewrite[i].var_name() is Some,
        rewrite[i].var_name() == rewrite[j].var_name(),
        forall|k: int| 0 <= k < i ==> rewrite[k].var_name() != rewrite[i].var_name(),
    ensures
        rewrite_command(module, rewrite, slots, i) is TransplantObject || rewrite_command(
            module,
            rewrite,
            slots,
            i,
        ) is TransplantExpr,
        rewrite_command(module, rewrite, slots, j) is CopySymbol || rewrite_command(
            module,
            rewrite,
            slots,
            j,
        ) is CopyExpr,
{
    let v = rewrite[i].var_name()->0;
    assert(rewrite.take(j)[i] == rewrite[i]);
    assert(vars(rewrite.take(j)).contains(v));
    if vars(rewrite.take(i)).contains(v) {
        let k = choose|k: int|
            0 <= k < rewrite.take(i).len() && (#[trigger] rewrite.take(i)[k]).var_name() == Some(v);
        assert(rewrite[k] == rewrite.take(i)[k]);
    }
}

} // verus!
