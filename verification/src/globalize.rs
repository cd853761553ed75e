//! The name qualifier: gives every function its global name and qualifies
//! the names of the functions that the sentences call.

use crate::compiler::qualify;
use crate::data::{Function, Object, RefalModule, Sentence};
use crate::lowering;
use vstd::prelude::*;
use vstd::string::StringExecFns;

verus! {

/// The module with every function under its global name and with every
/// call of a function by its qualified name.
pub fn globalize_module(module: RefalModule) -> (r: RefalModule)
    ensures
        r@ == lowering::globalize_module(module@),
{
    let mut functions: Vec<Function> = Vec::new();
    let mut k: usize = 0;
    while k < module.functions.len()
        invariant
            k <= module.functions@.len(),
            functions@.len() == k,
            forall|j: int|
                0 <= j < k ==> (#[trigger] functions@[j])@ == lowering::globalize_function(
                    module@.name,
                    module@.functions[j],
                ),
        decreases module.functions@.len() - k,
    {
        assert(module@.functions[k as int] == module.functions@[k as int]@);
        functions.push(globalize_function(module.name.as_str(), &module.functions[k]));
        k = k + 1;
    }
    let r = RefalModule { name: module.name, functions };
    assert(r@.functions =~= lowering::globalize_module(module@).functions);
    r
}

/// The function under its global name, with the names that its sentences
/// call qualified.
pub fn globalize_function(module_name: &str, function: &Function) -> (r: Function)
    ensures
        r@ == lowering::globalize_function(module_name@, function@),
{
    let mut g_name = module_name.to_owned();
    g_name.push('.');
    g_name.append(function.name.as_str());
    assert(g_name@ =~= module_name@ + seq!['.'] + function@.name);
    let mut sentences: Vec<Sentence> = Vec::new();
    let mut k: usize = 0;
    while k < function.sentences.len()
        invariant
            k <= function.sentences@.len(),
            sentences@.len() == k,
            forall|j: int|
                0 <= j < k ==> (#[trigger] sentences@[j])@ == lowering::globalize_sentence(
                    module_name@,
                    function@.sentences[j],
                ),
        decreases function.sentences@.len() - k,
    {
        assert(function@.sentences[k as int] == function.sentences@[k as int]@);
        sentences.push(globalize_sentence(module_name, &function.sentences[k]));
        k = k + 1;
    }
    let r = Function { name: g_name, sentences };
    assert(r@.sentences =~= lowering::globalize_function(module_name@, function@).sentences);
    r
}

/// The sentence with the names that its rewrite calls qualified.
pub fn globalize_sentence(module_name: &str, sentence: &Sentence) -> (r: Sentence)
    ensures
        r@ == lowering::globalize_sentence(module_name@, sentence@),
{
    let mut pattern: Vec<Object> = Vec::new();
    let mut k: usize = 0;
    while k < sentence.pattern.len()
        invariant
            k <= sentence.pattern@.len(),
            pattern@.len() == k,
            forall|j: int| 0 <= j < k ==> (#[trigger] pattern@[j])@ == sentence.pattern@[j]@,
        decreases sentence.pattern@.len() - k,
    {
        pattern.push(sentence.pattern[k].clone());
        k = k + 1;
    }
    assert(pattern.deep_view() =~= sentence.pattern.deep_view());
    let rewrite = globalize_expression(module_name, &sentence.rewrite);
    Sentence { pattern, rewrite }
}

/// The rewrite with the name of every function that is called qualified.
pub fn globalize_expression(module_name: &str, expression: &Vec<Object>) -> (result: Vec<Object>)
    ensures
        result.deep_view() == lowering::globalize_expression(module_name@, expression.deep_view()),
{
    let ghost source = expression.deep_view();
    let mut result: Vec<Object> = Vec::new();
    let mut prev_fun_br = false;
    let mut i: usize = 0;
    while i < expression.len()
        invariant
            source == expression.deep_view(),
            i <= expression@.len(),
            result@.len() == i,
            prev_fun_br == (i > 0 && source[i - 1] is FunBracketL),
            forall|j: int|
                0 <= j < i ==> (#[trigger] result@[j])@ == lowering::globalize_expression(
                    module_name@,
                    source,
                )[j],
        decreases expression@.len() - i,
    {
        let object = &expression[i];
        assert(object@ == source[i as int]);
        match object {
            Object::FunBracketL => {
                result.push(Object::FunBracketL);
                prev_fun_br = true;
            },
            Object::Symbol(name) => {
                if prev_fun_br {
                    result.push(Object::Symbol(qualify(module_name, name.as_str())));
                } else {
                    result.push(object.clone());
                }
                prev_fun_br = false;
            },
            _ => {
                result.push(object.clone());
                prev_fun_br = false;
            },
        }
        i = i + 1;
    }
    assert(result.deep_view() =~= lowering::globalize_expression(module_name@, source));
    result
}

} // verus!
