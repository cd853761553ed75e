//! The parser: from tokens to a module.
//!
//! A module is its header, `$MODULE`, a name and a semicolon, and then its
//! functions to the end of the input. A function is a name and its
//! sentences in braces. A sentence is a pattern, an equals sign, a rewrite
//! and a semicolon; pattern and rewrite are runs of symbols, variables and
//! brackets, and either may be empty.

use crate::data::{Error, Function, FunctionView, ModuleView, Object, ObjectView, RefalModule};
use crate::data::{Sentence, SentenceView};
use crate::lexer::{tokens, tokens_spec, Token, TokenView};
use vstd::prelude::*;

verus! {

/// The object that a token stands for in a pattern or a rewrite; `None`
/// for a token that is no part of either.
pub open spec fn object_of(token: TokenView) -> Option<ObjectView> {
    match token {
        TokenView::Symbol(s) => Some(ObjectView::Symbol(s)),
        TokenView::EVar(s) => Some(ObjectView::EVar(s)),
        TokenView::SVar(s) => Some(ObjectView::SVar(s)),
        TokenView::TVar(s) => Some(ObjectView::TVar(s)),
        TokenView::ParenL => Some(ObjectView::StrBracketL),
        TokenView::ParenR => Some(ObjectView::StrBracketR),
        TokenView::AngleL => Some(ObjectView::FunBracketL),
        TokenView::AngleR => Some(ObjectView::FunBracketR),
        _ => None,
    }
}

/// The end of the run of objects that starts at `i`.
pub open spec fn objects_end(tokens: Seq<TokenView>, i: int) -> int
    decreases tokens.len() - i,
{
    if 0 <= i < tokens.len() && object_of(tokens[i]) is Some {
        objects_end(tokens, i + 1)
    } else {
        i
    }
}

/// The objects that the tokens from `i` up to `j` stand for.
pub open spec fn objects_between(tokens: Seq<TokenView>, i: int, j: int) -> Seq<ObjectView> {
    Seq::new((j - i) as nat, |k: int| object_of(tokens[i + k])->0)
}

/// The sentence that starts at `i`, and where it ends.
pub open spec fn parse_sentence(tokens: Seq<TokenView>, i: int) -> Option<(SentenceView, int)> {
    let equals = objects_end(tokens, i);
    if 0 <= i <= equals < tokens.len() && tokens[equals] is Eq {
        let semi = objects_end(tokens, equals + 1);
        if equals < semi < tokens.len() && tokens[semi] is Semi {
            Some(
                (
                    SentenceView {
                        pattern: objects_between(tokens, i, equals),
                        rewrite: objects_between(tokens, equals + 1, semi),
                    },
                    semi + 1,
                ),
            )
        } else {
            None
        }
    } else {
        None
    }
}

/// The sentences from `i` up to the closing brace, behind those that are
/// `done`, and where the brace ends.
pub open spec fn parse_sentences(tokens: Seq<TokenView>, i: int, done: Seq<SentenceView>)
    -> Option<(Seq<SentenceView>, int)>
    decreases tokens.len() - i,
{
    if 0 <= i < tokens.len() && tokens[i] is CurlyR {
        Some((done, i + 1))
    } else {
        match parse_sentence(tokens, i) {
            Some((sentence, next)) => if i < next <= tokens.len() {
                parse_sentences(tokens, next, done.push(sentence))
            } else {
                None
            },
            None => None,
        }
    }
}

/// The function that starts at `i`, and where it ends.
pub open spec fn parse_function(tokens: Seq<TokenView>, i: int) -> Option<(FunctionView, int)> {
    if 0 <= i && i + 1 < tokens.len() && tokens[i] is Symbol && tokens[i + 1] is CurlyL {
        match parse_sentences(tokens, i + 2, Seq::empty()) {
            Some((sentences, next)) => Some(
                (FunctionView { name: tokens[i]->Symbol_0, sentences }, next),
            ),
            None => None,
        }
    } else {
        None
    }
}

/// The functions from `i` to the end of the tokens, behind those that are
/// `done`.
pub open spec fn parse_functions(tokens: Seq<TokenView>, i: int, done: Seq<FunctionView>)
    -> Option<Seq<FunctionView>>
    decreases tokens.len() - i,
{
    if i < 0 || i >= tokens.len() {
        Some(done)
    } else {
        match parse_function(tokens, i) {
            Some((function, next)) => if i < next <= tokens.len() {
                parse_functions(tokens, next, done.push(function))
            } else {
                None
            },
            None => None,
        }
    }
}

/// The module that the tokens are; `None` where they are none.
pub open spec fn parse_module(tokens: Seq<TokenView>) -> Option<ModuleView> {
    if tokens.len() >= 3 && tokens[0] is Module && tokens[1] is Symbol && tokens[2] is Semi {
        match parse_functions(tokens, 3, Seq::empty()) {
            Some(functions) => Some(ModuleView { name: tokens[1]->Symbol_0, functions }),
            None => None,
        }
    } else {
        None
    }
}

/// The module that a text is. A text that holds what is no token, or
/// whose tokens are no module, is a parsing error.
pub open spec fn parse_spec(text: Seq<char>) -> Result<ModuleView, Error> {
    match tokens_spec(text) {
        Err(_) => Err(Error::Parsing),
        Ok(tokens) => match parse_module(tokens) {
            Some(module) => Ok(module),
            None => Err(Error::Parsing),
        },
    }
}

/// The object that a token stands for.
pub fn object_from_token(token: &Token) -> (r: Option<Object>)
    ensures
        object_of(token@) == match r {
            Some(object) => Some(object@),
            None => None,
        },
{
    match token {
        Token::Symbol(s) => Some(Object::Symbol(s.clone())),
        Token::EVar(s) => Some(Object::EVar(s.clone())),
        Token::SVar(s) => Some(Object::SVar(s.clone())),
        Token::TVar(s) => Some(Object::TVar(s.clone())),
        Token::ParenL => Some(Object::StrBracketL),
        Token::ParenR => Some(Object::StrBracketR),
        Token::AngleL => Some(Object::FunBracketL),
        Token::AngleR => Some(Object::FunBracketR),
        _ => None,
    }
}

/// Reads the run of objects that starts at `i`; returns the objects and
/// the end of the run.
pub fn parse_objects(tokens: &Vec<Token>, i: usize) -> (r: (Vec<Object>, usize))
    requires
        i <= tokens@.len(),
    ensures
        r.1 == objects_end(tokens.deep_view(), i as int),
        i <= r.1 <= tokens@.len(),
        r.0.deep_view() == objects_between(tokens.deep_view(), i as int, r.1 as int),
{
    let ghost all = tokens.deep_view();
    let mut objects: Vec<Object> = Vec::new();
    let mut end = i;
    let mut reading = true;
    assert(objects.deep_view() =~= objects_between(all, i as int, i as int));
    while reading
        invariant
            all == tokens.deep_view(),
            i <= end <= tokens@.len(),
            reading ==> objects_end(all, end as int) == objects_end(all, i as int),
            !reading ==> end == objects_end(all, i as int),
            objects.deep_view() == objects_between(all, i as int, end as int),
        decreases tokens@.len() - end + if reading { 1nat } else { 0nat },
    {
        if end >= tokens.len() {
            reading = false;
        } else {
            assert(all[end as int] == tokens@[end as int]@);
            match object_from_token(&tokens[end]) {
                None => {
                    reading = false;
                },
                Some(object) => {
                    let ghost before = objects.deep_view();
                    objects.push(object);
                    assert(objects.deep_view() =~= before.push(object@));
                    assert(objects.deep_view() =~= objects_between(all, i as int, end + 1));
                    end = end + 1;
                },
            }
        }
    }
    (objects, end)
}

/// Reads the sentence that starts at `i`.
pub fn parse_sentence_at(tokens: &Vec<Token>, i: usize) -> (r: Option<(Sentence, usize)>)
    requires
        i <= tokens@.len(),
    ensures
        parse_sentence(tokens.deep_view(), i as int) == match r {
            Some((sentence, next)) => Some((sentence@, next as int)),
            None => None,
        },
        r matches Some((_, next)) ==> i < next <= tokens@.len(),
{
    let (pattern, equals) = parse_objects(tokens, i);
    if equals >= tokens.len() {
        return None;
    }
    assert(tokens.deep_view()[equals as int] == tokens@[equals as int]@);
    match &tokens[equals] {
        Token::Eq => {},
        _ => { return None; },
    }
    let (rewrite, semi) = parse_objects(tokens, equals + 1);
    if semi >= tokens.len() {
        return None;
    }
    assert(tokens.deep_view()[semi as int] == tokens@[semi as int]@);
    match &tokens[semi] {
        Token::Semi => {},
        _ => { return None; },
    }
    Some((Sentence { pattern, rewrite }, semi + 1))
}

/// Reads the function that starts at `i`.
pub fn parse_function_at(tokens: &Vec<Token>, i: usize) -> (r: Option<(Function, usize)>)
    requires
        i <= tokens@.len(),
    ensures
        parse_function(tokens.deep_view(), i as int) == match r {
            Some((function, next)) => Some((function@, next as int)),
            None => None,
        },
        r matches Some((_, next)) ==> i < next <= tokens@.len(),
{
    let ghost all = tokens.deep_view();
    if tokens.len() - i < 2 {
        return None;
    }
    assert(all[i as int] == tokens@[i as int]@);
    assert(all[i + 1] == tokens@[i + 1]@);
    let name = match &tokens[i] {
        Token::Symbol(name) => name.clone(),
        _ => { return None; },
    };
    match &tokens[i + 1] {
        Token::CurlyL => {},
        _ => { return None; },
    }
    let mut sentences: Vec<Sentence> = Vec::new();
    let mut at = i + 2;
    assert(sentences.deep_view() =~= Seq::empty());
    loop
        invariant
            all == tokens.deep_view(),
            i + 2 <= at <= tokens@.len(),
            i + 1 < tokens@.len(),
            all[i as int] == TokenView::Symbol(name@),
            all[i + 1] is CurlyL,
            parse_sentences(all, at as int, sentences.deep_view()) == parse_sentences(
                all,
                i + 2,
                Seq::empty(),
            ),
        decreases tokens@.len() - at,
    {
        if at < tokens.len() {
            assert(all[at as int] == tokens@[at as int]@);
            match &tokens[at] {
                Token::CurlyR => {
                    return Some((Function { name, sentences }, at + 1));
                },
                _ => {},
            }
        }
        match parse_sentence_at(tokens, at) {
            None => { return None; },
            Some((sentence, next)) => {
                let ghost before = sentences.deep_view();
                sentences.push(sentence);
                assert(sentences.deep_view() =~= before.push(sentence@));
                at = next;
            },
        }
    }
}

/// Reads the module that the tokens are.
pub fn parse_tokens(tokens: &Vec<Token>) -> (r: Option<RefalModule>)
    ensures
        parse_module(tokens.deep_view()) == match r {
            Some(module) => Some(module@),
            None => None,
        },
{
    let ghost all = tokens.deep_view();
    if tokens.len() < 3 {
        return None;
    }
    assert(all[0] == tokens@[0]@);
    assert(all[1] == tokens@[1]@);
    assert(all[2] == tokens@[2]@);
    match &tokens[0] {
        Token::Module => {},
        _ => { return None; },
    }
    let name = match &tokens[1] {
        Token::Symbol(name) => name.clone(),
        _ => { return None; },
    };
    match &tokens[2] {
        Token::Semi => {},
        _ => { return None; },
    }
    let mut functions: Vec<Function> = Vec::new();
    let mut at: usize = 3;
    assert(functions.deep_view() =~= Seq::empty());
    while at < tokens.len()
        invariant
            all == tokens.deep_view(),
            3 <= at <= tokens@.len(),
            all[0] is Module,
            all[1] == TokenView::Symbol(name@),
            all[2] is Semi,
            parse_functions(all, at as int, functions.deep_view()) == parse_functions(
                all,
                3,
                Seq::empty(),
            ),
        decreases tokens@.len() - at,
    {
        match parse_function_at(tokens, at) {
            None => { return None; },
            Some((function, next)) => {
                let ghost before = functions.deep_view();
                functions.push(function);
                assert(functions.deep_view() =~= before.push(function@));
                at = next;
            },
        }
    }
    Some(RefalModule { name, functions })
}

/// Reads the module that a text is.
pub fn parse_input(text: &str) -> (r: Result<RefalModule, Error>)
    ensures
        parse_spec(text@) == match r {
            Ok(module) => Ok(module@),
            Err(e) => Err(e),
        },
{
    match tokens(text) {
        Err(_) => Err(Error::Parsing),
        Ok(list) => match parse_tokens(&list) {
            Some(module) => Ok(module),
            None => Err(Error::Parsing),
        },
    }
}

} // verus!
