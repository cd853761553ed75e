//! The syntax tree of a module and the instruction set it is lowered to.
//!
//! Every executable type has a mathematical view in which strings are
//! sequences of characters and vectors are sequences; all contracts of the
//! crate are stated over these views.

use vstd::hash_map::StringHashMap;
use vstd::prelude::*;

verus! {

/// Failures of the front end.
#[derive(Debug, Clone, Copy, PartialEq, Eq, Structural)]
pub enum Error {
    /// The input holds a character sequence that is no token.
    Lexing,
    /// The token sequence is no module, or the module is malformed.
    Parsing,
    /// An internal invariant does not hold.
    IllegalState,
}

/// An element of a pattern or of a rewrite.
#[derive(Debug, PartialEq, Eq)]
pub enum Object {
    Symbol(String),
    StrBracketL,
    StrBracketR,
    FunBracketL,
    FunBracketR,
    EVar(String),
    SVar(String),
    TVar(String),
}

/// The view of an [`Object`].
pub enum ObjectView {
    Symbol(Seq<char>),
    StrBracketL,
    StrBracketR,
    FunBracketL,
    FunBracketR,
    EVar(Seq<char>),
    SVar(Seq<char>),
    TVar(Seq<char>),
}

impl ObjectView {
    /// The name of a variable; `None` for symbols and brackets.
    pub open spec fn var_name(self) -> Option<Seq<char>> {
        match self {
            ObjectView::EVar(v) => Some(v),
            ObjectView::SVar(v) => Some(v),
            ObjectView::TVar(v) => Some(v),
            _ => None,
        }
    }

    /// The object is a call bracket.
    pub open spec fn is_fun_bracket(self) -> bool {
        self is FunBracketL || self is FunBracketR
    }
}

impl View for Object {
    type V = ObjectView;

    open spec fn view(&self) -> ObjectView {
        match self {
            Object::Symbol(s) => ObjectView::Symbol(s@),
            Object::StrBracketL => ObjectView::StrBracketL,
            Object::StrBracketR => ObjectView::StrBracketR,
            Object::FunBracketL => ObjectView::FunBracketL,
            Object::FunBracketR => ObjectView::FunBracketR,
            Object::EVar(s) => ObjectView::EVar(s@),
            Object::SVar(s) => ObjectView::SVar(s@),
            Object::TVar(s) => ObjectView::TVar(s@),
        }
    }
}

impl DeepView for Object {
    type V = ObjectView;

    open spec fn deep_view(&self) -> ObjectView {
        self@
    }
}

impl Clone for Object {
    fn clone(&self) -> (res: Self)
        ensures
            res == *self,
    {
        match self {
            Object::Symbol(s) => Object::Symbol(s.clone()),
            Object::StrBracketL => Object::StrBracketL,
            Object::StrBracketR => Object::StrBracketR,
            Object::FunBracketL => Object::FunBracketL,
            Object::FunBracketR => Object::FunBracketR,
            Object::EVar(s) => Object::EVar(s.clone()),
            Object::SVar(s) => Object::SVar(s.clone()),
            Object::TVar(s) => Object::TVar(s.clone()),
        }
    }
}

/// One clause of a function: a pattern and what replaces a match of it.
#[derive(Debug, PartialEq, Eq)]
pub struct Sentence {
    pub pattern: Vec<Object>,
    pub rewrite: Vec<Object>,
}

/// The view of a [`Sentence`].
pub struct SentenceView {
    pub pattern: Seq<ObjectView>,
    pub rewrite: Seq<ObjectView>,
}

impl DeepView for Sentence {
    type V = SentenceView;

    open spec fn deep_view(&self) -> SentenceView {
        SentenceView { pattern: self.pattern.deep_view(), rewrite: self.rewrite.deep_view() }
    }
}

impl View for Sentence {
    type V = SentenceView;

    open spec fn view(&self) -> SentenceView {
        self.deep_view()
    }
}

/// A named, ordered list of sentences.
#[derive(Debug, PartialEq, Eq)]
pub struct Function {
    pub name: String,
    pub sentences: Vec<Sentence>,
}

/// The view of a [`Function`].
pub struct FunctionView {
    pub name: Seq<char>,
    pub sentences: Seq<SentenceView>,
}

impl DeepView for Function {
    type V = FunctionView;

    open spec fn deep_view(&self) -> FunctionView {
        FunctionView { name: self.name@, sentences: self.sentences.deep_view() }
    }
}

impl View for Function {
    type V = FunctionView;

    open spec fn view(&self) -> FunctionView {
        self.deep_view()
    }
}

/// A source module: its name and its functions in source order.
#[derive(Debug, PartialEq, Eq)]
pub struct RefalModule {
    pub name: String,
    pub functions: Vec<Function>,
}

/// The view of a [`RefalModule`].
pub struct ModuleView {
    pub name: Seq<char>,
    pub functions: Seq<FunctionView>,
}

impl DeepView for RefalModule {
    type V = ModuleView;

    open spec fn deep_view(&self) -> ModuleView {
        ModuleView { name: self.name@, functions: self.functions.deep_view() }
    }
}

impl View for RefalModule {
    type V = ModuleView;

    open spec fn view(&self) -> ModuleView {
        self.deep_view()
    }
}

/// One instruction of the abstract machine.
#[derive(Debug, PartialEq, Eq)]
pub enum Command {
    MatchStart,
    MatchEmpty,
    MatchSymbolL(String),
    MatchSymbolR(String),
    MatchStrBracketL,
    MatchStrBracketR,
    MatchSVarL,
    MatchSVarR,
    MatchSVarLProj(usize),
    MatchSVarRProj(usize),
    MatchTVarL,
    MatchTVarR,
    MatchEVar,
    MatchEVarPrepare,
    MatchEVarLengthen,
    MatchEVarLProj(usize),
    MatchEVarRProj(usize),
    MatchMoveBorderL(usize),
    MatchMoveBorderR(usize),
    SetupTransition(usize),
    ConstrainLengthen(usize),
    RewriteStart,
    InsertStrBracketL,
    InsertStrBracketR,
    InsertFunBracketL,
    InsertFunBracketR,
    InsertSymbol(String),
    CopySymbol(usize),
    CopyExpr(usize),
    TransplantObject(usize),
    TransplantExpr(usize),
    RewriteFinalize,
}

/// The view of a [`Command`]: slots and jump targets are naturals.
pub enum CommandView {
    MatchStart,
    MatchEmpty,
    MatchSymbolL(Seq<char>),
    MatchSymbolR(Seq<char>),
    MatchStrBracketL,
    MatchStrBracketR,
    MatchSVarL,
    MatchSVarR,
    MatchSVarLProj(nat),
    MatchSVarRProj(nat),
    MatchTVarL,
    MatchTVarR,
    MatchEVar,
    MatchEVarPrepare,
    MatchEVarLengthen,
    MatchEVarLProj(nat),
    MatchEVarRProj(nat),
    MatchMoveBorderL(nat),
    MatchMoveBorderR(nat),
    SetupTransition(nat),
    ConstrainLengthen(nat),
    RewriteStart,
    InsertStrBracketL,
    InsertStrBracketR,
    InsertFunBracketL,
    InsertFunBracketR,
    InsertSymbol(Seq<char>),
    CopySymbol(nat),
    CopyExpr(nat),
    TransplantObject(nat),
    TransplantExpr(nat),
    RewriteFinalize,
}

impl View for Command {
    type V = CommandView;

    open spec fn view(&self) -> CommandView {
        match self {
            Command::MatchStart => CommandView::MatchStart,
            Command::MatchEmpty => CommandView::MatchEmpty,
            Command::MatchSymbolL(s) => CommandView::MatchSymbolL(s@),
            Command::MatchSymbolR(s) => CommandView::MatchSymbolR(s@),
            Command::MatchStrBracketL => CommandView::MatchStrBracketL,
            Command::MatchStrBracketR => CommandView::MatchStrBracketR,
            Command::MatchSVarL => CommandView::MatchSVarL,
            Command::MatchSVarR => CommandView::MatchSVarR,
            Command::MatchSVarLProj(n) => CommandView::MatchSVarLProj(*n as nat),
            Command::MatchSVarRProj(n) => CommandView::MatchSVarRProj(*n as nat),
            Command::MatchTVarL => CommandView::MatchTVarL,
            Command::MatchTVarR => CommandView::MatchTVarR,
            Command::MatchEVar => CommandView::MatchEVar,
            Command::MatchEVarPrepare => CommandView::MatchEVarPrepare,
            Command::MatchEVarLengthen => CommandView::MatchEVarLengthen,
            Command::MatchEVarLProj(n) => CommandView::MatchEVarLProj(*n as nat),
            Command::MatchEVarRProj(n) => CommandView::MatchEVarRProj(*n as nat),
            Command::MatchMoveBorderL(n) => CommandView::MatchMoveBorderL(*n as nat),
            Command::MatchMoveBorderR(n) => CommandView::MatchMoveBorderR(*n as nat),
            Command::SetupTransition(n) => CommandView::SetupTransition(*n as nat),
            Command::ConstrainLengthen(n) => CommandView::ConstrainLengthen(*n as nat),
            Command::RewriteStart => CommandView::RewriteStart,
            Command::InsertStrBracketL => CommandView::InsertStrBracketL,
            Command::InsertStrBracketR => CommandView::InsertStrBracketR,
            Command::InsertFunBracketL => CommandView::InsertFunBracketL,
            Command::InsertFunBracketR => CommandView::InsertFunBracketR,
            Command::InsertSymbol(s) => CommandView::InsertSymbol(s@),
            Command::CopySymbol(n) => CommandView::CopySymbol(*n as nat),
            Command::CopyExpr(n) => CommandView::CopyExpr(*n as nat),
            Command::TransplantObject(n) => CommandView::TransplantObject(*n as nat),
            Command::TransplantExpr(n) => CommandView::TransplantExpr(*n as nat),
            Command::RewriteFinalize => CommandView::RewriteFinalize,
        }
    }
}

impl DeepView for Command {
    type V = CommandView;

    open spec fn deep_view(&self) -> CommandView {
        self@
    }
}

impl Clone for Command {
    fn clone(&self) -> (res: Self)
        ensures
            res == *self,
    {
        match self {
            Command::MatchStart => Command::MatchStart,
            Command::MatchEmpty => Command::MatchEmpty,
            Command::MatchSymbolL(s) => Command::MatchSymbolL(s.clone()),
            Command::MatchSymbolR(s) => Command::MatchSymbolR(s.clone()),
            Command::MatchStrBracketL => Command::MatchStrBracketL,
            Command::MatchStrBracketR => Command::MatchStrBracketR,
            Command::MatchSVarL => Command::MatchSVarL,
            Command::MatchSVarR => Command::MatchSVarR,
            Command::MatchSVarLProj(n) => Command::MatchSVarLProj(*n),
            Command::MatchSVarRProj(n) => Command::MatchSVarRProj(*n),
            Command::MatchTVarL => Command::MatchTVarL,
            Command::MatchTVarR => Command::MatchTVarR,
            Command::MatchEVar => Command::MatchEVar,
            Command::MatchEVarPrepare => Command::MatchEVarPrepare,
            Command::MatchEVarLengthen => Command::MatchEVarLengthen,
            Command::MatchEVarLProj(n) => Command::MatchEVarLProj(*n),
            Command::MatchEVarRProj(n) => Command::MatchEVarRProj(*n),
            Command::MatchMoveBorderL(n) => Command::MatchMoveBorderL(*n),
            Command::MatchMoveBorderR(n) => Command::MatchMoveBorderR(*n),
            Command::SetupTransition(n) => Command::SetupTransition(*n),
            Command::ConstrainLengthen(n) => Command::ConstrainLengthen(*n),
            Command::RewriteStart => Command::RewriteStart,
            Command::InsertStrBracketL => Command::InsertStrBracketL,
            Command::InsertStrBracketR => Command::InsertStrBracketR,
            Command::InsertFunBracketL => Command::InsertFunBracketL,
            Command::InsertFunBracketR => Command::InsertFunBracketR,
            Command::InsertSymbol(s) => Command::InsertSymbol(s.clone()),
            Command::CopySymbol(n) => Command::CopySymbol(*n),
            Command::CopyExpr(n) => Command::CopyExpr(*n),
            Command::TransplantObject(n) => Command::TransplantObject(*n),
            Command::TransplantExpr(n) => Command::TransplantExpr(*n),
            Command::RewriteFinalize => Command::RewriteFinalize,
        }
    }
}

/// A compiled module: the instruction list of each function, found by the
/// function's qualified name.
pub struct Program {
    pub defs: StringHashMap<Vec<Command>>,
}

impl View for Program {
    type V = Map<Seq<char>, Seq<CommandView>>;

    open spec fn view(&self) -> Map<Seq<char>, Seq<CommandView>> {
        Map::new(
            |name: Seq<char>| self.defs@.contains_key(name),
            |name: Seq<char>| self.defs@[name].deep_view(),
        )
    }
}

impl Program {
    /// A program without functions.
    pub fn new() -> (r: Program)
        ensures
            r@ == Map::<Seq<char>, Seq<CommandView>>::empty(),
    {
        let r = Program { defs: StringHashMap::new() };
        assert(r@ =~= Map::<Seq<char>, Seq<CommandView>>::empty());
        r
    }

    /// Defines `name`; a former definition of that name is replaced.
    pub fn insert(&mut self, name: String, commands: Vec<Command>)
        ensures
            final(self)@ == old(self)@.insert(name@, commands.deep_view()),
    {
        self.defs.insert(name, commands);
        assert(self@ =~= old(self)@.insert(name@, commands.deep_view()));
    }

    /// The instructions of `name`, if it is defined.
    pub fn get(&self, name: &str) -> (r: Option<&Vec<Command>>)
        ensures
            match r {
                Some(commands) => self@.contains_key(name@) && commands.deep_view() == self@[name@],
                None => !self@.contains_key(name@),
            },
    {
        self.defs.get(name)
    }
}

} // verus!
