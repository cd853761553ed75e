//! The lexer: from characters to tokens.
//!
//! A token is the longest match at its place. White space and comments
//! separate tokens and are skipped. A character at which no token starts
//! is an error lexeme of that one character.
//!
//! Places are counted in characters, not in bytes: the place of a lexeme
//! behind a character that takes more than one byte is smaller than its
//! byte offset in the text.

use crate::data::Error;
use crate::strings::{chars_of, string_of};
use core::ops::Range;
use vstd::prelude::*;

verus! {

/// A lexeme as the scanner sees it.
#[derive(Debug, PartialEq, Eq)]
pub enum InnerToken {
    Semi,
    Eq,
    CurlyL,
    CurlyR,
    ParenL,
    ParenR,
    AngleL,
    AngleR,
    /// An identifier.
    Id(String),
    /// A quoted symbol, without its quotes.
    QSymbol(String),
    /// An expression variable, with its `$e.`.
    EVar(String),
    /// A symbol variable, with its `$s.`.
    SVar(String),
    /// A term variable, with its `$t.`.
    TVar(String),
    Module,
    /// White space; the scanner skips it.
    Ws,
    /// A comment; the scanner skips it.
    Comment,
    /// A character at which no token starts.
    Error,
}

/// The view of an [`InnerToken`].
pub enum InnerTokenView {
    Semi,
    Eq,
    CurlyL,
    CurlyR,
    ParenL,
    ParenR,
    AngleL,
    AngleR,
    Id(Seq<char>),
    QSymbol(Seq<char>),
    EVar(Seq<char>),
    SVar(Seq<char>),
    TVar(Seq<char>),
    Module,
    Ws,
    Comment,
    Error,
}

impl View for InnerToken {
    type V = InnerTokenView;

    open spec fn view(&self) -> InnerTokenView {
        match self {
            InnerToken::Semi => InnerTokenView::Semi,
            InnerToken::Eq => InnerTokenView::Eq,
            InnerToken::CurlyL => InnerTokenView::CurlyL,
            InnerToken::CurlyR => InnerTokenView::CurlyR,
            InnerToken::ParenL => InnerTokenView::ParenL,
            InnerToken::ParenR => InnerTokenView::ParenR,
            InnerToken::AngleL => InnerTokenView::AngleL,
            InnerToken::AngleR => InnerTokenView::AngleR,
            InnerToken::Id(s) => InnerTokenView::Id(s@),
            InnerToken::QSymbol(s) => InnerTokenView::QSymbol(s@),
            InnerToken::EVar(s) => InnerTokenView::EVar(s@),
            InnerToken::SVar(s) => InnerTokenView::SVar(s@),
            InnerToken::TVar(s) => InnerTokenView::TVar(s@),
            InnerToken::Module => InnerTokenView::Module,
            InnerToken::Ws => InnerTokenView::Ws,
            InnerToken::Comment => InnerTokenView::Comment,
            InnerToken::Error => InnerTokenView::Error,
        }
    }
}

/// A token of the language.
#[derive(Debug, PartialEq, Eq)]
pub enum Token {
    Semi,
    Eq,
    CurlyL,
    CurlyR,
    ParenL,
    ParenR,
    AngleL,
    AngleR,
    Symbol(String),
    EVar(String),
    SVar(String),
    TVar(String),
    Module,
}

/// The view of a [`Token`].
pub enum TokenView {
    Semi,
    Eq,
    CurlyL,
    CurlyR,
    ParenL,
    ParenR,
    AngleL,
    AngleR,
    Symbol(Seq<char>),
    EVar(Seq<char>),
    SVar(Seq<char>),
    TVar(Seq<char>),
    Module,
}

impl View for Token {
    type V = TokenView;

    open spec fn view(&self) -> TokenView {
        match self {
            Token::Semi => TokenView::Semi,
            Token::Eq => TokenView::Eq,
            Token::CurlyL => TokenView::CurlyL,
            Token::CurlyR => TokenView::CurlyR,
            Token::ParenL => TokenView::ParenL,
            Token::ParenR => TokenView::ParenR,
            Token::AngleL => TokenView::AngleL,
            Token::AngleR => TokenView::AngleR,
            Token::Symbol(s) => TokenView::Symbol(s@),
            Token::EVar(s) => TokenView::EVar(s@),
            Token::SVar(s) => TokenView::SVar(s@),
            Token::TVar(s) => TokenView::TVar(s@),
            Token::Module => TokenView::Module,
        }
    }
}

impl DeepView for Token {
    type V = TokenView;

    open spec fn deep_view(&self) -> TokenView {
        self@
    }
}

/// The kinds of characters of which a token holds a run.
#[derive(Clone, Copy, Debug, PartialEq, Eq, Structural)]
pub enum CharClass {
    /// A letter, a digit, a hyphen or an underscore.
    Name,
    Digit,
    /// What may stand between the quotes of a quoted symbol.
    Quoted,
    /// What may stand inside a comment.
    Commented,
}

/// A letter of the Latin alphabet.
pub open spec fn is_letter(c: char) -> bool {
    ('a' <= c && c <= 'z') || ('A' <= c && c <= 'Z')
}

/// A decimal digit.
pub open spec fn is_digit(c: char) -> bool {
    '0' <= c && c <= '9'
}

/// A blank, a carriage return, a tab, a line feed or a form feed.
pub open spec fn is_space(c: char) -> bool {
    c == ' ' || c == '\r' || c == '\t' || c == '\n' || c == '\x0c'
}

/// Whether `c` is of `class`.
pub open spec fn in_class(class: CharClass, c: char) -> bool {
    match class {
        CharClass::Name => is_letter(c) || is_digit(c) || c == '-' || c == '_',
        CharClass::Digit => is_digit(c),
        CharClass::Quoted => c != '\'' && c != '\t' && c != '\n' && c != '\x0c',
        CharClass::Commented => c != '*',
    }
}

/// The end of the run of characters of `class` that starts at `i`.
pub open spec fn run_end(s: Seq<char>, i: int, class: CharClass) -> int
    decreases s.len() - i,
{
    if 0 <= i < s.len() && in_class(class, s[i]) {
        run_end(s, i + 1, class)
    } else {
        i
    }
}

/// The end of the comment that starts at `i`, if one does: a comment
/// goes from `/*` to the next `*`, which `/` must follow.
pub open spec fn comment_end(s: Seq<char>, i: int) -> Option<int> {
    if 0 <= i && i + 1 < s.len() && s[i] == '/' && s[i + 1] == '*' {
        let j = run_end(s, i + 2, CharClass::Commented);
        if j + 1 < s.len() && s[j + 1] == '/' {
            Some(j + 2)
        } else {
            None
        }
    } else {
        None
    }
}

/// The start of the next lexeme from `i` on: white space and comments are
/// passed over.
pub open spec fn skip(s: Seq<char>, i: int) -> int
    decreases s.len() - i,
{
    if 0 <= i < s.len() && is_space(s[i]) {
        skip(s, i + 1)
    } else {
        match comment_end(s, i) {
            Some(end) => if i < end <= s.len() {
                skip(s, end)
            } else {
                i
            },
            None => i,
        }
    }
}

/// A lexeme and its place: the characters from `start` up to `end`,
/// counted in characters from the start of the input.
pub struct Lexeme {
    pub token: InnerTokenView,
    pub start: int,
    pub end: int,
}

/// The end of the name of a variable whose name starts at `i`: an
/// identifier or a run of digits; `None` where neither starts at `i`.
pub open spec fn var_name_end(s: Seq<char>, i: int) -> Option<int> {
    if 0 <= i < s.len() && is_letter(s[i]) {
        Some(run_end(s, i + 1, CharClass::Name))
    } else if 0 <= i < s.len() && is_digit(s[i]) {
        Some(run_end(s, i + 1, CharClass::Digit))
    } else {
        None
    }
}

/// The error lexeme of the one character at `i`.
pub open spec fn error_at(i: int) -> Lexeme {
    Lexeme { token: InnerTokenView::Error, start: i, end: i + 1 }
}

/// The lexeme `token` of the one character at `i`.
pub open spec fn single(token: InnerTokenView, i: int) -> Lexeme {
    Lexeme { token, start: i, end: i + 1 }
}

/// The lexeme that starts with the `$` at `i`.
pub open spec fn dollar_at(s: Seq<char>, i: int) -> Lexeme {
    if i + 7 <= s.len() && s.subrange(i + 1, i + 7) == seq!['M', 'O', 'D', 'U', 'L', 'E'] {
        Lexeme { token: InnerTokenView::Module, start: i, end: i + 7 }
    } else if i + 2 < s.len() && s[i + 2] == '.' && (s[i + 1] == 'e' || s[i + 1] == 's' || s[i + 1]
        == 't') {
        match var_name_end(s, i + 3) {
            Some(end) => {
                let name = s.subrange(i, end);
                Lexeme {
                    token: if s[i + 1] == 'e' {
                        InnerTokenView::EVar(name)
                    } else if s[i + 1] == 's' {
                        InnerTokenView::SVar(name)
                    } else {
                        InnerTokenView::TVar(name)
                    },
                    start: i,
                    end,
                }
            },
            None => error_at(i),
        }
    } else {
        error_at(i)
    }
}

/// The lexeme that starts at `i`, where a character stands that is no
/// white space and starts no comment.
pub open spec fn lexeme_at(s: Seq<char>, i: int) -> Lexeme {
    let c = s[i];
    if c == ';' {
        single(InnerTokenView::Semi, i)
    } else if c == '=' {
        single(InnerTokenView::Eq, i)
    } else if c == '{' {
        single(InnerTokenView::CurlyL, i)
    } else if c == '}' {
        single(InnerTokenView::CurlyR, i)
    } else if c == '(' {
        single(InnerTokenView::ParenL, i)
    } else if c == ')' {
        single(InnerTokenView::ParenR, i)
    } else if c == '<' {
        single(InnerTokenView::AngleL, i)
    } else if c == '>' {
        single(InnerTokenView::AngleR, i)
    } else if is_letter(c) {
        let end = run_end(s, i + 1, CharClass::Name);
        Lexeme { token: InnerTokenView::Id(s.subrange(i, end)), start: i, end }
    } else if c == '\'' {
        let end = run_end(s, i + 1, CharClass::Quoted);
        if end < s.len() && s[end] == '\'' {
            Lexeme { token: InnerTokenView::QSymbol(s.subrange(i + 1, end)), start: i, end: end + 1 }
        } else {
            error_at(i)
        }
    } else if c == '$' {
        dollar_at(s, i)
    } else {
        error_at(i)
    }
}

/// The lexemes of `s` from `i` on.
pub open spec fn lexemes_from(s: Seq<char>, i: int) -> Seq<Lexeme>
    decreases s.len() - i,
{
    let start = skip(s, i);
    let x = lexeme_at(s, start);
    if 0 <= i <= start < x.end <= s.len() {
        Seq::empty().push(x) + lexemes_from(s, x.end)
    } else {
        Seq::empty()
    }
}

/// The token that a lexeme stands for. White space and comments stand for
/// none, and the scanner gives none; an error lexeme is a lexing error.
pub open spec fn convert_spec(token: InnerTokenView) -> Result<TokenView, Error> {
    match token {
        InnerTokenView::Semi => Ok(TokenView::Semi),
        InnerTokenView::Eq => Ok(TokenView::Eq),
        InnerTokenView::CurlyL => Ok(TokenView::CurlyL),
        InnerTokenView::CurlyR => Ok(TokenView::CurlyR),
        InnerTokenView::ParenL => Ok(TokenView::ParenL),
        InnerTokenView::ParenR => Ok(TokenView::ParenR),
        InnerTokenView::AngleL => Ok(TokenView::AngleL),
        InnerTokenView::AngleR => Ok(TokenView::AngleR),
        InnerTokenView::Id(s) => Ok(TokenView::Symbol(s)),
        InnerTokenView::QSymbol(s) => Ok(TokenView::Symbol(s)),
        InnerTokenView::EVar(s) => Ok(TokenView::EVar(s)),
        InnerTokenView::SVar(s) => Ok(TokenView::SVar(s)),
        InnerTokenView::TVar(s) => Ok(TokenView::TVar(s)),
        InnerTokenView::Module => Ok(TokenView::Module),
        InnerTokenView::Ws => Err(Error::IllegalState),
        InnerTokenView::Comment => Err(Error::IllegalState),
        InnerTokenView::Error => Err(Error::Lexing),
    }
}

/// The tokens of the lexemes up to the first that stands for none, whose
/// error is the result then.
pub open spec fn convert_all(lexemes: Seq<Lexeme>) -> Result<Seq<TokenView>, Error>
    decreases lexemes.len(),
{
    if lexemes.len() == 0 {
        Ok(Seq::empty())
    } else {
        match convert_spec(lexemes[0].token) {
            Err(e) => Err(e),
            Ok(token) => match convert_all(lexemes.drop_first()) {
                Err(e) => Err(e),
                Ok(rest) => Ok(seq![token] + rest),
            },
        }
    }
}

/// The tokens of `s`, or the error of its first lexeme that is no token.
pub open spec fn tokens_spec(s: Seq<char>) -> Result<Seq<TokenView>, Error> {
    convert_all(lexemes_from(s, 0))
}

/// Whether `c` is of `class`.
pub fn of_class(class: CharClass, c: char) -> (r: bool)
    ensures
        r == in_class(class, c),
{
    match class {
        CharClass::Name => ('a' <= c && c <= 'z') || ('A' <= c && c <= 'Z') || ('0' <= c && c
            <= '9') || c == '-' || c == '_',
        CharClass::Digit => '0' <= c && c <= '9',
        CharClass::Quoted => c != '\'' && c != '\t' && c != '\n' && c != '\x0c',
        CharClass::Commented => c != '*',
    }
}

/// The end of the run of characters of `class` that starts at `i`.
pub fn scan_run(chars: &Vec<char>, i: usize, class: CharClass) -> (end: usize)
    requires
        i <= chars@.len(),
    ensures
        end == run_end(chars@, i as int, class),
        i <= end <= chars@.len(),
{
    let mut end = i;
    while end < chars.len() && of_class(class, chars[end])
        invariant
            i <= end <= chars@.len(),
            run_end(chars@, end as int, class) == run_end(chars@, i as int, class),
        decreases chars@.len() - end,
    {
        end = end + 1;
    }
    end
}

/// The start of the next lexeme from `i` on.
pub fn skip_blank(chars: &Vec<char>, i: usize) -> (start: usize)
    requires
        i <= chars@.len(),
    ensures
        start == skip(chars@, i as int),
        i <= start <= chars@.len(),
{
    let mut start = i;
    let mut skipping = true;
    while skipping
        invariant
            i <= start <= chars@.len(),
            skipping ==> skip(chars@, start as int) == skip(chars@, i as int),
            !skipping ==> start == skip(chars@, i as int),
        decreases chars@.len() - start + if skipping { 1nat } else { 0nat },
    {
        if start >= chars.len() {
            skipping = false;
        } else {
            let c = chars[start];
            if c == ' ' || c == '\r' || c == '\t' || c == '\n' || c == '\x0c' {
                start = start + 1;
            } else if c == '/' && start + 1 < chars.len() && chars[start + 1] == '*' {
                let star = scan_run(chars, start + 2, CharClass::Commented);
                if star < chars.len() && star + 1 < chars.len() && chars[star + 1] == '/' {
                    start = star + 2;
                } else {
                    skipping = false;
                }
            } else {
                skipping = false;
            }
        }
    }
    start
}

/// The scanner: the characters of the input, the place up to which they
/// are read, and the place of the lexeme that was read last. All places
/// are indices into `chars`.
pub struct Lexer {
    pub chars: Vec<char>,
    pub pos: usize,
    pub start: usize,
    pub end: usize,
}

impl InnerToken {
    /// A scanner at the start of `input`.
    pub fn lexer(input: &str) -> (r: Lexer)
        ensures
            r.chars@ == input@,
            r.pos == 0,
            r.wf(),
    {
        Lexer { chars: chars_of(input), pos: 0, start: 0, end: 0 }
    }
}

impl Lexer {
    /// The places of the scanner lie within the input.
    pub open spec fn wf(&self) -> bool {
        self.pos <= self.chars@.len() && self.start <= self.end <= self.chars@.len()
    }

    /// The text of the lexeme that was read last.
    pub fn slice(&self) -> (r: String)
        requires
            self.wf(),
        ensures
            r@ == self.chars@.subrange(self.start as int, self.end as int),
    {
        string_of(&self.chars, self.start, self.end)
    }

    /// The place of the lexeme that was read last: the index of its first
    /// character and the index behind its last, counted in characters, not
    /// in bytes.
    pub fn span(&self) -> (r: Range<usize>)
        ensures
            r.start == self.start,
            r.end == self.end,
    {
        Range { start: self.start, end: self.end }
    }

    fn take(&mut self, token: InnerToken, start: usize, end: usize) -> (r: Option<InnerToken>)
        requires
            start <= end <= old(self).chars@.len(),
        ensures
            r == Some(token),
            final(self).chars == old(self).chars,
            final(self).start == start,
            final(self).end == end,
            final(self).pos == end,
    {
        self.start = start;
        self.end = end;
        self.pos = end;
        Some(token)
    }

    /// The lexeme that starts with the `$` at `i`.
    fn dollar(&mut self, i: usize) -> (r: Option<InnerToken>)
        requires
            i < old(self).chars@.len(),
        ensures
            final(self).chars == old(self).chars,
            r matches Some(token) && token@ == dollar_at(old(self).chars@, i as int).token,
            final(self).start == dollar_at(old(self).chars@, i as int).start,
            final(self).end == dollar_at(old(self).chars@, i as int).end,
            final(self).pos == final(self).end,
            final(self).start < final(self).end <= final(self).chars@.len(),
    {
        let n = self.chars.len();
        if n - i >= 7 && self.chars[i + 1] == 'M' && self.chars[i + 2] == 'O' && self.chars[i + 3]
            == 'D' && self.chars[i + 4] == 'U' && self.chars[i + 5] == 'L' && self.chars[i + 6]
            == 'E' {
            assert(self.chars@.subrange(i + 1, i + 7) =~= seq!['M', 'O', 'D', 'U', 'L', 'E']);
            return self.take(InnerToken::Module, i, i + 7);
        }
        proof {
            if i + 7 <= n && self.chars@.subrange(i + 1, i + 7) == seq!['M', 'O', 'D', 'U', 'L', 'E'] {
                let sub = self.chars@.subrange(i + 1, i + 7);
                assert(sub[0] == 'M' && sub[1] == 'O' && sub[2] == 'D' && sub[3] == 'U' && sub[4]
                    == 'L' && sub[5] == 'E');
                assert(false);
            }
        }
        if n - i > 2 && self.chars[i + 2] == '.' {
            let kind = self.chars[i + 1];
            if kind == 'e' || kind == 's' || kind == 't' {
                let first = if n - i > 3 {
                    Some(self.chars[i + 3])
                } else {
                    None
                };
                let end = match first {
                    Some(c) => {
                        if ('a' <= c && c <= 'z') || ('A' <= c && c <= 'Z') {
                            Some(scan_run(&self.chars, i + 4, CharClass::Name))
                        } else if '0' <= c && c <= '9' {
                            Some(scan_run(&self.chars, i + 4, CharClass::Digit))
                        } else {
                            None
                        }
                    },
                    None => None,
                };
                match end {
                    Some(end) => {
                        let name = string_of(&self.chars, i, end);
                        let token = if kind == 'e' {
                            InnerToken::EVar(name)
                        } else if kind == 's' {
                            InnerToken::SVar(name)
                        } else {
                            InnerToken::TVar(name)
                        };
                        return self.take(token, i, end);
                    },
                    None => {},
                }
            }
        }
        self.take(InnerToken::Error, i, i + 1)
    }

    /// Reads the next lexeme; `None` at the end of the input.
    pub fn next(&mut self) -> (r: Option<InnerToken>)
        requires
            old(self).wf(),
        ensures
            final(self).wf(),
            final(self).chars == old(self).chars,
            match r {
                None => skip(old(self).chars@, old(self).pos as int) >= old(self).chars@.len()
                    && final(self).pos == old(self).chars@.len(),
                Some(token) => {
                    let start = skip(old(self).chars@, old(self).pos as int);
                    let x = lexeme_at(old(self).chars@, start);
                    &&& old(self).pos <= start < old(self).chars@.len()
                    &&& token@ == x.token
                    &&& final(self).start == x.start == start
                    &&& final(self).end == x.end
                    &&& final(self).pos == x.end
                    &&& start < x.end
                },
            },
    {
        let i = skip_blank(&self.chars, self.pos);
        if i >= self.chars.len() {
            self.pos = i;
            return None;
        }
        let c = self.chars[i];
        if c == ';' {
            self.take(InnerToken::Semi, i, i + 1)
        } else if c == '=' {
            self.take(InnerToken::Eq, i, i + 1)
        } else if c == '{' {
            self.take(InnerToken::CurlyL, i, i + 1)
        } else if c == '}' {
            self.take(InnerToken::CurlyR, i, i + 1)
        } else if c == '(' {
            self.take(InnerToken::ParenL, i, i + 1)
        } else if c == ')' {
            self.take(InnerToken::ParenR, i, i + 1)
        } else if c == '<' {
            self.take(InnerToken::AngleL, i, i + 1)
        } else if c == '>' {
            self.take(InnerToken::AngleR, i, i + 1)
        } else if ('a' <= c && c <= 'z') || ('A' <= c && c <= 'Z') {
            let end = scan_run(&self.chars, i + 1, CharClass::Name);
            let name = string_of(&self.chars, i, end);
            self.take(InnerToken::Id(name), i, end)
        } else if c == '\'' {
            let end = scan_run(&self.chars, i + 1, CharClass::Quoted);
            if end < self.chars.len() && self.chars[end] == '\'' {
                let name = string_of(&self.chars, i + 1, end);
                self.take(InnerToken::QSymbol(name), i, end + 1)
            } else {
                self.take(InnerToken::Error, i, i + 1)
            }
        } else if c == '$' {
            self.dollar(i)
        } else {
            self.take(InnerToken::Error, i, i + 1)
        }
    }
}

/// The token that a lexeme stands for.
pub fn convert(in_token: InnerToken) -> (r: Result<Token, Error>)
    ensures
        convert_spec(in_token@) == match r {
            Ok(token) => Ok(token@),
            Err(e) => Err(e),
        },
{
    match in_token {
        InnerToken::Semi => Ok(Token::Semi),
        InnerToken::Eq => Ok(Token::Eq),
        InnerToken::CurlyL => Ok(Token::CurlyL),
        InnerToken::CurlyR => Ok(Token::CurlyR),
        InnerToken::ParenL => Ok(Token::ParenL),
        InnerToken::ParenR => Ok(Token::ParenR),
        InnerToken::AngleL => Ok(Token::AngleL),
        InnerToken::AngleR => Ok(Token::AngleR),
        InnerToken::Id(s) => Ok(Token::Symbol(s)),
        InnerToken::QSymbol(s) => Ok(Token::Symbol(s)),
        InnerToken::EVar(s) => Ok(Token::EVar(s)),
        InnerToken::SVar(s) => Ok(Token::SVar(s)),
        InnerToken::TVar(s) => Ok(Token::TVar(s)),
        InnerToken::Module => Ok(Token::Module),
        InnerToken::Ws => Err(Error::IllegalState),
        InnerToken::Comment => Err(Error::IllegalState),
        InnerToken::Error => Err(Error::Lexing),
    }
}

/// The tokens read so far, before the outcome of the rest.
pub open spec fn prepend(done: Seq<TokenView>, rest: Result<Seq<TokenView>, Error>) -> Result<
    Seq<TokenView>,
    Error,
> {
    match rest {
        Ok(more) => Ok(done + more),
        Err(e) => Err(e),
    }
}

/// The tokens of `input`, or the error of its first lexeme that is no
/// token.
pub fn tokens(input: &str) -> (r: Result<Vec<Token>, Error>)
    ensures
        tokens_spec(input@) == match r {
            Ok(list) => Ok(list.deep_view()),
            Err(e) => Err(e),
        },
{
    let mut lexer = InnerToken::lexer(input);
    let mut list: Vec<Token> = Vec::new();
    let mut reading = true;
    assert(list.deep_view() =~= Seq::empty());
    assert(prepend(Seq::empty(), tokens_spec(input@)) == tokens_spec(input@)) by {
        match tokens_spec(input@) {
            Ok(more) => {
                assert(Seq::<TokenView>::empty() + more =~= more);
            },
            Err(_) => {},
        }
    }
    while reading
        invariant
            lexer.wf(),
            lexer.chars@ == input@,
            reading ==> prepend(
                list.deep_view(),
                convert_all(lexemes_from(input@, lexer.pos as int)),
            ) == tokens_spec(input@),
            !reading ==> tokens_spec(input@) == Ok::<Seq<TokenView>, Error>(list.deep_view()),
        decreases input@.len() - lexer.pos + if reading { 1nat } else { 0nat },
    {
        let ghost pos = lexer.pos as int;
        let ghost done = list.deep_view();
        match lexer.next() {
            None => {
                assert(lexemes_from(input@, pos) =~= Seq::empty());
                assert(done + Seq::<TokenView>::empty() =~= done);
                reading = false;
            },
            Some(in_token) => {
                let ghost x = lexeme_at(input@, skip(input@, pos));
                let ghost rest = lexemes_from(input@, x.end);
                assert(lexemes_from(input@, pos) == Seq::empty().push(x) + rest);
                assert((Seq::empty().push(x) + rest).drop_first() =~= rest);
                assert((Seq::empty().push(x) + rest)[0] == x);
                let token = convert(in_token)?;
                list.push(token);
                assert(list.deep_view() =~= done.push(token@));
                proof {
                    match convert_all(rest) {
                        Ok(more) => {
                            assert(done + (seq![token@] + more) =~= done.push(token@) + more);
                        },
                        Err(_) => {},
                    }
                }
            },
        }
    }
    Ok(list)
}

} // verus!
