//! A compiler and an abstract machine for a pattern-directed
//! term-rewriting language.
//!
//! A program is a module of functions; a function is an ordered list of
//! sentences, each a pattern and what replaces a match of it. The compiler
//! lowers every sentence to a linear list of instructions; the machine runs
//! the instructions on the view field, a doubly linked chain of nodes, until
//! no call is left in it.
//!
//! `lexer` and `parser` read a module, `compiler` lowers it as `pattern` and
//! `lowering` define, and `vm` evaluates a goal on `runtime`'s view field as
//! `machine` defines. `pattern_laws`, `division`, `slots`, `machine_laws`,
//! `ordering` and `evaluation` hold what is proved of the compiler and the machine
//! beyond their contracts; `listing`, `rewriting`, `construction` and
//! `nesting` take the chain as a list and prove what a rewrite writes into
//! it, and that it keeps the brackets nested.

pub mod compiler;
pub mod construction;
pub mod data;
pub mod division;
pub mod evaluation;
pub mod globalize;
pub mod lexer;
pub mod listing;
pub mod lowering;
pub mod machine;
pub mod machine_laws;
pub mod nesting;
pub mod ordering;
pub mod parser;
pub mod pattern;
pub mod pattern_laws;
pub mod rewriting;
pub mod runtime;
pub mod slots;
pub mod strings;
pub mod vm;
