//! Compilation of a small regular-expression syntax into finite automata.
//!
//! A regular expression (literal characters, concatenation, alternation `|`,
//! Kleene star `*`, grouping `()`, and a `/` escape marker) is compiled into a
//! nondeterministic finite automaton by Thompson's construction, and the NFA
//! is then converted into a deterministic finite automaton by subset
//! construction.  Two front ends build the NFA under one grammar: a
//! character front end ([`algorithms::re_to_nfa`]), which resolves `/`
//! escapes while tokenizing, and a token-based recursive-descent parser
//! ([`parser::Parser`] over [`lexer::Lexer`] output).

pub mod algorithms;
pub mod dfa;
pub mod error;
pub mod lexer;
pub mod nfa;
pub mod parser;
