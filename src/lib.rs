//! A small regular-expression engine: a tokenizer and a recursive-descent
//! parser for patterns, a Thompson construction of a nondeterministic
//! automaton from the syntax tree, and a backtracking simulator and a random
//! generator over that automaton.

pub mod language;
pub mod literal;
pub mod nfa;
pub mod parser;
pub mod run;
pub mod text;
pub mod tokenizer;
