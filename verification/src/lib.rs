//! A small lexer/parser toolkit: a grammar lists token patterns and
//! nonterminal productions; the lexer turns raw text into a stream of
//! typed tokens, and the parser reduces the token stream into a single
//! parse tree with a greedy, first-match, restart-on-success
//! shift/reduce engine.

pub mod grammar;
pub mod lexer;
pub mod parser;
