//! Finite automata and grammars: deterministic and nondeterministic automata,
//! regular and context-free grammars, and the conversions between them.
pub mod boolean;
pub mod codec;
pub mod context_free;
pub mod collection;
pub mod dfa;
pub mod editor;
pub mod embed;
pub mod grammar;
pub mod names;
pub mod nfa;
pub mod partition;
pub mod quotient;
pub mod subset;
