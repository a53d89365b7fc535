//! Editing sessions for each kind of structure; a session starts from an
//! empty structure.
use vstd::prelude::*;
use crate::context_free::ContextFreeGrammar;
use crate::dfa::DeterministicFiniteAutomata;
use crate::grammar::RegularGrammar;
use crate::nfa::NondeterministicFiniteAutomata;

verus! {

/// A session that edits a deterministic automaton.
pub struct Dfa {}

/// A session that edits a nondeterministic automaton.
pub struct Nfa {}

/// A session that edits a regular grammar.
pub struct Rg {}

/// A session that edits a context-free grammar.
pub struct Cfg {}

impl Dfa {
    pub fn new() -> (r: Self) {
        Dfa {  }
    }

    /// The empty automaton a session starts from.
    pub fn new_dfa() -> (r: DeterministicFiniteAutomata)
        ensures
            r@.states.is_empty(),
            r@.alphabet.is_empty(),
            r@.delta.is_empty(),
            r@.start.len() == 0,
            r@.accept.is_empty(),
    {
        DeterministicFiniteAutomata::new()
    }
}

impl Nfa {
    pub fn new() -> (r: Self) {
        Nfa {  }
    }

    /// The empty automaton a session starts from.
    pub fn new_nfa() -> (r: NondeterministicFiniteAutomata)
        ensures
            r@.states.is_empty(),
            r@.alphabet.is_empty(),
            r@.delta.is_empty(),
            r@.start.len() == 0,
            r@.accept.is_empty(),
    {
        NondeterministicFiniteAutomata::new()
    }
}

impl Rg {
    pub fn new() -> (r: Self) {
        Rg {  }
    }

    /// The empty grammar a session starts from.
    pub fn new_rg() -> (r: RegularGrammar)
        ensures
            r@.variables.is_empty(),
            r@.terminals.is_empty(),
            r@.rules.is_empty(),
            r@.start.len() == 0,
    {
        RegularGrammar::new()
    }
}

impl Cfg {
    pub fn new() -> (r: Self) {
        Cfg {  }
    }

    /// The empty grammar a session starts from.
    pub fn new_cfg() -> (r: ContextFreeGrammar)
        ensures
            r@.variables.is_empty(),
            r@.terminals.is_empty(),
            r@.rules.is_empty(),
            r@.start.len() == 0,
    {
        ContextFreeGrammar::new()
    }
}

} // verus!
