//! The pattern automaton: character predicates, quantified atoms, and the
//! shared-prefix tree that matches rule patterns against input text.

pub mod automata;
