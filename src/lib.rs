//! Regular expressions compiled to finite automata: infix to postfix, Thompson
//! construction of an NFA, subset construction of a DFA, and DFA minimisation by
//! partition refinement. Beside it stands a grammar toolkit: a prefix tree, removal of
//! left recursion, left factoring, FIRST and FOLLOW sets, and LL(1) tables and parsing.
pub mod builder;
pub mod dfa;
pub mod dot;
pub mod grammar;
pub mod minimize;
pub mod nfa;
pub mod postfix;
pub mod subset;
pub mod text;
pub mod trie;
pub mod util;
