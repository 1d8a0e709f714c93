//! Elimination of lookahead assertions from anchored regular expressions.
//!
//! An expression `^...$` over letters, `.`, `|`, `*`, groups and `(?=...)`
//! is tokenised by [`parser`], turned into position automata and combined
//! with union, concatenation and intersection in [`ndfa`], driven by the
//! rewriter in [`convertor`], and read back as a classical expression by
//! state elimination.
//!
//! What the text of a classical expression matches is said in
//! [`ndfa::reading`]. That the automaton of an expression accepts just
//! that, and that the expression read back from the automaton matches
//! just that, is shown in [`ndfa::grammar`]; that an expression is read
//! back from the automaton of every expression, in [`ndfa::shape`].
use vstd::prelude::*;

pub mod convertor;
pub mod fuzz;
pub mod ndfa;
pub mod parser;
pub mod text;
