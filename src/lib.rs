//! Kernel of a small dependently typed calculus: a positional term
//! representation, scope bookkeeping, name resolution, substitution,
//! weak-head evaluation and a bidirectional type checker.
pub mod ast;
pub mod check;
pub mod eval;
pub mod resolve;
pub mod scope;
pub mod subst;
pub mod term;
