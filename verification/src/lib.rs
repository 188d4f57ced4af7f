//! Semantic analysis for an untyped, lazy functional language whose programs
//! run as graph rewriting on an interaction-combinator host: the term model,
//! the scope and linearity check, the alias inliner, and the decisions the
//! native builtins take.

pub mod builtins;
pub mod term;
