//! Runtime core of a small Lisp-family language: an arena-backed object
//! graph, symbol and string interning, a scope-chain environment, a loader
//! that lowers parsed syntax into arena objects, and a tree-walking
//! evaluator dispatching between special forms, built-in procedures and
//! user-defined procedures.

pub mod builtin;
pub mod env;
pub mod interpret;
pub mod load;
pub mod parse;
pub mod syntax;
