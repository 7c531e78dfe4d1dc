//! A solver for constraint satisfaction problems over named variables with
//! finite, ordered domains. Every complete assignment that satisfies all unary
//! and binary constraints is enumerated by exhaustive backtracking: variables
//! are bound in the order of their declaration, values are tried in the order
//! of the domain, and a branch is left as soon as a constraint on bound
//! variables fails.

pub mod assignment;
pub mod engine;
pub mod laws;
pub mod model;
pub mod names;
pub mod prelude;
pub mod search;
