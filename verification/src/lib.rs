//! A tautology checker for propositional logic.

pub mod cnf;
pub mod display;
pub mod evaluate;
pub mod formula;
pub mod from_str;
pub mod nnf;
pub mod tautology;
pub mod types;

pub use formula::Formula;
pub use types::{Prop, Term};
