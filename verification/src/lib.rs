//! Detection of the outside packages that a Python project imports, and the
//! requirement strings that describe them.

pub mod text;
pub mod order;
pub mod grammar;
pub mod dependency;
pub mod laws;
pub mod engine;
pub mod pyproject;
