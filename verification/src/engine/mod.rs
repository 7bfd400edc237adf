//! Detection: finding the Python files, reading their imports, deciding which
//! are missing dependencies, and pinning them to the index's latest release.

pub mod evaluator;
pub mod finder;
pub mod parser;
pub mod resolver;
