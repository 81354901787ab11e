//! Garden: a live-evaluation engine for a small expression language. Sources
//! are parsed, lowered into a content-addressed node graph, evaluated with a
//! memoising cache, and re-evaluated on change, reporting only what changed.

pub mod text;
pub mod value;
pub mod ast;
pub mod env;
pub mod node;
pub mod cache;
pub mod eval;
pub mod lower;
pub mod driver;
pub mod persist;
pub mod report;
pub mod parser;
