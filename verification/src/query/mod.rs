//! Reading queries into plans, and the decisions of answering them.
pub mod parser;
pub mod plan;
pub mod range;
