//! The steps of line breaking, leaves first.

pub mod constants;
pub mod nodes;
pub mod scanner;
pub mod ratio;
pub mod error;
pub mod optimizer;
pub mod annotate;
pub mod segment;
pub mod builder;
pub mod paragraph;
pub mod graf;
pub mod laws;
