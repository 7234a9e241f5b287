//! Reading the textual example format.

pub mod parser;
pub mod spacing;
