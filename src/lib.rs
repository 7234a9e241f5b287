//! Turns a one-line layout example into a layout tree and renders that tree
//! as SwiftUI source text.

pub mod ast;
pub mod text;
pub mod input;
pub mod synthesis;
pub mod output;
