//! Building a layout tree from a parsed example.

pub mod swiftui;
