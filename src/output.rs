//! Rendering a layout tree as SwiftUI source text.

pub mod render;
