//! Syntax trees of regular expressions, flattened into indexed node lists
//! and laid out for drawing.

pub mod node;
pub mod text;
pub mod ast;
pub mod hir;
pub mod layout;
pub mod svg;
pub mod http;
