//! Turns a parsed markup tree into a brace-delimited element description.

mod errors;
mod markup;
mod order;
mod render;
mod text;
mod tree;

pub use errors::Error;
pub use markup::convert;
pub use order::sorted_attributes;
pub use render::render;
pub use text::{escape_string, normalize_name, snake_piece_of, strip_comment, to_rust_string};
pub use tree::{Attribute, Element, Node};
