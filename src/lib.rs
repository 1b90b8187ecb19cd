//! Parse files of the Foam case-setup format into a tree, look values up in
//! it, and render it back to text.
//!
//! - `scanner` turns text into tokens;
//! - `parser` builds the tree, a `Foam` value, with `Foam::parse`;
//! - `access` holds the lookups (`get`, `get_first_value`, ...);
//! - `render` writes a tree back as text;
//! - `round_trip` proves that rendering a parsed tree and parsing the text
//!   again gives the same tree.
//!
//! Every node's text borrows from the parsed input.
mod access;
pub mod parser;
pub mod render;
pub mod round_trip;
pub mod scanner;
mod text;
pub mod tree;

pub use tree::{Foam, FoamError};
