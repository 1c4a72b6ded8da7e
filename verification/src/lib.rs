//! Routing for paths delimited by a forward slash, with the ability to capture
//! specified path segments.
//!
//! A [`Tree`] holds patterns such as `GET/user/:username/profile`, each with a
//! payload. [`Tree::find`] takes a path such as `GET/user/my_name/profile` and
//! returns the payload of the pattern that matches it, with the segments that
//! stand where the pattern has a capture: here `("username", "my_name")`.
//!
//! What registration and lookup do is stated over the trie as a mathematical
//! value, in [`model`]; [`laws`] holds what follows for every tree and path.

mod branch;
pub mod laws;
pub mod model;
pub mod segments;
pub mod tree;

pub use tree::{DuplicateRoute, Tree};
