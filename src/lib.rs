//! Content-type identification by walking a hierarchy of MIME types.
//!
//! Checkers declare the types they can test, subclass pairs between them and
//! aliases. A [`Classifier`] built from them holds the type graph, rooted at
//! `all/all`, and identifies content by descending from the root to the most
//! specific type that matches, testing only the subtrees of types that match.

pub mod checker;
pub mod classify;
pub mod mime;
pub mod order;
pub mod pgraph;
pub mod typegraph;

pub use checker::{Checker, FileFacts, FileKind, MagicRule, MagicTable};
pub use classify::{Classifier, from_filepath, from_u8, match_filepath, match_u8};
