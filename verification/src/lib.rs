//! Consolidation of import declarations.
//!
//! Declarations are gathered in a trie keyed by path segment; walking the
//! finished trie yields an equivalent list with duplicates removed,
//! wildcard-covered names dropped and sibling names folded into lists.

pub mod text;
pub mod sorted;
pub mod decl;
pub mod parse;
pub mod trie;
pub mod node;
pub mod emit;
pub mod combiner;
pub mod algebra;
pub mod gather;
pub mod output;
pub mod meaning;
pub mod roundtrip;
pub mod structure;
pub mod covered;
pub mod once;

pub use crate::combiner::{combine_imports, ImportCombiner};
pub use crate::decl::{Item, Path, ViewPath};
pub use crate::node::ImportNode;
pub use crate::parse::as_path;
