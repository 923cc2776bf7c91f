//! A character-trie word-completion engine.
//!
//! Words are inserted into a trie of characters; completing a prefix returns
//! every stored word that starts with it, sorted ascending by code point.

pub mod chars;
pub mod completion_tree;
pub mod laws;
pub mod node;
pub mod order;
pub mod split;

pub use completion_tree::CompletionTree;
pub use completion_tree::WordSeparator;
