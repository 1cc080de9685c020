//! Suggestion engine for a dictionary language server: a frequency-ranked
//! prefix index backed by a trie, an edit-distance candidate generator with a
//! two-tier cache, and a facade that serves incrementally extended queries.

pub mod cache;
pub mod completion;
pub mod config;
pub mod dictionary_data;
pub mod formatting;
pub mod fuzzy;
pub mod provider;
pub mod text;
pub mod trie;
