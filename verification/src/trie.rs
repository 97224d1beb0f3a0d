//! The nondeterministic phonetic trie: nodes joined by keyed transitions
//! that carry a cost for each translation using them.

pub mod table;
pub mod transition;
pub mod flags;
pub mod source;
pub mod model;
pub mod construct;
pub mod query;
pub mod reverse;
pub mod subtrie;
pub mod laws;
pub mod entry;
pub mod reverse_laws;
