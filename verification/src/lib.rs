//! Phonology-and-orthography modelling core of a stenography dictionary
//! compiler: definitions made of sophemes and transclusions, lazily expanded
//! definition views with cursors, and a nondeterministic phonetic trie.

pub mod text;
pub mod keysymbol;
pub mod sopheme;
pub mod transclusion;
pub mod entity;
pub mod dict;
pub mod item;
pub mod child_cursor;
pub mod def_view;
pub mod position;
pub mod cursor;
pub mod cursor_laws;
pub mod rank;
pub mod scan;
pub mod queries;
pub mod collect;
pub mod lex;
pub mod grammar;
pub mod parse;
pub mod trie;
pub mod morphology;
pub mod soph;
pub mod rewrite;
