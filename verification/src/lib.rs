pub mod tokenizer;
pub mod trie;
pub mod pattern;
pub mod matcher;
pub mod io_helpers;
pub mod macro_def;
pub mod builder;
