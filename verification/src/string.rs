//! Symbol tables with strings for keys.

pub mod trie_st;
