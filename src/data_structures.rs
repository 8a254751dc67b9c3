pub mod trie;
