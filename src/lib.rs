//! Interactive disk-usage tree: aggregation of entry sizes into a trie,
//! a sorted navigation tree, a path-based cursor and a windowed row walk.
pub mod crawl;
pub mod cli;
