//! A Boggle word-finding library: a letter codec, a 26-ary prefix tree
//! holding the playable dictionary, and a depth-first search engine that
//! scores a 4x4 letter board against that dictionary.

pub mod boggler;
pub mod trie;
