//! A Merkelized key-value store: committed state is an immutable radix trie
//! over the nibble decomposition of byte keys, whose nodes live in a
//! content-addressable store and are referenced by content digest. A write
//! buffer batches pending mutations until `commit`, and an optional
//! authenticated-encryption overlay transforms keys and values before they
//! reach the trie.

pub mod nibble;
pub mod hashing;
pub mod node;
pub mod cas;
pub mod tree;
pub mod trie;
pub mod sealing;
pub mod store;
