//! Core of a web search engine: positional pattern matching over an
//! inverted index, a segmented index writer, a sorted edge store for the
//! webgraph, a consistent-hash sharded key-value client, and the ranking
//! pipeline's paging logic.

pub mod config;
pub mod dht;
pub mod dht_store;
pub mod hashing;
pub mod index;
pub mod inverted_index;
pub mod pattern;
pub mod pipeline;
pub mod sonic;
pub mod tokenize;
pub mod webgraph;
pub mod webgraph_writer;
pub mod positions;
pub mod schema;
