//! A small web toolkit: an unbounded multi-producer, single-consumer channel,
//! a URL and query-string splitter with a pluggable component decoder, and a
//! prefix-trie request router.

pub mod channel;
pub mod parse_url;
pub mod routing_table;
