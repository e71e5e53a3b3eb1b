//! Merges DNS blocklists: reads hosts-file style lists, applies a whitelist and a blacklist,
//! and writes the merged hosts in the grammar of a DNS server.
pub mod text;
pub mod host;
pub mod hostset;
pub mod parser;
pub mod merge;
pub mod output;
pub mod cache;
