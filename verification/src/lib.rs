//! A case-insensitive symbol table: a hash table that scans a short chain
//! while it is small and switches to buckets once it has grown.
//!
//! Every entry lives in one arena and is threaded on one doubly-linked chain.
//! A bucket owns a contiguous run of that chain. Keys are compared and hashed
//! byte by byte after ASCII case folding.

pub mod bucket;
pub mod elem;
pub mod fold;
pub mod hash;
pub mod hasher;
pub mod laws;
pub mod model;
pub mod policy;
pub mod string_type_proxy;
