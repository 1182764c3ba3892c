use vstd::prelude::*;

pub mod content;
pub mod text;
pub mod trie;
pub mod serial;
pub mod storage;
pub mod protocol;
pub mod database;
pub mod server;
pub mod errors;
pub mod client;
pub mod builder;
pub mod config;

verus! {
} // verus!
