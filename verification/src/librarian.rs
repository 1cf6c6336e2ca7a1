//! The first-generation indexer: its integer encoder, dictionary writer,
//! tokenizer, document miner and loader results.

pub mod varint;
pub mod tokenize;
pub mod latin;
pub mod prefix;
pub mod dictionary;
pub mod miner;
pub mod loader;
pub mod block_reader;
pub mod block_merge;
