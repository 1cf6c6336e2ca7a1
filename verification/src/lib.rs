//! Verified core of a client-side search engine. The indexer side mines
//! documents into postings (`miner`, `librarian::miner`), merges and encodes
//! blocks and postings lists (`spimi_writer`, `pl_writer`, `varint`,
//! `packed_var_int`), lays out stored fields (`field_store`, `escape_json`)
//! and writes the document information (`doc_info`), which `metadata` reads
//! back. The search side parses queries (`query_parser`, `tokenize`,
//! `chinese`, `librarian::tokenize`), expands prefixes (`dictionary`) and
//! corrects spelling (`spelling`).

pub mod varint;
pub mod librarian;
pub mod dictionary;
pub mod language;
pub mod metadata;
pub mod chinese;
pub mod stop_words;
pub mod text;
pub mod tokenize;
pub mod query_parser;
pub mod miner;
pub mod escape_json;
pub mod pl_writer;
pub mod doc_info;
pub mod spelling;
pub mod spimi_writer;
pub mod field_store;
pub mod packed_var_int;
pub mod push;
pub mod searcher;
pub mod conjunctive;
