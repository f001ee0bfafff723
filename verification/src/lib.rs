//! Cross-file matching of genome-alignment mapping files.
//!
//! A mapping file is tab-delimited text, one alignment record per line. The
//! crate parses such files into record tables, indexes the records of a file by
//! query contig, joins every pair of files of a set on the query contig, keeps
//! what it computed in a cache addressed by content hash, and frames serialized
//! matches into a length-prefixed byte stream.
//!
//! The modules, from the leaves up:
//!
//! - [`number`] and [`text`]: the spelling of numbers, and lines and fields;
//! - [`record`]: alignment records and matches;
//! - [`slot_map`] and [`table`]: keyed tables;
//! - [`file`], [`parse`] and [`index`]: the tables of a file, the parser that
//!   fills them, and the index by query contig;
//! - [`matching`]: the pairwise match engine;
//! - [`cache`]: the result cache;
//! - [`wire`], [`frame`] and [`stream`]: the encoding of a match, the framing
//!   of payloads, and the stream of matches;
//! - [`request`]: the taking up of a client's uploads.
//!
//! Every function in the crate is verified, but for six small wrappers whose
//! contracts are taken on trust: three in [`slot_map`] around the concurrent
//! hash map that backs the keyed tables, one in [`record`] that duplicates a
//! shared handle, one in [`wire`] that makes a character of its code point,
//! and one in [`request`] that reads bytes as text.

pub mod cache;
pub mod file;
pub mod frame;
pub mod index;
pub mod matching;
pub mod number;
pub mod parse;
pub mod record;
pub mod request;
pub mod slot_map;
pub mod stream;
pub mod table;
pub mod text;
pub mod wire;
