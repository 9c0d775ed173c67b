//! Full-text search over Unix manual pages.
//!
//! A corpus of rendered pages is parsed into documents with three fields
//! (`doc`), counted and written as records (`crawl`), scored by the host and
//! built into an inverted index (`builder`), saved in a compact file with a
//! footer-addressed dictionary and read back through a memory map
//! (`index`), and queried (`search`). What the library does is stated in
//! contracts over plain values and proved. The few calls into the standard
//! library's Unicode tables, into `rust_stemmers` and into `memmap2` are
//! marked as trusted where they stand. The laws of the two byte formats are
//! in `format_laws`, `crawl_laws` and `index_laws`.
//!
//! Scores are real numbers. The library never computes with them: it tells
//! the host what to score, and orders and tests the bit patterns that come
//! back.

pub mod builder;
pub mod constants;
pub mod crawl;
pub mod crawl_laws;
pub mod doc;
pub mod format_laws;
pub mod index;
pub mod index_laws;
pub mod io_util;
pub mod rank;
pub mod search;
pub mod strmap;
pub mod text;
pub mod unicode;
pub mod web;
