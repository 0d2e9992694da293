//! Word-frequency statistics of texts.
//!
//! A text is split into words, every word is interned into a store that
//! hands out one small handle per distinct word, and the handles are
//! counted. The record of a text holds its counts of words, characters,
//! sentences and paragraphs, the table of its words sorted by frequency
//! and the distribution of the frequencies. The records of several texts
//! are merged into one aggregate.
//!
//! The store is passed to whatever interns or reads a word. It only ever
//! grows: a handle stays valid, and keeps naming the same word, for as
//! long as the store lives.
//!
//! The functions here take texts that are at hand and work on one store at
//! a time. Reading files, walking directories and sharing the store among
//! threads is left to the program around the library.

pub mod aggregate;
pub mod analysis;
pub mod freq;
pub mod interning;
pub mod sources;
pub mod stats;
pub mod text;
pub mod uhash;
pub mod units;
pub mod ustring;
