//! A codec for the line-oriented `key=value` text format of Java-style
//! property files.
//!
//! [`Properties`] is an in-memory mapping from string keys to string values.
//! [`Properties::load`] parses the on-disk byte form: it assembles logical
//! lines (joining backslash-continued physical lines, dropping comment and
//! blank lines), splits each line into a key and a value, and decodes the
//! backslash escapes, including `\uXXXX` escapes and UTF-16 surrogate pairs.
//! [`Properties::store`] writes the mapping back out, escaping each key and
//! value and optionally prefixing a re-wrapped comment block.

pub mod decode;
pub mod errors;
pub mod idempotence;
pub mod laws;
pub mod line;
pub mod props;
pub mod reader;
pub mod writer;

pub use errors::PropertiesError;
pub use props::Properties;
pub use writer::{LineEnding, WriteOption};
