//! Incremental reading of whitespace-delimited values from a buffered byte
//! source.
//!
//! A [`FormattedRead`] pulls pieces of input from a [`ByteSource`], finds
//! where the next word or line ends, across pieces if need be, and hands its
//! bytes to the parser of the requested type.

pub mod bytes;
pub mod decimal;
pub mod integers;
pub mod parse;
pub mod reader;
pub mod source;
pub mod token;

pub use crate::parse::{FromAscii, FromText};
pub use crate::reader::{
    consume_ws, fill_buf_nonempty, nonempty_or_end, FormattedRead, ReadError,
};
pub use crate::source::{BrokenInput, ByteSource, FailingSource, MemorySource};
