//! A lazy, zero-copy CSV scanner.
//!
//! The scanner walks an in-memory byte buffer and yields cell and line-end
//! boundaries one at a time, without copying the buffer. A cell's bytes are
//! only validated as UTF-8 and unquoted when the caller asks for its text.
//!
//! The dialect is a subset of RFC 4180 with two extensions: a bare LF is
//! accepted as a line terminator alongside CRLF, and the separator byte can
//! be chosen at construction time.
//!
//! A malformed tail — an unterminated quoted run, or a final record with no
//! line terminator — ends the stream silently rather than raising an error.

pub mod cell;
pub mod laws;
pub mod rows;
pub mod scan;
pub mod search;

pub use cell::{Cell, CellValue, Utf8Error};
pub use rows::{CsvRowIter, RowIterError};
pub use scan::{Csv, CsvIterItem, IterState};
