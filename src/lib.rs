//! Decoding of a sensor byte stream into readings.
//!
//! - `utils`: finding the marker byte in a slice, and cutting a slice there.
//! - `frame`: frames are cut out of a stream that arrives in chunks of any
//!   size, at a marker byte. One frame at most comes out per chunk; a second
//!   marker in the same chunk waits, buffered, for the next call. Bytes are
//!   taken as they come: none (a zero byte included) is filtered out.
//! - `parser`: a frame's text must be five `keyword:value` fields in a fixed
//!   order, with whitespace allowed around every token and nothing after the
//!   last field. A frame that ends while a field is still being read is
//!   `IncompleteInput`; any other break of the grammar is `GrammarMismatch`.
//!   The numbers are handed out as the decimal text that the grammar
//!   accepted.
//! - `decode`: a frame is checked to be UTF-8 text, then parsed.
//! - `message`: what the grammar does with well-formed messages and with
//!   messages whose fields are out of order, missing or followed by text.
//! - `session`: the decisions of one connection: reading, delivering frames,
//!   and connecting again after a failure, with the buffer dropped.
pub mod decode;
pub mod frame;
pub mod message;
pub mod parser;
pub mod session;
pub mod utils;
