//! The query protocol of a key/value server: what clients send, and how it is read.
//!
//! * [`packet`] is the format of query packets, and [`parser`] reads them; [`guard`] lets it read
//!   bytes that nothing is known about. [`answers`] says what every answer of a reader means, and
//!   [`encoding`] and [`laws`] prove what holds of packets as a whole.
//! * [`metaline`] is the first line of the line-based queries, and [`reading`] the steps by which
//!   such a query is read from a connection.
//! * [`decimal`] and [`text`] are numerals and fields of text.

pub mod answers;
pub mod decimal;
pub mod encoding;
pub mod guard;
pub mod laws;
pub mod metaline;
pub mod packet;
pub mod parser;
pub mod reading;
pub mod text;
