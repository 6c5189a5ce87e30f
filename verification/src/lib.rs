//! Conversion of recorded execution spans into Chrome Trace Event JSON.
//!
//! A span is a named interval of time with key/value annotations. Each span
//! yields a begin event and an end event; the events of a whole log are put
//! in the order of their times and written as the lines of a JSON array that
//! is left open.
//!
//! [`convert::process`] does the whole conversion. The log comes to it decoded
//! ([`convert::SpanLog`]): reading the log and decoding its records is left to
//! the caller.

pub mod annotations;
pub mod convert;
pub mod event;
pub mod json;
pub mod number;
pub mod order;
pub mod span;
pub mod text;
