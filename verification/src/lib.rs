//! Per-key statistical summaries (minimum, average, maximum) over a delimited
//! text buffer, computed in a single pass.
//!
//! The input is one byte buffer holding newline-terminated records of the form
//! `key;value`, where the value matches a fixed-point decimal grammar with one
//! fractional digit. Values are held as integer tenths throughout, so the
//! accumulation is exact; no floating point is involved anywhere.

pub mod codec;
pub mod error;
pub mod record;
pub mod split;
pub mod table;
pub mod report;
pub mod pipeline;
