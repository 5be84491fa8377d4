//! Schema-driven conversion of delimited text records into a typed,
//! self-describing columnar container.
//!
//! The pipeline takes raw comma-separated text, derives or accepts a column
//! schema, validates every record structurally (column count, UTF-8
//! well-formedness) before any conversion commits, parses each field
//! according to its column's declared logical type, and serializes the
//! resulting batch of equal-length typed columns into a self-describing
//! byte container that round-trips losslessly.

pub mod bytes;
pub mod codec;
pub mod column;
pub mod convert;
pub mod csv_text;
pub mod numeric;
pub mod pipeline;
pub mod schema;
pub mod utf8;
pub mod validate;
