//! Ingestion of STRAP telemetry logs: lines of whitespace-separated name/value
//! pairs, optionally after an `@strap` marker, turned into records, a sorted
//! schema of all field names, and column batches of bounded size with a null
//! wherever a record lacks a field.
//!
//! Values are kept as the text of the number they parse as; reading that text
//! as an `f64` is left to the caller that writes the columnar file.
pub mod columnar;
pub mod number;
pub mod query;
pub mod record;
pub mod schema;
pub mod source;
pub mod stattrack;
pub mod text;
