//! A parser and serializer for a small indentation-delimited configuration
//! format: nested mappings and lists are expressed through leading-whitespace
//! indentation, scalars are inferred by precedence (booleans, null, quoted
//! strings, integers, floats, bare strings), and a value tree is re-emitted
//! as canonical text.
//!
//! Decoding is best-effort and never rejects a document; encoding renders a
//! deterministic canonical form. Every function's behaviour is stated against
//! the mathematical model in [`value::Vs`] and proved.

pub mod text;
pub mod value;
pub mod scalar;
pub mod decode;
pub mod encode;
pub mod laws;

pub use value::Value;
pub use scalar::{parse_value, format_value};
pub use decode::parse_lines;
pub use encode::to_bellande_string;
