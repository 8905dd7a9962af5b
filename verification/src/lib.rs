//! A bidirectional binary-message codec driven by a compact, printf-like
//! format mini-language.
//!
//! [`format_query`] encodes an ordered sequence of typed arguments into the
//! byte sequence a format string describes; [`scan_query`] decodes a
//! received byte sequence back into typed values, validating the literal
//! bytes the format string embeds. Both directions are specified against a
//! pair of recursive interpreters over the format string, and the laws
//! module proves the properties that relate them: the round trip, the
//! literal-byte validation, and the full-consumption invariant.

pub mod bcd;
pub mod decode;
pub mod directive;
pub mod encode;
pub mod errors;
pub mod laws;
pub mod value;
pub mod wire;

pub use decode::scan_query;
pub use encode::format_query;
pub use errors::QueryError;
pub use value::QueryValue;
pub use value::SpecValue;
pub use value::ValueError;
pub use value::ValueKind;
