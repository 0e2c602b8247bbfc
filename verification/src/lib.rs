//! HTTP header parsing and validation.
//!
//! Turns the header section of a raw request buffer into an ordered,
//! queryable collection of header entries, and checks a caller-supplied
//! set of required headers against it. Parsing borrows directly from the
//! request buffer: no text is copied, only the structural wrappers are
//! allocated.

pub mod headers;
pub mod response;
pub mod text;
