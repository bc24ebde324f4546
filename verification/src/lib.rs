//! A JSON carver: scans an arbitrary byte stream for embedded, structurally
//! valid JSON values, emits the valid ones, and reports partial or corrupted
//! candidates.

pub mod bytes;
pub mod carver;
pub mod errors;
pub mod laws;
pub mod report;
pub mod scan;
pub mod tracker;

pub use bytes::byte_needs_escape;
pub use bytes::byte_can_escape;
pub use bytes::_closing_ident;
pub use carver::Carver;
pub use carver::DEFAULT_MIN_JSON_SIZE;
pub use errors::CarveError;
pub use report::Cause;
pub use report::Report;
pub use tracker::JsonTracker;
