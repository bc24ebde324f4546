//! The library's error type. The carver's own scanning never fails — grammar
//! violations become report records — so the only failures are those of the
//! streams around it.

use vstd::prelude::*;

verus! {

/// Declares `std::io::Error` so that it can be carried as a payload; the
/// value is opaque to the library, which never inspects it.
#[verifier::external_type_specification]
#[verifier::external_body]
pub struct ExIoError(std::io::Error);

/// Everything that can go wrong around the carver.
pub enum CarveError {
    /// An I/O operation on the byte source or one of the sinks failed.
    StreamError(std::io::Error),
}

} // verus!
