//! The one filesystem question the engine asks: whether a path exists.

use vstd::prelude::*;

verus! {

/// Relies on std::path::Path::exists: whether the path exists on disk at
/// the moment of the call. Nothing is promised of the result: what is on
/// disk can change between any two calls.
#[verifier::external_body]
pub fn path_exists(path: &str) -> bool {
    std::path::Path::new(path).exists()
}

} // verus!
