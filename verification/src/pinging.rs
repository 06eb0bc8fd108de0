//! What a server list ping reports.
use vstd::prelude::*;

verus! {

/// The status a running server reports when pinged.
pub struct ServerStatus {
    /// Its message of the day, as plain text.
    pub motd: String,
    /// The name of its version.
    pub version: String,
}

} // verus!
