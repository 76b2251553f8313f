//! The ways a reconciliation pass or the client's construction can fail.
use vstd::prelude::*;

verus! {

#[derive(Debug)]
pub enum SyncError {
    /// The access URL is malformed or carries no username.
    Configuration(String),
    /// The request could not be sent or timed out.
    Network(String),
    /// The server answered with a status outside 200..=299; its body is kept.
    Status { status: u16, body: String },
    /// The answer's body does not have the expected shape.
    Protocol(String),
    /// A write to the local ledger failed; nothing of the pass was kept.
    Storage(String),
}

} // verus!
