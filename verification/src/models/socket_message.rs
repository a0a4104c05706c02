//! The status report an external client sends over the socket.

use vstd::prelude::*;

verus! {

/// A client's status report: a JSON object of exactly two text fields.
/// A `status` equal to `done` (case-insensitively) is the sentinel that
/// asks the aggregator to drop the title rather than display it.
#[derive(Debug)]
pub struct SocketMessage {
    pub title: String,
    pub status: String,
}

} // verus!
