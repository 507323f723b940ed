//! The lifecycle of an endpoint.

use vstd::prelude::*;

verus! {

/// Where an endpoint stands in the life of a connection.
#[derive(Clone, Copy, Debug, PartialEq, Eq, Structural)]
pub enum Status {
    /// Nothing has happened on the connection yet.
    StandBy,
    /// The three-way handshake is under way.
    Handshake,
    /// Data flows.
    Sending,
    /// The closing segment is out or has been answered.
    Finished,
}

} // verus!
