use vstd::prelude::*;

use crate::handshake::{NameHash, Uid};

verus! {

/// Why one connection attempt failed. A failure of one attempt never affects
/// the others racing beside it.
#[derive(Clone, Debug)]
pub enum SingleConnectionError {
    /// I/O error while initiating or accepting the connection.
    Io(String),
    /// Fault on the framed channel after the transport connected.
    Socket(String),
    /// The remote peer closed the connection before replying.
    ConnectionDropped,
    /// The peer claimed another id: (received, expected).
    InvalidUid(Uid, Uid),
    /// The peer belongs to another network: the received name hash.
    InvalidNameHash(NameHash),
    /// The peer answered the handshake with a message of another kind.
    UnexpectedMessage,
    /// The attempt ran out of time.
    TimedOut,
    /// A channel to the rendezvous task was closed or cancelled.
    DeadChannel,
    /// The rendezvous (NAT traversal) protocol failed.
    RendezvousConnect(String),
}

/// Why a whole `connect` call failed.
#[derive(Clone, Debug)]
pub enum ConnectError {
    /// Our own id equals the remote id.
    RequestedConnectToSelf,
    /// I/O error while building the peer from the winning connection.
    Io(String),
    /// Socket error when finalising the winning connection.
    ChooseConnection(String),
    /// Every attempt failed: each attempt's error, in completion order.
    AllConnectionsFailed(Vec<SingleConnectionError>),
    /// The whole race ran out of time.
    TimedOut,
}

} // verus!
