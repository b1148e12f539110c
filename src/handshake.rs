use vstd::prelude::*;

use crate::error::SingleConnectionError;

verus! {

/// Identifier of a logical peer.
pub type Uid = u64;

/// Identifier of one network deployment.
pub type NameHash = u64;

/// The first message sent on every new connection, in both directions.
#[derive(Clone, Copy, Debug, PartialEq, Eq, Structural)]
pub struct ConnectRequest {
    pub uid: Uid,
    pub name_hash: NameHash,
}

/// A message as it can arrive during the handshake: only the connect kind
/// means anything there.
#[derive(Clone, Copy, Debug, PartialEq, Eq, Structural)]
pub enum HandshakeMessage {
    Connect(ConnectRequest),
    Other,
}

/// What checking a received request against our expectations gives.
pub open spec fn validation(
    expected_uid: Uid,
    our_name_hash: NameHash,
    req: ConnectRequest,
) -> Result<(), SingleConnectionError> {
    if req.uid != expected_uid {
        Err(SingleConnectionError::InvalidUid(req.uid, expected_uid))
    } else if req.name_hash != our_name_hash {
        Err(SingleConnectionError::InvalidNameHash(req.name_hash))
    } else {
        Ok(())
    }
}

/// Accepts `connect_request` only when it carries the expected peer id and
/// our own network's name hash, both compared exactly.
pub fn validate_connect_request(
    expected_uid: Uid,
    our_name_hash: NameHash,
    connect_request: &ConnectRequest,
) -> (r: Result<(), SingleConnectionError>)
    ensures
        r == validation(expected_uid, our_name_hash, *connect_request),
{
    let their_uid = connect_request.uid;
    let their_name_hash = connect_request.name_hash;
    if their_uid != expected_uid {
        return Err(SingleConnectionError::InvalidUid(their_uid, expected_uid));
    }
    if our_name_hash != their_name_hash {
        return Err(SingleConnectionError::InvalidNameHash(their_name_hash));
    }
    Ok(())
}

/// What the reply to our own request on an outgoing connection gives.
pub open spec fn outgoing_reply_outcome(
    their_id: Uid,
    our_name_hash: NameHash,
    reply: Option<HandshakeMessage>,
) -> Result<Uid, SingleConnectionError> {
    match reply {
        None => Err(SingleConnectionError::ConnectionDropped),
        Some(HandshakeMessage::Connect(req)) => match validation(their_id, our_name_hash, req) {
            Ok(()) => Ok(req.uid),
            Err(e) => Err(e),
        },
        Some(HandshakeMessage::Other) => Err(SingleConnectionError::UnexpectedMessage),
    }
}

/// Decides an outgoing connection once the first reply to our request has
/// come back (`None`: the connection closed first). Yields the validated
/// remote id.
pub fn handshake_outgoing_reply(
    their_id: Uid,
    our_name_hash: NameHash,
    reply: Option<HandshakeMessage>,
) -> (r: Result<Uid, SingleConnectionError>)
    ensures
        r == outgoing_reply_outcome(their_id, our_name_hash, reply),
        r is Ok ==> r->Ok_0 == their_id,
{
    match reply {
        None => Err(SingleConnectionError::ConnectionDropped),
        Some(HandshakeMessage::Connect(connect_request)) => {
            match validate_connect_request(their_id, our_name_hash, &connect_request) {
                Ok(()) => Ok(connect_request.uid),
                Err(e) => Err(e),
            }
        },
        Some(HandshakeMessage::Other) => Err(SingleConnectionError::UnexpectedMessage),
    }
}

/// Decides an outgoing connection from what sending our request and
/// awaiting the reply gave: a failed send or receive is a socket error,
/// otherwise the reply decides.
pub fn handshake_outgoing_exchange(
    their_id: Uid,
    our_name_hash: NameHash,
    exchange: Result<Option<HandshakeMessage>, String>,
) -> (r: Result<Uid, SingleConnectionError>)
    ensures
        exchange is Err ==> r == Err::<Uid, SingleConnectionError>(
            SingleConnectionError::Socket(exchange->Err_0),
        ),
        exchange is Ok ==> r == outgoing_reply_outcome(their_id, our_name_hash, exchange->Ok_0),
{
    match exchange {
        Err(e) => Err(SingleConnectionError::Socket(e)),
        Ok(reply) => handshake_outgoing_reply(their_id, our_name_hash, reply),
    }
}

/// Decides a connection that the remote peer opened, from the request it
/// sent first. On success the result is the one reply to send back: our own
/// request. On failure nothing is sent.
pub fn handshake_incoming_request(
    our_connect_request: ConnectRequest,
    their_id: Uid,
    connect_request: &ConnectRequest,
) -> (r: Result<HandshakeMessage, SingleConnectionError>)
    ensures
        validation(their_id, our_connect_request.name_hash, *connect_request) is Ok ==> r
            == Ok::<HandshakeMessage, SingleConnectionError>(
            HandshakeMessage::Connect(our_connect_request),
        ),
        validation(their_id, our_connect_request.name_hash, *connect_request) is Err ==> r
            == Err::<HandshakeMessage, SingleConnectionError>(
            validation(their_id, our_connect_request.name_hash, *connect_request)->Err_0,
        ),
{
    match validate_connect_request(their_id, our_connect_request.name_hash, connect_request) {
        Ok(()) => Ok(HandshakeMessage::Connect(our_connect_request)),
        Err(e) => Err(e),
    }
}

/// Decides an incoming connection once our reply has been sent: a failed
/// send fails the attempt with a socket error.
pub fn incoming_reply_sent(their_id: Uid, sent: Result<(), String>) -> (r: Result<
    Uid,
    SingleConnectionError,
>)
    ensures
        sent is Ok ==> r == Ok::<Uid, SingleConnectionError>(their_id),
        sent is Err ==> r == Err::<Uid, SingleConnectionError>(
            SingleConnectionError::Socket(sent->Err_0),
        ),
{
    match sent {
        Ok(()) => Ok(their_id),
        Err(e) => Err(SingleConnectionError::Socket(e)),
    }
}

} // verus!
