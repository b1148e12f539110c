use vstd::prelude::*;

use crate::addr::SocketAddr;
use crate::error::{ConnectError, SingleConnectionError};
use crate::handshake::{ConnectRequest, NameHash, Uid};

verus! {

/// Seconds after which a whole connect race is given up.
pub const TIMEOUT_SEC: u64 = 60;

/// What we know of ourselves when connecting: our id, and whether we hold
/// the endpoints of a rendezvous relay channel.
#[derive(Clone, Copy, Debug)]
pub struct PrivConnectionInfo {
    pub id: Uid,
    pub has_rendezvous_channel: bool,
}

/// What the remote peer published out of band.
#[derive(Clone, Debug)]
pub struct PubConnectionInfo {
    pub id: Uid,
    pub for_direct: Vec<SocketAddr>,
    pub p2p_conn_info: Option<Vec<u8>>,
}

/// The state of one connect race: the outgoing attempts still running,
/// whether the stream of incoming handshakes is still open, the errors of
/// the attempts that failed (in completion order) and the winner, if any.
pub struct ConnectRace {
    pub their_id: Uid,
    pub our_request: ConnectRequest,
    pub pending_direct: usize,
    pub rendezvous_pending: bool,
    pub incoming_open: bool,
    pub errors: Vec<SingleConnectionError>,
    pub winner: Option<Uid>,
}

/// Where a race stands.
#[derive(Clone, Copy, Debug, PartialEq, Eq, Structural)]
pub enum RaceStatus {
    /// Some attempt may still succeed.
    Running,
    /// An attempt was validated: the remote id. Every other attempt is
    /// abandoned.
    Won(Uid),
    /// No attempt succeeded and none is left.
    AllFailed,
}

/// The mathematical state of a race.
pub struct RaceModel {
    pub pending_direct: nat,
    pub rendezvous_pending: bool,
    pub incoming_open: bool,
    pub errors: Seq<SingleConnectionError>,
    pub winner: Option<Uid>,
}

impl View for ConnectRace {
    type V = RaceModel;

    open spec fn view(&self) -> RaceModel {
        RaceModel {
            pending_direct: self.pending_direct as nat,
            rendezvous_pending: self.rendezvous_pending,
            incoming_open: self.incoming_open,
            errors: self.errors@,
            winner: self.winner,
        }
    }
}

/// Something that happens to a running race.
pub enum RaceEvent {
    /// The handshake on a directly dialled connection was decided.
    DirectDone(Result<Uid, SingleConnectionError>),
    /// The rendezvous connection (with its handshake) was decided.
    RendezvousDone(Result<Uid, SingleConnectionError>),
    /// A connection the remote peer opened was decided.
    IncomingDone(Result<Uid, SingleConnectionError>),
    /// The stream of incoming handshakes ended.
    IncomingClosed,
}

/// The state of a race at its start.
pub open spec fn race_start(n_direct: nat, rendezvous: bool) -> RaceModel {
    RaceModel {
        pending_direct: n_direct,
        rendezvous_pending: rendezvous,
        incoming_open: true,
        errors: Seq::empty(),
        winner: None,
    }
}

/// What the race is at `m`.
pub open spec fn race_status(m: RaceModel) -> RaceStatus {
    match m.winner {
        Some(id) => RaceStatus::Won(id),
        None => if m.pending_direct == 0 && !m.rendezvous_pending && !m.incoming_open {
            RaceStatus::AllFailed
        } else {
            RaceStatus::Running
        },
    }
}

/// Whether `ev` can happen to the race at `m`: the race is still running
/// and the source of the event is still live.
pub open spec fn event_enabled(m: RaceModel, ev: RaceEvent) -> bool {
    &&& race_status(m) == RaceStatus::Running
    &&& match ev {
        RaceEvent::DirectDone(_) => m.pending_direct > 0,
        RaceEvent::RendezvousDone(_) => m.rendezvous_pending,
        RaceEvent::IncomingDone(_) => m.incoming_open,
        RaceEvent::IncomingClosed => m.incoming_open,
    }
}

/// Records one attempt's outcome: a success wins, a failure is kept.
pub open spec fn record(m: RaceModel, outcome: Result<Uid, SingleConnectionError>) -> RaceModel {
    match outcome {
        Ok(id) => RaceModel { winner: Some(id), ..m },
        Err(e) => RaceModel { errors: m.errors.push(e), ..m },
    }
}

/// The race after `ev`. Once the race is decided, or where the event's
/// source is no longer live, nothing changes: the losers are abandoned.
pub open spec fn race_step(m: RaceModel, ev: RaceEvent) -> RaceModel {
    if !event_enabled(m, ev) {
        m
    } else {
        match ev {
            RaceEvent::DirectDone(o) => record(
                RaceModel { pending_direct: (m.pending_direct - 1) as nat, ..m },
                o,
            ),
            RaceEvent::RendezvousDone(o) => record(RaceModel { rendezvous_pending: false, ..m }, o),
            RaceEvent::IncomingDone(o) => record(m, o),
            RaceEvent::IncomingClosed => RaceModel { incoming_open: false, ..m },
        }
    }
}

/// The race after each of `evs` in turn.
pub open spec fn race_run(m: RaceModel, evs: Seq<RaceEvent>) -> RaceModel
    decreases evs.len(),
{
    if evs.len() == 0 {
        m
    } else {
        race_run(race_step(m, evs[0]), evs.drop_first())
    }
}

/// Everything a connect call sets going: the request we send first on
/// every connection, the addresses to dial, the metadata to hand to the
/// rendezvous relay (none when either side lacks rendezvous info) and the
/// race that collects the outcomes.
pub struct ConnectPlan {
    pub our_request: ConnectRequest,
    pub dial: Vec<SocketAddr>,
    pub rendezvous_send: Option<Vec<u8>>,
    pub race: ConnectRace,
}

/// The bytes held by an optional buffer.
pub open spec fn opt_bytes(o: Option<Vec<u8>>) -> Option<Seq<u8>> {
    match o {
        Some(v) => Some(v@),
        None => None,
    }
}

/// What the rendezvous connector sends to the relay, if it takes part at
/// all: only when both sides have rendezvous info.
pub open spec fn rendezvous_contribution(
    our_has_channel: bool,
    their_conn_info: Option<Seq<u8>>,
) -> Option<Seq<u8>> {
    if our_has_channel {
        their_conn_info
    } else {
        None
    }
}

/// Sends the remote's raw rendezvous metadata to the relay when both sides
/// have such info. Otherwise the rendezvous connector never completes: it
/// removes itself from the race without failing it.
pub fn connect_p2p(our_has_channel: bool, their_conn_info: Option<Vec<u8>>) -> (r: Option<
    Vec<u8>,
>)
    ensures
        r is Some <==> rendezvous_contribution(our_has_channel, opt_bytes(their_conn_info)) is Some,
        r is Some ==> r->Some_0@ == rendezvous_contribution(
            our_has_channel,
            opt_bytes(their_conn_info),
        )->Some_0,
{
    match their_conn_info {
        Some(info) => if our_has_channel {
            Some(info)
        } else {
            None
        },
        None => None,
    }
}

/// What the rendezvous connector yields once the relay send is done
/// (`sent`) and the result receiver answered (`received`; `None` when it was
/// cancelled). Either channel being dead fails the attempt with
/// `DeadChannel`; the protocol's own result is passed on as it is.
pub fn rendezvous_outcome(sent: bool, received: Option<Result<u64, SingleConnectionError>>) -> (r:
    Result<u64, SingleConnectionError>)
    ensures
        !sent ==> r == Err::<u64, SingleConnectionError>(SingleConnectionError::DeadChannel),
        sent && received is None ==> r == Err::<u64, SingleConnectionError>(
            SingleConnectionError::DeadChannel,
        ),
        sent && received is Some ==> r == received->Some_0,
{
    if !sent {
        return Err(SingleConnectionError::DeadChannel);
    }
    match received {
        None => Err(SingleConnectionError::DeadChannel),
        Some(res) => res,
    }
}

/// What a direct attempt whose transport connect failed gives: the I/O
/// error, for that attempt only.
pub fn direct_connect_failed(e: String) -> (r: SingleConnectionError)
    ensures
        r == SingleConnectionError::Io(e),
{
    SingleConnectionError::Io(e)
}

/// What the rendezvous setup task publishes once the NAT traversal
/// protocol has run: the connection, or the protocol's own error wrapped.
pub fn rendezvous_task_result(protocol: Result<u64, String>) -> (r: Result<
    u64,
    SingleConnectionError,
>)
    ensures
        protocol is Ok ==> r == Ok::<u64, SingleConnectionError>(protocol->Ok_0),
        protocol is Err ==> r == Err::<u64, SingleConnectionError>(
            SingleConnectionError::RendezvousConnect(protocol->Err_0),
        ),
{
    match protocol {
        Ok(conn) => Ok(conn),
        Err(e) => Err(SingleConnectionError::RendezvousConnect(e)),
    }
}

/// The result of a won race once the peer was built from the winning
/// connection: an I/O failure there is surfaced as it is, not retried.
pub fn finish_connect(winner: Uid, built: Result<(), String>) -> (r: Result<Uid, ConnectError>)
    ensures
        built is Ok ==> r == Ok::<Uid, ConnectError>(winner),
        built is Err ==> r == Err::<Uid, ConnectError>(ConnectError::Io(built->Err_0)),
{
    match built {
        Ok(()) => Ok(winner),
        Err(e) => Err(ConnectError::Io(e)),
    }
}

/// Starts a connection to a remote peer. Refuses to connect to ourselves
/// before anything is set going. Otherwise every direct address is dialled,
/// the rendezvous connector takes part when both sides can, and the incoming
/// handshakes are listened to, all in one race.
pub fn connect(
    name_hash: NameHash,
    our_info: PrivConnectionInfo,
    their_info: PubConnectionInfo,
) -> (r: Result<ConnectPlan, ConnectError>)
    ensures
        our_info.id == their_info.id <==> r is Err,
        r is Err ==> r->Err_0 == ConnectError::RequestedConnectToSelf,
        r is Ok ==> ({
            let p = r->Ok_0;
            let rv = rendezvous_contribution(
                our_info.has_rendezvous_channel,
                opt_bytes(their_info.p2p_conn_info),
            );
            &&& p.our_request == (ConnectRequest { uid: our_info.id, name_hash })
            &&& p.dial@ == their_info.for_direct@
            &&& (p.rendezvous_send is Some <==> rv is Some)
            &&& (p.rendezvous_send is Some ==> p.rendezvous_send->Some_0@ == rv->Some_0)
            &&& p.race.their_id == their_info.id
            &&& p.race.our_request == p.our_request
            &&& p.race@ == race_start(their_info.for_direct@.len(), rv is Some)
        }),
{
    if our_info.id == their_info.id {
        return Err(ConnectError::RequestedConnectToSelf);
    }
    let our_request = ConnectRequest { uid: our_info.id, name_hash };
    let their_id = their_info.id;
    let dial = their_info.for_direct;
    let rendezvous_send = connect_p2p(our_info.has_rendezvous_channel, their_info.p2p_conn_info);
    let race = ConnectRace {
        their_id,
        our_request,
        pending_direct: dial.len(),
        rendezvous_pending: rendezvous_send.is_some(),
        incoming_open: true,
        errors: Vec::new(),
        winner: None,
    };
    Ok(ConnectPlan { our_request, dial, rendezvous_send, race })
}

impl ConnectRace {
    fn record_outcome(&mut self, outcome: Result<Uid, SingleConnectionError>)
        ensures
            final(self)@ == record(old(self)@, outcome),
            final(self).their_id == old(self).their_id,
            final(self).our_request == old(self).our_request,
    {
        match outcome {
            Ok(id) => {
                self.winner = Some(id);
            },
            Err(e) => {
                self.errors.push(e);
            },
        }
    }

    /// Takes in the outcome of the handshake on a directly dialled
    /// connection.
    pub fn direct_finished(&mut self, outcome: Result<Uid, SingleConnectionError>)
        requires
            event_enabled(old(self)@, RaceEvent::DirectDone(outcome)),
            outcome is Ok ==> outcome->Ok_0 == old(self).their_id,
        ensures
            final(self)@ == race_step(old(self)@, RaceEvent::DirectDone(outcome)),
            final(self).their_id == old(self).their_id,
            final(self).our_request == old(self).our_request,
    {
        self.pending_direct = self.pending_direct - 1;
        self.record_outcome(outcome);
    }

    /// Takes in the outcome of the rendezvous connection and its handshake.
    pub fn rendezvous_finished(&mut self, outcome: Result<Uid, SingleConnectionError>)
        requires
            event_enabled(old(self)@, RaceEvent::RendezvousDone(outcome)),
            outcome is Ok ==> outcome->Ok_0 == old(self).their_id,
        ensures
            final(self)@ == race_step(old(self)@, RaceEvent::RendezvousDone(outcome)),
            final(self).their_id == old(self).their_id,
            final(self).our_request == old(self).our_request,
    {
        self.rendezvous_pending = false;
        self.record_outcome(outcome);
    }

    /// Takes in the outcome of a connection that the remote peer opened.
    pub fn incoming_finished(&mut self, outcome: Result<Uid, SingleConnectionError>)
        requires
            event_enabled(old(self)@, RaceEvent::IncomingDone(outcome)),
            outcome is Ok ==> outcome->Ok_0 == old(self).their_id,
        ensures
            final(self)@ == race_step(old(self)@, RaceEvent::IncomingDone(outcome)),
            final(self).their_id == old(self).their_id,
            final(self).our_request == old(self).our_request,
    {
        self.record_outcome(outcome);
    }

    /// Notes that no more incoming handshakes will come.
    pub fn incoming_closed(&mut self)
        requires
            event_enabled(old(self)@, RaceEvent::IncomingClosed),
        ensures
            final(self)@ == race_step(old(self)@, RaceEvent::IncomingClosed),
            final(self).their_id == old(self).their_id,
            final(self).our_request == old(self).our_request,
    {
        self.incoming_open = false;
    }

    /// Where the race stands.
    pub fn status(&self) -> (r: RaceStatus)
        ensures
            r == race_status(self@),
    {
        match self.winner {
            Some(id) => RaceStatus::Won(id),
            None => if self.pending_direct == 0 && !self.rendezvous_pending
                && !self.incoming_open {
                RaceStatus::AllFailed
            } else {
                RaceStatus::Running
            },
        }
    }

    /// What the race gives when its deadline (`TIMEOUT_SEC` for the whole
    /// race) passes: a running race times out; a decided one keeps its
    /// outcome, so nothing is returned for it.
    pub fn timed_out(&self) -> (r: Option<ConnectError>)
        ensures
            r is Some <==> race_status(self@) == RaceStatus::Running,
            r is Some ==> r->Some_0 == ConnectError::TimedOut,
    {
        match self.status() {
            RaceStatus::Running => Some(ConnectError::TimedOut),
            _ => None,
        }
    }

    /// The error of a race that every attempt lost: each attempt's error, in
    /// completion order.
    pub fn into_error(self) -> (r: ConnectError)
        requires
            race_status(self@) == RaceStatus::AllFailed,
        ensures
            r is AllConnectionsFailed,
            r->AllConnectionsFailed_0@ == self.errors@,
    {
        ConnectError::AllConnectionsFailed(self.errors)
    }
}

} // verus!
