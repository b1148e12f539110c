use crust::addr::{IpAddr, SocketAddr};
use crust::connect::{
    connect, connect_p2p, rendezvous_outcome, PrivConnectionInfo, PubConnectionInfo, RaceStatus,
    TIMEOUT_SEC,
};
use crust::error::{ConnectError, SingleConnectionError};
use crust::handshake::{
    handshake_incoming_request, handshake_outgoing_exchange, handshake_outgoing_reply, incoming_reply_sent,
    validate_connect_request, ConnectRequest, HandshakeMessage,
};

fn addrs(n: u8) -> Vec<SocketAddr> {
    (0..n).map(|i| SocketAddr { ip: IpAddr::V4(10, 0, 0, i), port: 5000 }).collect()
}

fn ours(id: u64) -> PrivConnectionInfo {
    PrivConnectionInfo { id, has_rendezvous_channel: false }
}

fn theirs(id: u64, n: u8) -> PubConnectionInfo {
    PubConnectionInfo { id, for_direct: addrs(n), p2p_conn_info: None }
}

#[test]
fn connecting_to_self_is_refused() {
    let r = connect(9, ours(1), theirs(1, 3));
    assert!(matches!(r, Err(ConnectError::RequestedConnectToSelf)));
}

#[test]
fn plan_dials_every_address_with_our_request() {
    let plan = connect(9, ours(1), theirs(2, 3)).ok().unwrap();
    assert_eq!(plan.our_request, ConnectRequest { uid: 1, name_hash: 9 });
    assert_eq!(plan.dial, addrs(3));
    assert_eq!(plan.race.pending_direct, 3);
    assert!(plan.race.incoming_open);
    assert_eq!(plan.race.status(), RaceStatus::Running);
    assert_eq!(TIMEOUT_SEC, 60);
}

#[test]
fn one_valid_address_among_failures_wins() {
    let mut race = connect(9, ours(1), theirs(2, 3)).ok().unwrap().race;
    race.direct_finished(Err(SingleConnectionError::Io("refused".to_string())));
    assert_eq!(race.status(), RaceStatus::Running);
    let good = handshake_outgoing_reply(2, 9, Some(HandshakeMessage::Connect(ConnectRequest { uid: 2, name_hash: 9 })));
    race.direct_finished(good);
    assert_eq!(race.status(), RaceStatus::Won(2));
    assert_eq!(race.errors.len(), 1);
}

#[test]
fn wrong_uid_fails_only_that_attempt() {
    let mut race = connect(9, ours(1), theirs(2, 2)).ok().unwrap().race;
    let bad = handshake_outgoing_reply(2, 9, Some(HandshakeMessage::Connect(ConnectRequest { uid: 3, name_hash: 9 })));
    assert!(matches!(bad, Err(SingleConnectionError::InvalidUid(3, 2))));
    race.direct_finished(bad);
    assert_eq!(race.status(), RaceStatus::Running);
    assert_eq!(race.pending_direct, 1);
    race.direct_finished(Ok(2));
    assert_eq!(race.status(), RaceStatus::Won(2));
}

#[test]
fn wrong_network_fails_only_that_attempt() {
    let mut race = connect(9, ours(1), theirs(2, 2)).ok().unwrap().race;
    let bad = handshake_outgoing_reply(2, 9, Some(HandshakeMessage::Connect(ConnectRequest { uid: 2, name_hash: 8 })));
    assert!(matches!(bad, Err(SingleConnectionError::InvalidNameHash(8))));
    race.direct_finished(bad);
    assert_eq!(race.status(), RaceStatus::Running);
    assert!(matches!(race.errors[0], SingleConnectionError::InvalidNameHash(8)));
}

#[test]
fn outgoing_reply_kinds() {
    assert!(matches!(handshake_outgoing_reply(2, 9, None), Err(SingleConnectionError::ConnectionDropped)));
    assert!(matches!(
        handshake_outgoing_reply(2, 9, Some(HandshakeMessage::Other)),
        Err(SingleConnectionError::UnexpectedMessage)
    ));
    assert!(matches!(
        validate_connect_request(2, 9, &ConnectRequest { uid: 2, name_hash: 9 }),
        Ok(())
    ));
    assert!(matches!(
        validate_connect_request(2, 9, &ConnectRequest { uid: 4, name_hash: 8 }),
        Err(SingleConnectionError::InvalidUid(4, 2))
    ));
}

#[test]
fn all_addresses_failing_fails_the_race() {
    let mut race = connect(9, ours(1), theirs(2, 2)).ok().unwrap().race;
    race.direct_finished(Err(SingleConnectionError::Io("first".to_string())));
    race.direct_finished(Err(SingleConnectionError::TimedOut));
    assert_eq!(race.status(), RaceStatus::Running);
    race.incoming_closed();
    assert_eq!(race.status(), RaceStatus::AllFailed);
    match race.into_error() {
        ConnectError::AllConnectionsFailed(v) => {
            assert_eq!(v.len(), 2);
            assert!(matches!(&v[0], SingleConnectionError::Io(s) if s == "first"));
            assert!(matches!(v[1], SingleConnectionError::TimedOut));
        }
        other => panic!("unexpected {:?}", other),
    }
}

#[test]
fn no_addresses_fails_once_incoming_closes() {
    let mut race = connect(9, ours(1), theirs(2, 0)).ok().unwrap().race;
    assert_eq!(race.status(), RaceStatus::Running);
    race.incoming_closed();
    assert_eq!(race.status(), RaceStatus::AllFailed);
}

#[test]
fn absent_rendezvous_info_removes_the_option() {
    let with_channel = PrivConnectionInfo { id: 1, has_rendezvous_channel: true };
    let plan = connect(9, with_channel, theirs(2, 1)).ok().unwrap();
    assert!(plan.rendezvous_send.is_none());
    assert!(!plan.race.rendezvous_pending);
    let info = PubConnectionInfo { id: 2, for_direct: addrs(1), p2p_conn_info: Some(vec![1, 2, 3]) };
    let plan = connect(9, ours(1), info).ok().unwrap();
    assert!(plan.rendezvous_send.is_none());
    assert_eq!(connect_p2p(false, Some(vec![1])), None);
    assert_eq!(connect_p2p(true, None), None);
}

#[test]
fn rendezvous_info_on_both_sides_joins_the_race() {
    let with_channel = PrivConnectionInfo { id: 1, has_rendezvous_channel: true };
    let info = PubConnectionInfo { id: 2, for_direct: addrs(1), p2p_conn_info: Some(vec![1, 2, 3]) };
    let mut race_plan = connect(9, with_channel, info).ok().unwrap();
    assert_eq!(race_plan.rendezvous_send, Some(vec![1, 2, 3]));
    assert!(race_plan.race.rendezvous_pending);
    race_plan.race.direct_finished(Err(SingleConnectionError::ConnectionDropped));
    race_plan.race.incoming_closed();
    assert_eq!(race_plan.race.status(), RaceStatus::Running);
    race_plan.race.rendezvous_finished(Ok(2));
    assert_eq!(race_plan.race.status(), RaceStatus::Won(2));
}

#[test]
fn rendezvous_channels_dead_or_alive() {
    assert!(matches!(rendezvous_outcome(false, Some(Ok(7))), Err(SingleConnectionError::DeadChannel)));
    assert!(matches!(rendezvous_outcome(true, None), Err(SingleConnectionError::DeadChannel)));
    assert!(matches!(rendezvous_outcome(true, Some(Ok(7))), Ok(7)));
    assert!(matches!(
        rendezvous_outcome(true, Some(Err(SingleConnectionError::RendezvousConnect("nat".to_string())))),
        Err(SingleConnectionError::RendezvousConnect(_))
    ));
}

#[test]
fn valid_incoming_handshake_gets_one_reply() {
    let ours = ConnectRequest { uid: 1, name_hash: 9 };
    let r = handshake_incoming_request(ours, 2, &ConnectRequest { uid: 2, name_hash: 9 });
    assert!(matches!(r, Ok(HandshakeMessage::Connect(req)) if req == ours));
    let r = handshake_incoming_request(ours, 2, &ConnectRequest { uid: 5, name_hash: 9 });
    assert!(matches!(r, Err(SingleConnectionError::InvalidUid(5, 2))));
    let r = handshake_incoming_request(ours, 2, &ConnectRequest { uid: 2, name_hash: 1 });
    assert!(matches!(r, Err(SingleConnectionError::InvalidNameHash(1))));
}

#[test]
fn incoming_attempt_wins_after_reply_is_sent() {
    assert!(matches!(incoming_reply_sent(2, Ok(())), Ok(2)));
    assert!(matches!(incoming_reply_sent(2, Err("closed".to_string())), Err(SingleConnectionError::Socket(_))));
    let mut race = connect(9, ours(1), theirs(2, 1)).ok().unwrap().race;
    race.incoming_finished(Err(SingleConnectionError::InvalidUid(5, 2)));
    assert_eq!(race.status(), RaceStatus::Running);
    race.incoming_finished(incoming_reply_sent(2, Ok(())));
    assert_eq!(race.status(), RaceStatus::Won(2));
}

#[test]
fn rendezvous_task_wraps_protocol_errors() {
    assert!(matches!(crust::connect::rendezvous_task_result(Ok(4)), Ok(4)));
    assert!(matches!(
        crust::connect::rendezvous_task_result(Err("nat".to_string())),
        Err(SingleConnectionError::RendezvousConnect(s)) if s == "nat"
    ));
}

#[test]
fn building_the_peer_surfaces_io_errors() {
    assert!(matches!(crust::connect::finish_connect(2, Ok(())), Ok(2)));
    assert!(matches!(
        crust::connect::finish_connect(2, Err("reset".to_string())),
        Err(ConnectError::Io(s)) if s == "reset"
    ));
}

#[test]
fn failed_exchange_on_outgoing_connection_is_a_socket_error() {
    assert!(matches!(
        handshake_outgoing_exchange(2, 9, Err("reset".to_string())),
        Err(SingleConnectionError::Socket(s)) if s == "reset"
    ));
    let ok = Ok(Some(HandshakeMessage::Connect(ConnectRequest { uid: 2, name_hash: 9 })));
    assert!(matches!(handshake_outgoing_exchange(2, 9, ok), Ok(2)));
    assert!(matches!(handshake_outgoing_exchange(2, 9, Ok(None)), Err(SingleConnectionError::ConnectionDropped)));
}

#[test]
fn running_race_times_out_and_decided_one_does_not() {
    let mut race = connect(9, ours(1), theirs(2, 1)).ok().unwrap().race;
    assert!(matches!(race.timed_out(), Some(ConnectError::TimedOut)));
    race.direct_finished(Ok(2));
    assert!(race.timed_out().is_none());
}

#[test]
fn failed_dial_is_an_io_error_of_that_attempt() {
    assert!(matches!(
        crust::connect::direct_connect_failed("refused".to_string()),
        SingleConnectionError::Io(s) if s == "refused"
    ));
}
