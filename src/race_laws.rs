use vstd::prelude::*;

use crate::connect::{
    race_run, race_start, race_status, race_step, rendezvous_contribution, event_enabled,
    RaceEvent, RaceModel, RaceStatus,
};
use crate::error::SingleConnectionError;
use crate::handshake::{outgoing_reply_outcome, ConnectRequest, HandshakeMessage, NameHash, Uid};

verus! {

/// Whether every event of `evs` is a failed direct attempt.
pub open spec fn all_direct_failures(evs: Seq<RaceEvent>) -> bool {
    forall|i: int|
        0 <= i < evs.len() ==> #[trigger] evs[i] is DirectDone && evs[i]->DirectDone_0 is Err
}

/// The errors that a run of failed direct attempts carries, in order.
pub open spec fn failure_errors(evs: Seq<RaceEvent>) -> Seq<SingleConnectionError> {
    evs.map_values(|ev: RaceEvent| ev->DirectDone_0->Err_0)
}

/// Running a race over two runs of events in turn is running it over both.
pub proof fn lemma_run_append(m: RaceModel, a: Seq<RaceEvent>, b: Seq<RaceEvent>)
    ensures
        race_run(m, a + b) == race_run(race_run(m, a), b),
    decreases a.len(),
{
    if a.len() == 0 {
        assert(a + b =~= b);
    } else {
        assert((a + b).drop_first() =~= a.drop_first() + b);
        lemma_run_append(race_step(m, a[0]), a.drop_first(), b);
    }
}

/// A decided race stays decided: later events change nothing.
pub proof fn lemma_run_decided(m: RaceModel, evs: Seq<RaceEvent>)
    requires
        race_status(m) != RaceStatus::Running,
    ensures
        race_run(m, evs) == m,
    decreases evs.len(),
{
    if evs.len() > 0 {
        lemma_run_decided(race_step(m, evs[0]), evs.drop_first());
    }
}

/// Failed direct attempts, no more than are pending, only use up those
/// attempts and add their errors in completion order.
pub proof fn lemma_run_failures(m: RaceModel, evs: Seq<RaceEvent>)
    requires
        m.winner is None,
        all_direct_failures(evs),
        evs.len() <= m.pending_direct,
    ensures
        race_run(m, evs) == (RaceModel {
            pending_direct: (m.pending_direct - evs.len()) as nat,
            errors: m.errors + failure_errors(evs),
            ..m
        }),
    decreases evs.len(),
{
    if evs.len() == 0 {
        assert(m.errors + failure_errors(evs) =~= m.errors);
    } else {
        let ev = evs[0];
        assert(ev is DirectDone && ev->DirectDone_0 is Err);
        let m1 = race_step(m, ev);
        let rest = evs.drop_first();
        assert forall|i: int| 0 <= i < rest.len() implies #[trigger] rest[i] is DirectDone
            && rest[i]->DirectDone_0 is Err by {
            assert(rest[i] == evs[i + 1]);
        }
        lemma_run_failures(m1, rest);
        assert(m.errors.push(ev->DirectDone_0->Err_0) + failure_errors(rest) =~= m.errors
            + failure_errors(evs));
    }
}

/// Among direct attempts that all complete, exactly one of which validates,
/// the race is won by that one's remote id, whatever the others did and in
/// whatever order they completed.
pub proof fn lemma_one_valid_address_wins(
    n: nat,
    rendezvous: bool,
    evs: Seq<RaceEvent>,
    k: int,
    id: Uid,
)
    requires
        evs.len() == n,
        0 <= k < n,
        evs[k] == RaceEvent::DirectDone(Ok(id)),
        forall|i: int|
            0 <= i < n && i != k ==> #[trigger] evs[i] is DirectDone && evs[i]->DirectDone_0 is Err,
    ensures
        race_status(race_run(race_start(n, rendezvous), evs)) == RaceStatus::Won(id),
{
    let m = race_start(n, rendezvous);
    let before = evs.take(k);
    let after = evs.skip(k + 1);
    assert(evs =~= before + seq![evs[k]] + after);
    assert forall|i: int| 0 <= i < before.len() implies #[trigger] before[i] is DirectDone
        && before[i]->DirectDone_0 is Err by {
        assert(before[i] == evs[i]);
    }
    lemma_run_failures(m, before);
    let m1 = race_run(m, before);
    lemma_run_append(m, before + seq![evs[k]], after);
    lemma_run_append(m, before, seq![evs[k]]);
    let m2 = race_run(m1, seq![evs[k]]);
    assert(race_step(m1, evs[k]).winner == Some(id));
    assert(m2 == race_run(race_step(m1, evs[k]), seq![evs[k]].drop_first()));
    assert(seq![evs[k]].drop_first() =~= Seq::<RaceEvent>::empty());
    lemma_run_decided(m2, after);
}

/// With no rendezvous and no incoming handshake ever arriving, a race whose
/// every direct attempt fails ends with all attempts failed, one error per
/// dialled address, in completion order, wherever among the failures the
/// stream of incoming handshakes closes.
pub proof fn lemma_all_addresses_fail(n: nat, before: Seq<RaceEvent>, after: Seq<RaceEvent>)
    requires
        before.len() + after.len() == n,
        all_direct_failures(before),
        all_direct_failures(after),
    ensures
        ({
            let evs = before + seq![RaceEvent::IncomingClosed] + after;
            let end = race_run(race_start(n, false), evs);
            &&& race_status(end) == RaceStatus::AllFailed
            &&& end.errors == failure_errors(before) + failure_errors(after)
            &&& end.errors.len() == n
        }),
{
    let m = race_start(n, false);
    let closed = seq![RaceEvent::IncomingClosed];
    lemma_run_failures(m, before);
    let m1 = race_run(m, before);
    assert(m.errors + failure_errors(before) =~= failure_errors(before));
    lemma_run_append(m, before, closed);
    lemma_run_append(m, before + closed, after);
    assert(closed[0] == RaceEvent::IncomingClosed);
    assert(closed.drop_first() =~= Seq::<RaceEvent>::empty());
    let m2 = race_step(m1, closed[0]);
    assert(race_run(m2, closed.drop_first()) == m2);
    assert(race_run(m1, closed) == m2);
    assert(m2 == (RaceModel { incoming_open: false, ..m1 }));
    lemma_run_failures(m2, after);
}

/// Whether `ev` reports a successful attempt.
pub open spec fn is_success(ev: RaceEvent) -> bool {
    match ev {
        RaceEvent::DirectDone(o) => o is Ok,
        RaceEvent::RendezvousDone(o) => o is Ok,
        RaceEvent::IncomingDone(o) => o is Ok,
        RaceEvent::IncomingClosed => false,
    }
}

/// The id that a successful event reports.
pub open spec fn success_id(ev: RaceEvent) -> Uid {
    match ev {
        RaceEvent::DirectDone(o) => o->Ok_0,
        RaceEvent::RendezvousDone(o) => o->Ok_0,
        RaceEvent::IncomingDone(o) => o->Ok_0,
        RaceEvent::IncomingClosed => 0,
    }
}

/// How many of `evs` report on direct attempts.
pub open spec fn n_direct(evs: Seq<RaceEvent>) -> nat
    decreases evs.len(),
{
    if evs.len() == 0 {
        0
    } else {
        (if evs[0] is DirectDone {
            1nat
        } else {
            0nat
        }) + n_direct(evs.drop_first())
    }
}

/// Events that report no success, of whatever kind and in whatever order,
/// leave the race without a winner and use up one direct attempt each for
/// those that report on direct attempts.
pub proof fn lemma_run_no_success(m: RaceModel, evs: Seq<RaceEvent>)
    requires
        m.winner is None,
        forall|i: int| 0 <= i < evs.len() ==> !is_success(#[trigger] evs[i]),
        n_direct(evs) <= m.pending_direct,
    ensures
        race_run(m, evs).winner is None,
        race_run(m, evs).pending_direct == m.pending_direct - n_direct(evs),
    decreases evs.len(),
{
    if evs.len() > 0 {
        let ev = evs[0];
        assert(!is_success(ev));
        let rest = evs.drop_first();
        assert forall|i: int| 0 <= i < rest.len() implies !is_success(#[trigger] rest[i]) by {
            assert(rest[i] == evs[i + 1]);
        }
        let m1 = race_step(m, ev);
        if ev is DirectDone {
            assert(m.pending_direct > 0);
            assert(race_status(m) == RaceStatus::Running);
            assert(m1.pending_direct == m.pending_direct - 1);
        }
        lemma_run_no_success(m1, rest);
    }
}

/// The race is won by the first success that is reported while its source
/// is live: every failure before it, of any attempt, leaves the race going,
/// and nothing after it changes the winner.
pub proof fn lemma_first_success_wins(m: RaceModel, evs: Seq<RaceEvent>, k: int)
    requires
        0 <= k < evs.len(),
        forall|i: int| 0 <= i < k ==> !is_success(#[trigger] evs[i]),
        is_success(evs[k]),
        event_enabled(race_run(m, evs.take(k)), evs[k]),
    ensures
        race_status(race_run(m, evs)) == RaceStatus::Won(success_id(evs[k])),
{
    let before = evs.take(k);
    let after = evs.skip(k + 1);
    let one = seq![evs[k]];
    assert(evs =~= before + one + after);
    lemma_run_append(m, before + one, after);
    lemma_run_append(m, before, one);
    let m1 = race_run(m, before);
    let m2 = race_step(m1, evs[k]);
    assert(one.drop_first() =~= Seq::<RaceEvent>::empty());
    assert(race_run(m2, one.drop_first()) == m2);
    assert(race_run(m1, one) == m2);
    assert(m2.winner == Some(success_id(evs[k])));
    lemma_run_decided(m2, after);
}

/// The first direct attempt to validate wins, whatever failed before it:
/// direct, rendezvous or incoming attempts, or the close of the incoming
/// stream. Only the direct attempts must be no more than were dialled.
pub proof fn lemma_first_valid_address_wins(
    n: nat,
    rendezvous: bool,
    evs: Seq<RaceEvent>,
    k: int,
    id: Uid,
)
    requires
        0 <= k < evs.len(),
        forall|i: int| 0 <= i < k ==> !is_success(#[trigger] evs[i]),
        evs[k] == RaceEvent::DirectDone(Ok(id)),
        n_direct(evs.take(k)) < n,
    ensures
        race_status(race_run(race_start(n, rendezvous), evs)) == RaceStatus::Won(id),
{
    let m = race_start(n, rendezvous);
    let before = evs.take(k);
    assert forall|i: int| 0 <= i < before.len() implies !is_success(#[trigger] before[i]) by {
        assert(before[i] == evs[i]);
    }
    lemma_run_no_success(m, before);
    lemma_first_success_wins(m, evs, k);
}

/// A race without a rendezvous option never gains one: through any run of
/// events no rendezvous outcome is taken in, so none can fail the race or
/// add to its errors.
pub proof fn lemma_rendezvous_stays_absent(m: RaceModel, evs: Seq<RaceEvent>)
    requires
        !m.rendezvous_pending,
    ensures
        !race_run(m, evs).rendezvous_pending,
        forall|i: int|
            0 <= i < evs.len() && #[trigger] evs[i] is RendezvousDone ==> !event_enabled(
                race_run(m, evs.take(i)),
                evs[i],
            ),
    decreases evs.len(),
{
    if evs.len() > 0 {
        let m1 = race_step(m, evs[0]);
        let rest = evs.drop_first();
        lemma_rendezvous_stays_absent(m1, rest);
        assert forall|i: int|
            0 <= i < evs.len() && #[trigger] evs[i] is RendezvousDone implies !event_enabled(
                race_run(m, evs.take(i)),
                evs[i],
            ) by {
            if i > 0 {
                assert(rest[i - 1] == evs[i]);
                assert(evs.take(i).drop_first() =~= rest.take(i - 1));
                assert(evs.take(i)[0] == evs[0]);
                assert(race_run(m, evs.take(i)) == race_run(m1, rest.take(i - 1)));
                lemma_rendezvous_stays_absent(m1, rest.take(i - 1));
            } else {
                assert(evs.take(0) =~= Seq::<RaceEvent>::empty());
            }
        }
    }
}

/// A reply that claims another peer id fails that one attempt with
/// `InvalidUid`, and changes nothing else: the race goes on while any other
/// attempt is live.
pub proof fn lemma_wrong_uid_fails_one_attempt(
    m: RaceModel,
    their_id: Uid,
    our_name_hash: NameHash,
    reply: ConnectRequest,
)
    requires
        race_status(m) == RaceStatus::Running,
        m.pending_direct > 0,
        reply.uid != their_id,
    ensures
        ({
            let ev = RaceEvent::DirectDone(
                outgoing_reply_outcome(their_id, our_name_hash, Some(HandshakeMessage::Connect(reply))),
            );
            let m1 = race_step(m, ev);
            &&& m1 == (RaceModel {
                pending_direct: (m.pending_direct - 1) as nat,
                errors: m.errors.push(SingleConnectionError::InvalidUid(reply.uid, their_id)),
                ..m
            })
            &&& (m.pending_direct > 1 || m.rendezvous_pending || m.incoming_open) ==> race_status(m1)
                == RaceStatus::Running
        }),
{
}

/// A reply that claims another peer id never decides the race: where some
/// later attempt is the first to succeed while its source is live, the race
/// is won by that attempt, with the wrong id's error kept among the errors.
pub proof fn lemma_wrong_uid_does_not_decide(
    m: RaceModel,
    their_id: Uid,
    our_name_hash: NameHash,
    reply: ConnectRequest,
    evs: Seq<RaceEvent>,
    j: int,
    k: int,
)
    requires
        0 <= j < k < evs.len(),
        reply.uid != their_id,
        evs[j] == RaceEvent::DirectDone(
            outgoing_reply_outcome(their_id, our_name_hash, Some(HandshakeMessage::Connect(reply))),
        ),
        forall|i: int| 0 <= i < k && i != j ==> !is_success(#[trigger] evs[i]),
        is_success(evs[k]),
        event_enabled(race_run(m, evs.take(k)), evs[k]),
    ensures
        !is_success(evs[j]),
        race_status(race_run(m, evs)) == RaceStatus::Won(success_id(evs[k])),
{
    assert(!is_success(evs[j]));
    assert forall|i: int| 0 <= i < k implies !is_success(#[trigger] evs[i]) by {
        if i == j {
            assert(!is_success(evs[j]));
        }
    }
    lemma_first_success_wins(m, evs, k);
}

/// Without rendezvous info on either side, the race is won by the first
/// direct or incoming attempt to succeed while its source is live: the
/// missing option never fails the race.
pub proof fn lemma_absent_rendezvous_success_wins(n: nat, evs: Seq<RaceEvent>, k: int)
    requires
        0 <= k < evs.len(),
        forall|i: int| 0 <= i < k ==> !is_success(#[trigger] evs[i]),
        is_success(evs[k]),
        event_enabled(race_run(race_start(n, false), evs.take(k)), evs[k]),
    ensures
        !(evs[k] is RendezvousDone),
        race_status(race_run(race_start(n, false), evs)) == RaceStatus::Won(success_id(evs[k])),
{
    lemma_rendezvous_stays_absent(race_start(n, false), evs.take(k));
    lemma_first_success_wins(race_start(n, false), evs, k);
}

/// A reply from another network fails that one attempt with
/// `InvalidNameHash`, and changes nothing else.
pub proof fn lemma_wrong_network_fails_one_attempt(
    m: RaceModel,
    their_id: Uid,
    our_name_hash: NameHash,
    reply: ConnectRequest,
)
    requires
        race_status(m) == RaceStatus::Running,
        m.pending_direct > 0,
        reply.uid == their_id,
        reply.name_hash != our_name_hash,
    ensures
        ({
            let ev = RaceEvent::DirectDone(
                outgoing_reply_outcome(their_id, our_name_hash, Some(HandshakeMessage::Connect(reply))),
            );
            let m1 = race_step(m, ev);
            &&& m1 == (RaceModel {
                pending_direct: (m.pending_direct - 1) as nat,
                errors: m.errors.push(SingleConnectionError::InvalidNameHash(reply.name_hash)),
                ..m
            })
            &&& (m.pending_direct > 1 || m.rendezvous_pending || m.incoming_open) ==> race_status(m1)
                == RaceStatus::Running
        }),
{
}

/// Where either side lacks rendezvous info the rendezvous connector sends
/// nothing and never completes: no rendezvous event changes the race, so its
/// absence can only remove an option, never fail the race.
pub proof fn lemma_absent_rendezvous_stays_pending(
    our_has_channel: bool,
    their_conn_info: Option<Seq<u8>>,
    n: nat,
    m: RaceModel,
    outcome: Result<Uid, SingleConnectionError>,
)
    requires
        !our_has_channel || their_conn_info is None,
        !m.rendezvous_pending,
    ensures
        rendezvous_contribution(our_has_channel, their_conn_info) is None,
        !race_start(n, false).rendezvous_pending,
        !event_enabled(m, RaceEvent::RendezvousDone(outcome)),
        race_step(m, RaceEvent::RendezvousDone(outcome)) == m,
{
}

} // verus!
