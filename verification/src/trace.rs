//! Runs of the forwarding loop, and what holds of all of them.
//!
//! A run is the sequence of events that ended the loop's socket operations,
//! from a starting phase. The functions here say what a run stored and what it
//! forwarded; the lemmas say how the two relate.

use crate::relay::{
    answers, next_phase, operation_in, outcome_of, truncated, Event, Operation, Outcome, Peer,
    Phase, BUFFER_CAPACITY,
};
use vstd::prelude::*;

verus! {

/// The phase that the loop is in after `events`.
pub open spec fn phase_after(start: Phase, events: Seq<Event>) -> Phase
    decreases events.len(),
{
    if events.len() == 0 {
        start
    } else {
        next_phase(phase_after(start, events.drop_last()), events.last())
    }
}

/// Each event of the run ended the operation that the loop attempted then.
pub open spec fn admits(start: Phase, events: Seq<Event>) -> bool
    decreases events.len(),
{
    events.len() == 0 || (admits(start, events.drop_last()) && answers(
        phase_after(start, events.drop_last()),
        events.last(),
    ))
}

/// The datagrams that the run took in, whole as they arrived, in order.
pub open spec fn stored(start: Phase, events: Seq<Event>) -> Seq<Seq<u8>>
    decreases events.len(),
{
    if events.len() == 0 {
        Seq::empty()
    } else {
        let earlier = stored(start, events.drop_last());
        match (phase_after(start, events.drop_last()), events.last()) {
            (Phase::AwaitingDatagram, Event::Datagram { payload, .. }) => earlier.push(payload),
            _ => earlier,
        }
    }
}

/// The payloads of the sends that the run completed, in order.
pub open spec fn forwarded(start: Phase, events: Seq<Event>) -> Seq<Seq<u8>>
    decreases events.len(),
{
    if events.len() == 0 {
        Seq::empty()
    } else {
        let earlier = forwarded(start, events.drop_last());
        match (phase_after(start, events.drop_last()), events.last()) {
            (Phase::Forwarding { payload, .. }, Event::Sent { .. }) => earlier.push(payload),
            _ => earlier,
        }
    }
}

/// What phase `p` holds: one payload or none.
pub open spec fn held(p: Phase) -> Seq<Seq<u8>> {
    match p {
        Phase::AwaitingDatagram => Seq::empty(),
        Phase::Forwarding { payload, .. } => seq![payload],
    }
}

/// Each datagram cut to the buffer's capacity.
pub open spec fn cut(datagrams: Seq<Seq<u8>>) -> Seq<Seq<u8>> {
    datagrams.map_values(|d: Seq<u8>| truncated(d))
}

/// One datagram of a run without stalls: what arrived, from whom, and how
/// many bytes the send of it reported as accepted.
pub struct Arrival {
    pub payload: Seq<u8>,
    pub peer: Peer,
    pub accepted: nat,
}

/// The run in which each arrival is received and then sent at the first
/// attempt.
pub open spec fn unstalled(arrivals: Seq<Arrival>) -> Seq<Event>
    decreases arrivals.len(),
{
    if arrivals.len() == 0 {
        Seq::empty()
    } else {
        unstalled(arrivals.drop_last()).push(
            Event::Datagram { payload: arrivals.last().payload, peer: arrivals.last().peer },
        ).push(Event::Sent { accepted: arrivals.last().accepted })
    }
}

/// The payloads of `arrivals`, in order.
pub open spec fn payloads(arrivals: Seq<Arrival>) -> Seq<Seq<u8>> {
    arrivals.map_values(|a: Arrival| a.payload)
}

/// `events` followed by `stalls` attempts that found the socket not ready.
pub open spec fn stalled(events: Seq<Event>, stalls: nat) -> Seq<Event>
    decreases stalls,
{
    if stalls == 0 {
        events
    } else {
        stalled(events, (stalls - 1) as nat).push(Event::NotReady)
    }
}

/// The phase after the first `i + 1` events comes from the phase after the
/// first `i` by the event at `i`.
pub proof fn lemma_phase_unfolds(start: Phase, events: Seq<Event>, i: int)
    requires
        0 <= i < events.len(),
    ensures
        phase_after(start, events.take(i + 1)) == next_phase(
            phase_after(start, events.take(i)),
            events[i],
        ),
{
    assert(events.take(i + 1).drop_last() =~= events.take(i));
}

/// Every prefix of an admitted run is admitted, and each of its events
/// answers the operation attempted in the phase before it.
pub proof fn lemma_admits_prefix(start: Phase, events: Seq<Event>, i: int)
    requires
        admits(start, events),
        0 <= i <= events.len(),
    ensures
        admits(start, events.take(i)),
        i < events.len() ==> answers(phase_after(start, events.take(i)), events[i]),
    decreases events.len(),
{
    if i == events.len() {
        assert(events.take(i) =~= events);
    } else {
        let shorter = events.drop_last();
        assert(shorter.take(i) =~= events.take(i));
        if i == shorter.len() {
            assert(shorter.take(i) =~= shorter);
        } else {
            lemma_admits_prefix(start, shorter, i);
        }
    }
}

/// Nothing is lost, repeated or reordered: in every run, whatever its stalls
/// and failures, what was forwarded followed by what is still held is what
/// was held at the start followed by the datagrams taken in, each cut to the
/// buffer's capacity.
pub proof fn lemma_forwarded_is_stored(start: Phase, events: Seq<Event>)
    ensures
        forwarded(start, events) + held(phase_after(start, events)) == held(start) + cut(
            stored(start, events),
        ),
    decreases events.len(),
{
    if events.len() == 0 {
        assert(forwarded(start, events) + held(start) =~= held(start) + cut(
            stored(start, events),
        ));
    } else {
        let shorter = events.drop_last();
        lemma_forwarded_is_stored(start, shorter);
        let before = phase_after(start, shorter);
        match (before, events.last()) {
            (Phase::AwaitingDatagram, Event::Datagram { payload, .. }) => {
                assert(cut(stored(start, shorter).push(payload)) =~= cut(
                    stored(start, shorter),
                ).push(truncated(payload)));
                assert(forwarded(start, shorter) + held(before) =~= forwarded(start, shorter));
                assert(forwarded(start, events) + held(phase_after(start, events)) =~= (held(start)
                    + cut(stored(start, shorter))).push(truncated(payload)));
                assert(forwarded(start, events) + held(phase_after(start, events)) =~= held(start)
                    + cut(stored(start, events)));
            },
            (Phase::Forwarding { payload, .. }, Event::Sent { .. }) => {
                assert(forwarded(start, events) + held(phase_after(start, events))
                    =~= forwarded(start, shorter) + held(before));
            },
            _ => {},
        }
    }
}

/// Order is kept: a run without stalls that starts with nothing held is
/// admitted, ends with nothing held, and forwards the arrivals one for one in
/// the order of arrival, each cut to the buffer's capacity, whatever the
/// sends reported as accepted.
pub proof fn lemma_order_preserved(arrivals: Seq<Arrival>)
    ensures
        admits(Phase::AwaitingDatagram, unstalled(arrivals)),
        phase_after(Phase::AwaitingDatagram, unstalled(arrivals)) == Phase::AwaitingDatagram,
        stored(Phase::AwaitingDatagram, unstalled(arrivals)) == payloads(arrivals),
        forwarded(Phase::AwaitingDatagram, unstalled(arrivals)) == cut(payloads(arrivals)),
        forwarded(Phase::AwaitingDatagram, unstalled(arrivals)).len() == arrivals.len(),
    decreases arrivals.len(),
{
    let start = Phase::AwaitingDatagram;
    if arrivals.len() == 0 {
        assert(stored(start, unstalled(arrivals)) =~= payloads(arrivals));
        assert(forwarded(start, unstalled(arrivals)) =~= cut(payloads(arrivals)));
    } else {
        let shorter = arrivals.drop_last();
        let last = arrivals.last();
        lemma_order_preserved(shorter);
        let base = unstalled(shorter);
        let taken = base.push(Event::Datagram { payload: last.payload, peer: last.peer });
        let whole = unstalled(arrivals);
        assert(taken.drop_last() =~= base);
        assert(whole.drop_last() =~= taken);
        assert(phase_after(start, taken) == Phase::Forwarding {
            payload: truncated(last.payload),
            peer: last.peer,
        });
        assert(admits(start, taken));
        assert(stored(start, taken) == payloads(shorter).push(last.payload));
        assert(forwarded(start, taken) == cut(payloads(shorter)));
        assert(payloads(shorter).push(last.payload) =~= payloads(arrivals));
        assert(cut(payloads(shorter)).push(truncated(last.payload)) =~= cut(payloads(arrivals)));
    }
}

/// Where no arrival is longer than the buffer, a run without stalls forwards
/// exactly the bytes that arrived.
pub proof fn lemma_order_preserved_exact(arrivals: Seq<Arrival>)
    requires
        forall|i: int|
            0 <= i < arrivals.len() ==> (#[trigger] arrivals[i]).payload.len() <= BUFFER_CAPACITY,
    ensures
        forwarded(Phase::AwaitingDatagram, unstalled(arrivals)) == payloads(arrivals),
{
    lemma_order_preserved(arrivals);
    assert(cut(payloads(arrivals)) =~= payloads(arrivals));
}

/// A datagram longer than the buffer is no error: its first
/// `BUFFER_CAPACITY` bytes are held, and they are what the send that follows
/// forwards.
pub proof fn lemma_long_datagram_cut(datagram: Seq<u8>, peer: Peer, accepted: nat)
    requires
        datagram.len() > BUFFER_CAPACITY,
    ensures
        next_phase(Phase::AwaitingDatagram, Event::Datagram { payload: datagram, peer })
            == (Phase::Forwarding { payload: datagram.take(BUFFER_CAPACITY as int), peer }),
        outcome_of(Phase::AwaitingDatagram, Event::Datagram { payload: datagram, peer })
            == (Outcome::Received { len: BUFFER_CAPACITY }),
        forwarded(
            Phase::AwaitingDatagram,
            seq![Event::Datagram { payload: datagram, peer }, Event::Sent { accepted }],
        ) == seq![datagram.take(BUFFER_CAPACITY as int)],
{
    let arrivals = seq![Arrival { payload: datagram, peer, accepted }];
    lemma_order_preserved(arrivals);
    assert(arrivals.drop_last() =~= Seq::<Arrival>::empty());
    assert(unstalled(arrivals.drop_last()) =~= Seq::<Event>::empty());
    assert(unstalled(arrivals) =~= seq![
        Event::Datagram { payload: datagram, peer },
        Event::Sent { accepted },
    ]);
    assert(cut(payloads(arrivals)) =~= seq![datagram.take(BUFFER_CAPACITY as int)]);
}

/// Between a phase that holds a datagram and a later phase that holds none, a
/// send completed.
proof fn lemma_release_between(start: Phase, events: Seq<Event>, a: int, b: int)
    requires
        0 <= a <= b <= events.len(),
        phase_after(start, events.take(a)) is Forwarding,
        phase_after(start, events.take(b)) is AwaitingDatagram,
    ensures
        exists|k: int| a <= k < b && #[trigger] events[k] is Sent,
    decreases b - a,
{
    if a < b {
        lemma_phase_unfolds(start, events, b - 1);
        if phase_after(start, events.take(b - 1)) is Forwarding {
            assert(events[b - 1] is Sent);
        } else {
            lemma_release_between(start, events, a, b - 1);
        }
    }
}

/// One buffer, one datagram: the loop attempts a receive only while nothing
/// is held, so in an admitted run a send completes between any two
/// datagrams that are received.
pub proof fn lemma_receives_apart(start: Phase, events: Seq<Event>, i: int, j: int)
    requires
        admits(start, events),
        0 <= i < j < events.len(),
        events[i] is Datagram,
        events[j] is Datagram,
    ensures
        operation_in(phase_after(start, events.take(i))) == Operation::Receive,
        operation_in(phase_after(start, events.take(i + 1))) == Operation::Send,
        exists|k: int| i < k < j && #[trigger] events[k] is Sent,
{
    lemma_admits_prefix(start, events, i);
    lemma_admits_prefix(start, events, j);
    lemma_phase_unfolds(start, events, i);
    lemma_release_between(start, events, i + 1, j);
}

/// Stalls change nothing: after any number of attempts that found the socket
/// not ready, the loop is in the phase it was in, attempts the same
/// operation, and has stored and forwarded what it had.
pub proof fn lemma_stalls_keep_state(start: Phase, events: Seq<Event>, stalls: nat)
    ensures
        phase_after(start, stalled(events, stalls)) == phase_after(start, events),
        stored(start, stalled(events, stalls)) == stored(start, events),
        forwarded(start, stalled(events, stalls)) == forwarded(start, events),
        admits(start, events) ==> admits(start, stalled(events, stalls)),
    decreases stalls,
{
    if stalls > 0 {
        let fewer = stalled(events, (stalls - 1) as nat);
        lemma_stalls_keep_state(start, events, (stalls - 1) as nat);
        assert(stalled(events, stalls).drop_last() =~= fewer);
    }
}

/// A datagram that met a stalled destination is forwarded once, whole as it
/// was held, by the send that completes after the stalls.
pub proof fn lemma_send_after_stalls(
    start: Phase,
    events: Seq<Event>,
    stalls: nat,
    accepted: nat,
)
    requires
        phase_after(start, events) is Forwarding,
    ensures
        forwarded(start, stalled(events, stalls).push(Event::Sent { accepted })) == forwarded(
            start,
            events,
        ) + held(phase_after(start, events)),
        phase_after(start, stalled(events, stalls).push(Event::Sent { accepted }))
            == Phase::AwaitingDatagram,
{
    lemma_stalls_keep_state(start, events, stalls);
    let waited = stalled(events, stalls);
    assert(waited.push(Event::Sent { accepted }).drop_last() =~= waited);
    assert(forwarded(start, events).push(phase_after(start, events)->payload) =~= forwarded(
        start,
        events,
    ) + held(phase_after(start, events)));
}

/// A short send is not repeated: whatever count a completed send reports,
/// the held datagram counts as forwarded once, nothing is held after it, and
/// the next operation is a receive.
pub proof fn lemma_short_send_released(
    start: Phase,
    events: Seq<Event>,
    accepted: nat,
)
    requires
        phase_after(start, events) is Forwarding,
    ensures
        phase_after(start, events.push(Event::Sent { accepted })) == Phase::AwaitingDatagram,
        operation_in(phase_after(start, events.push(Event::Sent { accepted })))
            == Operation::Receive,
        forwarded(start, events.push(Event::Sent { accepted })) == forwarded(start, events).push(
            phase_after(start, events)->payload,
        ),
        stored(start, events.push(Event::Sent { accepted })) == stored(start, events),
{
    assert(events.push(Event::Sent { accepted }).drop_last() =~= events);
}

} // verus!
