//! The forwarding loop: one buffer, at most one datagram held at a time.

use vstd::prelude::*;

verus! {

/// Capacity of the transfer buffer in bytes. A longer datagram is cut to this
/// length when it is stored.
pub const BUFFER_CAPACITY: usize = 4096;

/// Address a datagram arrived from.
#[derive(Clone, Copy, Debug, PartialEq, Eq, Structural)]
#[allow(inconsistent_fields)]
pub enum Peer {
    V4 { addr: u32, port: u16 },
    V6 { addr: u128, port: u16 },
}

/// Length and origin of the datagram that waits in the buffer.
#[derive(Clone, Copy, Debug, PartialEq, Eq, Structural)]
pub struct Pending {
    pub len: usize,
    pub peer: Peer,
}

/// The socket operation that the loop attempts next.
#[derive(Clone, Copy, Debug, PartialEq, Eq, Structural)]
pub enum Operation {
    /// Receive one datagram into the buffer.
    Receive,
    /// Send the held bytes to the destination.
    Send,
}

/// What the driver does after a step.
#[derive(Clone, Copy, Debug, PartialEq, Eq, Structural)]
pub enum Outcome {
    /// A datagram of `len` bytes (after cutting) is held; the send is
    /// attempted in the same turn.
    Received { len: usize },
    /// The send completed and nothing is held any more. Where `accepted`
    /// differs from `requested` the send was short; it is not repeated.
    Forwarded { requested: usize, accepted: usize },
    /// The socket was not ready: yield until it is, then attempt the same
    /// operation again. Nothing changed.
    Suspended,
    /// The operation failed: the loop ends and the failure goes to the driver.
    Fatal,
}

/// How a non-blocking socket operation ended.
#[derive(Clone, Copy, Debug)]
pub enum Completion<'a> {
    /// A receive delivered a datagram.
    Datagram { payload: &'a [u8], peer: Peer },
    /// A send was taken by the network layer, which accepted `accepted` bytes.
    Sent { accepted: usize },
    /// The operation would have blocked.
    NotReady,
    /// Any other failure.
    Failed,
}

/// Mathematical form of a `Completion`.
pub enum Event {
    Datagram { payload: Seq<u8>, peer: Peer },
    Sent { accepted: nat },
    NotReady,
    Failed,
}

/// Mathematical state of the loop.
pub enum Phase {
    /// Nothing is held.
    AwaitingDatagram,
    /// `payload` is held and has not been sent yet.
    Forwarding { payload: Seq<u8>, peer: Peer },
}

impl<'a> View for Completion<'a> {
    type V = Event;

    open spec fn view(&self) -> Event {
        match *self {
            Completion::Datagram { payload, peer } => Event::Datagram { payload: payload@, peer },
            Completion::Sent { accepted } => Event::Sent { accepted: accepted as nat },
            Completion::NotReady => Event::NotReady,
            Completion::Failed => Event::Failed,
        }
    }
}

/// The bytes of `datagram` that fit the buffer: all of it, or its first
/// `BUFFER_CAPACITY` bytes.
pub open spec fn truncated(datagram: Seq<u8>) -> Seq<u8> {
    if datagram.len() > BUFFER_CAPACITY {
        datagram.take(BUFFER_CAPACITY as int)
    } else {
        datagram
    }
}

/// The operation attempted in phase `p`: a send while something is held, a
/// receive otherwise.
pub open spec fn operation_in(p: Phase) -> Operation {
    match p {
        Phase::AwaitingDatagram => Operation::Receive,
        Phase::Forwarding { .. } => Operation::Send,
    }
}

/// Whether `e` can be the end of the operation attempted in phase `p`.
pub open spec fn answers(p: Phase, e: Event) -> bool {
    match e {
        Event::Datagram { .. } => p is AwaitingDatagram,
        Event::Sent { .. } => p is Forwarding,
        Event::NotReady => true,
        Event::Failed => true,
    }
}

/// The phase after `e` ended the operation of phase `p`. An event that does
/// not answer the operation changes nothing.
pub open spec fn next_phase(p: Phase, e: Event) -> Phase {
    match (p, e) {
        (Phase::AwaitingDatagram, Event::Datagram { payload, peer }) => Phase::Forwarding {
            payload: truncated(payload),
            peer,
        },
        (Phase::Forwarding { .. }, Event::Sent { .. }) => Phase::AwaitingDatagram,
        _ => p,
    }
}

/// What the driver is told when `e` ended the operation of phase `p`.
pub open spec fn outcome_of(p: Phase, e: Event) -> Outcome {
    match (p, e) {
        (Phase::AwaitingDatagram, Event::Datagram { payload, .. }) => Outcome::Received {
            len: truncated(payload).len() as usize,
        },
        (Phase::Forwarding { payload, .. }, Event::Sent { accepted }) => Outcome::Forwarded {
            requested: payload.len() as usize,
            accepted: accepted as usize,
        },
        (_, Event::Failed) => Outcome::Fatal,
        _ => Outcome::Suspended,
    }
}

/// The forwarding loop's state: the transfer buffer and what is held in it.
pub struct ForwardLoop {
    buf: Vec<u8>,
    pending: Option<Pending>,
}

impl View for ForwardLoop {
    type V = Phase;

    closed spec fn view(&self) -> Phase {
        match self.pending {
            None => Phase::AwaitingDatagram,
            Some(p) => Phase::Forwarding { payload: self.buf@.take(p.len as int), peer: p.peer },
        }
    }
}

impl ForwardLoop {
    /// The buffer has its fixed capacity and the held datagram lies within it.
    pub closed spec fn well_formed(&self) -> bool {
        &&& self.buf@.len() == BUFFER_CAPACITY
        &&& match self.pending {
            None => true,
            Some(p) => p.len <= BUFFER_CAPACITY,
        }
    }

    /// A loop with an empty buffer, waiting for its first datagram.
    pub fn new() -> (relay: ForwardLoop)
        ensures
            relay.well_formed(),
            relay@ == Phase::AwaitingDatagram,
    {
        let mut buf: Vec<u8> = Vec::new();
        while buf.len() < BUFFER_CAPACITY
            invariant
                buf@.len() <= BUFFER_CAPACITY,
            decreases BUFFER_CAPACITY - buf@.len(),
        {
            buf.push(0u8);
        }
        ForwardLoop { buf, pending: None }
    }

    /// The operation to attempt next: a send while a datagram is held, a
    /// receive only when none is.
    pub fn operation(&self) -> (op: Operation)
        ensures
            op == operation_in(self@),
            op == Operation::Receive <==> self@ is AwaitingDatagram,
    {
        match self.pending {
            Some(_) => Operation::Send,
            None => Operation::Receive,
        }
    }

    /// Length and origin of the held datagram, if one is held.
    pub fn pending(&self) -> (held: Option<Pending>)
        requires
            self.well_formed(),
        ensures
            match self@ {
                Phase::AwaitingDatagram => held is None,
                Phase::Forwarding { payload, peer } => payload.len() <= BUFFER_CAPACITY && held
                    == Some((Pending { len: payload.len() as usize, peer })),
            },
    {
        self.pending
    }

    /// The bytes to hand to the send: the held datagram, or nothing where
    /// none is held.
    pub fn payload(&self) -> (bytes: &[u8])
        requires
            self.well_formed(),
        ensures
            match self@ {
                Phase::AwaitingDatagram => bytes@ == Seq::<u8>::empty(),
                Phase::Forwarding { payload, .. } => bytes@ == payload,
            },
    {
        let len: usize = match self.pending {
            Some(p) => p.len,
            None => 0,
        };
        vstd::slice::slice_subrange(self.buf.as_slice(), 0, len)
    }

    /// Whether `event` can be the end of the operation that the loop attempts
    /// now.
    pub fn accepts(&self, event: &Completion<'_>) -> (ok: bool)
        ensures
            ok == answers(self@, event@),
    {
        match event {
            Completion::Datagram { .. } => self.pending.is_none(),
            Completion::Sent { .. } => self.pending.is_some(),
            Completion::NotReady => true,
            Completion::Failed => true,
        }
    }

    /// Takes the end of the attempted operation and moves the loop on.
    ///
    /// A datagram is stored over whatever the buffer held, cut to the
    /// buffer's capacity. A completed send releases the held datagram whether
    /// or not all of it was accepted. A socket that was not ready, and a
    /// failure, change nothing.
    pub fn step(&mut self, event: Completion<'_>) -> (outcome: Outcome)
        requires
            old(self).well_formed(),
            answers(old(self)@, event@),
        ensures
            final(self).well_formed(),
            final(self)@ == next_phase(old(self)@, event@),
            outcome == outcome_of(old(self)@, event@),
    {
        match event {
            Completion::Datagram { payload, peer } => {
                let len: usize = if payload.len() > BUFFER_CAPACITY {
                    BUFFER_CAPACITY
                } else {
                    payload.len()
                };
                let mut i: usize = 0;
                while i < len
                    invariant
                        i <= len <= BUFFER_CAPACITY,
                        len <= payload@.len(),
                        self.buf@.len() == BUFFER_CAPACITY,
                        self.pending is None,
                        forall|k: int| 0 <= k < i ==> self.buf@[k] == payload@[k],
                    decreases len - i,
                {
                    self.buf.set(i, payload[i]);
                    i += 1;
                }
                self.pending = Some(Pending { len, peer });
                assert(self.buf@.take(len as int) =~= truncated(payload@));
                Outcome::Received { len }
            },
            Completion::Sent { accepted } => {
                let requested: usize = match self.pending {
                    Some(p) => p.len,
                    None => 0,
                };
                self.pending = None;
                Outcome::Forwarded { requested, accepted }
            },
            Completion::NotReady => Outcome::Suspended,
            Completion::Failed => Outcome::Fatal,
        }
    }
}

} // verus!
