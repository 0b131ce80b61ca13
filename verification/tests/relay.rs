use multicaster::relay::{
    Completion, ForwardLoop, Operation, Outcome, Peer, Pending, BUFFER_CAPACITY,
};

const GROUP: Peer = Peer::V4 { addr: 0xEF01_0101, port: 5000 };

fn bytes(len: usize, seed: u8) -> Vec<u8> {
    (0..len).map(|i| (i as u8).wrapping_mul(31).wrapping_add(seed)).collect()
}

/// Drives the loop over `script` as a socket would, and returns the payload
/// handed to every send that completed and the operations attempted.
fn drive(relay: &mut ForwardLoop, script: &[Completion]) -> (Vec<Vec<u8>>, Vec<Operation>) {
    let mut sent = Vec::new();
    let mut attempted = Vec::new();
    for event in script {
        attempted.push(relay.operation());
        assert!(relay.accepts(event));
        let held = relay.payload().to_vec();
        if let Outcome::Forwarded { .. } = relay.step(*event) {
            sent.push(held);
        }
    }
    (sent, attempted)
}

#[test]
fn a_new_loop_awaits_a_datagram() {
    let relay = ForwardLoop::new();
    assert_eq!(relay.operation(), Operation::Receive);
    assert_eq!(relay.pending(), None);
    assert!(relay.payload().is_empty());
    assert_eq!(BUFFER_CAPACITY, 4096);
}

#[test]
fn forwards_a_hundred_bytes_unmodified() {
    let datagram = bytes(100, 7);
    let mut relay = ForwardLoop::new();
    let outcome = relay.step(Completion::Datagram { payload: &datagram, peer: GROUP });
    assert_eq!(outcome, Outcome::Received { len: 100 });
    assert_eq!(relay.operation(), Operation::Send);
    assert_eq!(relay.pending(), Some(Pending { len: 100, peer: GROUP }));
    assert_eq!(relay.payload(), &datagram[..]);
    let outcome = relay.step(Completion::Sent { accepted: 100 });
    assert_eq!(outcome, Outcome::Forwarded { requested: 100, accepted: 100 });
    assert_eq!(relay.operation(), Operation::Receive);
    assert_eq!(relay.pending(), None);
}

#[test]
fn sizes_ten_twenty_thirty_keep_their_order() {
    let a = bytes(10, 1);
    let b = bytes(20, 2);
    let c = bytes(30, 3);
    let script = [
        Completion::Datagram { payload: &a, peer: GROUP },
        Completion::Sent { accepted: 10 },
        Completion::Datagram { payload: &b, peer: GROUP },
        Completion::Sent { accepted: 20 },
        Completion::Datagram { payload: &c, peer: GROUP },
        Completion::Sent { accepted: 30 },
    ];
    let mut relay = ForwardLoop::new();
    let (sent, _) = drive(&mut relay, &script);
    let sizes: Vec<usize> = sent.iter().map(|d| d.len()).collect();
    assert_eq!(sizes, vec![10, 20, 30]);
    assert_eq!(sent, vec![a.clone(), b.clone(), c.clone()]);
}

#[test]
fn many_datagrams_come_out_as_they_went_in() {
    let datagrams: Vec<Vec<u8>> = (0..50usize).map(|i| bytes(i * 37 % 900, i as u8)).collect();
    let mut script = Vec::new();
    for d in &datagrams {
        script.push(Completion::Datagram { payload: d, peer: GROUP });
        script.push(Completion::Sent { accepted: d.len() });
    }
    let mut relay = ForwardLoop::new();
    let (sent, _) = drive(&mut relay, &script);
    assert_eq!(sent, datagrams);
    assert_eq!(relay.operation(), Operation::Receive);
}

#[test]
fn a_long_datagram_is_cut_to_the_buffer() {
    let datagram = bytes(5000, 9);
    let mut relay = ForwardLoop::new();
    let outcome = relay.step(Completion::Datagram { payload: &datagram, peer: GROUP });
    assert_eq!(outcome, Outcome::Received { len: 4096 });
    assert_eq!(relay.payload(), &datagram[..4096]);
    assert_eq!(relay.pending(), Some(Pending { len: 4096, peer: GROUP }));
    let outcome = relay.step(Completion::Sent { accepted: 4096 });
    assert_eq!(outcome, Outcome::Forwarded { requested: 4096, accepted: 4096 });
}

#[test]
fn lengths_around_the_capacity() {
    for (len, kept) in [(4095usize, 4095usize), (4096, 4096), (4097, 4096), (65507, 4096)] {
        let datagram = bytes(len, 5);
        let mut relay = ForwardLoop::new();
        let outcome = relay.step(Completion::Datagram { payload: &datagram, peer: GROUP });
        assert_eq!(outcome, Outcome::Received { len: kept });
        assert_eq!(relay.payload(), &datagram[..kept]);
    }
}

#[test]
fn an_empty_datagram_is_still_forwarded() {
    let mut relay = ForwardLoop::new();
    let outcome = relay.step(Completion::Datagram { payload: &[], peer: GROUP });
    assert_eq!(outcome, Outcome::Received { len: 0 });
    assert_eq!(relay.operation(), Operation::Send);
    assert_eq!(relay.pending(), Some(Pending { len: 0, peer: GROUP }));
    assert!(relay.payload().is_empty());
    assert_eq!(
        relay.step(Completion::Sent { accepted: 0 }),
        Outcome::Forwarded { requested: 0, accepted: 0 }
    );
    assert_eq!(relay.operation(), Operation::Receive);
}

#[test]
fn the_buffer_is_overwritten_not_appended_to() {
    let first = bytes(300, 1);
    let second = bytes(20, 200);
    let script = [
        Completion::Datagram { payload: &first, peer: GROUP },
        Completion::Sent { accepted: 300 },
        Completion::Datagram { payload: &second, peer: GROUP },
    ];
    let mut relay = ForwardLoop::new();
    drive(&mut relay, &script);
    assert_eq!(relay.payload(), &second[..]);
}

#[test]
fn no_receive_while_a_datagram_is_held() {
    let a = bytes(10, 1);
    let b = bytes(20, 2);
    let mut relay = ForwardLoop::new();
    assert!(relay.accepts(&Completion::Datagram { payload: &a, peer: GROUP }));
    assert!(!relay.accepts(&Completion::Sent { accepted: 0 }));
    relay.step(Completion::Datagram { payload: &a, peer: GROUP });
    assert_eq!(relay.operation(), Operation::Send);
    assert!(!relay.accepts(&Completion::Datagram { payload: &b, peer: GROUP }));
    assert!(relay.accepts(&Completion::Sent { accepted: 10 }));
    assert!(relay.accepts(&Completion::NotReady));
    assert!(relay.accepts(&Completion::Failed));

    let script = [
        Completion::Datagram { payload: &a, peer: GROUP },
        Completion::NotReady,
        Completion::Sent { accepted: 10 },
        Completion::NotReady,
        Completion::Datagram { payload: &b, peer: GROUP },
        Completion::Sent { accepted: 20 },
    ];
    let mut relay = ForwardLoop::new();
    let (_, attempted) = drive(&mut relay, &script);
    assert_eq!(
        attempted,
        vec![
            Operation::Receive,
            Operation::Send,
            Operation::Send,
            Operation::Receive,
            Operation::Receive,
            Operation::Send,
        ]
    );
}

#[test]
fn a_stalled_send_keeps_the_datagram() {
    let datagram = bytes(64, 3);
    let other = Peer::V6 { addr: 1, port: 9 };
    let mut relay = ForwardLoop::new();
    relay.step(Completion::Datagram { payload: &datagram, peer: other });
    for _ in 0..3 {
        assert_eq!(relay.step(Completion::NotReady), Outcome::Suspended);
        assert_eq!(relay.operation(), Operation::Send);
        assert_eq!(relay.pending(), Some(Pending { len: 64, peer: other }));
        assert_eq!(relay.payload(), &datagram[..]);
    }
    assert_eq!(
        relay.step(Completion::Sent { accepted: 64 }),
        Outcome::Forwarded { requested: 64, accepted: 64 }
    );
    assert_eq!(relay.operation(), Operation::Receive);
    assert!(relay.payload().is_empty());
}

#[test]
fn stalls_neither_drop_nor_repeat() {
    let a = bytes(10, 1);
    let b = bytes(20, 2);
    let script = [
        Completion::NotReady,
        Completion::Datagram { payload: &a, peer: GROUP },
        Completion::NotReady,
        Completion::NotReady,
        Completion::Sent { accepted: 10 },
        Completion::NotReady,
        Completion::Datagram { payload: &b, peer: GROUP },
        Completion::NotReady,
        Completion::Sent { accepted: 20 },
    ];
    let mut relay = ForwardLoop::new();
    let (sent, _) = drive(&mut relay, &script);
    assert_eq!(sent, vec![a.clone(), b.clone()]);
}

#[test]
fn a_stalled_receive_changes_nothing() {
    let mut relay = ForwardLoop::new();
    assert_eq!(relay.step(Completion::NotReady), Outcome::Suspended);
    assert_eq!(relay.operation(), Operation::Receive);
    assert_eq!(relay.pending(), None);
}

#[test]
fn a_short_send_is_not_repeated() {
    let datagram = bytes(10, 4);
    let next = bytes(6, 8);
    let mut relay = ForwardLoop::new();
    relay.step(Completion::Datagram { payload: &datagram, peer: GROUP });
    let outcome = relay.step(Completion::Sent { accepted: 4 });
    assert_eq!(outcome, Outcome::Forwarded { requested: 10, accepted: 4 });
    assert_eq!(relay.operation(), Operation::Receive);
    assert_eq!(relay.pending(), None);
    assert!(relay.payload().is_empty());
    relay.step(Completion::Datagram { payload: &next, peer: GROUP });
    assert_eq!(relay.payload(), &next[..]);
}

#[test]
fn a_failed_send_is_fatal_and_changes_nothing() {
    let datagram = bytes(12, 4);
    let mut relay = ForwardLoop::new();
    relay.step(Completion::Datagram { payload: &datagram, peer: GROUP });
    assert_eq!(relay.step(Completion::Failed), Outcome::Fatal);
    assert_eq!(relay.operation(), Operation::Send);
    assert_eq!(relay.payload(), &datagram[..]);
}

#[test]
fn a_failed_receive_is_fatal() {
    let mut relay = ForwardLoop::new();
    assert_eq!(relay.step(Completion::Failed), Outcome::Fatal);
    assert_eq!(relay.operation(), Operation::Receive);
    assert_eq!(relay.pending(), None);
}
