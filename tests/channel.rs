use std::cell::RefCell;

use efdstream::channel::{check_payload, ChannelError, Heard, Inbound, Outbound, Phase, Received, ACK_VALUE};
use efdstream::signal::Signal;
use nix::errno::Errno;
use nix::sys::eventfd::{EfdFlags, EventFd};

fn nonblocking() -> Signal {
    Signal::from_event_fd(EventFd::from_value_and_flags(0, EfdFlags::EFD_NONBLOCK).unwrap())
}

/// Both ends of one direction over nonblocking counters, so that a wait on an
/// empty counter fails at once instead of hanging the test.
fn direction(capacity: usize) -> (Outbound, Inbound, Signal, Signal) {
    let send = nonblocking();
    let ack = nonblocking();
    let out = Outbound::new(send.clone(), ack.clone(), capacity);
    let inb = Inbound::new(send.clone(), ack.clone(), capacity);
    (out, inb, send, ack)
}

fn message(r: Result<Received, ChannelError>) -> Vec<u8> {
    match r {
        Ok(Received::Message(m)) => m,
        other => panic!("no message: {:?}", other),
    }
}

#[test]
fn round_trip_returns_the_payload() {
    let (mut out, mut inb, _, _) = direction(64);
    let mut region = vec![0xAAu8; 64];
    out.post(&mut region, b"hello").unwrap();
    assert_eq!(out.phase(), Phase::Signalled);
    let got = message(inb.receive(&region));
    assert_eq!(got, b"hello".to_vec());
    out.await_ack().unwrap();
    assert_eq!(out.phase(), Phase::Idle);
    assert_eq!(&region[..5], b"hello");
    assert!(region[5..].iter().all(|b| *b == 0xAA));
}

#[test]
fn empty_payload_is_refused_and_nothing_is_signalled() {
    let (mut out, mut inb, _, _) = direction(8);
    let mut region = vec![7u8; 8];
    assert!(matches!(out.post(&mut region, b""), Err(ChannelError::Empty)));
    assert!(matches!(out.send(&mut region, b""), Err(ChannelError::Empty)));
    assert_eq!(region, vec![7u8; 8]);
    assert_eq!(out.phase(), Phase::Idle);
    assert!(matches!(inb.wait_length(), Err(ChannelError::Closed(Errno::EAGAIN))));
}

#[test]
fn payload_check_names_each_refusal() {
    assert!(check_payload(1, 1).is_ok());
    assert!(matches!(check_payload(0, 1), Err(ChannelError::Empty)));
    assert!(matches!(
        check_payload(2, 1),
        Err(ChannelError::TooLarge { length: 2, capacity: 1 })
    ));
}

#[test]
fn payload_of_exactly_capacity_fits() {
    let (mut out, mut inb, _, _) = direction(16);
    let mut region = vec![0u8; 16];
    let payload: Vec<u8> = (0u8..16).collect();
    out.post(&mut region, &payload).unwrap();
    assert_eq!(message(inb.receive(&region)), payload);
}

#[test]
fn oversized_payload_is_refused_and_nothing_is_signalled() {
    let (mut out, mut inb, _, _) = direction(16);
    let mut region = vec![3u8; 16];
    let payload = [9u8; 17];
    match out.post(&mut region, &payload) {
        Err(ChannelError::TooLarge { length, capacity }) => {
            assert_eq!(length, 17);
            assert_eq!(capacity, 16);
        }
        other => panic!("unexpected {:?}", other),
    }
    assert_eq!(region, vec![3u8; 16]);
    assert_eq!(out.phase(), Phase::Idle);
    match inb.wait_length() {
        Err(ChannelError::Closed(e)) => assert_eq!(e, Errno::EAGAIN),
        other => panic!("the peer saw a signal: {:?}", other),
    }
}

#[test]
fn send_refuses_oversized_payload() {
    let (mut out, _, _, _) = direction(4);
    let mut region = vec![0u8; 4];
    assert!(matches!(
        out.send(&mut region, b"12345"),
        Err(ChannelError::TooLarge { length: 5, capacity: 4 })
    ));
    assert_eq!(region, vec![0u8; 4]);
}

#[test]
fn corrupt_length_is_skipped_and_listening_goes_on() {
    let (mut out, mut inb, mut send, _) = direction(1024);
    let mut region = vec![0u8; 1024];
    let seen = RefCell::new(Vec::new());
    let record = |d: &[u8]| seen.borrow_mut().push(d.to_vec());
    send.raise(5000).unwrap();
    assert_eq!(inb.listen_step(&region, &record).unwrap(), Heard::Skipped(5000));
    assert!(seen.borrow().is_empty());
    out.post(&mut region, b"after").unwrap();
    assert_eq!(inb.listen_step(&region, &record).unwrap(), Heard::Delivered(5));
    assert_eq!(seen.borrow().clone(), vec![b"after".to_vec()]);
    out.await_ack().unwrap();
}

#[test]
fn receive_skips_a_corrupt_length_and_goes_on() {
    let (mut out, mut inb, mut send, mut ack) = direction(8);
    let mut region = vec![0u8; 8];
    send.raise(9).unwrap();
    assert!(matches!(inb.receive(&region), Ok(Received::Skipped(9))));
    assert!(ack.wait().is_err());
    out.post(&mut region, b"ok").unwrap();
    assert_eq!(message(inb.receive(&region)), b"ok".to_vec());
    assert_eq!(ack.wait().unwrap(), ACK_VALUE);
}

#[test]
fn receive_reports_a_failed_wait_as_closed() {
    let (_, mut inb, _, mut ack) = direction(8);
    let region = vec![0u8; 8];
    assert!(matches!(inb.receive(&region), Err(ChannelError::Closed(Errno::EAGAIN))));
    assert!(ack.wait().is_err());
}

#[test]
fn second_post_waits_for_the_first_acknowledgement() {
    let (mut out, mut inb, _, _) = direction(8);
    let mut region = vec![0u8; 8];
    out.post(&mut region, b"first").unwrap();
    match out.post(&mut region, b"second") {
        Err(ChannelError::Closed(e)) => assert_eq!(e, Errno::EAGAIN),
        other => panic!("unexpected {:?}", other),
    }
    assert_eq!(&region[..5], b"first");
    assert_eq!(out.phase(), Phase::Signalled);
    assert_eq!(message(inb.receive(&region)), b"first".to_vec());
    out.post(&mut region, b"second").unwrap();
    assert_eq!(message(inb.receive(&region)), b"second".to_vec());
    out.await_ack().unwrap();
    assert_eq!(out.phase(), Phase::Idle);
}

#[test]
fn closed_transport_ends_listening() {
    let (_, mut inb, _, _) = direction(8);
    let region = vec![0u8; 8];
    let r = inb.listen_step(&region, &|_d: &[u8]| panic!("no message was sent"));
    assert!(matches!(r, Err(ChannelError::Closed(Errno::EAGAIN))));
}

#[test]
fn unanswered_send_reports_closed() {
    let (mut out, _, _, _) = direction(8);
    let mut region = vec![0u8; 8];
    assert!(matches!(out.send(&mut region, b"x"), Err(ChannelError::Closed(_))));
    assert_eq!(out.phase(), Phase::Signalled);
    assert_eq!(region[0], b'x');
}

#[test]
fn ping_one_hundred_times() {
    let (mut out, mut inb, _, mut ack) = direction(1024);
    let mut region = vec![0u8; 1024];
    let seen = RefCell::new(Vec::new());
    let record = |d: &[u8]| seen.borrow_mut().push(d.to_vec());
    for _ in 0..100 {
        out.post(&mut region, b"ping").unwrap();
        assert_eq!(inb.listen_step(&region, &record).unwrap(), Heard::Delivered(4));
        out.await_ack().unwrap();
        assert!(ack.wait().is_err());
    }
    let seen = seen.into_inner();
    assert_eq!(seen.len(), 100);
    assert!(seen.iter().all(|m| m == b"ping"));
}

#[test]
fn two_directions_do_not_interfere() {
    let (mut a_out, mut a_in, _, _) = direction(32);
    let (mut b_out, mut b_in, _, _) = direction(32);
    let mut p2c = vec![0u8; 32];
    let mut c2p = vec![0u8; 32];
    a_out.post(&mut p2c, b"A").unwrap();
    b_out.post(&mut c2p, b"B").unwrap();
    assert_eq!(message(a_in.receive(&p2c)), b"A".to_vec());
    assert_eq!(message(b_in.receive(&c2p)), b"B".to_vec());
    a_out.await_ack().unwrap();
    b_out.await_ack().unwrap();
    assert_eq!(p2c[0], b'A');
    assert_eq!(c2p[0], b'B');
}

#[test]
fn signal_carries_the_raised_value() {
    let mut s = nonblocking();
    s.raise(3).unwrap();
    s.raise(4).unwrap();
    assert_eq!(s.wait().unwrap(), 7);
    assert_eq!(s.wait(), Err(Errno::EAGAIN));
}

#[test]
fn acknowledgement_raises_one() {
    let (_, mut inb, _, mut ack) = direction(8);
    inb.acknowledge().unwrap();
    assert_eq!(ack.wait().unwrap(), ACK_VALUE);
    assert_eq!(ACK_VALUE, 1);
}

#[test]
fn blocking_signal_is_created_empty() {
    let mut s = Signal::create().unwrap();
    s.raise(2).unwrap();
    assert_eq!(s.wait().unwrap(), 2);
}
