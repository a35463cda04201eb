//! The handshake of one direction. The sender writes the payload into the
//! region, raises the send signal by its length and waits for the
//! acknowledgement; the receiver waits for the length, reads the region and
//! raises the acknowledgement by one. At most one message is in flight.
//!
//! Each endpoint keeps a trace of what it did, in order: writes and reads of
//! the region, hand-offs to a callback, raises and waits. The trace agrees
//! with the histories of its two signals, and every contract states the
//! steps that a call adds.
use nix::errno::Errno;
use vstd::prelude::*;

use crate::region::{load_prefix, received, staged, store_prefix};
use crate::signal::{wait_outcome, Signal, SignalEvent};

verus! {

/// The value a receiver raises to acknowledge a message.
pub const ACK_VALUE: u64 = 1;

/// What went wrong in a handshake.
#[derive(Debug)]
pub enum ChannelError {
    /// A payload longer than the region; nothing was written or signalled.
    TooLarge { length: usize, capacity: usize },
    /// An empty payload: its length, zero, would wake no receiver, so nothing
    /// was written or signalled.
    Empty,
    /// Waiting on a signal failed: the other side is gone, or the wait was
    /// interrupted.
    Closed(Errno),
    /// Raising a signal failed.
    Signal(Errno),
}

/// Where the sending side of a direction stands.
#[derive(PartialEq, Eq, Structural, Clone, Copy, Debug)]
pub enum Phase {
    /// Nothing in flight.
    Idle,
    /// A payload sits in the region, but its length was not signalled.
    Written,
    /// The length was signalled and the acknowledgement not yet seen: the
    /// receiver may be reading the region.
    Signalled,
}

/// What one receive did.
#[derive(Debug)]
pub enum Received {
    /// This message was copied out of the region and acknowledged.
    Message(Vec<u8>),
    /// A signalled length longer than the region was dropped, unacknowledged.
    Skipped(u64),
}

/// What one turn of a listening loop did.
#[derive(PartialEq, Eq, Structural, Clone, Copy, Debug)]
pub enum Heard {
    /// A message of this length went to the callback and was acknowledged.
    Delivered(usize),
    /// A signalled length longer than the region was dropped, unacknowledged.
    Skipped(u64),
}

/// One thing an endpoint did, in its trace.
pub enum Step {
    /// A payload of this length was written at the start of the region.
    Write(usize),
    /// The first this many bytes of the region were copied out.
    Read(usize),
    /// The first this many bytes of the region were handed to a callback,
    /// which has returned.
    Deliver(usize),
    /// A raise by this value was made; it succeeded or failed.
    Raise(u64, bool),
    /// A wait returned this value, or failed.
    Wait(Option<u64>),
}

/// The raises in a trace, as its raising signal records them.
pub open spec fn raises_of(t: Seq<Step>) -> Seq<SignalEvent>
    decreases t.len(),
{
    if t.len() == 0 {
        Seq::empty()
    } else {
        match t.last() {
            Step::Raise(v, _) => raises_of(t.drop_last()).push(SignalEvent::Raise(v)),
            _ => raises_of(t.drop_last()),
        }
    }
}

/// The waits in a trace, as its waiting signal records them.
pub open spec fn waits_of(t: Seq<Step>) -> Seq<SignalEvent>
    decreases t.len(),
{
    if t.len() == 0 {
        Seq::empty()
    } else {
        match t.last() {
            Step::Wait(o) => waits_of(t.drop_last()).push(SignalEvent::Wait(o)),
            _ => waits_of(t.drop_last()),
        }
    }
}

/// After the trace `t`, a length has been raised and its acknowledgement
/// not yet seen.
pub open spec fn pending(t: Seq<Step>) -> bool
    decreases t.len(),
{
    if t.len() == 0 {
        false
    } else {
        match t.last() {
            Step::Raise(_, true) => true,
            Step::Wait(Some(_)) => false,
            _ => pending(t.drop_last()),
        }
    }
}

/// At most one message in flight: the region is never written while a raised
/// length waits for its acknowledgement.
pub open spec fn one_in_flight(t: Seq<Step>) -> bool {
    forall|i: int|
        #![trigger t[i]]
        0 <= i < t.len() && t[i] is Write ==> !pending(t.take(i))
}

/// The acknowledgement wait, returning `v`, that comes before a write where a
/// message is still in flight.
pub open spec fn prior_wait(phase: Phase, v: u64) -> Seq<Step> {
    if phase == Phase::Signalled {
        ack_seen(v)
    } else {
        Seq::empty()
    }
}

pub open spec fn ack_seen(v: u64) -> Seq<Step> {
    seq![Step::Wait(Some(v))]
}

/// Writing a payload of `n` bytes, then raising its length.
pub open spec fn handshake(n: usize, raised: bool) -> Seq<Step> {
    seq![Step::Write(n), Step::Raise(n as u64, raised)]
}

/// Receiving a length `v`, copying the message out, then acknowledging it.
pub open spec fn delivery(v: u64, acked: bool) -> Seq<Step> {
    seq![Step::Wait(Some(v)), Step::Read(v as usize), Step::Raise(ACK_VALUE, acked)]
}

/// Receiving a length `v`, handing the message to a callback, then
/// acknowledging it.
pub open spec fn hand_off(v: u64, acked: bool) -> Seq<Step> {
    seq![Step::Wait(Some(v)), Step::Deliver(v as usize), Step::Raise(ACK_VALUE, acked)]
}

proof fn lemma_push(t: Seq<Step>, s: Step)
    ensures
        raises_of(t.push(s)) == match s {
            Step::Raise(v, _) => raises_of(t).push(SignalEvent::Raise(v)),
            _ => raises_of(t),
        },
        waits_of(t.push(s)) == match s {
            Step::Wait(o) => waits_of(t).push(SignalEvent::Wait(o)),
            _ => waits_of(t),
        },
        pending(t.push(s)) == match s {
            Step::Raise(_, true) => true,
            Step::Wait(Some(_)) => false,
            _ => pending(t),
        },
        one_in_flight(t) && (s is Write ==> !pending(t)) ==> one_in_flight(t.push(s)),
{
    let u = t.push(s);
    assert(u.drop_last() =~= t);
    if one_in_flight(t) && (s is Write ==> !pending(t)) {
        assert forall|i: int| #![trigger u[i]] 0 <= i < u.len() && u[i] is Write implies !pending(
            u.take(i),
        ) by {
            if i < t.len() {
                assert(u.take(i) =~= t.take(i));
                assert(u[i] == t[i]);
            } else {
                assert(u.take(i) =~= t);
            }
        }
    }
}

proof fn lemma_append_push<A>(a: Seq<A>, b: Seq<A>, x: A)
    ensures
        (a + b).push(x) == a + b.push(x),
{
    assert((a + b).push(x) =~= a + b.push(x));
}

/// Whether a payload of `length` bytes may go over a region of `capacity`
/// bytes: it must fit, and it must not be empty.
pub open spec fn payload_check(length: nat, capacity: nat) -> Result<(), ChannelError> {
    if length > capacity {
        Err(ChannelError::TooLarge { length: length as usize, capacity: capacity as usize })
    } else if length == 0 {
        Err(ChannelError::Empty)
    } else {
        Ok(())
    }
}

/// Checks a payload's length against a region's capacity.
pub fn check_payload(length: usize, capacity: usize) -> (r: Result<(), ChannelError>)
    ensures
        r == payload_check(length as nat, capacity as nat),
{
    if length > capacity {
        Err(ChannelError::TooLarge { length, capacity })
    } else if length == 0 {
        Err(ChannelError::Empty)
    } else {
        Ok(())
    }
}

/// The sending side of one direction.
pub struct Outbound {
    signal: Signal,
    ack: Signal,
    capacity: usize,
    phase: Phase,
    trace: Ghost<Seq<Step>>,
    sent_before: Ghost<Seq<SignalEvent>>,
    acks_before: Ghost<Seq<SignalEvent>>,
}

/// The receiving side of one direction.
pub struct Inbound {
    signal: Signal,
    ack: Signal,
    capacity: usize,
    trace: Ghost<Seq<Step>>,
    lengths_before: Ghost<Seq<SignalEvent>>,
    acks_before: Ghost<Seq<SignalEvent>>,
}

impl Outbound {
    pub closed spec fn spec_capacity(&self) -> nat {
        self.capacity as nat
    }

    pub closed spec fn spec_phase(&self) -> Phase {
        self.phase
    }

    /// What this side has done, oldest first.
    pub closed spec fn trace(&self) -> Seq<Step> {
        self.trace@
    }

    closed spec fn logs_agree(&self) -> bool {
        &&& self.signal.history() == self.sent_before@ + raises_of(self.trace@)
        &&& self.ack.history() == self.acks_before@ + waits_of(self.trace@)
        &&& one_in_flight(self.trace@)
    }

    /// The trace agrees with both signals' histories, keeps one message in
    /// flight at most, and the phase is signalled exactly while one is.
    pub closed spec fn wf(&self) -> bool {
        &&& self.logs_agree()
        &&& (self.phase == Phase::Signalled) == pending(self.trace@)
    }

    /// A sending side over a region of `capacity` bytes: it raises `signal` by
    /// each payload's length and waits on `ack`.
    pub fn new(signal: Signal, ack: Signal, capacity: usize) -> (r: Outbound)
        ensures
            r.wf(),
            r.spec_capacity() == capacity,
            r.spec_phase() == Phase::Idle,
            r.trace() == Seq::<Step>::empty(),
    {
        let ghost sent = signal.history();
        let ghost acks = ack.history();
        let r = Outbound {
            signal,
            ack,
            capacity,
            phase: Phase::Idle,
            trace: Ghost(Seq::empty()),
            sent_before: Ghost(sent),
            acks_before: Ghost(acks),
        };
        assert(r.sent_before@ + raises_of(r.trace@) =~= sent);
        assert(r.acks_before@ + waits_of(r.trace@) =~= acks);
        r
    }

    pub fn capacity(&self) -> (r: usize)
        ensures
            r == self.spec_capacity(),
    {
        self.capacity
    }

    pub fn phase(&self) -> (r: Phase)
        ensures
            r == self.spec_phase(),
    {
        self.phase
    }

    /// Writes `payload` at the start of `region`, and records it.
    fn stage(&mut self, region: &mut [u8], payload: &[u8])
        requires
            old(self).logs_agree(),
            !pending(old(self).trace@),
            payload@.len() <= old(region)@.len(),
        ensures
            final(self).logs_agree(),
            final(self).trace@ == old(self).trace@.push(Step::Write(payload@.len() as usize)),
            pending(final(self).trace@) == pending(old(self).trace@),
            final(self).phase == old(self).phase,
            final(self).capacity == old(self).capacity,
            final(region)@ == staged(old(region)@, payload@),
    {
        store_prefix(region, payload);
        proof {
            lemma_push(self.trace@, Step::Write(payload@.len() as usize));
        }
        self.trace = Ghost(self.trace@.push(Step::Write(payload@.len() as usize)));
    }

    /// Raises the send signal by `value`, and records it.
    fn raise_length(&mut self, value: u64) -> (r: Result<(), Errno>)
        requires
            old(self).logs_agree(),
        ensures
            final(self).logs_agree(),
            final(self).trace@ == old(self).trace@.push(Step::Raise(value, r is Ok)),
            pending(final(self).trace@) == (r is Ok || pending(old(self).trace@)),
            final(self).phase == old(self).phase,
            final(self).capacity == old(self).capacity,
    {
        let r = self.signal.raise(value);
        proof {
            lemma_push(self.trace@, Step::Raise(value, r is Ok));
            lemma_append_push(self.sent_before@, raises_of(self.trace@), SignalEvent::Raise(value));
        }
        self.trace = Ghost(self.trace@.push(Step::Raise(value, r is Ok)));
        r
    }

    /// Waits on the acknowledgement signal, and records it.
    fn wait_ack(&mut self) -> (r: Result<u64, Errno>)
        requires
            old(self).logs_agree(),
        ensures
            final(self).logs_agree(),
            r is Ok ==> r->Ok_0 > 0,
            final(self).trace@ == old(self).trace@.push(Step::Wait(wait_outcome(r))),
            pending(final(self).trace@) == (r is Err && pending(old(self).trace@)),
            final(self).phase == old(self).phase,
            final(self).capacity == old(self).capacity,
    {
        let r = self.ack.wait();
        proof {
            lemma_push(self.trace@, Step::Wait(wait_outcome(r)));
            lemma_append_push(
                self.acks_before@,
                waits_of(self.trace@),
                SignalEvent::Wait(wait_outcome(r)),
            );
        }
        self.trace = Ghost(self.trace@.push(Step::Wait(wait_outcome(r))));
        r
    }

    /// Writes `payload` into `region` and raises the send signal by its
    /// length, without waiting for the acknowledgement. A payload that is empty
    /// or longer than the region is refused before anything is touched. Where
    /// the previous message is still in flight, its acknowledgement is awaited
    /// first, and the region is left alone if that wait fails.
    pub fn post(&mut self, region: &mut [u8], payload: &[u8]) -> (r: Result<(), ChannelError>)
        requires
            old(self).wf(),
            old(region)@.len() == old(self).spec_capacity(),
        ensures
            final(self).wf(),
            one_in_flight(final(self).trace()),
            final(self).spec_capacity() == old(self).spec_capacity(),
            payload_check(payload@.len(), old(self).spec_capacity()) is Err ==> {
                &&& r == payload_check(payload@.len(), old(self).spec_capacity())
                &&& final(region)@ == old(region)@
                &&& final(self).spec_phase() == old(self).spec_phase()
                &&& final(self).trace() == old(self).trace()
            },
            payload_check(payload@.len(), old(self).spec_capacity()) is Ok ==> match r {
                Ok(()) => {
                    &&& final(region)@ == staged(old(region)@, payload@)
                    &&& final(self).spec_phase() == Phase::Signalled
                    &&& exists|v: u64|
                        v > 0 && final(self).trace() == old(self).trace() + #[trigger] prior_wait(
                            old(self).spec_phase(),
                            v,
                        ) + handshake(payload@.len() as usize, true)
                },
                Err(ChannelError::Closed(_)) => {
                    &&& old(self).spec_phase() == Phase::Signalled
                    &&& final(self).spec_phase() == Phase::Signalled
                    &&& final(region)@ == old(region)@
                    &&& final(self).trace() == old(self).trace().push(Step::Wait(None))
                },
                Err(ChannelError::Signal(_)) => {
                    &&& final(region)@ == staged(old(region)@, payload@)
                    &&& final(self).spec_phase() == Phase::Written
                    &&& exists|v: u64|
                        v > 0 && final(self).trace() == old(self).trace() + #[trigger] prior_wait(
                            old(self).spec_phase(),
                            v,
                        ) + handshake(payload@.len() as usize, false)
                },
                Err(_) => false,
            },
    {
        match check_payload(payload.len(), self.capacity) {
            Ok(()) => {},
            Err(e) => return Err(e),
        }
        let ghost t0 = self.trace@;
        let ghost mut w: u64 = 1;
        if self.phase == Phase::Signalled {
            match self.wait_ack() {
                Ok(v) => {
                    proof {
                        w = v;
                    }
                    self.phase = Phase::Idle;
                },
                Err(e) => {
                    return Err(ChannelError::Closed(e));
                },
            }
        }
        assert(self.trace@ =~= t0 + prior_wait(old(self).phase, w));
        let ghost t1 = self.trace@;
        self.stage(region, payload);
        self.phase = Phase::Written;
        let r = self.raise_length(payload.len() as u64);
        assert(self.trace@ =~= t0 + prior_wait(old(self).phase, w) + handshake(
            payload@.len() as usize,
            r is Ok,
        ));
        match r {
            Ok(()) => {
                self.phase = Phase::Signalled;
                Ok(())
            },
            Err(e) => Err(ChannelError::Signal(e)),
        }
    }

    /// Waits for the acknowledgement of the message in flight, if there is one.
    pub fn await_ack(&mut self) -> (r: Result<(), ChannelError>)
        requires
            old(self).wf(),
        ensures
            final(self).wf(),
            final(self).spec_capacity() == old(self).spec_capacity(),
            old(self).spec_phase() != Phase::Signalled ==> {
                &&& r is Ok
                &&& final(self).spec_phase() == old(self).spec_phase()
                &&& final(self).trace() == old(self).trace()
            },
            old(self).spec_phase() == Phase::Signalled ==> match r {
                Ok(()) => {
                    &&& final(self).spec_phase() == Phase::Idle
                    &&& exists|v: u64|
                        v > 0 && final(self).trace() == old(self).trace() + #[trigger] ack_seen(v)
                },
                Err(ChannelError::Closed(_)) => {
                    &&& final(self).spec_phase() == Phase::Signalled
                    &&& final(self).trace() == old(self).trace().push(Step::Wait(None))
                },
                Err(_) => false,
            },
    {
        if self.phase != Phase::Signalled {
            return Ok(());
        }
        match self.wait_ack() {
            Ok(v) => {
                assert(self.trace@ =~= old(self).trace@ + ack_seen(v));
                self.phase = Phase::Idle;
                Ok(())
            },
            Err(e) => Err(ChannelError::Closed(e)),
        }
    }

    /// Sends `payload` and returns once the receiver has acknowledged it: the
    /// payload is written, then its length raised, then an acknowledgement
    /// awaited (after one more, first, where a message was still in flight).
    pub fn send(&mut self, region: &mut [u8], payload: &[u8]) -> (r: Result<(), ChannelError>)
        requires
            old(self).wf(),
            old(region)@.len() == old(self).spec_capacity(),
        ensures
            final(self).wf(),
            one_in_flight(final(self).trace()),
            final(self).spec_capacity() == old(self).spec_capacity(),
            payload_check(payload@.len(), old(self).spec_capacity()) is Err ==> {
                &&& r == payload_check(payload@.len(), old(self).spec_capacity())
                &&& final(region)@ == old(region)@
                &&& final(self).spec_phase() == old(self).spec_phase()
                &&& final(self).trace() == old(self).trace()
            },
            payload_check(payload@.len(), old(self).spec_capacity()) is Ok ==> match r {
                Ok(()) => {
                    &&& final(region)@ == staged(old(region)@, payload@)
                    &&& final(self).spec_phase() == Phase::Idle
                    &&& exists|v: u64, w: u64|
                        #![trigger prior_wait(old(self).spec_phase(), v), ack_seen(w)]
                        v > 0 && w > 0 && final(self).trace() == old(self).trace() + prior_wait(
                            old(self).spec_phase(),
                            v,
                        ) + handshake(payload@.len() as usize, true) + ack_seen(w)
                },
                Err(ChannelError::Closed(_)) => {
                    &&& final(self).spec_phase() == Phase::Signalled
                    &&& ((old(self).spec_phase() == Phase::Signalled && final(region)@ == old(
                        region,
                    )@ && final(self).trace() == old(self).trace().push(Step::Wait(None))) || (
                    final(region)@ == staged(old(region)@, payload@) && exists|v: u64|
                        v > 0 && final(self).trace() == old(self).trace() + #[trigger] prior_wait(
                            old(self).spec_phase(),
                            v,
                        ) + handshake(payload@.len() as usize, true).push(Step::Wait(None))))
                },
                Err(ChannelError::Signal(_)) => {
                    &&& final(region)@ == staged(old(region)@, payload@)
                    &&& final(self).spec_phase() == Phase::Written
                    &&& exists|v: u64|
                        v > 0 && final(self).trace() == old(self).trace() + #[trigger] prior_wait(
                            old(self).spec_phase(),
                            v,
                        ) + handshake(payload@.len() as usize, false)
                },
                Err(_) => false,
            },
    {
        let ghost t0 = self.trace@;
        let ghost ph = self.phase;
        match self.post(region, payload) {
            Ok(()) => {
                let ghost mid = self.trace@;
                let ghost v = choose|v: u64|
                    v > 0 && mid == t0 + #[trigger] prior_wait(ph, v) + handshake(
                        payload@.len() as usize,
                        true,
                    );
                let r = self.await_ack();
                proof {
                    if r is Ok {
                        let w = choose|w: u64| w > 0 && self.trace@ == mid + #[trigger] ack_seen(w);
                        assert(self.trace@ == t0 + prior_wait(ph, v) + handshake(
                            payload@.len() as usize,
                            true,
                        ) + ack_seen(w));
                    } else {
                        lemma_append_push(
                            t0,
                            prior_wait(ph, v) + handshake(payload@.len() as usize, true),
                            Step::Wait(None),
                        );
                        assert(prior_wait(ph, v) + handshake(payload@.len() as usize, true).push(
                            Step::Wait(None),
                        ) =~= (prior_wait(ph, v) + handshake(payload@.len() as usize, true)).push(
                            Step::Wait(None),
                        ));
                    }
                }
                r
            },
            Err(e) => Err(e),
        }
    }
}

impl Inbound {
    pub closed spec fn spec_capacity(&self) -> nat {
        self.capacity as nat
    }

    /// What this side has done, oldest first.
    pub closed spec fn trace(&self) -> Seq<Step> {
        self.trace@
    }

    /// The trace agrees with both signals' histories.
    pub closed spec fn wf(&self) -> bool {
        &&& self.signal.history() == self.lengths_before@ + waits_of(self.trace@)
        &&& self.ack.history() == self.acks_before@ + raises_of(self.trace@)
    }

    /// A receiving side over a region of `capacity` bytes: it waits on
    /// `signal` for each length and raises `ack` once the payload is taken.
    pub fn new(signal: Signal, ack: Signal, capacity: usize) -> (r: Inbound)
        ensures
            r.wf(),
            r.spec_capacity() == capacity,
            r.trace() == Seq::<Step>::empty(),
    {
        let ghost lengths = signal.history();
        let ghost acks = ack.history();
        let r = Inbound {
            signal,
            ack,
            capacity,
            trace: Ghost(Seq::empty()),
            lengths_before: Ghost(lengths),
            acks_before: Ghost(acks),
        };
        assert(r.lengths_before@ + waits_of(r.trace@) =~= lengths);
        assert(r.acks_before@ + raises_of(r.trace@) =~= acks);
        r
    }

    pub fn capacity(&self) -> (r: usize)
        ensures
            r == self.spec_capacity(),
    {
        self.capacity
    }

    /// Blocks until the sender signals a length, and returns it.
    pub fn wait_length(&mut self) -> (r: Result<u64, ChannelError>)
        requires
            old(self).wf(),
        ensures
            final(self).wf(),
            final(self).spec_capacity() == old(self).spec_capacity(),
            match r {
                Ok(v) => v > 0 && final(self).trace() == old(self).trace().push(
                    Step::Wait(Some(v)),
                ),
                Err(ChannelError::Closed(_)) => final(self).trace() == old(self).trace().push(
                    Step::Wait(None),
                ),
                Err(_) => false,
            },
    {
        let r = self.signal.wait();
        proof {
            lemma_push(self.trace@, Step::Wait(wait_outcome(r)));
            lemma_append_push(
                self.lengths_before@,
                waits_of(self.trace@),
                SignalEvent::Wait(wait_outcome(r)),
            );
        }
        self.trace = Ghost(self.trace@.push(Step::Wait(wait_outcome(r))));
        match r {
            Ok(length) => Ok(length),
            Err(e) => Err(ChannelError::Closed(e)),
        }
    }

    /// The payload that a signalled `length` designates in `region`, or `None`
    /// where the length does not fit the region.
    pub fn accept(&self, region: &[u8], length: u64) -> (r: Option<Vec<u8>>)
        requires
            region@.len() == self.spec_capacity(),
        ensures
            match r {
                Some(v) => received(region@, length as int) == Some(v@),
                None => received(region@, length as int) is None,
            },
    {
        if length > self.capacity as u64 {
            None
        } else {
            Some(load_prefix(region, length as usize))
        }
    }

    /// Copies the message of a signalled `length` out of `region`, and records
    /// it; `None`, with nothing recorded, where the length does not fit.
    fn take(&mut self, region: &[u8], length: u64) -> (r: Option<Vec<u8>>)
        requires
            old(self).wf(),
            region@.len() == old(self).spec_capacity(),
        ensures
            final(self).wf(),
            final(self).capacity == old(self).capacity,
            match r {
                Some(v) => {
                    &&& received(region@, length as int) == Some(v@)
                    &&& final(self).trace@ == old(self).trace@.push(Step::Read(length as usize))
                },
                None => {
                    &&& received(region@, length as int) is None
                    &&& final(self).trace@ == old(self).trace@
                },
            },
    {
        let r = self.accept(region, length);
        if r.is_some() {
            proof {
                lemma_push(self.trace@, Step::Read(length as usize));
            }
            self.trace = Ghost(self.trace@.push(Step::Read(length as usize)));
        }
        r
    }

    /// Hands `message` to `callback`, and records it once the callback returns.
    fn deliver<F: Fn(&[u8])>(&mut self, message: &[u8], callback: &F)
        requires
            old(self).wf(),
            callback.requires((message,)),
        ensures
            final(self).wf(),
            final(self).capacity == old(self).capacity,
            callback.ensures((message,), ()),
            final(self).trace@ == old(self).trace@.push(Step::Deliver(message@.len() as usize)),
    {
        callback(message);
        proof {
            lemma_push(self.trace@, Step::Deliver(message@.len() as usize));
        }
        self.trace = Ghost(self.trace@.push(Step::Deliver(message@.len() as usize)));
    }

    /// Tells the sender that the message in the region has been taken, by
    /// raising the acknowledgement signal by `ACK_VALUE`.
    pub fn acknowledge(&mut self) -> (r: Result<(), ChannelError>)
        requires
            old(self).wf(),
        ensures
            final(self).wf(),
            final(self).spec_capacity() == old(self).spec_capacity(),
            final(self).trace() == old(self).trace().push(Step::Raise(ACK_VALUE, r is Ok)),
            r is Err ==> r->Err_0 is Signal,
    {
        let r = self.ack.raise(ACK_VALUE);
        proof {
            lemma_push(self.trace@, Step::Raise(ACK_VALUE, r is Ok));
            lemma_append_push(self.acks_before@, raises_of(self.trace@), SignalEvent::Raise(ACK_VALUE));
        }
        self.trace = Ghost(self.trace@.push(Step::Raise(ACK_VALUE, r is Ok)));
        match r {
            Ok(()) => Ok(()),
            Err(e) => Err(ChannelError::Signal(e)),
        }
    }

    /// Receives one signal: waits for a length, and where it fits the region,
    /// copies the message out and then acknowledges it. A length longer than
    /// the region is dropped without a copy or an acknowledgement, and the
    /// caller goes on waiting; a failed wait gives `Closed`.
    pub fn receive(&mut self, region: &[u8]) -> (r: Result<Received, ChannelError>)
        requires
            old(self).wf(),
            region@.len() == old(self).spec_capacity(),
        ensures
            final(self).wf(),
            final(self).spec_capacity() == old(self).spec_capacity(),
            match r {
                Ok(Received::Message(d)) => {
                    &&& d@.len() > 0
                    &&& received(region@, d@.len() as int) == Some(d@)
                    &&& final(self).trace() == old(self).trace() + delivery(d@.len() as u64, true)
                },
                Ok(Received::Skipped(v)) => {
                    &&& v > old(self).spec_capacity()
                    &&& final(self).trace() == old(self).trace().push(Step::Wait(Some(v)))
                },
                Err(ChannelError::Closed(_)) => {
                    final(self).trace() == old(self).trace().push(Step::Wait(None))
                },
                Err(ChannelError::Signal(_)) => exists|v: u64|
                    0 < v <= old(self).spec_capacity() && final(self).trace() == old(self).trace()
                        + #[trigger] delivery(v, false),
                Err(_) => false,
            },
    {
        let length = match self.wait_length() {
            Ok(n) => n,
            Err(e) => return Err(e),
        };
        match self.take(region, length) {
            Some(data) => {
                let r = self.acknowledge();
                assert(self.trace@ =~= old(self).trace@ + delivery(length, r is Ok));
                match r {
                    Ok(()) => Ok(Received::Message(data)),
                    Err(e) => Err(e),
                }
            },
            None => Ok(Received::Skipped(length)),
        }
    }

    /// One turn of a listening loop: waits for a length, hands exactly the
    /// message it designates in `region` to `callback`, and acknowledges it
    /// once the callback has returned. A length longer than the region is
    /// skipped with no callback and no acknowledgement, so that the loop goes
    /// on with the next signal; a failed wait ends the loop with `Closed`.
    pub fn listen_step<F: Fn(&[u8])>(&mut self, region: &[u8], callback: &F) -> (r: Result<
        Heard,
        ChannelError,
    >)
        requires
            old(self).wf(),
            region@.len() == old(self).spec_capacity(),
            forall|d: &[u8]| callback.requires((d,)),
        ensures
            final(self).wf(),
            final(self).spec_capacity() == old(self).spec_capacity(),
            match r {
                Ok(Heard::Delivered(n)) => {
                    &&& 0 < n <= old(self).spec_capacity()
                    &&& exists|d: &[u8]|
                        d@ == region@.subrange(0, n as int) && #[trigger] callback.ensures((d,), ())
                    &&& final(self).trace() == old(self).trace() + hand_off(n as u64, true)
                },
                Ok(Heard::Skipped(v)) => {
                    &&& v > old(self).spec_capacity()
                    &&& final(self).trace() == old(self).trace().push(Step::Wait(Some(v)))
                },
                Err(ChannelError::Closed(_)) => {
                    final(self).trace() == old(self).trace().push(Step::Wait(None))
                },
                Err(ChannelError::Signal(_)) => exists|v: u64|
                    0 < v <= old(self).spec_capacity() && final(self).trace() == old(self).trace()
                        + #[trigger] hand_off(v, false),
                Err(_) => false,
            },
    {
        let length = match self.wait_length() {
            Ok(n) => n,
            Err(e) => return Err(e),
        };
        match self.accept(region, length) {
            Some(data) => {
                let n = data.len();
                let message = data.as_slice();
                self.deliver(message, callback);
                assert(message@ == region@.subrange(0, n as int));
                let r = self.acknowledge();
                assert(self.trace@ =~= old(self).trace@ + hand_off(length, r is Ok));
                match r {
                    Ok(()) => Ok(Heard::Delivered(n)),
                    Err(e) => Err(e),
                }
            },
            None => Ok(Heard::Skipped(length)),
        }
    }
}

} // verus!
