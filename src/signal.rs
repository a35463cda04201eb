//! The signal primitive: a kernel counter that one side raises by a value and
//! the other side waits on, reading and resetting it.
use std::sync::Arc;

use nix::errno::Errno;
use nix::sys::eventfd::{EfdFlags, EventFd};
use vstd::prelude::*;

verus! {

#[verifier::external_type_specification]
#[verifier::external_body]
pub struct ExEventFd(EventFd);

#[verifier::external_type_specification]
#[verifier::external_body]
pub struct ExErrno(Errno);

/// One call made through a handle of a signal.
pub enum SignalEvent {
    /// A raise by this value was made (whether or not it succeeded).
    Raise(u64),
    /// A wait returned: with the counter's value, or `None` where it failed.
    Wait(Option<u64>),
}

/// What a wait result records in a signal's history.
pub open spec fn wait_outcome(r: Result<u64, Errno>) -> Option<u64> {
    match r {
        Ok(v) => Some(v),
        Err(_) => None,
    }
}

/// One eventfd counter. Copies made with `clone` refer to the same counter;
/// each handle keeps the history of the calls made through it.
pub struct Signal {
    fd: Arc<EventFd>,
    log: Ghost<Seq<SignalEvent>>,
}

impl Clone for Signal {
    fn clone(&self) -> (r: Signal)
        ensures
            r.history() == Seq::<SignalEvent>::empty(),
    {
        Signal { fd: Arc::clone(&self.fd), log: Ghost(Seq::empty()) }
    }
}

/// Relies on nix's `EventFd::from_value_and_flags`: a new counter that starts at
/// zero, blocking, and inherited across `exec`.
#[verifier::external_body]
fn new_counter() -> Result<EventFd, Errno> {
    EventFd::from_value_and_flags(0, EfdFlags::empty())
}

impl Signal {
    /// The calls made through this handle, oldest first.
    pub closed spec fn history(&self) -> Seq<SignalEvent> {
        self.log@
    }

    /// Creates a new counter, starting at zero.
    pub fn create() -> (r: Result<Signal, Errno>)
        ensures
            r is Ok ==> r->Ok_0.history() == Seq::<SignalEvent>::empty(),
    {
        match new_counter() {
            Ok(fd) => Ok(Signal { fd: Arc::new(fd), log: Ghost(Seq::empty()) }),
            Err(e) => Err(e),
        }
    }

    /// Takes an eventfd created elsewhere, such as one inherited from the parent.
    pub fn from_event_fd(fd: EventFd) -> (r: Signal)
        ensures
            r.history() == Seq::<SignalEvent>::empty(),
    {
        Signal { fd: Arc::new(fd), log: Ghost(Seq::empty()) }
    }

    /// The underlying descriptor, for placing it in the child's slots.
    pub fn event_fd(&self) -> &EventFd {
        &*self.fd
    }

    /// Relies on nix's `EventFd::write`, which writes `value` to the eventfd,
    /// adding it to the counter.
    #[verifier::external_body]
    fn add_to_counter(&mut self, value: u64) -> (r: Result<usize, Errno>)
        ensures
            final(self).history() == old(self).history().push(SignalEvent::Raise(value)),
    {
        self.fd.write(value)
    }

    /// Relies on nix's `EventFd::read`: it returns the counter once it is
    /// non-zero and resets it, or fails (`EAGAIN` on a non-blocking counter
    /// that is zero).
    #[verifier::external_body]
    fn take_counter(&mut self) -> (r: Result<u64, Errno>)
        ensures
            r is Ok ==> r->Ok_0 > 0,
            final(self).history() == old(self).history().push(SignalEvent::Wait(wait_outcome(r))),
    {
        self.fd.read()
    }

    /// Adds `value` to the counter and wakes a waiter. It blocks only where
    /// the counter would overflow, until a wait resets it.
    pub fn raise(&mut self, value: u64) -> (r: Result<(), Errno>)
        ensures
            final(self).history() == old(self).history().push(SignalEvent::Raise(value)),
    {
        match self.add_to_counter(value) {
            Ok(_) => Ok(()),
            Err(e) => Err(e),
        }
    }

    /// Blocks until the counter is non-zero, then returns its value and resets
    /// it to zero.
    pub fn wait(&mut self) -> (r: Result<u64, Errno>)
        ensures
            r is Ok ==> r->Ok_0 > 0,
            final(self).history() == old(self).history().push(SignalEvent::Wait(wait_outcome(r))),
    {
        self.take_counter()
    }
}

} // verus!
