//! The bounds-checked view of one direction's shared region. A payload sits at
//! offset 0 with no framing; its length travels on the signal.
use vstd::prelude::*;

verus! {

/// The region after `payload` is written at its start: the payload, then what
/// the region held past it.
pub open spec fn staged(region: Seq<u8>, payload: Seq<u8>) -> Seq<u8>
    recommends
        payload.len() <= region.len(),
{
    payload + region.subrange(payload.len() as int, region.len() as int)
}

/// What a receiver takes from `region` on a signalled `length`: the first
/// `length` bytes, or nothing when the length does not fit the region.
pub open spec fn received(region: Seq<u8>, length: int) -> Option<Seq<u8>> {
    if 0 <= length <= region.len() {
        Some(region.subrange(0, length))
    } else {
        None
    }
}

/// Writes `payload` at the start of `region`, leaving the rest as it was.
pub fn store_prefix(region: &mut [u8], payload: &[u8])
    requires
        payload@.len() <= old(region)@.len(),
    ensures
        final(region)@ == staged(old(region)@, payload@),
{
    let n = payload.len();
    let mut i: usize = 0;
    while i < n
        invariant
            n == payload@.len(),
            i <= n,
            n <= region@.len(),
            region@.len() == old(region)@.len(),
            forall|k: int| 0 <= k < i ==> region@[k] == payload@[k],
            forall|k: int| i <= k < region@.len() ==> region@[k] == old(region)@[k],
        decreases n - i,
    {
        region[i] = payload[i];
        i = i + 1;
    }
    assert(region@ =~= staged(old(region)@, payload@));
}

/// Copies the first `length` bytes of `region` out.
pub fn load_prefix(region: &[u8], length: usize) -> (r: Vec<u8>)
    requires
        length <= region@.len(),
    ensures
        r@ == region@.subrange(0, length as int),
{
    let mut out: Vec<u8> = Vec::with_capacity(length);
    let mut i: usize = 0;
    while i < length
        invariant
            i <= length,
            length <= region@.len(),
            out@ == region@.subrange(0, i as int),
        decreases length - i,
    {
        out.push(region[i]);
        i = i + 1;
        assert(out@ =~= region@.subrange(0, i as int));
    }
    out
}

/// A payload written at the start of a region is what a receiver takes back
/// from it on the payload's length.
pub proof fn lemma_round_trip(region: Seq<u8>, payload: Seq<u8>)
    requires
        payload.len() <= region.len(),
    ensures
        staged(region, payload).len() == region.len(),
        received(staged(region, payload), payload.len() as int) == Some(payload),
{
    assert(staged(region, payload).subrange(0, payload.len() as int) =~= payload);
}

/// Where the mapping of a region stands in its endpoint's life.
#[derive(PartialEq, Eq, Structural, Clone, Copy, Debug)]
pub enum Attachment {
    /// Not mapped yet.
    Unattached,
    /// Mapped, and to be unmapped at teardown.
    Attached,
    /// Torn down; never mapped again.
    Released,
}

/// Why a region may not be mapped now.
#[derive(PartialEq, Eq, Structural, Clone, Copy, Debug)]
pub enum AttachError {
    AlreadyAttached,
    Released,
}

/// The state after an attempt to map a region in state `a`.
pub open spec fn after_attach(a: Attachment) -> Attachment {
    match a {
        Attachment::Unattached => Attachment::Attached,
        _ => a,
    }
}

/// Whether tearing down a region in state `a` owes an unmap.
pub open spec fn owes_unmap(a: Attachment) -> bool {
    a == Attachment::Attached
}

/// The mapping lifecycle of one region: mapped at most once, unmapped exactly
/// once if it was mapped, never mapped again after teardown.
pub struct Lifecycle {
    state: Attachment,
}

impl Lifecycle {
    pub closed spec fn spec_state(&self) -> Attachment {
        self.state
    }

    pub fn new() -> (r: Lifecycle)
        ensures
            r.spec_state() == Attachment::Unattached,
    {
        Lifecycle { state: Attachment::Unattached }
    }

    pub fn state(&self) -> (r: Attachment)
        ensures
            r == self.spec_state(),
    {
        self.state
    }

    /// Records that the region is about to be mapped; refused where it already
    /// is, or where it has been torn down. The caller maps only on `Ok`.
    pub fn attach(&mut self) -> (r: Result<(), AttachError>)
        ensures
            final(self).spec_state() == after_attach(old(self).spec_state()),
            match old(self).spec_state() {
                Attachment::Unattached => r is Ok,
                Attachment::Attached => r == Err::<(), AttachError>(AttachError::AlreadyAttached),
                Attachment::Released => r == Err::<(), AttachError>(AttachError::Released),
            },
    {
        match self.state {
            Attachment::Unattached => {
                self.state = Attachment::Attached;
                Ok(())
            },
            Attachment::Attached => Err(AttachError::AlreadyAttached),
            Attachment::Released => Err(AttachError::Released),
        }
    }

    /// Tears the region down; `true` where the caller must now unmap it.
    pub fn release(&mut self) -> (r: bool)
        ensures
            r == owes_unmap(old(self).spec_state()),
            final(self).spec_state() == Attachment::Released,
    {
        let owed = self.state == Attachment::Attached;
        self.state = Attachment::Released;
        owed
    }
}

/// A call on a region's lifecycle.
#[derive(PartialEq, Eq, Structural, Clone, Copy, Debug)]
pub enum LifecycleCall {
    Attach,
    Release,
}

/// Running `calls` from state `a`: the state reached, how many of the calls
/// mapped the region, and how many owed an unmap.
pub open spec fn run_lifecycle(a: Attachment, calls: Seq<LifecycleCall>) -> (Attachment, nat, nat)
    decreases calls.len(),
{
    if calls.len() == 0 {
        (a, 0, 0)
    } else {
        let (s, maps, unmaps) = run_lifecycle(a, calls.drop_last());
        match calls.last() {
            LifecycleCall::Attach => (
                after_attach(s),
                if s == Attachment::Unattached { maps + 1 } else { maps },
                unmaps,
            ),
            LifecycleCall::Release => (
                Attachment::Released,
                maps,
                if owes_unmap(s) { unmaps + 1 } else { unmaps },
            ),
        }
    }
}

/// Whatever calls a fresh region sees, it is mapped at most once, unmapped at
/// most as often as it was mapped, and, once torn down, unmapped exactly as
/// often as it was mapped.
pub proof fn lemma_mapped_and_unmapped_once(calls: Seq<LifecycleCall>)
    ensures
        run_lifecycle(Attachment::Unattached, calls).1 <= 1,
        run_lifecycle(Attachment::Unattached, calls).2 <= run_lifecycle(
            Attachment::Unattached,
            calls,
        ).1,
        run_lifecycle(Attachment::Unattached, calls).0 == Attachment::Released ==> run_lifecycle(
            Attachment::Unattached,
            calls,
        ).2 == run_lifecycle(Attachment::Unattached, calls).1,
{
    lemma_lifecycle_counts(calls);
}

proof fn lemma_lifecycle_counts(calls: Seq<LifecycleCall>)
    ensures
        ({
            let (s, maps, unmaps) = run_lifecycle(Attachment::Unattached, calls);
            &&& s == Attachment::Unattached ==> maps == 0 && unmaps == 0
            &&& s == Attachment::Attached ==> maps == 1 && unmaps == 0
            &&& s == Attachment::Released ==> maps <= 1 && unmaps == maps
        }),
    decreases calls.len(),
{
    if calls.len() > 0 {
        lemma_lifecycle_counts(calls.drop_last());
    }
}

} // verus!
