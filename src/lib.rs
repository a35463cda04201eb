//! A bidirectional channel between a process and the child it launches: a
//! shared memory region per direction carries the payload, and a pair of
//! eventfd counters per direction carries the length and the acknowledgement.
//!
//! The library holds the protocol: the size rule, the bounds-checked copy into
//! and out of a region, the one-message-in-flight rule, the receive decision,
//! the mapping lifecycle of a region, and the table of descriptor slots that
//! the child inherits together with the argument list that names them. Mapping
//! memory, duplicating descriptors and launching the child are left to the
//! caller.
pub mod channel;
pub mod region;
pub mod signal;
pub mod slots;

pub use signal::Signal;
