//! Shared-ownership containers built on a chain of immutable generations.
//!
//! Two containers share one core protocol. `ArcLog` is an append-only,
//! reference-counted log that grows by cooperative forwarding: when a
//! generation's capacity is exhausted, the appender allocates a successor
//! block and chains the old one to it. `Arcu` is a reference-counted cell
//! whose value is replaced by installing a new generation; readers keep the
//! snapshot they hold until they advance along the forward chain.
//!
//! The memory the generations live in is an abstract collaborator: every
//! operation takes the backing heap explicitly, so the whole protocol —
//! reference counting, forwarding, growth, and reclamation — is plain data
//! that the verifier reasons about.
//!
//! `updating_ref` holds the plain form of the chain — a pinned handle and an
//! auto-advancing one, without the callback slot — and `updating_vec` builds
//! a growable writer/reader buffer on top of the `Arcu` cell.

pub mod arc_log;
pub mod arcu;
pub mod updating_ref;
pub mod updating_vec;

