//! A verified token-faucet ledger.
//!
//! The library tracks which identities have claimed an admin-configured
//! reward, enforces one claim per identity behind an authorization gate, and
//! keeps a bounded recent-activity log beside an unbounded audit trail. Every
//! operation is specified as a transition on the state's mathematical view
//! and proved to follow it; the persistence lifecycle comes with a proved
//! encode/decode round trip. The host environment around it — call dispatch,
//! caller authentication, durable storage of the snapshot bytes — stays
//! outside.
//!
//! - [`state`]: the data model, its view, and the well-formedness invariant.
//! - [`ops`]: the authorization gate, administration, claims, and reads.
//! - [`codec`]: the snapshot codec for suspend and resume.
//! - [`laws`]: properties relating several operations, proved for all states.

pub mod codec;
pub mod laws;
pub mod ops;
pub mod state;
