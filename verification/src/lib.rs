//! A two-candidate ballot ledger.
//!
//! The ledger keeps one append-only log of caller identities per candidate.
//! Every operation is stated against a mathematical model of the two logs
//! ([`model::VoteLog`]), and the byte encoding used to persist a ledger is
//! proved to round-trip.
pub mod ledger;
pub mod model;
pub mod wire;

pub use ledger::RonaldoVsMessi;
pub use model::Side;
