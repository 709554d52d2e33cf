//! Verified core of an interactive wallet: an authorization gate that
//! serializes PIN confirmations, and the transaction submission pipeline
//! with its automatic unspent-output consolidation fallback.
//!
//! The pipeline is a state machine: the surrounding (unverified) driver
//! performs network calls and proof-of-work, and feeds each result back
//! as a [`pipeline::Event`]; the machine decides the next
//! [`pipeline::Action`] and maintains the set of inputs already spent by
//! this session. What every step may do — and what whole runs guarantee —
//! is stated in the contracts of [`pipeline`] and proved in [`laws`].

pub mod address;
pub mod amount;
pub mod auth;
pub mod consolidate;
pub mod laws;
pub mod pipeline;
pub mod prompt;
pub mod session;
pub mod spent;
pub mod types;
pub mod wallets;
