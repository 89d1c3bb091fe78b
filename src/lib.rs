//! An append-only ledger of hash-linked blocks found by proof of work, with
//! chain validation, longest-valid-chain replacement, and a subscriber table
//! for fanning messages out to connected clients.

pub mod block;
pub mod blokhain;
pub mod encoding;
pub mod hub;
