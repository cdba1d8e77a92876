//! A verified accounting engine for fractional ownership of named properties.
//!
//! Participants acquire shares of properties, transfer shares proportionally
//! across their holdings, receive proportional rent allocations, and cast
//! share-weighted yes/no votes on named decisions.  The engine proves
//! conservation of shares, deterministic floor rounding of proportional
//! splits, and one-vote-per-participant tallying.

pub mod allocation;
pub mod assoc;
pub mod http;
pub mod ledger;
pub mod registry;
pub mod voting;
