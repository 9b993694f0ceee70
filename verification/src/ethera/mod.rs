//! Reservations of nonces for cross-chain transactions.

pub mod canonical_tracker;
pub mod execution;
pub mod execution_laws;
pub mod gate;
pub mod index;
pub mod laws;
pub mod lemmas;
pub mod model;
pub mod nonces;
pub mod pool;
pub mod request_laws;
pub mod reservation;
pub mod rpc;
pub mod slot_laws;
pub mod types;
