//! Cross-chain transaction (XT) reservations for a block builder, and the
//! decisions of the callbacks that tie the builder to its sidecar.

pub mod ethera;
pub mod ids;
pub mod outside;
pub mod primitives;
pub mod sidecar;
pub mod text;
