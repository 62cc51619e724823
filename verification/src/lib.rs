//! Planning core of the pulsar inference engine.
//!
//! The crate decides; it touches no disk and no device.  It says which byte
//! ranges of a model file hold the expert slabs, how a read is widened to the
//! block size of direct I/O, which slot of the ring a read goes to, and which
//! kernels a forward pass launches, in which order, on which buffers and on
//! which card.

pub mod checksum;
pub mod directory;
pub mod engine;
pub mod expert;
pub mod fetch;
pub mod plan;
pub mod q8k;
pub mod reading;
pub mod text;
pub mod ring;
pub mod uring;
pub mod windows;
