//! Forward passes as plans: the kernels to launch, in order, with the buffers
//! and the widths they work on.  Nothing here touches a device.

pub mod access;
pub mod bailing;
pub mod batches;
pub mod blocks;
pub mod crossing;
pub mod error;
pub mod formula;
pub mod gram;
pub mod hazard;
pub mod home;
pub mod k3;
pub mod memory;
pub mod ops;
pub mod ple;
pub mod qwen38;
pub mod room;
pub mod shape;
pub mod sizes;
pub mod state;
pub mod value;
