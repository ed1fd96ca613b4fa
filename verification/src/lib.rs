//! A compact, globally-unique, time-sortable identifier: 12 bytes packing a
//! Unix timestamp, a machine identifier, a process identifier and a monotonic
//! counter, with a canonical 20-character lowercase text form that sorts
//! exactly as the bytes do.

pub mod codec;
pub mod generator;
pub mod id;
pub mod radix;
pub mod trusted;

pub use crate::codec::CodecError;
pub use crate::generator::{ClockError, Generator, HostEnv, new_generator};
pub use crate::id::ID;
