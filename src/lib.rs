//! Search-and-patch engine for the memory of another process.
//!
//! The library holds the logic: decoding raw bytes as typed scalars, choosing
//! which memory regions to scan, narrowing candidate addresses across scans and
//! deciding what to write. Reading and writing the memory of the target is done
//! by the caller, which hands the bytes it read to the engines and performs the
//! writes they ask for.

pub mod backend;
pub mod codec;
pub mod error;
pub mod known;
pub mod process;
pub mod region;
pub mod unknown;

pub use codec::{decode, encode, host_byte_order, ByteOrder, Scalar};
pub use error::Error;
pub use known::{KnownValueSearch, WriteRequest};
pub use process::{Linux, Process};
pub use region::{MemoryRegion, RegionBytes, RegionPolicy};
pub use unknown::{Change, UnknownValueSearch};
