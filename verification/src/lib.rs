//! An encrypted, backend-agnostic block storage engine with a doubly linked
//! chain of blocks ("stream") layered on top of it.
//!
//! * [`bytes`] is the binary codec: bounds-checked, big-endian, fixed-width
//!   encoding and decoding of integers and raw byte spans.
//! * [`backend`] is the block storage capability: opaque block ids,
//!   allocation, and raw reads and writes.
//! * [`memory`] is the reference in-memory backend.
//! * [`container`] composes a backend and a cipher selection into an
//!   encrypted block store.
//! * [`stream`] materializes a doubly linked chain of blocks through a
//!   container and supports traversal and insertion.
//! * [`testutils`] builds small containers holding prefabricated chains.

pub mod backend;
pub mod bytes;
pub mod container;
pub mod memory;
pub mod stream;
pub mod testutils;
