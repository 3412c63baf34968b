//! Configuration negotiation and streaming control for a single video
//! capture device.
//!
//! The crate picks a concrete capture mode (pixel format, resolution,
//! frame interval) from the modes a device advertises, filtered and ordered
//! by caller preferences; it also holds the admission and cadence state
//! machine of the single-client stream server and the broadcast primitive
//! of the multi-client variant. All device, socket and timer I/O lives in
//! the embedding program, which feeds plain values in and carries the
//! decisions out.

pub mod constraints;
pub mod formats;
pub mod fountain;
pub mod pool;
pub mod negotiate;
pub mod ranges;
pub mod server;
