//! Animation playback engine for texture containers.
//!
//! The library decodes a fixed little-endian container layout holding an
//! animation's timing metadata, a frame table, template bytes and an image
//! atlas, keeps per-resource and per-group playback cursors, and assembles
//! the replacement byte buffer that a host environment delivers on each
//! scheduler tick.  Filesystem discovery, host callbacks and the timing
//! threads themselves live outside the library; the library holds every
//! decision they act on.

pub mod container;
pub mod playback;
pub mod registry;
