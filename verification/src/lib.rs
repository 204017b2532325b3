//! Core engine of a personal music server: virtual-path mapping between named
//! mount points and real directories, an indexed collection of songs with
//! browse/flatten/search/album queries, the reindex lifecycle, and the
//! waveform peak cache.

pub mod peaks;
pub mod status;
pub mod store;
pub mod strutil;
pub mod types;
pub mod vfs;

