//! A non-allocating reader for CPIO "newc" archives held in memory.
//!
//! The archive is a borrowed byte slice. A [`types::ByteRange`] names a
//! stretch of it, a [`memiter::MemIter`] walks it with bounds-checked reads,
//! and a [`cpio::Reader`] decodes one record per call, handing out ranges
//! that alias the caller's buffer.

pub mod types;
pub mod util;
pub mod memiter;
pub mod cpio;
pub mod archive;
