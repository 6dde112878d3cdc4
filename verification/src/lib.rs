//! An rsync-style delta-transfer library.
//!
//! Given a source file and a possibly stale destination copy, the library
//! finds which byte ranges of the destination already occur in the source,
//! so that only the remaining ranges would need to be transmitted.  The
//! source is cut into fixed-size blocks and indexed under a weak rolling
//! checksum and a strong digest; the destination is scanned with a sliding
//! window that resynchronizes byte by byte after a mismatch.

pub mod checksum;
pub mod client;
pub mod file;
pub mod laws;
pub mod server;
