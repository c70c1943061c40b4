//! Read-only, random-access retrieval of tiles from a single packed archive.
//!
//! An archive is one contiguous byte stream: a fixed header, a JSON metadata
//! blob, a root directory of fixed-size records, and raw payloads.  A record
//! either points at tile bytes or, when its leaf flag is set, at a secondary
//! directory fragment; lookups fall back from the root directory to such a
//! fragment by rescaling the requested coordinates to the leaf zoom level.

pub mod codec;
pub mod directory;
pub mod laws;
pub mod reader;

pub use directory::Directory;
pub use directory::TileEntry;
pub use directory::TileKey;
pub use reader::ArchiveError;
pub use reader::Reader;

