//! A layered, case-insensitive virtual filesystem for game assets.
//!
//! An ordered stack of backing stores is consulted most-recently-added
//! first, so content added later (patches, mods) overrides earlier
//! content path by path.  All paths are compared through a canonical,
//! case-folded, Unicode-normalized key, so lookups behave identically
//! on case-sensitive and case-insensitive host filesystems.

pub mod error;
pub mod pathkey;
pub mod handle;
pub mod store;
pub mod vfs;
