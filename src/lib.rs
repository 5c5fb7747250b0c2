//! An index of a directory tree by file name and by extension, with the
//! encoding that persists it.

pub mod multimap;
pub mod entry;
pub mod index;
pub mod laws;
pub mod persist;
