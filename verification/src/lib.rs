//! Resolution and inspection of downloadable device support packs.
//!
//! The library parses a pack request such as `atmega==1.2.4`, extracts the
//! version strings offered for a pack on a vendor catalog page, resolves the
//! concrete archive to download, and lists the device description files found
//! inside a downloaded archive.

pub mod archive;
pub mod packs;
pub mod text;
pub mod versions;
