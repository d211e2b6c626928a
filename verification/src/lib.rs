//! Reader for the NitroROM filesystem layout of Nintendo DS cartridge
//! images and for the NARC archive container that embeds the same
//! table layout.
//!
//! The library works on a byte image held in memory: callers read the
//! image (from a file, a network stream, or anywhere else) and hand the
//! bytes to [`nitro::Filesystem`], which locates the name table and the
//! allocation table, builds the directory tree, and supports ordered
//! traversal and path lookup over it.

pub mod bytes;
pub mod nitro;
pub mod props;
pub mod traverse;
