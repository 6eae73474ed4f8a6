//! The virtual-filesystem layer's common types.

use vstd::prelude::*;

verus! {

/// Failures a filesystem operation can report.
#[derive(Debug, Copy, Clone, Eq, PartialEq, Structural)]
pub enum FSError {
    /// Invalid path.
    BadPath,
    /// File or directory not found.
    NoEntry,
    /// No file system is mounted.
    NoMount,
    /// The inode does not exist.
    MissingInode,
    /// The inode belongs to a different superblock.
    WrongInode,
    /// The inode is not a directory.
    NotDirectory,
    /// The file already exists.
    Exists,
    /// Not implemented yet.
    Unimplemented,
    /// Not supported.
    NotSupported,
}

/// The inode type bits; at most one of them is set on a sound inode.
pub const MODE_FIFO: u8 = 1;

pub const MODE_CHARACTER_DEVICE: u8 = 2;

pub const MODE_DIRECTORY: u8 = 4;

pub const MODE_BLOCK_DEVICE: u8 = 8;

pub const MODE_REGULAR_FILE: u8 = 16;

pub const MODE_SYMBOLIC_LINK: u8 = 32;

pub const MODE_SOCKET: u8 = 64;

/// How a filesystem is attached.
#[derive(Debug, Copy, Clone, Eq, PartialEq, Structural)]
pub enum MountType {
    NoDevice,
}

} // verus!
