//! The fixed virtual-memory layout of the kernel's upper half.
//!
//! Every window is carved at image-build time: the guard hole opens the
//! upper half, the whole of physical memory is mapped directly after it,
//! and the bitmap-allocator and general-allocator windows follow.  All
//! page-table changes the kernel ever makes stay inside this half.

use vstd::prelude::*;

verus! {

/// Userspace: the whole lower half.
pub const USERSPACE_START: u64 = 0x0000_0000_0000_0000;

pub const USERSPACE_END: u64 = 0x0000_7fff_ffff_ffff;

/// Guard hole at the bottom of the upper half (7.5 TiB).
pub const GUARD_HOLE_START: u64 = 0xffff_8000_0000_0000;

pub const GUARD_HOLE_END: u64 = 0xffff_8000_0000_0000 + 7680 * 0x4000_0000 - 1;

/// Direct mapping of all physical memory (64 TiB).
pub const PHYSICAL_MEM_START: u64 = GUARD_HOLE_END + 1;

pub const PHYSICAL_MEM_END: u64 = PHYSICAL_MEM_START + 64 * 0x100_0000_0000 - 1;

/// Unused hole (0.5 TiB).
pub const UNUSED_HOLE1_START: u64 = PHYSICAL_MEM_END + 1;

pub const UNUSED_HOLE1_END: u64 = UNUSED_HOLE1_START + 512 * 0x4000_0000 - 1;

/// Window holding the bitmap frame allocator's bitmap (1 TiB).
pub const BITMAP_FRAME_ALLOCATOR_START: u64 = UNUSED_HOLE1_END + 1;

pub const BITMAP_FRAME_ALLOCATOR_END: u64 = BITMAP_FRAME_ALLOCATOR_START + 0x100_0000_0000 - 1;

/// Window managed by the full-page allocator (31 TiB).
pub const ALLOCATOR_START: u64 = BITMAP_FRAME_ALLOCATOR_END + 1;

pub const ALLOCATOR_END: u64 = ALLOCATOR_START + 31 * 0x100_0000_0000 - 1;

} // verus!
