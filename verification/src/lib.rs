//! Core services of a small x86_64 kernel, stated and proved over plain
//! values: path algebra for the virtual filesystem, the physical-frame and
//! virtual-page allocators, the bucketed heap, timer calibration arithmetic,
//! interrupt-controller register encodings, and the RAM filesystem with its
//! directory-entry cache.  Hardware access (port I/O, MMIO, page tables)
//! lives outside this crate; every function here is a decision or a
//! computation on values the hardware hands in.

pub mod ancestors;
pub mod components;
pub mod dentry;
pub mod fpa;
pub mod heap;
pub mod frames;
pub mod ioapic;
pub mod lapic;
pub mod layout;
pub mod path;
pub mod pit;
pub mod ramfs;
pub mod serial;
pub mod time;
pub mod vfs;
pub mod pathbuf;
