//! Core of a small bare-metal operating system kernel: a two-level memory
//! allocator (a power-of-two buddy page allocator under a slab/bin
//! allocator) and a read-only FAT32 filesystem stack over a block device.
//!
//! Allocator addresses are plain numbers: the allocator is the bookkeeping
//! that decides which address ranges are free, and that bookkeeping is what
//! is verified here. The filesystem is verified against a mathematical model
//! of the block device's sectors.

pub mod util;
pub mod bitmap;
pub mod linked_list;
pub mod buddy;
pub mod bin;
pub mod heap;
pub mod device;
pub mod cache;
pub mod bytes;
pub mod chars;
pub mod cluster;
pub mod metadata;
pub mod vfat;
pub mod mbr;
pub mod ebpb;
pub mod file;
pub mod dir;
pub mod entry;
