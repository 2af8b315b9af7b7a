//! A bitmap-backed physical page-frame allocator for early boot: one bit per
//! page frame, built from the memory map that the bootloader supplies.
//!
//! * [`bitmap`]: a fixed-capacity vector of one-bit flags over a borrowed
//!   byte region.
//! * [`memory_map`]: the memory map as plain values, and its totals.
//! * [`pmm`]: the frame allocator and its initialization.

pub mod bitmap;
pub mod memory_map;
pub mod pmm;
