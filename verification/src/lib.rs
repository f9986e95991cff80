//! Early-boot physical-memory bookkeeping: a bump/watermark frame allocator
//! that hands out unique, strictly increasing physical page-frame numbers
//! from a bootloader-provided memory map, skipping the ranges occupied by
//! the kernel image and the boot-info structure, plus a text-mode console
//! writer used to trace its decisions.

pub mod memory;
pub mod vga_buffer;
