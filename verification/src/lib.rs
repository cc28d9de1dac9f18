//! Core of a small single-core kernel: physical frame allocation, the
//! four-level page-table walk and mapper, heap bootstrap with a verified
//! range allocator, a cooperative task executor with wakers, and the
//! interrupt-to-future scancode bridge.  Hardware access (the boot hand-off,
//! the VGA text buffer, CPU halt and interrupt control) lives outside this
//! crate; everything here works on plain values and is verified.

pub mod frame_alloc;
pub mod heap;
pub mod keyboard;
pub mod paging;
pub mod sleep;
pub mod sudoku;
pub mod task;
pub mod vga;
