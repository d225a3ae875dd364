//! Verified core of a small x86 kernel: string helpers, the physical frame
//! allocator, the kernel heap, paging, the FAT12 reader, the ELF loader, the
//! scheduler and the device/console state machines.
use vstd::prelude::*;

pub mod ata;
pub mod e820;
pub mod elf;
pub mod fat12;
pub mod gdt;
pub mod heap;
pub mod idt;
pub mod isr;
pub mod kernel;
pub mod keyboard;
pub mod mem;
pub mod micro;
pub mod paging;
pub mod pmm;
pub mod roundrobin;
pub mod screen;
pub mod serial;
pub mod shell;
pub mod string;
pub mod syscall;
pub mod task;
pub mod text;
pub mod timer;

verus! {
} // verus!
