pub mod addr;
pub mod bootinfo;
pub mod context;
pub mod elf;
pub mod frame_allocator;
pub mod loader;
pub mod mapper;
pub mod page_allocator;

use vstd::prelude::*;

verus! {

/// The failure taxonomy of the bootloader: physical or virtual memory
/// exhaustion, a malformed or conflicting configuration (bad ELF layout,
/// overlapping segment claims, an unsupported framebuffer format), or a
/// firmware call that failed.
#[derive(Clone, Copy, Debug, PartialEq, Eq, Structural)]
pub enum BootError {
    OutOfMemory,
    VirtualSpaceExhausted,
    ConfigurationError,
    FirmwareError,
}

} // verus!
