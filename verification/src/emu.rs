pub mod maps;
pub mod winapi64;

use vstd::prelude::*;
use crate::emu::maps::Maps;

verus! {

/// The registers the Windows API handlers read and write.
pub struct Regs64 {
    pub rax: u64,
    pub rcx: u64,
    pub rdx: u64,
}

/// The state of an emulated 64-bit process that the API handlers work on.
pub struct Emu {
    pub regs: Regs64,
    pub maps: Maps,
}

} // verus!
