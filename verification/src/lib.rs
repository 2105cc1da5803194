pub mod emu;
pub mod emu32;
pub mod strings;
