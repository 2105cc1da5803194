pub mod kernel32;
pub mod kernel32_laws;
