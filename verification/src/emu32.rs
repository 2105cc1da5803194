pub mod console;
pub mod maps;
