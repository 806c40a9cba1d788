//! Building blocks of a linker for ARM64 Mach-O images.

pub mod atom;
pub mod bytes;
pub mod chars;
pub mod dyld_binds;
pub mod dyld_info;
pub mod elf;
pub mod input;
pub mod layout;
pub mod leb;
pub mod macho;
pub mod model;
pub mod options;
pub mod output;
pub mod path;
pub mod reloc;
pub mod resolve;
pub mod section;
pub mod sorting;
pub mod string_table;
pub mod symbol;
pub mod symbol_visibility;
pub mod synth;
pub mod text;
