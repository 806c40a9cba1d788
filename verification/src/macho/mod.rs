//! The Mach-O file format.

pub mod command_laws;
pub mod constants;
pub mod dylib;
pub mod dylib_laws;
pub mod exports;
pub mod reader;
pub mod tbd;
pub mod tbd_yaml;
pub mod writer;
