//! What the user asks of a link.

use vstd::prelude::*;

verus! {

#[derive(Debug, Clone, Copy, PartialEq, Eq, Structural)]
pub enum OutputKind {
    Executable,
    Dylib,
}

/// When to insert branch thunks.
#[derive(Debug, Clone, Copy, PartialEq, Eq, Structural)]
pub enum ThunkMode {
    /// On no branch.
    Never,
    /// Where a branch cannot reach its target.
    Safe,
    /// On every branch.
    All,
}

/// The deployment target and the SDK, as packed versions.
#[derive(Debug, Clone, Copy, PartialEq, Eq, Structural)]
pub struct PlatformVersion {
    pub minos: u32,
    pub sdk: u32,
}

#[derive(Debug, Clone, PartialEq, Eq)]
pub struct LinkOptions {
    pub kind: OutputKind,
    pub thunks: ThunkMode,
    pub output: Option<String>,
    pub install_name: Option<String>,
    pub current_version: Option<u32>,
    pub compatibility_version: Option<u32>,
    pub platform_version: Option<PlatformVersion>,
    pub rpaths: Vec<String>,
    pub emit_uuid: bool,
    pub dead_strip: bool,
    pub strip_locals: bool,
    /// Patterns of names to export; empty to export every name.
    pub exported_symbols: Vec<String>,
    /// Patterns of names not to export.
    pub unexported_symbols: Vec<String>,
}

impl Default for LinkOptions {
    fn default() -> (r: LinkOptions)
        ensures
            r.kind == OutputKind::Executable,
            r.thunks == ThunkMode::Safe,
            r.output is None,
            r.install_name is None,
            r.current_version is None,
            r.compatibility_version is None,
            r.platform_version is None,
            r.rpaths@.len() == 0,
            r.emit_uuid,
            !r.dead_strip,
            !r.strip_locals,
            r.exported_symbols@.len() == 0,
            r.unexported_symbols@.len() == 0,
    {
        LinkOptions {
            kind: OutputKind::Executable,
            thunks: ThunkMode::Safe,
            output: None,
            install_name: None,
            current_version: None,
            compatibility_version: None,
            platform_version: None,
            rpaths: Vec::new(),
            emit_uuid: true,
            dead_strip: false,
            strip_locals: false,
            exported_symbols: Vec::new(),
            unexported_symbols: Vec::new(),
        }
    }
}

} // verus!
