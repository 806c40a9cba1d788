//! Dynamic libraries: what they are called, need and export.

use vstd::prelude::*;
use crate::macho::constants::{
    CPU_TYPE_ARM64, EXPORT_SYMBOL_FLAGS_KIND_THREAD_LOCAL, EXPORT_SYMBOL_FLAGS_WEAK_DEFINITION,
    LC_DYSYMTAB, LC_ID_DYLIB, LC_LOAD_DYLIB, LC_LOAD_UPWARD_DYLIB, LC_LOAD_WEAK_DYLIB,
    LC_REEXPORT_DYLIB, MH_DYLDLINK, MH_DYLIB, MH_MAGIC_64, MH_TWOLEVEL, N_WEAK_DEF,
};
use crate::macho::exports;
use crate::macho::exports::{ExportEntry, ExportKind, ExportModel, Exports, ExportsModel};
use crate::macho::reader;
use crate::macho::reader::{
    parse_commands, parse_header, DysymtabCmd, LoadCommand, MachHeader64, ReadError, SymtabCmd,
    HEADER_SIZE,
};
use crate::macho::tbd;
use crate::macho::tbd::{targets_match, ListsModel, Scoped, ScopedModel, SymbolLists, Target, Tbd};
use crate::macho::writer::commands;
use crate::macho::writer::commands::CommandModel;
use crate::string_table;
use crate::string_table::StringTable;
use crate::symbol;
use crate::symbol::{parse_nlist_table, InputSymbol};
use crate::text;
use crate::text::same_text;

verus! {

/// How a dylib is loaded by one that needs it.
#[derive(Debug, Clone, Copy, PartialEq, Eq, Structural)]
pub enum DylibLoadKind {
    Normal,
    Weak,
    Reexport,
    Upward,
}

impl DylibLoadKind {
    /// The load command of this kind.
    pub open spec fn spec_cmd(self) -> u32 {
        match self {
            DylibLoadKind::Normal => LC_LOAD_DYLIB,
            DylibLoadKind::Weak => LC_LOAD_WEAK_DYLIB,
            DylibLoadKind::Reexport => LC_REEXPORT_DYLIB,
            DylibLoadKind::Upward => LC_LOAD_UPWARD_DYLIB,
        }
    }

    /// The kind that a load command stands for.
    pub open spec fn of_cmd(cmd: u32) -> Option<DylibLoadKind> {
        if cmd == LC_LOAD_DYLIB {
            Some(DylibLoadKind::Normal)
        } else if cmd == LC_LOAD_WEAK_DYLIB {
            Some(DylibLoadKind::Weak)
        } else if cmd == LC_REEXPORT_DYLIB {
            Some(DylibLoadKind::Reexport)
        } else if cmd == LC_LOAD_UPWARD_DYLIB {
            Some(DylibLoadKind::Upward)
        } else {
            None
        }
    }

    pub fn from_cmd(cmd: u32) -> (r: Option<DylibLoadKind>)
        ensures
            r == DylibLoadKind::of_cmd(cmd),
    {
        match cmd {
            LC_LOAD_DYLIB => Some(DylibLoadKind::Normal),
            LC_LOAD_WEAK_DYLIB => Some(DylibLoadKind::Weak),
            LC_REEXPORT_DYLIB => Some(DylibLoadKind::Reexport),
            LC_LOAD_UPWARD_DYLIB => Some(DylibLoadKind::Upward),
            _ => None,
        }
    }

    pub fn load_cmd(self) -> (r: u32)
        ensures
            r == self.spec_cmd(),
    {
        match self {
            DylibLoadKind::Normal => LC_LOAD_DYLIB,
            DylibLoadKind::Weak => LC_LOAD_WEAK_DYLIB,
            DylibLoadKind::Reexport => LC_REEXPORT_DYLIB,
            DylibLoadKind::Upward => LC_LOAD_UPWARD_DYLIB,
        }
    }
}

/// A kind's load command stands for that kind, and for no other.
pub proof fn law_load_kind_roundtrip(kind: DylibLoadKind, cmd: u32)
    ensures
        DylibLoadKind::of_cmd(kind.spec_cmd()) == Some(kind),
        DylibLoadKind::of_cmd(cmd) == Some(kind) <==> cmd == kind.spec_cmd(),
{
}

/// A dylib that another one depends on. Ordinals count from one, in the order of
/// the load commands.
#[derive(Debug, Clone, PartialEq, Eq)]
pub struct DylibDependency {
    pub kind: DylibLoadKind,
    pub install_name: String,
    pub current_version: u32,
    pub compatibility_version: u32,
    pub ordinal: u16,
}

/// A `DylibDependency` with its name as a character sequence.
#[verifier::ext_equal]
pub struct DependencyModel {
    pub kind: DylibLoadKind,
    pub install_name: Seq<char>,
    pub current_version: u32,
    pub compatibility_version: u32,
    pub ordinal: u16,
}

impl View for DylibDependency {
    type V = DependencyModel;

    open spec fn view(&self) -> DependencyModel {
        DependencyModel {
            kind: self.kind,
            install_name: self.install_name@,
            current_version: self.current_version,
            compatibility_version: self.compatibility_version,
            ordinal: self.ordinal,
        }
    }
}

pub open spec fn dependencies_view(deps: Seq<DylibDependency>) -> Seq<DependencyModel> {
    deps.map_values(|d: DylibDependency| d@)
}

/// The ordinal of the first dependency with this name.
pub open spec fn ordinal_of(deps: Seq<DependencyModel>, name: Seq<char>) -> Option<u16>
    decreases deps.len(),
{
    if deps.len() == 0 {
        None
    } else if deps.first().install_name == name {
        Some(deps.first().ordinal)
    } else {
        ordinal_of(deps.drop_first(), name)
    }
}

pub fn dependency_ordinal(deps: &[DylibDependency], install_name: &str) -> (r: Option<u16>)
    ensures
        r == ordinal_of(dependencies_view(deps@), install_name@),
{
    let ghost all = dependencies_view(deps@);
    let mut i: usize = 0;
    assert(all.skip(0) =~= all);
    while i < deps.len()
        invariant
            i <= deps@.len(),
            all == dependencies_view(deps@),
            ordinal_of(all, install_name@) == ordinal_of(all.skip(i as int), install_name@),
        decreases deps@.len() - i,
    {
        assert(all.skip(i as int).first() == deps@[i as int]@);
        assert(all.skip(i as int).drop_first() =~= all.skip(i + 1));
        if same_text(deps[i].install_name.as_str(), install_name) {
            return Some(deps[i].ordinal);
        }
        i += 1;
    }
    None
}

/// A dylib.
#[derive(Debug)]
pub struct DylibFile {
    pub path: String,
    pub header: MachHeader64,
    pub commands: Vec<LoadCommand>,
    pub install_name: String,
    pub current_version: u32,
    pub compatibility_version: u32,
    pub dependencies: Vec<DylibDependency>,
    pub rpaths: Vec<String>,
    pub symtab: Option<SymtabCmd>,
    pub exports: Exports,
}

/// A dylib's name and versions.
#[verifier::ext_equal]
pub struct Identity {
    pub name: Seq<char>,
    pub current_version: u32,
    pub compatibility_version: u32,
}

/// What load commands say of a dylib.
#[verifier::ext_equal]
pub struct Found {
    pub identity: Option<Identity>,
    pub dependencies: Seq<DependencyModel>,
    pub rpaths: Seq<Seq<char>>,
    pub symtab: Option<SymtabCmd>,
}

pub open spec fn nothing_found() -> Found {
    Found { identity: None, dependencies: seq![], rpaths: seq![], symtab: None }
}

pub open spec fn bad_identity<T>(reason: &'static str) -> Result<T, ReadError> {
    Err(ReadError::BadDylibIdentity { reason })
}

/// What is known with a further load command. A dylib has one name, and that is
/// not empty.
pub open spec fn with_command(f: Found, c: CommandModel) -> Result<Found, ReadError> {
    match c {
        CommandModel::Dylib { cmd, name, current_version, compatibility_version, .. } => if cmd
            == LC_ID_DYLIB {
            if f.identity is Some {
                bad_identity("multiple LC_ID_DYLIB load commands")
            } else if name.len() == 0 {
                bad_identity("LC_ID_DYLIB install name is empty")
            } else {
                Ok(
                    Found {
                        identity: Some(Identity { name, current_version, compatibility_version }),
                        ..f
                    },
                )
            }
        } else {
            match DylibLoadKind::of_cmd(cmd) {
                Some(kind) => Ok(
                    Found {
                        dependencies: f.dependencies.push(
                            DependencyModel {
                                kind,
                                install_name: name,
                                current_version,
                                compatibility_version,
                                ordinal: (f.dependencies.len() + 1) as u16,
                            },
                        ),
                        ..f
                    },
                ),
                None => Ok(f),
            }
        },
        CommandModel::Rpath { path } => Ok(Found { rpaths: f.rpaths.push(path), ..f }),
        CommandModel::Symtab(s) => Ok(Found { symtab: Some(s), ..f }),
        _ => Ok(f),
    }
}

pub open spec fn found_from(cmds: Seq<CommandModel>, i: int, f: Found) -> Result<Found, ReadError>
    decreases cmds.len() - i,
{
    if i >= cmds.len() {
        Ok(f)
    } else {
        match with_command(f, cmds[i]) {
            Err(e) => Err(e),
            Ok(g) => found_from(cmds, i + 1, g),
        }
    }
}

/// Dependencies are numbered by their place, from one on.
pub open spec fn numbered(deps: Seq<DependencyModel>) -> bool {
    forall|i: int| 0 <= i < deps.len() ==> (#[trigger] deps[i]).ordinal == (i + 1) as u16
}

/// The dependencies that load commands name are numbered in the order of the commands,
/// and so are the libraries that a stub passes on.
pub proof fn law_dependencies_are_numbered(
    cmds: Seq<CommandModel>,
    i: int,
    f: Found,
    names: Seq<Seq<char>>,
)
    requires
        numbered(f.dependencies),
        found_from(cmds, i, f) is Ok,
    ensures
        numbered(found_from(cmds, i, f)->Ok_0.dependencies),
        numbered(reexported(names)),
    decreases cmds.len() - i,
{
    if i < cmds.len() {
        law_dependencies_are_numbered(cmds, i + 1, with_command(f, cmds[i])->Ok_0, names);
    }
}

/// The bytes of an export trie.
pub open spec fn trie_at(file: Seq<u8>, off: u32, size: u32) -> Result<ExportsModel, ReadError> {
    if off + size > usize::MAX {
        Err(
            ReadError::Truncated {
                need: usize::MAX,
                have: file.len() as usize,
                context: "export trie (offset + size overflows)",
            },
        )
    } else if off + size > file.len() {
        Err(
            ReadError::Truncated {
                need: (off + size) as usize,
                have: file.len() as usize,
                context: "export trie",
            },
        )
    } else {
        Ok(ExportsModel::Trie(file.subrange(off as int, off + size)))
    }
}

/// Same exports, same error.
pub open spec fn same_exports(r: Result<Exports, ReadError>, s: Result<ExportsModel, ReadError>) -> bool {
    match (r, s) {
        (Ok(x), Ok(m)) => x@ == m,
        (Err(e), Err(f)) => e == f,
        _ => false,
    }
}

fn trie_slice(file_bytes: &[u8], off: u32, size: u32) -> (r: Result<Exports, ReadError>)
    ensures
        same_exports(r, trie_at(file_bytes@, off, size)),
{
    let start: usize = off as usize;
    let end: usize = match start.checked_add(size as usize) {
        Some(end) => end,
        None => {
            return Err(
                ReadError::Truncated {
                    need: usize::MAX,
                    have: file_bytes.len(),
                    context: "export trie (offset + size overflows)",
                },
            );
        },
    };
    if end > file_bytes.len() {
        return Err(
            ReadError::Truncated { need: end, have: file_bytes.len(), context: "export trie" },
        );
    }
    Ok(Exports::from_trie_bytes(vstd::slice::slice_subrange(file_bytes, start, end)))
}

/// The last symbol table that is named.
pub open spec fn last_symtab(cmds: Seq<CommandModel>) -> Option<SymtabCmd>
    decreases cmds.len(),
{
    if cmds.len() == 0 {
        None
    } else {
        match cmds.last() {
            CommandModel::Symtab(s) => Some(s),
            _ => last_symtab(cmds.drop_last()),
        }
    }
}

pub open spec fn last_dysymtab(cmds: Seq<CommandModel>) -> Option<DysymtabCmd>
    decreases cmds.len(),
{
    if cmds.len() == 0 {
        None
    } else {
        match cmds.last() {
            CommandModel::Dysymtab(s) => Some(s),
            _ => last_dysymtab(cmds.drop_last()),
        }
    }
}

/// A symbol as an export.
pub open spec fn symbol_export(name: Seq<char>, sym: InputSymbol) -> ExportModel {
    ExportModel {
        name,
        flags: if sym.raw.n_desc & N_WEAK_DEF != 0 {
            EXPORT_SYMBOL_FLAGS_WEAK_DEFINITION
        } else {
            0
        },
        kind: ExportKind::Regular { address: sym.raw.n_value },
    }
}

/// The symbols from `i` to `end` as exports.
pub open spec fn symbol_exports(
    symbols: Seq<InputSymbol>,
    strings: Seq<u8>,
    i: int,
    end: int,
    done: Seq<ExportModel>,
) -> Result<Seq<ExportModel>, ReadError>
    decreases end - i,
{
    if i >= end {
        Ok(done)
    } else {
        match string_table::name_at(strings, symbols[i].raw.strx) {
            Err(e) => Err(e),
            Ok(name) => symbol_exports(
                symbols,
                strings,
                i + 1,
                end,
                done.push(symbol_export(name, symbols[i])),
            ),
        }
    }
}

pub open spec fn bad_range<T>(d: DysymtabCmd, reason: &'static str) -> Result<T, ReadError> {
    Err(
        ReadError::BadCmdsize {
            cmd: LC_DYSYMTAB,
            cmdsize: DysymtabCmd::WIRE_SIZE,
            at_offset: d.iextdefsym as usize,
            reason,
        },
    )
}

/// The exports of a dylib without an export trie: the external definitions of its
/// symbol table.
pub open spec fn legacy_exports(cmds: Seq<CommandModel>, file: Seq<u8>) -> Result<
    ExportsModel,
    ReadError,
> {
    match (last_symtab(cmds), last_dysymtab(cmds)) {
        (Some(s), Some(d)) => if d.iextdefsym + d.nextdefsym > u32::MAX {
            bad_range(d, "LC_DYSYMTAB external-definition range overflows")
        } else if d.iextdefsym + d.nextdefsym > s.nsyms {
            bad_range(d, "LC_DYSYMTAB external-definition range exceeds LC_SYMTAB nsyms")
        } else {
            match symbol::nlist_table_of(file, s.symoff, s.nsyms) {
                Err(e) => Err(e),
                Ok(symbols) => match string_table::table_error(file, s.stroff, s.strsize) {
                    Some(e) => Err(e),
                    None => match symbol_exports(
                        symbols,
                        file.subrange(s.stroff as int, s.stroff + s.strsize),
                        d.iextdefsym as int,
                        d.iextdefsym + d.nextdefsym,
                        seq![],
                    ) {
                        Ok(list) => Ok(ExportsModel::Listed(list)),
                        Err(e) => Err(e),
                    },
                },
            }
        },
        _ => Ok(ExportsModel::Listed(seq![])),
    }
}

/// The exports that load commands lead to. A trie is used where one is named; one
/// that is named as empty stands for no exports.
pub open spec fn exports_from(cmds: Seq<CommandModel>, i: int, named: bool, file: Seq<u8>) -> Result<
    ExportsModel,
    ReadError,
>
    decreases cmds.len() - i,
{
    if i >= cmds.len() {
        if named {
            Ok(ExportsModel::Listed(seq![]))
        } else {
            legacy_exports(cmds, file)
        }
    } else {
        match cmds[i] {
            CommandModel::DyldInfoOnly(d) => if d.export_size != 0 {
                trie_at(file, d.export_off, d.export_size)
            } else {
                exports_from(cmds, i + 1, true, file)
            },
            CommandModel::DyldExportsTrie(l) => if l.datasize != 0 {
                trie_at(file, l.dataoff, l.datasize)
            } else {
                exports_from(cmds, i + 1, true, file)
            },
            _ => exports_from(cmds, i + 1, named, file),
        }
    }
}

fn find_tables(cmds: &Vec<LoadCommand>) -> (r: (Option<SymtabCmd>, Option<DysymtabCmd>))
    ensures
        r.0 == last_symtab(commands::commands_view(cmds@)),
        r.1 == last_dysymtab(commands::commands_view(cmds@)),
{
    let ghost all = commands::commands_view(cmds@);
    let mut symtab: Option<SymtabCmd> = None;
    let mut dysymtab: Option<DysymtabCmd> = None;
    let mut i: usize = 0;
    while i < cmds.len()
        invariant
            i <= cmds@.len(),
            all == commands::commands_view(cmds@),
            symtab == last_symtab(all.take(i as int)),
            dysymtab == last_dysymtab(all.take(i as int)),
        decreases cmds@.len() - i,
    {
        assert(all.take(i + 1).drop_last() =~= all.take(i as int));
        assert(all.take(i + 1).last() == cmds@[i as int]@);
        match &cmds[i] {
            LoadCommand::Symtab(s) => {
                symtab = Some(*s);
            },
            LoadCommand::Dysymtab(d) => {
                dysymtab = Some(*d);
            },
            _ => {},
        }
        i += 1;
    }
    assert(all.take(i as int) =~= all);
    (symtab, dysymtab)
}

fn list_symbols(symbols: &Vec<InputSymbol>, strings: &StringTable, from: usize, end: usize) -> (r:
    Result<Vec<ExportEntry>, ReadError>)
    requires
        from <= end <= symbols@.len(),
    ensures
        match (r, symbol_exports(symbols@, strings@, from as int, end as int, seq![])) {
            (Ok(v), Ok(m)) => exports::entries_view(v@) == m,
            (Err(e), Err(f)) => e == f,
            _ => false,
        },
{
    let mut out: Vec<ExportEntry> = Vec::new();
    let mut i: usize = from;
    assert(exports::entries_view(out@) =~= seq![]);
    while i < end
        invariant
            from <= i <= end <= symbols@.len(),
            symbol_exports(symbols@, strings@, from as int, end as int, seq![]) == symbol_exports(
                symbols@,
                strings@,
                i as int,
                end as int,
                exports::entries_view(out@),
            ),
        decreases end - i,
    {
        let sym = symbols[i];
        let name = match strings.get(sym.strx()) {
            Ok(name) => name.to_owned(),
            Err(e) => {
                return Err(e);
            },
        };
        let entry = ExportEntry {
            name,
            flags: if sym.weak_def() {
                EXPORT_SYMBOL_FLAGS_WEAK_DEFINITION
            } else {
                0
            },
            kind: ExportKind::Regular { address: sym.value() },
        };
        let ghost before = exports::entries_view(out@);
        out.push(entry);
        assert(entry@ =~= symbol_export(name@, sym));
        assert(exports::entries_view(out@) =~= before.push(entry@));
        i += 1;
    }
    Ok(out)
}

fn locate_legacy_exports(cmds: &Vec<LoadCommand>, file_bytes: &[u8]) -> (r: Result<
    Exports,
    ReadError,
>)
    ensures
        same_exports(r, legacy_exports(commands::commands_view(cmds@), file_bytes@)),
{
    let (symtab, dysymtab) = find_tables(cmds);
    let s = match symtab {
        Some(s) => s,
        None => {
            return Ok(Exports::empty());
        },
    };
    let d = match dysymtab {
        Some(d) => d,
        None => {
            return Ok(Exports::empty());
        },
    };
    let end: u32 = match d.iextdefsym.checked_add(d.nextdefsym) {
        Some(end) => end,
        None => {
            return Err(
                ReadError::BadCmdsize {
                    cmd: LC_DYSYMTAB,
                    cmdsize: DysymtabCmd::WIRE_SIZE,
                    at_offset: d.iextdefsym as usize,
                    reason: "LC_DYSYMTAB external-definition range overflows",
                },
            );
        },
    };
    if end > s.nsyms {
        return Err(
            ReadError::BadCmdsize {
                cmd: LC_DYSYMTAB,
                cmdsize: DysymtabCmd::WIRE_SIZE,
                at_offset: d.iextdefsym as usize,
                reason: "LC_DYSYMTAB external-definition range exceeds LC_SYMTAB nsyms",
            },
        );
    }
    let symbols = match parse_nlist_table(file_bytes, s.symoff, s.nsyms) {
        Ok(symbols) => symbols,
        Err(e) => {
            return Err(e);
        },
    };
    let strings = match StringTable::from_file(file_bytes, s.stroff, s.strsize) {
        Ok(strings) => strings,
        Err(e) => {
            return Err(e);
        },
    };
    match list_symbols(&symbols, &strings, d.iextdefsym as usize, end as usize) {
        Ok(list) => Ok(Exports::from_entries(list)),
        Err(e) => Err(e),
    }
}

fn locate_exports(cmds: &Vec<LoadCommand>, file_bytes: &[u8]) -> (r: Result<Exports, ReadError>)
    ensures
        same_exports(
            r,
            exports_from(commands::commands_view(cmds@), 0, false, file_bytes@),
        ),
{
    let ghost all = commands::commands_view(cmds@);
    let mut named = false;
    let mut i: usize = 0;
    while i < cmds.len()
        invariant
            i <= cmds@.len(),
            all == commands::commands_view(cmds@),
            exports_from(all, 0, false, file_bytes@) == exports_from(
                all,
                i as int,
                named,
                file_bytes@,
            ),
        decreases cmds@.len() - i,
    {
        assert(all[i as int] == cmds@[i as int]@);
        match &cmds[i] {
            LoadCommand::DyldInfoOnly(d) => {
                if d.export_size != 0 {
                    return trie_slice(file_bytes, d.export_off, d.export_size);
                }
                named = true;
            },
            LoadCommand::DyldExportsTrie(l) => {
                if l.datasize != 0 {
                    return trie_slice(file_bytes, l.dataoff, l.datasize);
                }
                named = true;
            },
            _ => {},
        }
        i += 1;
    }
    if named {
        return Ok(Exports::empty());
    }
    locate_legacy_exports(cmds, file_bytes)
}

struct Gathered {
    identity: Option<(String, u32, u32)>,
    dependencies: Vec<DylibDependency>,
    rpaths: Vec<String>,
    symtab: Option<SymtabCmd>,
}

impl Gathered {
    spec fn model(self) -> Found {
        Found {
            identity: match self.identity {
                Some((name, a, b)) => Some(
                    Identity { name: name@, current_version: a, compatibility_version: b },
                ),
                None => None,
            },
            dependencies: dependencies_view(self.dependencies@),
            rpaths: text::texts(self.rpaths@),
            symtab: self.symtab,
        }
    }
}

fn next_ordinal(count: usize) -> (r: u16)
    ensures
        r == (count + 1) as u16,
{
    let n: u64 = count as u64;
    let w: u64 = n.wrapping_add(1);
    proof {
        if n == u64::MAX {
            assert(w as u16 == (n + 1) as u16) by (bit_vector)
                requires
                    n == 0xffff_ffff_ffff_ffffu64,
                    w == 0,
            ;
        }
    }
    w as u16
}

fn gather_command(g: &mut Gathered, c: &LoadCommand) -> (r: Result<(), ReadError>)
    ensures
        match (r, with_command(old(g).model(), c@)) {
            (Ok(_), Ok(f)) => final(g).model() == f,
            (Err(e), Err(f)) => e == f,
            _ => false,
        },
{
    let ghost before = g.model();
    match c {
        LoadCommand::Dylib(d) => {
            if d.cmd == LC_ID_DYLIB {
                if g.identity.is_some() {
                    return Err(
                        ReadError::BadDylibIdentity {
                            reason: "multiple LC_ID_DYLIB load commands",
                        },
                    );
                }
                proof {
                    reveal_strlit("");
                    assert(d.name@.len() == 0 ==> d.name@ =~= ""@);
                }
                if same_text(d.name.as_str(), "") {
                    return Err(
                        ReadError::BadDylibIdentity {
                            reason: "LC_ID_DYLIB install name is empty",
                        },
                    );
                }
                g.identity = Some((d.name.clone(), d.current_version, d.compatibility_version));
                assert(g.model() =~= with_command(before, c@)->Ok_0);
            } else if let Some(kind) = DylibLoadKind::from_cmd(d.cmd) {
                let ordinal: u16 = next_ordinal(g.dependencies.len());
                let dep = DylibDependency {
                    kind,
                    install_name: d.name.clone(),
                    current_version: d.current_version,
                    compatibility_version: d.compatibility_version,
                    ordinal,
                };
                let ghost had = g.dependencies@;
                g.dependencies.push(dep);
                assert(dependencies_view(g.dependencies@) =~= dependencies_view(had).push(dep@));
                assert(g.model() =~= with_command(before, c@)->Ok_0);
            }
        },
        LoadCommand::Rpath(p) => {
            let path = p.path.clone();
            let ghost had = g.rpaths@;
            g.rpaths.push(path);
            assert(text::texts(g.rpaths@) =~= text::texts(had).push(path@));
            assert(g.model() =~= with_command(before, c@)->Ok_0);
        },
        LoadCommand::Symtab(s) => {
            g.symtab = Some(*s);
            assert(g.model() =~= with_command(before, c@)->Ok_0);
        },
        _ => {},
    }
    Ok(())
}

fn gather(cmds: &Vec<LoadCommand>) -> (r: Result<Gathered, ReadError>)
    ensures
        match (r, found_from(commands::commands_view(cmds@), 0, nothing_found())) {
            (Ok(g), Ok(f)) => g.model() == f,
            (Err(e), Err(f)) => e == f,
            _ => false,
        },
{
    let ghost all = commands::commands_view(cmds@);
    let mut g = Gathered {
        identity: None,
        dependencies: Vec::new(),
        rpaths: Vec::new(),
        symtab: None,
    };
    let mut i: usize = 0;
    assert(g.model() =~= nothing_found());
    while i < cmds.len()
        invariant
            i <= cmds@.len(),
            all == commands::commands_view(cmds@),
            found_from(all, 0, nothing_found()) == found_from(all, i as int, g.model()),
        decreases cmds@.len() - i,
    {
        assert(all[i as int] == cmds@[i as int]@);
        if let Err(e) = gather_command(&mut g, &cmds[i]) {
            return Err(e);
        }
        i += 1;
    }
    Ok(g)
}

/// What stands in the way of a dylib with these load commands.
pub open spec fn commands_fault(cmds: Seq<CommandModel>, file: Seq<u8>) -> Option<ReadError> {
    match found_from(cmds, 0, nothing_found()) {
        Err(e) => Some(e),
        Ok(f) => if f.identity is None {
            Some(
                ReadError::BadDylibIdentity { reason: "missing LC_ID_DYLIB load command" },
            )
        } else {
            match exports_from(cmds, 0, false, file) {
                Err(e) => Some(e),
                Ok(_) => None,
            }
        },
    }
}

/// What stands in the way before the load commands are looked at.
pub open spec fn header_fault(file: Seq<u8>) -> Option<ReadError> {
    match reader::header_of(file) {
        Err(e) => Some(e),
        Ok(h) => if h.filetype != MH_DYLIB {
            Some(ReadError::UnexpectedFiletype { got: h.filetype, expected: MH_DYLIB })
        } else {
            reader::commands_error(file, HEADER_SIZE as int, h.ncmds as nat)
        },
    }
}

impl DylibFile {
    /// The dylib is what its load commands say.
    pub open spec fn reads(self, file: Seq<u8>) -> bool {
        let cmds = commands::commands_view(self.commands@);
        match found_from(cmds, 0, nothing_found()) {
            Ok(f) => {
                &&& f.identity == Some(
                    Identity {
                        name: self.install_name@,
                        current_version: self.current_version,
                        compatibility_version: self.compatibility_version,
                    },
                )
                &&& dependencies_view(self.dependencies@) == f.dependencies
                &&& text::texts(self.rpaths@) == f.rpaths
                &&& self.symtab == f.symtab
                &&& exports_from(cmds, 0, false, file) == Ok::<ExportsModel, ReadError>(
                    self.exports@,
                )
            },
            Err(_) => false,
        }
    }

    /// The dylib is what the file says.
    pub open spec fn parsed_from(self, path: Seq<char>, file: Seq<u8>) -> bool {
        &&& self.path@ == path
        &&& header_fault(file) is None
        &&& reader::header_of(file) == Ok::<MachHeader64, ReadError>(self.header)
        &&& reader::commands_decode(self.commands@, file, self.header.ncmds as nat)
        &&& self.reads(file)
    }

    /// The file is no dylib for this reason.
    pub open spec fn refused(file: Seq<u8>, e: ReadError) -> bool {
        header_fault(file) == Some(e) || header_fault(file) is None && exists|
            cmds: Seq<LoadCommand>,
        |
            #![trigger commands::commands_view(cmds)]
            reader::commands_decode(cmds, file, reader::header_of(file)->Ok_0.ncmds as nat)
                && commands_fault(commands::commands_view(cmds), file) == Some(e)
    }

    /// Parses a dylib.
    pub fn parse(path: String, file_bytes: &[u8]) -> (r: Result<DylibFile, ReadError>)
        ensures
            match r {
                Ok(d) => d.parsed_from(path@, file_bytes@),
                Err(e) => DylibFile::refused(file_bytes@, e),
            },
    {
        let header = match parse_header(file_bytes) {
            Ok(header) => header,
            Err(e) => {
                return Err(e);
            },
        };
        if header.filetype != MH_DYLIB {
            return Err(
                ReadError::UnexpectedFiletype { got: header.filetype, expected: MH_DYLIB },
            );
        }
        let cmds = match parse_commands(&header, file_bytes) {
            Ok(cmds) => cmds,
            Err(e) => {
                return Err(e);
            },
        };
        let ghost all = commands::commands_view(cmds@);
        let g = match gather(&cmds) {
            Ok(g) => g,
            Err(e) => {
                assert(commands_fault(all, file_bytes@) == Some(e));
                return Err(e);
            },
        };
        let (install_name, current_version, compatibility_version) = match g.identity {
            Some(identity) => identity,
            None => {
                let e = ReadError::BadDylibIdentity {
                    reason: "missing LC_ID_DYLIB load command",
                };
                assert(commands_fault(all, file_bytes@) == Some(e));
                return Err(e);
            },
        };
        let exports = match locate_exports(&cmds, file_bytes) {
            Ok(exports) => exports,
            Err(e) => {
                assert(commands_fault(all, file_bytes@) == Some(e));
                return Err(e);
            },
        };
        Ok(
            DylibFile {
                path,
                header,
                commands: cmds,
                install_name,
                current_version,
                compatibility_version,
                dependencies: g.dependencies,
                rpaths: g.rpaths,
                symtab: g.symtab,
                exports,
            },
        )
    }
}

/// An export without an address.
pub open spec fn stub_export(name: Seq<char>, flags: u64, kind: ExportKind) -> ExportModel {
    ExportModel { name, flags, kind }
}

pub open spec fn regular(names: Seq<Seq<char>>, prefix: Seq<char>, flags: u64) -> Seq<ExportModel> {
    names.map_values(
        |n: Seq<char>| stub_export(prefix + n, flags, ExportKind::Regular { address: 0 }),
    )
}

/// What lists of symbols export, each with its flags and without an address: classes, exception types and instance variables
/// under their linker names.
pub open spec fn list_exports(l: ListsModel) -> Seq<ExportModel> {
    regular(l.symbols, ""@, 0) + regular(
        l.weak_symbols,
        ""@,
        EXPORT_SYMBOL_FLAGS_WEAK_DEFINITION,
    ) + regular(
        l.thread_local_symbols,
        ""@,
        EXPORT_SYMBOL_FLAGS_KIND_THREAD_LOCAL,
    ) + regular(l.objc_classes, "_OBJC_CLASS_$_"@, 0) + regular(
        l.objc_eh_types,
        "_OBJC_EHTYPE_$_"@,
        0,
    ) + regular(l.objc_ivars, "_OBJC_IVAR_$_"@, 0)
}

/// What scoped lists export to a target.
pub open spec fn scoped_exports(s: Seq<ScopedModel<ListsModel>>, target: tbd::TargetModel) -> Seq<
    ExportModel,
>
    decreases s.len(),
{
    if s.len() == 0 {
        seq![]
    } else {
        let rest = scoped_exports(s.drop_last(), target);
        if tbd::any_serves(s.last().targets, target) {
            rest + list_exports(s.last().value)
        } else {
            rest
        }
    }
}

/// What a stub exports to a target: its own exports, then those that it passes on.
pub open spec fn stub_exports(t: tbd::TbdModel, target: tbd::TargetModel) -> Seq<ExportModel> {
    scoped_exports(t.exports, target) + scoped_exports(t.reexports, target)
}

/// The libraries that scoped lists name for a target.
pub open spec fn scoped_libraries(s: Seq<ScopedModel<Seq<Seq<char>>>>, target: tbd::TargetModel) -> Seq<
    Seq<char>,
>
    decreases s.len(),
{
    if s.len() == 0 {
        seq![]
    } else {
        let rest = scoped_libraries(s.drop_last(), target);
        if tbd::any_serves(s.last().targets, target) {
            rest + s.last().value
        } else {
            rest
        }
    }
}

/// Libraries whose exports are passed on, numbered from one.
pub open spec fn reexported(names: Seq<Seq<char>>) -> Seq<DependencyModel> {
    Seq::new(
        names.len(),
        |i: int|
            DependencyModel {
                kind: DylibLoadKind::Reexport,
                install_name: names[i],
                current_version: 0,
                compatibility_version: 0,
                ordinal: (i + 1) as u16,
            },
    )
}

/// What a stub depends on for a target.
pub open spec fn stub_dependencies(t: tbd::TbdModel, target: tbd::TargetModel) -> Seq<
    DependencyModel,
> {
    reexported(scoped_libraries(t.reexported_libraries, target))
}

fn push_names(
    out: &mut Vec<ExportEntry>,
    names: &Vec<String>,
    prefix: &str,
    flags: u64,
    kind: ExportKind,
)
    ensures
        exports::entries_view(final(out)@) == exports::entries_view(old(out)@) + text::texts(
            names@,
        ).map_values(|n: Seq<char>| stub_export(prefix@ + n, flags, kind)),
{
    let ghost before = exports::entries_view(out@);
    let ghost all = text::texts(names@).map_values(
        |n: Seq<char>| stub_export(prefix@ + n, flags, kind),
    );
    let mut i: usize = 0;
    assert(exports::entries_view(out@) =~= before + all.take(0));
    while i < names.len()
        invariant
            i <= names@.len(),
            all == text::texts(names@).map_values(
                |n: Seq<char>| stub_export(prefix@ + n, flags, kind),
            ),
            exports::entries_view(out@) == before + all.take(i as int),
        decreases names@.len() - i,
    {
        let mut name = prefix.to_owned();
        name.append(names[i].as_str());
        let entry = ExportEntry { name, flags, kind };
        let ghost was = exports::entries_view(out@);
        out.push(entry);
        assert(entry@ =~= all[i as int]);
        assert(exports::entries_view(out@) =~= was.push(entry@));
        assert(before + all.take(i + 1) =~= (before + all.take(i as int)).push(all[i as int]));
        i += 1;
    }
    assert(all.take(i as int) =~= all);
}

fn append_entries(lists: &SymbolLists, out: &mut Vec<ExportEntry>)
    ensures
        exports::entries_view(final(out)@) == exports::entries_view(old(out)@) + list_exports(
            lists@,
        ),
{
    let ghost before = exports::entries_view(out@);
    let plain = ExportKind::Regular { address: 0 };
    push_names(out, &lists.symbols, "", 0, plain);
    push_names(out, &lists.weak_symbols, "", EXPORT_SYMBOL_FLAGS_WEAK_DEFINITION, plain);
    push_names(
        out,
        &lists.thread_local_symbols,
        "",
        EXPORT_SYMBOL_FLAGS_KIND_THREAD_LOCAL,
        plain,
    );
    push_names(out, &lists.objc_classes, "_OBJC_CLASS_$_", 0, plain);
    push_names(out, &lists.objc_eh_types, "_OBJC_EHTYPE_$_", 0, plain);
    push_names(out, &lists.objc_ivars, "_OBJC_IVAR_$_", 0, plain);
    assert(exports::entries_view(out@) =~= before + list_exports(lists@));
}

fn push_scoped(scoped: &Vec<Scoped<SymbolLists>>, target: &Target, out: &mut Vec<ExportEntry>)
    ensures
        exports::entries_view(final(out)@) == exports::entries_view(old(out)@) + scoped_exports(
            tbd::scoped_view(scoped@, tbd::as_lists()),
            target@,
        ),
{
    let ghost before = exports::entries_view(out@);
    let ghost all = tbd::scoped_view(scoped@, tbd::as_lists());
    let mut i: usize = 0;
    assert(exports::entries_view(out@) =~= before + scoped_exports(all.take(0), target@));
    while i < scoped.len()
        invariant
            i <= scoped@.len(),
            all == tbd::scoped_view(scoped@, tbd::as_lists()),
            exports::entries_view(out@) == before + scoped_exports(all.take(i as int), target@),
        decreases scoped@.len() - i,
    {
        let ghost had = scoped_exports(all.take(i as int), target@);
        assert(all.take(i + 1).drop_last() =~= all.take(i as int));
        if targets_match(&scoped[i].targets, target) {
            append_entries(&scoped[i].value, out);
            assert(before + had + list_exports(all[i as int].value) =~= before + (had
                + list_exports(all[i as int].value)));
        }
        i += 1;
    }
    assert(all.take(i as int) =~= all);
}

fn push_libraries(scoped: &Vec<Scoped<Vec<String>>>, target: &Target) -> (r: Vec<DylibDependency>)
    ensures
        dependencies_view(r@) == reexported(
            scoped_libraries(tbd::scoped_view(scoped@, tbd::as_texts()), target@),
        ),
{
    let ghost all = tbd::scoped_view(scoped@, tbd::as_texts());
    let mut out: Vec<DylibDependency> = Vec::new();
    let mut i: usize = 0;
    assert(dependencies_view(out@) =~= reexported(scoped_libraries(all.take(0), target@)));
    while i < scoped.len()
        invariant
            i <= scoped@.len(),
            all == tbd::scoped_view(scoped@, tbd::as_texts()),
            dependencies_view(out@) == reexported(scoped_libraries(all.take(i as int), target@)),
        decreases scoped@.len() - i,
    {
        let ghost had = scoped_libraries(all.take(i as int), target@);
        assert(all.take(i + 1).drop_last() =~= all.take(i as int));
        if targets_match(&scoped[i].targets, target) {
            let names = &scoped[i].value;
            let ghost more = text::texts(names@);
            let mut k: usize = 0;
            assert(had + more.take(0) =~= had);
            while k < names.len()
                invariant
                    k <= names@.len(),
                    more == text::texts(names@),
                    dependencies_view(out@) == reexported(had + more.take(k as int)),
                decreases names@.len() - k,
            {
                let dep = DylibDependency {
                    kind: DylibLoadKind::Reexport,
                    install_name: names[k].clone(),
                    current_version: 0,
                    compatibility_version: 0,
                    ordinal: next_ordinal(out.len()),
                };
                let ghost was = dependencies_view(out@);
                out.push(dep);
                proof {
                    assert(dependencies_view(out@) =~= was.push(dep@));
                    assert(dependencies_view(out@) =~= reexported(had + more.take(k + 1)));
                }
                k += 1;
            }
            assert(more.take(k as int) =~= more);
        }
        i += 1;
    }
    assert(all.take(i as int) =~= all);
    out
}

/// The version of a stub that names none.
pub const DEFAULT_TBD_VERSION: u32 = 0x1_0000;

/// The header of a dylib that is known by its stub.
pub open spec fn stub_header() -> MachHeader64 {
    MachHeader64 {
        magic: MH_MAGIC_64,
        cputype: CPU_TYPE_ARM64,
        cpusubtype: 0,
        filetype: MH_DYLIB,
        ncmds: 0,
        sizeofcmds: 0,
        flags: MH_DYLDLINK | MH_TWOLEVEL,
        reserved: 0,
    }
}

fn synthetic_header() -> (r: MachHeader64)
    ensures
        r == stub_header(),
{
    MachHeader64 {
        magic: MH_MAGIC_64,
        cputype: CPU_TYPE_ARM64,
        cpusubtype: 0,
        filetype: MH_DYLIB,
        ncmds: 0,
        sizeofcmds: 0,
        flags: MH_DYLDLINK | MH_TWOLEVEL,
        reserved: 0,
    }
}

impl DylibFile {
    /// The dylib that a stub describes, as far as it serves the target.
    pub fn from_tbd(path: String, tbd: &Tbd, target: &Target) -> (r: DylibFile)
        ensures
            r.path@ == path@,
            r.header == stub_header(),
            r.commands@.len() == 0,
            r.install_name@ == tbd.install_name@,
            r.current_version == (match tbd.current_version {
                Some(v) => v,
                None => DEFAULT_TBD_VERSION,
            }),
            r.compatibility_version == (match tbd.compatibility_version {
                Some(v) => v,
                None => DEFAULT_TBD_VERSION,
            }),
            dependencies_view(r.dependencies@) == stub_dependencies(tbd@, target@),
            r.rpaths@.len() == 0,
            r.symtab is None,
            r.exports@ == ExportsModel::Listed(stub_exports(tbd@, target@)),
    {
        let mut entries: Vec<ExportEntry> = Vec::new();
        assert(exports::entries_view(entries@) =~= seq![]);
        push_scoped(&tbd.exports, target, &mut entries);
        push_scoped(&tbd.reexports, target, &mut entries);
        assert(exports::entries_view(entries@) =~= scoped_exports(tbd@.exports, target@)
            + scoped_exports(tbd@.reexports, target@));
        DylibFile {
            path,
            header: synthetic_header(),
            commands: Vec::new(),
            install_name: tbd.install_name.clone(),
            current_version: match tbd.current_version {
                Some(v) => v,
                None => DEFAULT_TBD_VERSION,
            },
            compatibility_version: match tbd.compatibility_version {
                Some(v) => v,
                None => DEFAULT_TBD_VERSION,
            },
            dependencies: push_libraries(&tbd.reexported_libraries, target),
            rpaths: Vec::new(),
            symtab: None,
            exports: Exports::from_entries(entries),
        }
    }
}

} // verus!
