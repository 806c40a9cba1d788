//! Seeding: filling the symbol table from the inputs.

use vstd::prelude::*;
use crate::input::ObjectFile;
use crate::macho::exports;
use crate::macho::exports::{ExportEntry, ExportModel};
use crate::macho::reader::ReadError;
use crate::resolve::inputs;
use crate::resolve::inputs::{ArchiveModel, DylibModel, IndexModel, Inputs, InputsModel, ObjectModel};
use crate::resolve::names;
use crate::resolve::names::{ArchiveId, AtomId, DylibId, InputId, Istr, MemberId, SymbolId};
use crate::resolve::table::{InsertError, InsertOutcome, Symbol, SymbolTable, TableState};
use crate::symbol::{InputSymbol, SymKind};
use crate::macho::constants::{N_NO_DEAD_STRIP, N_WEAK_DEF, N_WEAK_REF};

verus! {

/// A member that is wanted for the symbol in a slot.
#[derive(Debug, Clone, Copy, PartialEq, Eq, Structural)]
pub struct PendingFetch {
    pub id: SymbolId,
    pub archive: ArchiveId,
    pub member: MemberId,
}

/// Which inputs refer to each name, in the order in which they did first.
#[derive(Debug, Clone)]
pub struct ReferrerLog {
    entries: Vec<Vec<InputId>>,
}

/// A list of inputs with one more, unless it is there already.
pub open spec fn noted(list: Seq<InputId>, origin: InputId) -> Seq<InputId> {
    if list.contains(origin) {
        list
    } else {
        list.push(origin)
    }
}

/// A list of inputs with more of them noted, in their order.
pub open spec fn all_noted(list: Seq<InputId>, more: Seq<InputId>) -> Seq<InputId>
    decreases more.len(),
{
    if more.len() == 0 {
        list
    } else {
        noted(all_noted(list, more.drop_last()), more.last())
    }
}

/// A log with what another one notes.
pub open spec fn logs_joined(a: Map<u32, Seq<InputId>>, b: Map<u32, Seq<InputId>>) -> Map<
    u32,
    Seq<InputId>,
> {
    Map::new(|n: u32| true, |n: u32| all_noted(a[n], b[n]))
}

/// The log of nothing.
pub open spec fn empty_log() -> Map<u32, Seq<InputId>> {
    Map::new(|n: u32| true, |n: u32| Seq::empty())
}

impl View for ReferrerLog {
    type V = Map<u32, Seq<InputId>>;

    /// The inputs that refer to the name behind each handle.
    closed spec fn view(&self) -> Map<u32, Seq<InputId>> {
        Map::new(
            |n: u32| true,
            |n: u32| if n < self.entries@.len() { self.entries@[n as int]@ } else { Seq::empty() },
        )
    }
}

impl Default for ReferrerLog {
    fn default() -> (r: ReferrerLog)
        ensures
            r@ == empty_log(),
    {
        let r = ReferrerLog { entries: Vec::new() };
        assert(r@ =~= empty_log());
        r
    }
}

fn lists(list: &Vec<InputId>, origin: InputId) -> (r: bool)
    ensures
        r == list@.contains(origin),
{
    let mut i: usize = 0;
    while i < list.len()
        invariant
            i <= list@.len(),
            forall|k: int| 0 <= k < i ==> list@[k] != origin,
        decreases list@.len() - i,
    {
        if list[i].0 == origin.0 {
            assert(list@[i as int] == origin);
            return true;
        }
        i += 1;
    }
    false
}

impl ReferrerLog {
    pub fn new() -> (r: ReferrerLog)
        ensures
            r@ == empty_log(),
    {
        ReferrerLog::default()
    }

    /// Notes that an input refers to a name.
    pub fn add(&mut self, name: Istr, origin: InputId)
        ensures
            final(self)@ == old(self)@.insert(name.0, noted(old(self)@[name.0], origin)),
    {
        let ghost start = self@;
        while self.entries.len() <= name.0 as usize
            invariant
                self@ == start,
            decreases name.0 + 1 - self.entries@.len(),
        {
            let none: Vec<InputId> = Vec::new();
            let ghost before = *self;
            self.entries.push(none);
            assert(self@ =~= before@);
        }
        let at: usize = name.0 as usize;
        if !lists(&self.entries[at], origin) {
            let ghost before = *self;
            self.entries[at].push(origin);
            assert(self@ =~= start.insert(name.0, noted(start[name.0], origin)));
        }
        assert(self@ =~= start.insert(name.0, noted(start[name.0], origin)));
    }

    /// The inputs that refer to a name.
    pub fn get(&self, name: Istr) -> (r: Vec<InputId>)
        ensures
            r@ == self@[name.0],
    {
        let mut out: Vec<InputId> = Vec::new();
        if (name.0 as usize) < self.entries.len() {
            let list = &self.entries[name.0 as usize];
            let mut i: usize = 0;
            while i < list.len()
                invariant
                    i <= list@.len(),
                    out@ == list@.take(i as int),
                decreases list@.len() - i,
            {
                out.push(list[i]);
                assert(out@ =~= list@.take(i + 1));
                i += 1;
            }
            assert(out@ =~= list@);
        }
        out
    }

    /// Notes what another log notes.
    pub fn extend_from(&mut self, other: &ReferrerLog)
        ensures
            final(self)@ == logs_joined(old(self)@, other@),
    {
        let ghost start = self@;
        let ghost theirs = other@;
        let mut n: usize = 0;
        while n < other.entries.len() && n <= 0xffff_ffff
            invariant
                n <= other.entries@.len(),
                n <= 0x1_0000_0000,
                theirs == other@,
                forall|k: u32| #[trigger]
                    self@[k] == if k < n {
                        all_noted(start[k], theirs[k])
                    } else {
                        start[k]
                    },
                forall|k: u32| self@.contains_key(k),
            decreases other.entries@.len() - n,
        {
            let name: u32 = n as u32;
            assert(self@[name] == start[name]);
            self.extend_name(name, &other.entries[n]);
            assert(other.entries@[n as int]@ == theirs[name]);
            n += 1;
        }
        proof {
            assert forall|k: u32| #[trigger] self@[k] == all_noted(start[k], theirs[k]) by {
                if k >= other.entries@.len() {
                    assert(theirs[k] =~= Seq::empty());
                }
            }
            assert(self@ =~= logs_joined(start, theirs));
        }
    }

    fn extend_name(&mut self, name: u32, more: &Vec<InputId>)
        ensures
            final(self)@ == old(self)@.insert(name, all_noted(old(self)@[name], more@)),
    {
        let ghost start = self@;
        let mut i: usize = 0;
        assert(start =~= start.insert(name, all_noted(start[name], more@.take(0)))) by {
            assert(more@.take(0).len() == 0);
            assert(start.contains_key(name));
        }
        while i < more.len()
            invariant
                i <= more@.len(),
                self@ == start.insert(name, all_noted(start[name], more@.take(i as int))),
            decreases more@.len() - i,
        {
            assert(more@.take(i + 1).drop_last() =~= more@.take(i as int));
            self.add(Istr(name), more[i]);
            assert(self@ =~= start.insert(name, all_noted(start[name], more@.take(i + 1))));
            i += 1;
        }
        assert(more@.take(i as int) =~= more@);
    }
}

/// What seeding found.
#[derive(Debug)]
pub struct SeedReport {
    /// Members that are wanted.
    pub pending_fetches: Vec<PendingFetch>,
    /// Insertions that were refused.
    pub duplicates: Vec<InsertError>,
    pub referrers: ReferrerLog,
}

/// A `SeedReport` by its contents.
#[verifier::ext_equal]
pub struct ReportModel {
    pub pending: Seq<PendingFetch>,
    pub duplicates: Seq<InsertError>,
    pub referrers: Map<u32, Seq<InputId>>,
}

impl View for SeedReport {
    type V = ReportModel;

    open spec fn view(&self) -> ReportModel {
        ReportModel {
            pending: self.pending_fetches@,
            duplicates: self.duplicates@,
            referrers: self.referrers@,
        }
    }
}

impl ReportModel {
    pub open spec fn empty() -> ReportModel {
        ReportModel { pending: seq![], duplicates: seq![], referrers: empty_log() }
    }

    /// The report with the result of an insertion noted.
    pub open spec fn recorded(self, result: Result<InsertOutcome, InsertError>) -> ReportModel {
        match result {
            Ok(InsertOutcome::PendingArchiveFetch { id, archive, member }) => ReportModel {
                pending: self.pending.push(PendingFetch { id, archive, member }),
                ..self
            },
            Ok(_) => self,
            Err(e) => ReportModel { duplicates: self.duplicates.push(e), ..self },
        }
    }
}

impl Default for SeedReport {
    fn default() -> (r: SeedReport)
        ensures
            r@ == ReportModel::empty(),
    {
        let r = SeedReport {
            pending_fetches: Vec::new(),
            duplicates: Vec::new(),
            referrers: ReferrerLog::new(),
        };
        assert(r@ =~= ReportModel::empty());
        r
    }
}

impl SeedReport {
    fn record(&mut self, result: Result<InsertOutcome, InsertError>)
        ensures
            final(self)@ == old(self)@.recorded(result),
    {
        match result {
            Ok(InsertOutcome::PendingArchiveFetch { id, archive, member }) => {
                self.pending_fetches.push(PendingFetch { id, archive, member });
            },
            Ok(_) => {},
            Err(e) => {
                self.duplicates.push(e);
            },
        }
        assert(self@ =~= old(self)@.recorded(result));
    }

    /// An insertion was refused.
    pub fn has_errors(&self) -> (r: bool)
        ensures
            r == (self@.duplicates.len() > 0),
    {
        self.duplicates.len() > 0
    }
}

/// Why the inputs could not be seeded.
#[derive(Debug, Clone, Copy, PartialEq, Eq)]
pub enum SeedError {
    /// The export trie of a dylib cannot be read.
    Read(ReadError),
}

impl SeedError {
    /// The message that a user sees.
    pub open spec fn message(self) -> Seq<char> {
        match self {
            SeedError::Read(e) => e.message(),
        }
    }

    pub fn to_string(&self) -> (r: String)
        ensures
            r@ == self.message(),
    {
        match self {
            SeedError::Read(e) => e.to_string(),
        }
    }
}

/// The table and the report, as seeding leaves them.
#[verifier::ext_equal]
pub struct Seeding {
    pub table: TableState,
    pub report: ReportModel,
}

impl Seeding {
    /// The handle that a name gets.
    pub open spec fn handle(self, name: Seq<char>) -> Istr {
        names::interned(self.table.names, name).1
    }

    /// With a name interned.
    pub open spec fn interned(self, name: Seq<char>) -> Seeding {
        Seeding { table: self.table.after_intern(name), ..self }
    }

    /// With a reference noted.
    pub open spec fn referred(self, name: Istr, origin: InputId) -> Seeding {
        Seeding {
            report: ReportModel {
                referrers: self.report.referrers.insert(
                    name.0,
                    noted(self.report.referrers[name.0], origin),
                ),
                ..self.report
            },
            ..self
        }
    }

    /// With a symbol inserted.
    pub open spec fn inserted(self, sym: Symbol) -> Seeding {
        Seeding {
            table: self.table.after_insert(sym),
            report: self.report.recorded(self.table.insert_result(sym)),
        }
    }
}

fn insert_symbol(table: &mut SymbolTable, report: &mut SeedReport, sym: Symbol)
    requires
        old(table).wf(),
    ensures
        final(table).wf(),
        (Seeding { table: final(table)@, report: final(report)@ }) == (Seeding {
            table: old(table)@,
            report: old(report)@,
        }).inserted(sym),
{
    let result = table.insert(sym);
    report.record(result);
}

/// After the entries of an archive's index: each name is to be had from a member.
pub open spec fn index_seeded(s: Seeding, entries: Seq<IndexModel>, archive: ArchiveId) -> Seeding
    decreases entries.len(),
{
    if entries.len() == 0 {
        s
    } else {
        let before = index_seeded(s, entries.drop_last(), archive);
        let e = entries.last();
        before.interned(e.name).inserted(
            Symbol::LazyArchive {
                name: before.handle(e.name),
                archive,
                member: MemberId(e.member_header_offset),
            },
        )
    }
}

/// After the indexes of all archives. An archive without one gives nothing.
pub open spec fn archives_seeded(s: Seeding, archives: Seq<ArchiveModel>) -> Seeding
    decreases archives.len(),
{
    if archives.len() == 0 {
        s
    } else {
        let before = archives_seeded(s, archives.drop_last());
        match archives.last().index {
            Some(entries) => index_seeded(
                before,
                entries,
                ArchiveId((archives.len() - 1) as u32),
            ),
            None => before,
        }
    }
}

/// Notes for every name in an archive's index that a member has it.
pub fn seed_archives(inputs: &Inputs, table: &mut SymbolTable, report: &mut SeedReport)
    requires
        old(table).wf(),
    ensures
        final(table).wf(),
        (Seeding { table: final(table)@, report: final(report)@ }) == archives_seeded(
            (Seeding { table: old(table)@, report: old(report)@ }),
            inputs@.archives,
        ),
{
    let ghost start = Seeding { table: table@, report: report@ };
    let ghost all = inputs@.archives;
    let mut i: usize = 0;
    assert(all.take(0).len() == 0);
    while i < inputs.archives.len()
        invariant
            i <= inputs.archives@.len(),
            all == inputs@.archives,
            table.wf(),
            (Seeding { table: table@, report: report@ }) == archives_seeded(
                start,
                all.take(i as int),
            ),
        decreases inputs.archives@.len() - i,
    {
        assert(all.take(i + 1).drop_last() =~= all.take(i as int));
        assert(all[i as int] == inputs.archives@[i as int]@);
        match &inputs.archives[i].index {
            Some(entries) => {
                seed_index(entries, ArchiveId(i as u32), table, report);
            },
            None => {},
        }
        i += 1;
    }
    assert(all.take(i as int) =~= all);
}

fn seed_index(
    entries: &Vec<inputs::IndexEntry>,
    archive: ArchiveId,
    table: &mut SymbolTable,
    report: &mut SeedReport,
)
    requires
        old(table).wf(),
    ensures
        final(table).wf(),
        (Seeding { table: final(table)@, report: final(report)@ }) == index_seeded(
            (Seeding { table: old(table)@, report: old(report)@ }),
            inputs::index_view(entries@),
            archive,
        ),
{
    let ghost start = Seeding { table: table@, report: report@ };
    let ghost all = inputs::index_view(entries@);
    let mut i: usize = 0;
    assert(all.take(0).len() == 0);
    while i < entries.len()
        invariant
            i <= entries@.len(),
            all == inputs::index_view(entries@),
            table.wf(),
            (Seeding { table: table@, report: report@ }) == index_seeded(
                start,
                all.take(i as int),
                archive,
            ),
        decreases entries@.len() - i,
    {
        assert(all.take(i + 1).drop_last() =~= all.take(i as int));
        assert(all[i as int] == entries@[i as int]@);
        let name = table.intern(entries[i].name.as_str());
        insert_symbol(
            table,
            report,
            Symbol::LazyArchive {
                name,
                archive,
                member: MemberId(entries[i].member_header_offset),
            },
        );
        i += 1;
    }
    assert(all.take(i as int) =~= all);
}

/// What a symbol of an object is to resolution. Aliases of the object file are not
/// followed.
pub open spec fn symbolized(name: Istr, sym: InputSymbol, origin: InputId) -> Option<Symbol> {
    match sym.spec_kind() {
        SymKind::Undef => Some(
            if sym.spec_is_common() {
                Symbol::Common {
                    name,
                    origin,
                    size: sym.raw.n_value,
                    align_pow2: ((sym.raw.n_desc >> 8) & 0x0f) as u8,
                }
            } else {
                Symbol::Undefined { name, origin, weak_ref: sym.raw.n_desc & N_WEAK_REF != 0 }
            },
        ),
        SymKind::Indirect => None,
        _ => Some(
            Symbol::Defined {
                name,
                origin,
                atom: AtomId(0),
                value: sym.raw.n_value,
                weak: sym.raw.n_desc & N_WEAK_DEF != 0,
                private_extern: sym.spec_is_private_ext(),
                no_dead_strip: sym.raw.n_desc & N_NO_DEAD_STRIP != 0,
            },
        ),
    }
}

fn symbolize_input(name: Istr, sym: &InputSymbol, origin: InputId) -> (r: Option<Symbol>)
    ensures
        r == symbolized(name, *sym, origin),
{
    match sym.kind() {
        SymKind::Undef => match sym.common_size() {
            Some(size) => {
                let align_pow2: u8 = match sym.common_align_pow2() {
                    Some(a) => a,
                    None => 0,
                };
                Some(Symbol::Common { name, origin, size, align_pow2 })
            },
            None => Some(Symbol::Undefined { name, origin, weak_ref: sym.weak_ref() }),
        },
        SymKind::Indirect => None,
        _ => Some(
            Symbol::Defined {
                name,
                origin,
                atom: AtomId(0),
                value: sym.value(),
                weak: sym.weak_def(),
                private_extern: sym.is_private_ext(),
                no_dead_strip: sym.no_dead_strip(),
            },
        ),
    }
}

/// After one symbol of an object. Debug entries, symbols that no other file sees and
/// those without a readable name take no part.
pub open spec fn symbol_seeded(
    s: Seeding,
    obj: ObjectFile,
    sym: InputSymbol,
    origin: InputId,
) -> Seeding {
    if sym.is_stab() || !sym.spec_is_ext() && !sym.spec_is_private_ext() {
        s
    } else {
        match obj.name_of(sym) {
            Err(_) => s,
            Ok(text) => {
                let name = s.handle(text);
                let known = s.interned(text).referred(name, origin);
                match symbolized(name, sym, origin) {
                    None => known,
                    Some(symbol) => known.inserted(symbol),
                }
            },
        }
    }
}

/// After some symbols of an object.
pub open spec fn symbols_seeded(
    s: Seeding,
    obj: ObjectFile,
    syms: Seq<InputSymbol>,
    origin: InputId,
) -> Seeding
    decreases syms.len(),
{
    if syms.len() == 0 {
        s
    } else {
        symbol_seeded(
            symbols_seeded(s, obj, syms.drop_last(), origin),
            obj,
            syms.last(),
            origin,
        )
    }
}

/// After an object.
pub open spec fn object_seeded(s: Seeding, obj: ObjectFile, origin: InputId) -> Seeding {
    symbols_seeded(s, obj, obj.symbols@, origin)
}

fn seed_symbol(
    obj: &ObjectFile,
    sym: &InputSymbol,
    origin: InputId,
    table: &mut SymbolTable,
    report: &mut SeedReport,
)
    requires
        old(table).wf(),
    ensures
        final(table).wf(),
        (Seeding { table: final(table)@, report: final(report)@ }) == symbol_seeded(
            (Seeding { table: old(table)@, report: old(report)@ }),
            *obj,
            *sym,
            origin,
        ),
{
    if sym.stab_kind().is_some() {
        return;
    }
    if !sym.is_ext() && !sym.is_private_ext() {
        return;
    }
    if let Ok(text) = obj.symbol_name(sym) {
        let name = table.intern(text);
        report.referrers.add(name, origin);
        if let Some(symbol) = symbolize_input(name, sym, origin) {
            insert_symbol(table, report, symbol);
        }
    }
}

/// Brings the symbols of an object into the table that other files may see.
pub fn seed_object(
    inputs: &Inputs,
    input_id: InputId,
    table: &mut SymbolTable,
    report: &mut SeedReport,
)
    requires
        input_id.0 < inputs@.objects.len(),
        old(table).wf(),
    ensures
        final(table).wf(),
        (Seeding { table: final(table)@, report: final(report)@ }) == object_seeded(
            (Seeding { table: old(table)@, report: old(report)@ }),
            inputs@.objects[input_id.0 as int].parsed,
            input_id,
        ),
{
    let obj = inputs.object_file(input_id);
    assert(*obj == inputs@.objects[input_id.0 as int].parsed);
    let ghost start = Seeding { table: table@, report: report@ };
    let mut i: usize = 0;
    assert(obj.symbols@.take(0).len() == 0);
    while i < obj.symbols.len()
        invariant
            i <= obj.symbols@.len(),
            table.wf(),
            (Seeding { table: table@, report: report@ }) == symbols_seeded(
                start,
                *obj,
                obj.symbols@.take(i as int),
                input_id,
            ),
        decreases obj.symbols@.len() - i,
    {
        assert(obj.symbols@.take(i + 1).drop_last() =~= obj.symbols@.take(i as int));
        seed_symbol(obj, &obj.symbols[i], input_id, table, report);
        i += 1;
    }
    assert(obj.symbols@.take(i as int) =~= obj.symbols@);
}

/// After the exports of a dylib.
pub open spec fn exports_seeded(
    s: Seeding,
    entries: Seq<ExportModel>,
    dylib: DylibId,
    ordinal: u16,
) -> Seeding
    decreases entries.len(),
{
    if entries.len() == 0 {
        s
    } else {
        let before = exports_seeded(s, entries.drop_last(), dylib, ordinal);
        let e = entries.last();
        before.interned(e.name).inserted(
            Symbol::DylibImport {
                name: before.handle(e.name),
                dylib,
                ordinal,
                weak_import: e.weak(),
            },
        )
    }
}

/// What reading the export tries of the dylibs gave.
pub open spec fn readings_view(tries: Seq<Result<Vec<ExportEntry>, ReadError>>) -> Seq<
    Result<Seq<ExportModel>, ReadError>,
> {
    tries.map_values(|t: Result<Vec<ExportEntry>, ReadError>| exports::reading_view(t))
}

/// After a dylib, where reading its export trie gave `trie`.
pub open spec fn dylib_seeded(
    s: Seeding,
    dylib: DylibModel,
    id: DylibId,
    trie: Result<Seq<ExportModel>, ReadError>,
) -> Result<Seeding, SeedError> {
    match dylib.file.exports@.entries(trie) {
        Ok(entries) => Ok(exports_seeded(s, entries, id, dylib.ordinal)),
        Err(e) => Err(SeedError::Read(e)),
    }
}

/// Notes for every export of a dylib that it is to be had there. `trie` is what reading
/// the export trie of the dylib gave. It is not looked at where the exports are listed.
pub fn seed_dylib(
    inputs: &Inputs,
    dylib_id: DylibId,
    trie: &Result<Vec<ExportEntry>, ReadError>,
    table: &mut SymbolTable,
    report: &mut SeedReport,
) -> (r: Result<(), SeedError>)
    requires
        dylib_id.0 < inputs@.dylibs.len(),
        old(table).wf(),
    ensures
        final(table).wf(),
        match dylib_seeded(
            (Seeding { table: old(table)@, report: old(report)@ }),
            inputs@.dylibs[dylib_id.0 as int],
            dylib_id,
            exports::reading_view(*trie),
        ) {
            Ok(s) => r is Ok && s == (Seeding { table: final(table)@, report: final(report)@ }),
            Err(e) => {
                &&& r == Err::<(), _>(e)
                &&& final(table)@ == old(table)@
                &&& final(report)@ == old(report)@
            },
        },
{
    let di = inputs.dylib(dylib_id);
    assert(di@ == inputs@.dylibs[dylib_id.0 as int]);
    let ghost start = Seeding { table: table@, report: report@ };
    match di.file.exports.entries_with(trie) {
        Err(e) => Err(SeedError::Read(e)),
        Ok(entries) => {
            let ghost all = exports::entries_view(entries@);
            let mut i: usize = 0;
            assert(all.take(0).len() == 0);
            while i < entries.len()
                invariant
                    i <= entries@.len(),
                    all == exports::entries_view(entries@),
                    table.wf(),
                    (Seeding { table: table@, report: report@ }) == exports_seeded(
                        start,
                        all.take(i as int),
                        dylib_id,
                        di.ordinal,
                    ),
                decreases entries@.len() - i,
            {
                assert(all.take(i + 1).drop_last() =~= all.take(i as int));
                assert(all[i as int] == entries@[i as int]@);
                let name = table.intern(entries[i].name.as_str());
                insert_symbol(
                    table,
                    report,
                    Symbol::DylibImport {
                        name,
                        dylib: dylib_id,
                        ordinal: di.ordinal,
                        weak_import: entries[i].weak_def(),
                    },
                );
                i += 1;
            }
            assert(all.take(i as int) =~= all);
            Ok(())
        },
    }
}

/// After all objects.
pub open spec fn objects_seeded(s: Seeding, objects: Seq<ObjectModel>) -> Seeding
    decreases objects.len(),
{
    if objects.len() == 0 {
        s
    } else {
        object_seeded(
            objects_seeded(s, objects.drop_last()),
            objects.last().parsed,
            InputId((objects.len() - 1) as u32),
        )
    }
}

/// After the dylibs from `i` on. The first one whose export trie cannot be read ends it.
pub open spec fn dylibs_seeded_from(
    s: Seeding,
    dylibs: Seq<DylibModel>,
    tries: Seq<Result<Seq<ExportModel>, ReadError>>,
    i: nat,
) -> (Seeding, Option<SeedError>)
    decreases dylibs.len() - i,
{
    if i >= dylibs.len() {
        (s, None)
    } else {
        match dylib_seeded(s, dylibs[i as int], DylibId(i as u32), tries[i as int]) {
            Ok(next) => dylibs_seeded_from(next, dylibs, tries, i + 1),
            Err(e) => (s, Some(e)),
        }
    }
}

/// After all inputs: the archives come first, so that what an object wants is known
/// to be there. Reading the export tries of the dylibs gave `tries`.
pub open spec fn all_seeded(
    table: TableState,
    inputs: InputsModel,
    tries: Seq<Result<Seq<ExportModel>, ReadError>>,
) -> (Seeding, Option<SeedError>) {
    let start = Seeding { table, report: ReportModel::empty() };
    dylibs_seeded_from(
        objects_seeded(archives_seeded(start, inputs.archives), inputs.objects),
        inputs.dylibs,
        tries,
        0,
    )
}

/// Seeds every input. `tries` holds for each dylib what reading its export trie gave.
pub fn seed_all(
    inputs: &Inputs,
    tries: &Vec<Result<Vec<ExportEntry>, ReadError>>,
    table: &mut SymbolTable,
) -> (r: Result<SeedReport, SeedError>)
    requires
        old(table).wf(),
        inputs@.objects.len() <= 0x1_0000_0000,
        inputs@.dylibs.len() <= 0x1_0000_0000,
        tries@.len() == inputs@.dylibs.len(),
    ensures
        final(table).wf(),
        final(table)@ == all_seeded(old(table)@, inputs@, readings_view(tries@)).0.table,
        match all_seeded(old(table)@, inputs@, readings_view(tries@)).1 {
            None => r is Ok && r->Ok_0@ == all_seeded(old(table)@, inputs@, readings_view(tries@)).0.report,
            Some(e) => r is Err && r->Err_0 == e,
        },
{
    let mut report = SeedReport::default();
    let ghost start = table@;
    seed_archives(inputs, table, &mut report);
    let ghost archived = Seeding { table: table@, report: report@ };
    let ghost objects = inputs@.objects;
    let mut i: usize = 0;
    assert(objects.take(0).len() == 0);
    while i < inputs.objects.len()
        invariant
            i <= inputs.objects@.len(),
            inputs.objects@.len() <= 0x1_0000_0000,
            objects == inputs@.objects,
            table.wf(),
            (Seeding { table: table@, report: report@ }) == objects_seeded(
                archived,
                objects.take(i as int),
            ),
        decreases inputs.objects@.len() - i,
    {
        assert(objects.take(i + 1).drop_last() =~= objects.take(i as int));
        seed_object(inputs, InputId(i as u32), table, &mut report);
        i += 1;
    }
    assert(objects.take(i as int) =~= objects);
    let ghost seeded = Seeding { table: table@, report: report@ };
    let ghost dylibs = inputs@.dylibs;
    let ghost read = readings_view(tries@);
    let mut k: usize = 0;
    while k < inputs.dylibs.len()
        invariant
            k <= inputs.dylibs@.len(),
            inputs.dylibs@.len() <= 0x1_0000_0000,
            dylibs == inputs@.dylibs,
            read == readings_view(tries@),
            tries@.len() == inputs.dylibs@.len(),
            table.wf(),
            dylibs_seeded_from(seeded, dylibs, read, 0) == all_seeded(start, inputs@, read),
            start == old(table)@,
            dylibs_seeded_from(
                (Seeding { table: table@, report: report@ }),
                dylibs,
                read,
                k as nat,
            ) == dylibs_seeded_from(seeded, dylibs, read, 0),
        decreases inputs.dylibs@.len() - k,
    {
        assert(read[k as int] == exports::reading_view(tries@[k as int]));
        match seed_dylib(inputs, DylibId(k as u32), &tries[k], table, &mut report) {
            Ok(_) => {},
            Err(e) => {
                return Err(e);
            },
        }
        k += 1;
    }
    Ok(report)
}

} // verus!
