//! What holds of seeding and fetching as a whole.

use vstd::prelude::*;
use crate::input::ObjectFile;
use crate::macho::exports::ExportModel;
use crate::macho::reader::ReadError;
use crate::resolve::fetch;
use crate::resolve::fetch::{Fetch, FetchError, Fetching};
use crate::resolve::inputs::{ArchiveModel, DylibModel, IndexModel, InputsModel, MemberModel, ObjectModel};
use crate::resolve::names;
use crate::resolve::names::{ArchiveId, DylibId, InputId, MemberId};
use crate::resolve::seed;
use crate::resolve::seed::{PendingFetch, ReportModel, Seeding};
use crate::resolve::suggest;
use crate::resolve::table::{Symbol, TableState};
use crate::symbol::InputSymbol;

verus! {

proof fn lemma_index_sound(s: Seeding, entries: Seq<IndexModel>, archive: ArchiveId, archives: nat)
    requires
        fetch::seeding_sound(s, archives),
        archive.0 < archives,
    ensures
        fetch::seeding_sound(seed::index_seeded(s, entries, archive), archives),
    decreases entries.len(),
{
    if entries.len() > 0 {
        lemma_index_sound(s, entries.drop_last(), archive, archives);
        let before = seed::index_seeded(s, entries.drop_last(), archive);
        let e = entries.last();
        let known = before.interned(e.name);
        assert(fetch::seeding_sound(known, archives));
        fetch::lemma_insert_sound(
            known,
            Symbol::LazyArchive {
                name: before.handle(e.name),
                archive,
                member: MemberId(e.member_header_offset),
            },
            archives,
        );
    }
}

proof fn lemma_archives_sound(s: Seeding, some: Seq<ArchiveModel>, archives: nat)
    requires
        fetch::seeding_sound(s, archives),
        some.len() <= archives <= 0x1_0000_0000,
    ensures
        fetch::seeding_sound(seed::archives_seeded(s, some), archives),
    decreases some.len(),
{
    if some.len() > 0 {
        lemma_archives_sound(s, some.drop_last(), archives);
        if let Some(entries) = some.last().index {
            lemma_index_sound(
                seed::archives_seeded(s, some.drop_last()),
                entries,
                ArchiveId((some.len() - 1) as u32),
                archives,
            );
        }
    }
}

proof fn lemma_objects_sound(s: Seeding, objects: Seq<ObjectModel>, archives: nat)
    requires
        fetch::seeding_sound(s, archives),
    ensures
        fetch::seeding_sound(seed::objects_seeded(s, objects), archives),
    decreases objects.len(),
{
    if objects.len() > 0 {
        lemma_objects_sound(s, objects.drop_last(), archives);
        let obj = objects.last().parsed;
        fetch::lemma_symbols_sound(
            seed::objects_seeded(s, objects.drop_last()),
            obj,
            obj.symbols@,
            InputId((objects.len() - 1) as u32),
            archives,
        );
    }
}

proof fn lemma_exports_sound(
    s: Seeding,
    entries: Seq<ExportModel>,
    dylib: DylibId,
    ordinal: u16,
    archives: nat,
)
    requires
        fetch::seeding_sound(s, archives),
    ensures
        fetch::seeding_sound(seed::exports_seeded(s, entries, dylib, ordinal), archives),
    decreases entries.len(),
{
    if entries.len() > 0 {
        lemma_exports_sound(s, entries.drop_last(), dylib, ordinal, archives);
        let before = seed::exports_seeded(s, entries.drop_last(), dylib, ordinal);
        let e = entries.last();
        let known = before.interned(e.name);
        assert(fetch::seeding_sound(known, archives));
        fetch::lemma_insert_sound(
            known,
            Symbol::DylibImport {
                name: before.handle(e.name),
                dylib,
                ordinal,
                weak_import: e.weak(),
            },
            archives,
        );
    }
}

proof fn lemma_dylibs_sound(
    s: Seeding,
    dylibs: Seq<DylibModel>,
    tries: Seq<Result<Seq<ExportModel>, ReadError>>,
    i: nat,
    archives: nat,
)
    requires
        fetch::seeding_sound(s, archives),
    ensures
        fetch::seeding_sound(seed::dylibs_seeded_from(s, dylibs, tries, i).0, archives),
    decreases dylibs.len() - i,
{
    if i < dylibs.len() {
        let d = dylibs[i as int];
        if let Ok(entries) = d.file.exports@.entries(tries[i as int]) {
            lemma_exports_sound(s, entries, DylibId(i as u32), d.ordinal, archives);
            lemma_dylibs_sound(
                seed::exports_seeded(s, entries, DylibId(i as u32), d.ordinal),
                dylibs,
                tries,
                i + 1,
                archives,
            );
        }
    }
}

/// What seeding a fresh table wants leads to slots and archives that exist: it can be
/// fetched.
pub proof fn law_seeding_is_sound(
    inputs: InputsModel,
    tries: Seq<Result<Seq<ExportModel>, ReadError>>,
)
    requires
        inputs.archives.len() <= 0x1_0000_0000,
    ensures
        fetch::seeding_sound(
            seed::all_seeded(TableState::empty(), inputs, tries).0,
            inputs.archives.len(),
        ),
{
    let n = inputs.archives.len();
    let start = Seeding { table: TableState::empty(), report: ReportModel::empty() };
    assert(fetch::seeding_sound(start, n));
    lemma_archives_sound(start, inputs.archives, n);
    let archived = seed::archives_seeded(start, inputs.archives);
    lemma_objects_sound(archived, inputs.objects, n);
    let seeded = seed::objects_seeded(archived, inputs.objects);
    lemma_dylibs_sound(seeded, inputs.dylibs, tries, 0, n);
}

/// Fetching takes every member at most once: as many objects come in as members are
/// used up, and each is reported. The objects and archives that were there stay.
pub proof fn law_members_come_once(f: Fetching, queue: Seq<PendingFetch>)
    requires
        fetch::sound(f, queue),
        f.inputs.objects.len() + fetch::unfetched(f.inputs.archives) <= 0x1_0000_0000,
    ensures
        ({
            let end = fetch::drained(f, queue).0;
            &&& end.inputs.objects.len() + fetch::unfetched(end.inputs.archives)
                == f.inputs.objects.len() + fetch::unfetched(f.inputs.archives)
            &&& end.report.loaded_paths.len() - f.report.loaded_paths.len()
                == end.inputs.objects.len() - f.inputs.objects.len()
            &&& f.inputs.objects.is_prefix_of(end.inputs.objects)
            &&& end.inputs.archives.len() == f.inputs.archives.len()
            &&& end.inputs.dylibs == f.inputs.dylibs
        }),
    decreases fetch::unfetched(f.inputs.archives), queue.len(),
{
    if queue.len() > 0 {
        let p = queue.last();
        let rest = queue.drop_last();
        assert(fetch::pending_sound(
            queue[queue.len() - 1],
            f.table.symbols.len(),
            f.inputs.archives.len(),
        ));
        assert(fetch::sound(f, rest)) by {
            assert forall|i: int| 0 <= i < rest.len() implies fetch::pending_sound(
                #[trigger] rest[i],
                f.table.symbols.len(),
                f.inputs.archives.len(),
            ) by {
                assert(rest[i] == queue[i]);
            }
        }
        if !fetch::still_wanted(f.table, p) {
            law_members_come_once(f, rest);
        } else {
            fetch::lemma_member_from(
                f.inputs.archives[p.archive.0 as int].members,
                p.member.0,
                0,
            );
            match fetch::fetch(f.inputs, p.archive, p.member) {
                Fetch::Skip => {
                    law_members_come_once(f, rest);
                },
                Fetch::Fail(_) => {},
                Fetch::Take(k) => {
                    let next = fetch::ingested(f, p.archive.0 as int, k);
                    fetch::lemma_taking_uses_up(f.inputs.archives, p.archive.0 as int, k);
                    fetch::law_ingest_keeps_sound(f, rest, p.archive.0 as int, k);
                    law_members_come_once(next.0, rest + next.1);
                    let end = fetch::drained(next.0, rest + next.1).0;
                    assert(f.inputs.objects.is_prefix_of(next.0.inputs.objects));
                    assert(next.0.inputs.objects.is_prefix_of(end.inputs.objects));
                    assert(f.inputs.objects =~= end.inputs.objects.take(
                        f.inputs.objects.len() as int,
                    ));
                },
            }
        }
    }
}

proof fn lemma_noted_stays(list: Seq<InputId>, more: Seq<InputId>)
    ensures
        forall|x: InputId| #[trigger] list.contains(x) ==> seed::all_noted(list, more).contains(x),
        forall|x: InputId| #[trigger] more.contains(x) ==> seed::all_noted(list, more).contains(x),
    decreases more.len(),
{
    if more.len() > 0 {
        let before = seed::all_noted(list, more.drop_last());
        let after = seed::all_noted(list, more);
        lemma_noted_stays(list, more.drop_last());
        assert forall|x: InputId| before.contains(x) || x == more.last() implies #[trigger] after.contains(
            x,
        ) by {
            if before.contains(x) {
                let i = choose|i: int| 0 <= i < before.len() && before[i] == x;
                assert(after[i] == x);
            } else {
                assert(after[before.len() as int] == x);
            }
        }
        assert forall|x: InputId| #[trigger] more.contains(x) implies after.contains(x) by {
            let i = choose|i: int| 0 <= i < more.len() && more[i] == x;
            if i < more.len() - 1 {
                assert(more.drop_last()[i] == x);
                assert(more.drop_last().contains(x));
            }
            assert(before.contains(x) || x == more.last());
        }
        assert forall|x: InputId| #[trigger] list.contains(x) implies after.contains(x) by {
            assert(before.contains(x));
        }
    }
}

proof fn lemma_noted_before(list: Seq<InputId>, more: Seq<InputId>)
    requires
        forall|i: int| 0 <= i < more.len() ==> list.contains(#[trigger] more[i]),
    ensures
        seed::all_noted(list, more) == list,
    decreases more.len(),
{
    if more.len() > 0 {
        assert forall|i: int| 0 <= i < more.drop_last().len() implies list.contains(
            #[trigger] more.drop_last()[i],
        ) by {
            assert(more.drop_last()[i] == more[i]);
        }
        lemma_noted_before(list, more.drop_last());
        assert(list.contains(more[more.len() - 1]));
    }
}

/// Joining a log twice notes nothing more than joining it once.
pub proof fn law_joining_twice(a: Map<u32, Seq<InputId>>, b: Map<u32, Seq<InputId>>)
    ensures
        seed::logs_joined(seed::logs_joined(a, b), b) == seed::logs_joined(a, b),
{
    let once = seed::logs_joined(a, b);
    assert forall|n: u32| seed::all_noted(once[n], b[n]) == #[trigger] once[n] by {
        lemma_noted_stays(a[n], b[n]);
        assert forall|i: int| 0 <= i < b[n].len() implies once[n].contains(#[trigger] b[n][i]) by {
            assert(b[n].contains(b[n][i]));
        }
        lemma_noted_before(once[n], b[n]);
    }
    assert(seed::logs_joined(once, b) =~= once);
}

/// A member that was fetched is passed over when it is wanted again.
pub proof fn law_fetched_member_is_skipped(f: Fetching, archive: ArchiveId, member: MemberId)
    requires
        archive.0 < f.inputs.archives.len(),
        fetch::fetch(f.inputs, archive, member) is Take,
    ensures
        ({
            let k = fetch::fetch(f.inputs, archive, member)->Take_0;
            let after = fetch::ingested(f, archive.0 as int, k).0;
            fetch::fetch(after.inputs, archive, member) is Skip
        }),
{
    let k = fetch::fetch(f.inputs, archive, member)->Take_0;
    let before = f.inputs.archives[archive.0 as int].members;
    let after = fetch::ingested(f, archive.0 as int, k).0.inputs.archives[archive.0 as int].members;
    fetch::lemma_member_from(before, member.0, 0);
    assert(after =~= before.update(k, fetch::emptied(before[k])));
    lemma_same_offsets(before, after, member.0, 0);
}

proof fn lemma_same_offsets(
    a: Seq<MemberModel>,
    b: Seq<MemberModel>,
    offset: u32,
    i: nat,
)
    requires
        a.len() == b.len(),
        forall|k: int|
            0 <= k < a.len() ==> (#[trigger] a[k]).header_offset == b[k].header_offset,
    ensures
        fetch::member_from(a, offset, i) == fetch::member_from(b, offset, i),
    decreases a.len() - i,
{
    if i < a.len() {
        assert(a[i as int].header_offset == b[i as int].header_offset);
        lemma_same_offsets(a, b, offset, i + 1);
    }
}

/// The symbol takes part in resolution.
pub open spec fn takes_part(obj: ObjectFile, sym: InputSymbol) -> bool {
    &&& !sym.is_stab()
    &&& sym.spec_is_ext() || sym.spec_is_private_ext()
    &&& obj.name_of(sym) is Ok
}

proof fn lemma_interned_once(names: Seq<Seq<char>>, name: Seq<char>, other: Seq<char>)
    requires
        names.no_duplicates(),
        names.len() < u32::MAX,
    ensures
        names::interned(names, name).0.no_duplicates(),
        names::interned(names, name).0.contains(name),
        names::interned(names::interned(names, name).0, name).1 == names::interned(names, name).1,
        names.contains(other) ==> names::interned(names, name).0.contains(other)
            && names::interned(names::interned(names, name).0, other).1
            == names::interned(names, other).1,
{
    let after = names::interned(names, name).0;
    names::law_intern_resolves(names, name);
    if !names.contains(name) {
        assert(after[names.len() as int] == name);
        assert forall|i: int, j: int| 0 <= i < after.len() && 0 <= j < after.len() && i != j implies
            after[i] != after[j] by {
            if i < names.len() && j < names.len() {
                assert(names[i] != names[j]);
            } else if i < names.len() {
                assert(names.contains(names[i]));
            } else {
                assert(names.contains(names[j]));
            }
        }
    }
    if names.contains(other) {
        let i = names.index_of(other);
        assert(after[i] == other);
        let j = after.index_of(other);
        assert(after[j] == other);
        assert(i == j);
    }
}

/// Seeding an object notes it as a referrer of every name that it shows to others.
pub proof fn law_references_are_noted(
    s: Seeding,
    obj: ObjectFile,
    syms: Seq<InputSymbol>,
    origin: InputId,
)
    requires
        s.table.names.no_duplicates(),
        s.table.names.len() + syms.len() < u32::MAX,
    ensures
        ({
            let after = seed::symbols_seeded(s, obj, syms, origin);
            &&& after.table.names.no_duplicates()
            &&& after.table.names.len() <= s.table.names.len() + syms.len()
            &&& forall|k: int|
                0 <= k < syms.len() && takes_part(obj, #[trigger] syms[k]) ==> {
                    let name = obj.name_of(syms[k])->Ok_0;
                    &&& after.table.names.contains(name)
                    &&& after.report.referrers[after.handle(name).0].contains(origin)
                }
        }),
    decreases syms.len(),
{
    if syms.len() > 0 {
        let before = seed::symbols_seeded(s, obj, syms.drop_last(), origin);
        let after = seed::symbols_seeded(s, obj, syms, origin);
        let last = syms.last();
        law_references_are_noted(s, obj, syms.drop_last(), origin);
        if takes_part(obj, last) {
            let text = obj.name_of(last)->Ok_0;
            let h = before.handle(text);
            let list = before.report.referrers[h.0];
            assert(after.table.names == before.interned(text).table.names);
            assert(after.report.referrers == before.report.referrers.insert(
                h.0,
                seed::noted(list, origin),
            ));
            assert(seed::noted(list, origin).contains(origin)) by {
                if !list.contains(origin) {
                    assert(list.push(origin)[list.len() as int] == origin);
                }
            }
            lemma_interned_once(before.table.names, text, text);
            assert forall|k: int| 0 <= k < syms.len() && takes_part(obj, #[trigger] syms[k]) implies {
                let name = obj.name_of(syms[k])->Ok_0;
                &&& after.table.names.contains(name)
                &&& after.report.referrers[after.handle(name).0].contains(origin)
            } by {
                let name = obj.name_of(syms[k])->Ok_0;
                lemma_interned_once(before.table.names, text, name);
                if k < syms.len() - 1 {
                    assert(syms.drop_last()[k] == syms[k]);
                    if after.handle(name).0 != h.0 {
                        assert(before.report.referrers[before.handle(name).0].contains(origin));
                    }
                }
            }
        } else {
            assert forall|k: int| 0 <= k < syms.len() && takes_part(obj, #[trigger] syms[k]) implies {
                let name = obj.name_of(syms[k])->Ok_0;
                &&& after.table.names.contains(name)
                &&& after.report.referrers[after.handle(name).0].contains(origin)
            } by {
                assert(syms.drop_last()[k] == syms[k]);
            }
        }
    }
}

/// Every slot exists, and every symbol has a name that is interned.
pub open spec fn named(table: TableState) -> bool {
    table.wf() && suggest::names_known(table)
}

proof fn lemma_named_insert(s: Seeding, name: Seq<char>, sym: Symbol)
    requires
        named(s.table),
        sym.spec_name() == s.handle(name),
        sym !is Alias,
    ensures
        named(s.interned(name).table),
        named(s.interned(name).inserted(sym).table),
{
    let known = s.interned(name);
    let after = known.inserted(sym);
    assert(s.handle(name).0 < known.table.names.len()) by {
        if s.table.names.contains(name) {
            assert(0 <= s.table.names.index_of(name) < s.table.names.len());
        }
    }
    assert forall|n: u32| #[trigger] known.table.by_name.contains_key(n) implies
        known.table.by_name[n].0 < known.table.symbols.len() by {
        assert(s.table.by_name.contains_key(n));
    }
    assert forall|n: u32| #[trigger] after.table.by_name.contains_key(n) implies
        after.table.by_name[n].0 < after.table.symbols.len() by {
        if n != sym.spec_name().0 {
            assert(known.table.by_name.contains_key(n));
        }
    }
    assert forall|i: int| 0 <= i < known.table.symbols.len() implies (
    #[trigger] known.table.symbols[i]).spec_name().0 < known.table.names.len() by {
        assert(known.table.symbols[i] == s.table.symbols[i]);
    }
    assert forall|i: int| 0 <= i < after.table.symbols.len() implies (
    #[trigger] after.table.symbols[i]).spec_name().0 < after.table.names.len() by {
        if i < known.table.symbols.len() {
            assert(known.table.symbols[i].spec_name().0 < known.table.names.len());
        }
    }
}

proof fn lemma_index_named(s: Seeding, entries: Seq<IndexModel>, archive: ArchiveId)
    requires
        named(s.table),
    ensures
        named(seed::index_seeded(s, entries, archive).table),
    decreases entries.len(),
{
    if entries.len() > 0 {
        lemma_index_named(s, entries.drop_last(), archive);
        let before = seed::index_seeded(s, entries.drop_last(), archive);
        let e = entries.last();
        lemma_named_insert(
            before,
            e.name,
            Symbol::LazyArchive {
                name: before.handle(e.name),
                archive,
                member: MemberId(e.member_header_offset),
            },
        );
    }
}

proof fn lemma_archives_named(s: Seeding, archives: Seq<ArchiveModel>)
    requires
        named(s.table),
    ensures
        named(seed::archives_seeded(s, archives).table),
    decreases archives.len(),
{
    if archives.len() > 0 {
        lemma_archives_named(s, archives.drop_last());
        if let Some(entries) = archives.last().index {
            lemma_index_named(
                seed::archives_seeded(s, archives.drop_last()),
                entries,
                ArchiveId((archives.len() - 1) as u32),
            );
        }
    }
}

/// The symbols of an object bring their names along.
pub proof fn law_object_names_are_known(
    s: Seeding,
    obj: ObjectFile,
    syms: Seq<InputSymbol>,
    origin: InputId,
)
    requires
        named(s.table),
    ensures
        named(seed::symbols_seeded(s, obj, syms, origin).table),
    decreases syms.len(),
{
    if syms.len() > 0 {
        law_object_names_are_known(s, obj, syms.drop_last(), origin);
        let before = seed::symbols_seeded(s, obj, syms.drop_last(), origin);
        if takes_part(obj, syms.last()) {
            let name = obj.name_of(syms.last())->Ok_0;
            let h = before.handle(name);
            let any = Symbol::Undefined { name: h, origin, weak_ref: false };
            lemma_named_insert(before, name, any);
            if let Some(sym) = seed::symbolized(h, syms.last(), origin) {
                lemma_named_insert(before, name, sym);
                assert(before.interned(name).referred(h, origin).inserted(sym).table
                    == before.interned(name).inserted(sym).table);
            }
        }
    }
}

proof fn lemma_objects_named(s: Seeding, objects: Seq<ObjectModel>)
    requires
        named(s.table),
    ensures
        named(seed::objects_seeded(s, objects).table),
    decreases objects.len(),
{
    if objects.len() > 0 {
        lemma_objects_named(s, objects.drop_last());
        let obj = objects.last().parsed;
        law_object_names_are_known(
            seed::objects_seeded(s, objects.drop_last()),
            obj,
            obj.symbols@,
            InputId((objects.len() - 1) as u32),
        );
    }
}

proof fn lemma_exports_named(s: Seeding, entries: Seq<ExportModel>, dylib: DylibId, ordinal: u16)
    requires
        named(s.table),
    ensures
        named(seed::exports_seeded(s, entries, dylib, ordinal).table),
    decreases entries.len(),
{
    if entries.len() > 0 {
        lemma_exports_named(s, entries.drop_last(), dylib, ordinal);
        let before = seed::exports_seeded(s, entries.drop_last(), dylib, ordinal);
        let e = entries.last();
        lemma_named_insert(
            before,
            e.name,
            Symbol::DylibImport {
                name: before.handle(e.name),
                dylib,
                ordinal,
                weak_import: e.weak(),
            },
        );
    }
}

proof fn lemma_dylibs_named(
    s: Seeding,
    dylibs: Seq<DylibModel>,
    tries: Seq<Result<Seq<ExportModel>, ReadError>>,
    i: nat,
)
    requires
        named(s.table),
    ensures
        named(seed::dylibs_seeded_from(s, dylibs, tries, i).0.table),
    decreases dylibs.len() - i,
{
    if i < dylibs.len() {
        let d = dylibs[i as int];
        if let Ok(entries) = d.file.exports@.entries(tries[i as int]) {
            lemma_exports_named(s, entries, DylibId(i as u32), d.ordinal);
            lemma_dylibs_named(
                seed::exports_seeded(s, entries, DylibId(i as u32), d.ordinal),
                dylibs,
                tries,
                i + 1,
            );
        }
    }
}

/// Every symbol that seeding brings in has a name: it can be spoken of.
pub proof fn law_seeded_names_are_known(
    inputs: InputsModel,
    tries: Seq<Result<Seq<ExportModel>, ReadError>>,
)
    ensures
        named(seed::all_seeded(TableState::empty(), inputs, tries).0.table),
{
    let start = Seeding { table: TableState::empty(), report: ReportModel::empty() };
    lemma_archives_named(start, inputs.archives);
    let archived = seed::archives_seeded(start, inputs.archives);
    lemma_objects_named(archived, inputs.objects);
    lemma_dylibs_named(seed::objects_seeded(archived, inputs.objects), inputs.dylibs, tries, 0);
}

/// The members of an archive are the same but for what was fetched meanwhile.
spec fn moved_on(f: Fetching, g: Fetching, a: int) -> bool {
    let before = f.inputs.archives[a].members;
    let after = g.inputs.archives[a].members;
    &&& g.inputs.archives.len() == f.inputs.archives.len()
    &&& after.len() == before.len()
    &&& forall|j: int|
        0 <= j < before.len() ==> (#[trigger] after[j]).header_offset == before[j].header_offset
            && after[j].is_object == before[j].is_object && (before[j].content is Fetched
            ==> after[j].content is Fetched)
}

proof fn lemma_skip_stays(f: Fetching, g: Fetching, a: ArchiveId, member: MemberId)
    requires
        moved_on(f, g, a.0 as int),
        fetch::fetch(f.inputs, a, member) is Skip,
    ensures
        fetch::fetch(g.inputs, a, member) is Skip,
{
    let before = f.inputs.archives[a.0 as int].members;
    let after = g.inputs.archives[a.0 as int].members;
    fetch::lemma_member_from(before, member.0, 0);
    assert forall|k: int| 0 <= k < before.len() implies (#[trigger] before[k]).header_offset
        == after[k].header_offset by {
        assert(after[k].header_offset == before[k].header_offset);
    }
    lemma_same_offsets(before, after, member.0, 0);
    let k = fetch::member_from(before, member.0, 0)->0;
    assert(after[k].header_offset == before[k].header_offset);
}

proof fn lemma_ingest_moves_on(f: Fetching, b: int, k: int, a: int)
    requires
        0 <= b < f.inputs.archives.len(),
        0 <= a < f.inputs.archives.len(),
        0 <= k < f.inputs.archives[b].members.len(),
    ensures
        moved_on(f, fetch::ingested(f, b, k).0, a),
{
}

proof fn lemma_moves_add_up(f: Fetching, g: Fetching, h: Fetching, a: int)
    requires
        moved_on(f, g, a),
        moved_on(g, h, a),
    ensures
        moved_on(f, h, a),
{
    let first = f.inputs.archives[a].members;
    let mid = g.inputs.archives[a].members;
    let last = h.inputs.archives[a].members;
    assert forall|j: int| 0 <= j < first.len() implies (#[trigger] last[j]).header_offset
        == first[j].header_offset && last[j].is_object == first[j].is_object && (
    first[j].content is Fetched ==> last[j].content is Fetched) by {
        assert(mid[j].header_offset == first[j].header_offset);
    }
}

proof fn lemma_drain_moves_on(f: Fetching, queue: Seq<PendingFetch>, a: int)
    requires
        fetch::sound(f, queue),
        0 <= a < f.inputs.archives.len(),
    ensures
        moved_on(f, fetch::drained(f, queue).0, a),
        fetch::sound(fetch::drained(f, queue).0, seq![]),
    decreases fetch::unfetched(f.inputs.archives), queue.len(),
{
    if queue.len() > 0 {
        let p = queue.last();
        let rest = queue.drop_last();
        assert(fetch::pending_sound(
            queue[queue.len() - 1],
            f.table.symbols.len(),
            f.inputs.archives.len(),
        ));
        assert(fetch::sound(f, rest)) by {
            assert forall|i: int| 0 <= i < rest.len() implies fetch::pending_sound(
                #[trigger] rest[i],
                f.table.symbols.len(),
                f.inputs.archives.len(),
            ) by {
                assert(rest[i] == queue[i]);
            }
        }
        fetch::lemma_member_from(f.inputs.archives[p.archive.0 as int].members, p.member.0, 0);
        if !fetch::still_wanted(f.table, p) {
            lemma_drain_moves_on(f, rest, a);
        } else {
            match fetch::fetch(f.inputs, p.archive, p.member) {
                Fetch::Skip => {
                    lemma_drain_moves_on(f, rest, a);
                },
                Fetch::Fail(_) => {},
                Fetch::Take(k) => {
                    let next = fetch::ingested(f, p.archive.0 as int, k);
                    fetch::lemma_taking_uses_up(f.inputs.archives, p.archive.0 as int, k);
                    fetch::law_ingest_keeps_sound(f, rest, p.archive.0 as int, k);
                    lemma_ingest_moves_on(f, p.archive.0 as int, k, a);
                    lemma_drain_moves_on(next.0, rest + next.1, a);
                    lemma_moves_add_up(f, next.0, fetch::drained(f, queue).0, a);
                },
            }
        }
    }
}

/// Every object from `i` on in an archive is among the inputs.
spec fn all_there(f: Fetching, a: ArchiveId, i: nat) -> bool {
    let members = f.inputs.archives[a.0 as int].members;
    forall|j: int|
        i <= j < members.len() && (#[trigger] members[j]).is_object ==> fetch::fetch(
            f.inputs,
            a,
            MemberId(members[j].header_offset),
        ) is Skip
}

proof fn lemma_all_there_stays(f: Fetching, g: Fetching, a: ArchiveId, i: nat)
    requires
        moved_on(f, g, a.0 as int),
        all_there(f, a, i),
    ensures
        all_there(g, a, i),
{
    let before = f.inputs.archives[a.0 as int].members;
    let after = g.inputs.archives[a.0 as int].members;
    assert forall|j: int| i <= j < after.len() && (#[trigger] after[j]).is_object implies fetch::fetch(
        g.inputs,
        a,
        MemberId(after[j].header_offset),
    ) is Skip by {
        assert(before[j].is_object);
        lemma_skip_stays(f, g, a, MemberId(before[j].header_offset));
    }
}

proof fn lemma_forced_from(f: Fetching, a: ArchiveId, i: nat, queue: Seq<PendingFetch>)
    requires
        fetch::sound(f, queue),
        a.0 < f.inputs.archives.len(),
    ensures
        ({
            let end = fetch::forced_from(f, a, i, queue);
            &&& fetch::sound(end.0, end.1)
            &&& moved_on(f, end.0, a.0 as int)
            &&& end.2 is None ==> all_there(end.0, a, i)
        }),
    decreases f.inputs.archives[a.0 as int].members.len() - i,
{
    let members = f.inputs.archives[a.0 as int].members;
    if i < members.len() {
        let member = MemberId(members[i as int].header_offset);
        let end = fetch::forced_from(f, a, i, queue);
        fetch::lemma_member_from(members, member.0, 0);
        if !members[i as int].is_object {
            lemma_forced_from(f, a, i + 1, queue);
        } else {
            match fetch::fetch(f.inputs, a, member) {
                Fetch::Skip => {
                    lemma_forced_from(f, a, i + 1, queue);
                    lemma_skip_stays(f, end.0, a, member);
                },
                Fetch::Fail(_) => {},
                Fetch::Take(k) => {
                    let next = fetch::ingested(f, a.0 as int, k);
                    fetch::law_ingest_keeps_sound(f, queue, a.0 as int, k);
                    lemma_ingest_moves_on(f, a.0 as int, k, a.0 as int);
                    lemma_forced_from(next.0, a, i + 1, queue + next.1);
                    lemma_moves_add_up(f, next.0, end.0, a.0 as int);
                    law_fetched_member_is_skipped(f, a, member);
                    lemma_skip_stays(next.0, end.0, a, member);
                },
            }
        }
        let after = end.0.inputs.archives[a.0 as int].members;
        assert(after[i as int].header_offset == members[i as int].header_offset);
    }
}

proof fn lemma_nothing_to_force(f: Fetching, a: ArchiveId, i: nat, queue: Seq<PendingFetch>)
    requires
        a.0 < f.inputs.archives.len(),
        all_there(f, a, i),
    ensures
        fetch::forced_from(f, a, i, queue) == (f, queue, None::<FetchError>),
    decreases f.inputs.archives[a.0 as int].members.len() - i,
{
    if i < f.inputs.archives[a.0 as int].members.len() {
        lemma_nothing_to_force(f, a, i + 1, queue);
    }
}

/// Taking all objects of an archive a second time changes nothing.
pub proof fn law_forcing_twice(f: Fetching, a: ArchiveId)
    requires
        fetch::sound(f, seq![]),
        a.0 < f.inputs.archives.len(),
        fetch::forced(f, a).1 is None,
    ensures
        fetch::forced(fetch::forced(f, a).0, a) == (fetch::forced(f, a).0, None::<FetchError>),
{
    let taken = fetch::forced_from(f, a, 0, seq![]);
    let end = fetch::forced(f, a).0;
    lemma_forced_from(f, a, 0, seq![]);
    lemma_drain_moves_on(taken.0, taken.1, a.0 as int);
    lemma_all_there_stays(taken.0, end, a, 0);
    lemma_nothing_to_force(end, a, 0, seq![]);
}

} // verus!
