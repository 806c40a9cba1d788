//! Fetching members of archives until nothing more is wanted.

use vstd::prelude::*;
use crate::input::ObjectFile;
use crate::macho::reader::ReadError;
use crate::resolve::inputs;
use crate::resolve::inputs::{
    ArchiveMember, ArchiveModel, Inputs, InputsModel, MemberContent, MemberModel, ObjectInput,
    ObjectModel,
};
use crate::resolve::names::{ArchiveId, InputId, MemberId};
use crate::resolve::seed;
use crate::resolve::seed::{
    seed_object, PendingFetch, ReferrerLog, ReportModel, SeedReport, Seeding,
};
use crate::resolve::table;
use crate::resolve::table::{InsertError, Symbol, SymbolTable, TableState};
use crate::symbol::InputSymbol;
use crate::text;
use crate::text::{dec_string, hex_string};

verus! {

/// Why a member could not be fetched.
#[derive(Debug, Clone, Copy, PartialEq, Eq)]
pub enum FetchError {
    Read(ReadError),
    MemberNotFound { archive: ArchiveId, member: MemberId },
}

impl FetchError {
    pub open spec fn message(self) -> Seq<char> {
        match self {
            FetchError::Read(e) => e.message(),
            FetchError::MemberNotFound { archive, member } => "archive #"@ + text::dec(
                archive.0 as nat,
            ) + " has no member at ar_hdr offset 0x"@ + text::hex(member.0 as nat),
        }
    }

    pub fn to_string(&self) -> (r: String)
        ensures
            r@ == self.message(),
    {
        match self {
            FetchError::Read(e) => e.to_string(),
            FetchError::MemberNotFound { archive, member } => {
                let mut s = "archive #".to_owned();
                s.append(dec_string(archive.0 as u64).as_str());
                s.append(" has no member at ar_hdr offset 0x");
                s.append(hex_string(member.0 as u64).as_str());
                s
            },
        }
    }
}

/// What fetching did.
#[derive(Debug)]
pub struct DrainReport {
    pub fetched_members: usize,
    /// Where the new objects come from, in the order in which they came.
    pub loaded_paths: Vec<String>,
    pub duplicates: Vec<InsertError>,
    pub referrers: ReferrerLog,
}

/// A `DrainReport` by its contents.
#[verifier::ext_equal]
pub struct DrainModel {
    pub fetched_members: usize,
    pub loaded_paths: Seq<Seq<char>>,
    pub duplicates: Seq<InsertError>,
    pub referrers: Map<u32, Seq<InputId>>,
}

impl View for DrainReport {
    type V = DrainModel;

    open spec fn view(&self) -> DrainModel {
        DrainModel {
            fetched_members: self.fetched_members,
            loaded_paths: text::texts(self.loaded_paths@),
            duplicates: self.duplicates@,
            referrers: self.referrers@,
        }
    }
}

impl DrainModel {
    pub open spec fn empty() -> DrainModel {
        DrainModel {
            fetched_members: 0,
            loaded_paths: seq![],
            duplicates: seq![],
            referrers: seed::empty_log(),
        }
    }
}

impl Default for DrainReport {
    fn default() -> (r: DrainReport)
        ensures
            r@ == DrainModel::empty(),
    {
        let r = DrainReport {
            fetched_members: 0,
            loaded_paths: Vec::new(),
            duplicates: Vec::new(),
            referrers: ReferrerLog::new(),
        };
        assert(r@ =~= DrainModel::empty());
        r
    }
}

/// Everything that fetching changes.
#[verifier::ext_equal]
pub struct Fetching {
    pub inputs: InputsModel,
    pub table: TableState,
    pub report: DrainModel,
}

/// The place of the first member from `i` on that starts at an offset.
pub open spec fn member_from(members: Seq<MemberModel>, offset: u32, i: nat) -> Option<int>
    decreases members.len() - i,
{
    if i >= members.len() {
        None
    } else if members[i as int].header_offset == offset {
        Some(i as int)
    } else {
        member_from(members, offset, i + 1)
    }
}

/// What is to be done about a member that is wanted.
pub enum Fetch {
    /// It is there already.
    Skip,
    Fail(FetchError),
    /// The member at this place is to be taken.
    Take(int),
}

pub open spec fn fetch(inputs: InputsModel, archive: ArchiveId, member: MemberId) -> Fetch {
    let members = inputs.archives[archive.0 as int].members;
    match member_from(members, member.0, 0) {
        None => Fetch::Fail(FetchError::MemberNotFound { archive, member }),
        Some(k) => match members[k].content {
            MemberContent::Ready(_) => Fetch::Take(k),
            MemberContent::Unreadable(e) => Fetch::Fail(FetchError::Read(e)),
            MemberContent::Fetched => Fetch::Skip,
        },
    }
}

/// The member, once its object is among the inputs.
pub open spec fn emptied(m: MemberModel) -> MemberModel {
    MemberModel { bytes: seq![], content: MemberContent::Fetched, ..m }
}

/// The archives, once a member's object is among the inputs.
pub open spec fn archives_after(archives: Seq<ArchiveModel>, a: int, k: int) -> Seq<ArchiveModel> {
    archives.update(
        a,
        ArchiveModel {
            members: archives[a].members.update(k, emptied(archives[a].members[k])),
            ..archives[a]
        },
    )
}

/// The object that a member becomes: its path names the archive and the member.
pub open spec fn member_object(archive: ArchiveModel, m: MemberModel) -> ObjectModel {
    ObjectModel {
        path: archive.path + "("@ + m.name + ")"@,
        load_order: archive.load_order,
        archive_member_offset: Some(m.header_offset),
        bytes: m.bytes,
        parsed: m.content->Ready_0,
    }
}

/// After a member was taken: the new state, and what its object wants in turn.
pub open spec fn ingested(f: Fetching, a: int, k: int) -> (Fetching, Seq<PendingFetch>) {
    let archive = f.inputs.archives[a];
    let object = member_object(archive, archive.members[k]);
    let id = InputId(f.inputs.objects.len() as u32);
    let inputs = InputsModel {
        objects: f.inputs.objects.push(object),
        archives: archives_after(f.inputs.archives, a, k),
        ..f.inputs
    };
    let seeded = seed::object_seeded(
        Seeding { table: f.table, report: ReportModel::empty() },
        inputs.objects[id.0 as int].parsed,
        id,
    );
    (
        Fetching {
            inputs,
            table: seeded.table,
            report: DrainModel {
                fetched_members: f.report.fetched_members.wrapping_add(1),
                loaded_paths: f.report.loaded_paths.push(inputs.objects[id.0 as int].path),
                duplicates: f.report.duplicates + seeded.report.duplicates,
                referrers: seed::logs_joined(f.report.referrers, seeded.report.referrers),
            },
        },
        seeded.report.pending,
    )
}

/// How many members were not fetched so far.
pub open spec fn waiting(members: Seq<MemberModel>) -> nat
    decreases members.len(),
{
    if members.len() == 0 {
        0
    } else {
        waiting(members.drop_last()) + if members.last().content is Fetched {
            0nat
        } else {
            1nat
        }
    }
}

/// How many members of all archives were not fetched so far.
pub open spec fn unfetched(archives: Seq<ArchiveModel>) -> nat
    decreases archives.len(),
{
    if archives.len() == 0 {
        0
    } else {
        unfetched(archives.drop_last()) + waiting(archives.last().members)
    }
}

proof fn lemma_waiting_update(members: Seq<MemberModel>, k: int)
    requires
        0 <= k < members.len(),
        members[k].content !is Fetched,
    ensures
        waiting(members.update(k, emptied(members[k]))) == waiting(members) - 1,
    decreases members.len(),
{
    let after = members.update(k, emptied(members[k]));
    if k == members.len() - 1 {
        assert(after.drop_last() =~= members.drop_last());
    } else {
        lemma_waiting_update(members.drop_last(), k);
        assert(after.drop_last() =~= members.drop_last().update(
            k,
            emptied(members.drop_last()[k]),
        ));
    }
}

proof fn lemma_unfetched_update(archives: Seq<ArchiveModel>, a: int, new: ArchiveModel)
    requires
        0 <= a < archives.len(),
    ensures
        unfetched(archives.update(a, new)) == unfetched(archives) - waiting(archives[a].members)
            + waiting(new.members),
    decreases archives.len(),
{
    let after = archives.update(a, new);
    if a == archives.len() - 1 {
        assert(after.drop_last() =~= archives.drop_last());
    } else {
        lemma_unfetched_update(archives.drop_last(), a, new);
        assert(after.drop_last() =~= archives.drop_last().update(a, new));
    }
}

/// Taking a member leaves one less to be fetched.
pub proof fn lemma_taking_uses_up(archives: Seq<ArchiveModel>, a: int, k: int)
    requires
        0 <= a < archives.len(),
        0 <= k < archives[a].members.len(),
        archives[a].members[k].content !is Fetched,
    ensures
        unfetched(archives_after(archives, a, k)) == unfetched(archives) - 1,
{
    lemma_waiting_update(archives[a].members, k);
    lemma_unfetched_update(
        archives,
        a,
        ArchiveModel {
            members: archives[a].members.update(k, emptied(archives[a].members[k])),
            ..archives[a]
        },
    );
}

pub proof fn lemma_member_from(members: Seq<MemberModel>, offset: u32, i: nat)
    ensures
        match member_from(members, offset, i) {
            Some(k) => i <= k < members.len() && members[k].header_offset == offset,
            None => forall|k: int|
                i <= k < members.len() ==> (#[trigger] members[k]).header_offset != offset,
        },
    decreases members.len() - i,
{
    if i < members.len() && members[i as int].header_offset != offset {
        lemma_member_from(members, offset, i + 1);
    }
}

/// The slot still waits for a member.
pub open spec fn still_wanted(table: TableState, p: PendingFetch) -> bool {
    table.at(p.id) is LazyArchive
}

/// The slot and the archive exist.
pub open spec fn pending_sound(p: PendingFetch, slots: nat, archives: nat) -> bool {
    p.id.0 < slots && p.archive.0 < archives
}

pub open spec fn queue_sound(queue: Seq<PendingFetch>, slots: nat, archives: nat) -> bool {
    forall|i: int| 0 <= i < queue.len() ==> pending_sound(#[trigger] queue[i], slots, archives)
}

/// Every name that a member is to give names an archive that exists.
pub open spec fn lazy_sound(table: TableState, archives: nat) -> bool {
    forall|i: int|
        0 <= i < table.symbols.len() && #[trigger] table.symbols[i] is LazyArchive
            ==> table.symbols[i]->LazyArchive_archive.0 < archives
}

/// After the queue was worked off from its end, the state and the error that ended
/// it. A member is passed over when its slot was filled from elsewhere, or when it was
/// fetched before.
pub open spec fn drained(f: Fetching, queue: Seq<PendingFetch>) -> (Fetching, Option<FetchError>)
    decreases unfetched(f.inputs.archives), queue.len(),
    when sound(f, queue)
    via drained_ends
{
    if queue.len() == 0 {
        (f, None)
    } else if !still_wanted(f.table, queue.last()) {
        drained(f, queue.drop_last())
    } else {
        match fetch(f.inputs, queue.last().archive, queue.last().member) {
            Fetch::Skip => drained(f, queue.drop_last()),
            Fetch::Fail(e) => (f, Some(e)),
            Fetch::Take(k) => {
                let next = ingested(f, queue.last().archive.0 as int, k);
                drained(next.0, queue.drop_last() + next.1)
            },
        }
    }
}

#[via_fn]
proof fn drained_ends(f: Fetching, queue: Seq<PendingFetch>) {
    if queue.len() > 0 {
        let p = queue.last();
        assert(pending_sound(queue[queue.len() - 1], f.table.symbols.len(), f.inputs.archives.len()));
        let members = f.inputs.archives[p.archive.0 as int].members;
        lemma_member_from(members, p.member.0, 0);
        if let Fetch::Take(k) = fetch(f.inputs, p.archive, p.member) {
            lemma_taking_uses_up(f.inputs.archives, p.archive.0 as int, k);
        }
    }
}

/// The table and what was wanted so far agree with each other and with the archives.
pub open spec fn seeding_sound(s: Seeding, archives: nat) -> bool {
    &&& s.table.wf()
    &&& lazy_sound(s.table, archives)
    &&& queue_sound(s.report.pending, s.table.symbols.len(), archives)
}

pub proof fn lemma_insert_sound(s: Seeding, sym: Symbol, archives: nat)
    requires
        seeding_sound(s, archives),
        sym is LazyArchive ==> sym->LazyArchive_archive.0 < archives,
        sym !is Alias,
    ensures
        seeding_sound(s.inserted(sym), archives),
        s.table.symbols.len() <= s.inserted(sym).table.symbols.len(),
{
    let after = s.inserted(sym);
    assert(s.table.symbols.len() <= after.table.symbols.len());
    assert(after.table.wf()) by {
        assert forall|n: u32| #[trigger] after.table.by_name.contains_key(n) implies
            after.table.by_name[n].0 < after.table.symbols.len() by {
            if n != sym.spec_name().0 {
                assert(s.table.by_name.contains_key(n));
            }
        }
    }
    assert(lazy_sound(after.table, archives)) by {
        assert forall|i: int|
            0 <= i < after.table.symbols.len() && #[trigger] after.table.symbols[i] is LazyArchive
            implies after.table.symbols[i]->LazyArchive_archive.0 < archives by {
            if after.table.symbols[i] != sym {
                assert(after.table.symbols[i] == s.table.symbols[i]);
            }
        }
    }
    assert(queue_sound(after.report.pending, after.table.symbols.len(), archives)) by {
        assert forall|i: int| 0 <= i < after.report.pending.len() implies pending_sound(
            #[trigger] after.report.pending[i],
            after.table.symbols.len(),
            archives,
        ) by {
            if i < s.report.pending.len() {
                assert(after.report.pending[i] == s.report.pending[i]);
                assert(pending_sound(s.report.pending[i], s.table.symbols.len(), archives));
            } else {
                let id = s.table.by_name[sym.spec_name().0];
                assert(s.table.by_name.contains_key(sym.spec_name().0));
                assert(s.table.symbols[id.0 as int] is LazyArchive);
            }
        }
    }
}

pub proof fn lemma_symbols_sound(
    s: Seeding,
    obj: ObjectFile,
    syms: Seq<InputSymbol>,
    origin: InputId,
    archives: nat,
)
    requires
        seeding_sound(s, archives),
    ensures
        seeding_sound(seed::symbols_seeded(s, obj, syms, origin), archives),
        s.table.symbols.len() <= seed::symbols_seeded(s, obj, syms, origin).table.symbols.len(),
    decreases syms.len(),
{
    if syms.len() > 0 {
        let before = seed::symbols_seeded(s, obj, syms.drop_last(), origin);
        lemma_symbols_sound(s, obj, syms.drop_last(), origin, archives);
        let sym = syms.last();
        if let Ok(name) = obj.name_of(sym) {
            let known = before.interned(name).referred(before.handle(name), origin);
            assert(known.table.symbols == before.table.symbols);
            assert(known.table.by_name == before.table.by_name);
            assert(known.report.pending == before.report.pending);
            assert(seeding_sound(known, archives));
            if let Some(symbol) = seed::symbolized(before.handle(name), sym, origin) {
                lemma_insert_sound(known, symbol, archives);
            }
        }
    }
}

/// The queue, the table and the archives agree.
pub open spec fn sound(f: Fetching, queue: Seq<PendingFetch>) -> bool {
    &&& queue_sound(queue, f.table.symbols.len(), f.inputs.archives.len())
    &&& lazy_sound(f.table, f.inputs.archives.len())
    &&& f.table.wf()
}

/// What a taken member wants leads to slots and archives that exist, and what was
/// wanted before still does.
pub proof fn law_ingest_keeps_sound(f: Fetching, queue: Seq<PendingFetch>, a: int, k: int)
    requires
        sound(f, queue),
        0 <= a < f.inputs.archives.len(),
    ensures
        sound(ingested(f, a, k).0, queue + ingested(f, a, k).1),
{
    let id = InputId(f.inputs.objects.len() as u32);
    let object = member_object(f.inputs.archives[a], f.inputs.archives[a].members[k]);
    let obj = f.inputs.objects.push(object)[id.0 as int].parsed;
    let start = Seeding { table: f.table, report: ReportModel::empty() };
    let n = f.inputs.archives.len();
    lemma_symbols_sound(start, obj, obj.symbols@, id, n);
    let next = ingested(f, a, k);
    let all = queue + next.1;
    assert forall|i: int| 0 <= i < all.len() implies pending_sound(
        #[trigger] all[i],
        next.0.table.symbols.len(),
        n,
    ) by {
        if i < queue.len() {
            assert(all[i] == queue[i]);
            assert(pending_sound(queue[i], f.table.symbols.len(), n));
        } else {
            assert(all[i] == next.1[i - queue.len()]);
        }
    }
}

fn find_member(members: &Vec<ArchiveMember>, offset: u32) -> (r: Option<usize>)
    ensures
        match (r, member_from(inputs::members_view(members@), offset, 0)) {
            (Some(k), Some(m)) => k == m && k < members@.len(),
            (None, None) => true,
            _ => false,
        },
{
    let ghost all = inputs::members_view(members@);
    let mut i: usize = 0;
    while i < members.len()
        invariant
            i <= members@.len(),
            all == inputs::members_view(members@),
            member_from(all, offset, i as nat) == member_from(all, offset, 0),
        decreases members@.len() - i,
    {
        assert(all[i as int] == members@[i as int]@);
        if members[i].header_offset == offset {
            return Some(i);
        }
        i += 1;
    }
    None
}

/// Takes a member out of its archive.
fn take_member(inputs: &mut Inputs, a: usize, k: usize) -> (r: ArchiveMember)
    requires
        a < old(inputs).archives@.len(),
        k < old(inputs).archives@[a as int].members@.len(),
    ensures
        r@ == old(inputs)@.archives[a as int].members[k as int],
        final(inputs)@ == (InputsModel {
            archives: archives_after(old(inputs)@.archives, a as int, k as int),
            ..old(inputs)@
        }),
{
    let ghost before = inputs@;
    let mut member = ArchiveMember {
        header_offset: inputs.archives[a].members[k].header_offset,
        name: inputs.archives[a].members[k].name.clone(),
        is_object: inputs.archives[a].members[k].is_object,
        bytes: Vec::new(),
        content: MemberContent::Fetched,
    };
    let ghost husk = member@;
    core::mem::swap(&mut inputs.archives[a].members[k], &mut member);
    proof {
        let old_archive = before.archives[a as int];
        assert(member@ == old_archive.members[k as int]);
        assert(husk =~= emptied(old_archive.members[k as int]));
        assert(inputs@.archives[a as int].members =~= old_archive.members.update(k as int, husk));
        assert(inputs@.archives =~= archives_after(before.archives, a as int, k as int));
        assert(inputs@ =~= (InputsModel {
            archives: archives_after(before.archives, a as int, k as int),
            ..before
        }));
    }
    member
}

/// A member that was loaded becomes an object, and its symbols are seeded. Gives back
/// what they want in turn.
fn ingest_loaded_member(
    inputs: &mut Inputs,
    table: &mut SymbolTable,
    a: usize,
    k: usize,
    report: &mut DrainReport,
) -> (r: Vec<PendingFetch>)
    requires
        a < old(inputs).archives@.len(),
        k < old(inputs).archives@[a as int].members@.len(),
        old(inputs).archives@[a as int].members@[k as int].content is Ready,
        old(table).wf(),
    ensures
        final(table).wf(),
        ({
            let before = Fetching {
                inputs: old(inputs)@,
                table: old(table)@,
                report: old(report)@,
            };
            let after = Fetching {
                inputs: final(inputs)@,
                table: final(table)@,
                report: final(report)@,
            };
            (after, r@) == ingested(before, a as int, k as int)
        }),
{
    let ghost before = Fetching { inputs: inputs@, table: table@, report: report@ };
    let ghost archive = inputs@.archives[a as int];
    let mut path = inputs.archives[a].path.clone();
    let load_order: usize = inputs.archives[a].load_order;
    let member = take_member(inputs, a, k);
    path.append("(");
    path.append(member.name.as_str());
    path.append(")");
    assert(archive.members[k as int].content is Ready);
    if let MemberContent::Ready(parsed) = member.content {
        let ghost start = inputs@;
        proof {
            let n: usize = inputs.objects.len();
            table::lemma_low32(n);
        }
        let input_id = InputId(inputs.objects.len() as u32);
        let object = ObjectInput {
            path,
            load_order,
            archive_member_offset: Some(member.header_offset),
            bytes: member.bytes,
            parsed,
        };
        assert(object@ =~= member_object(archive, archive.members[k as int]));
        inputs.objects.push(object);
        assert(inputs@.objects =~= start.objects.push(object@));
        assert(inputs@ =~= ingested(before, a as int, k as int).0.inputs);
        report.fetched_members = report.fetched_members.wrapping_add(1);
        let loaded = inputs.objects[input_id.0 as usize].path.clone();
        report.loaded_paths.push(loaded);
        assert(text::texts(report.loaded_paths@) =~= before.report.loaded_paths.push(loaded@));
        let mut sub_report = SeedReport::default();
        seed_object(inputs, input_id, table, &mut sub_report);
        report.referrers.extend_from(&sub_report.referrers);
        let mut duplicates = sub_report.duplicates;
        report.duplicates.append(&mut duplicates);
        proof {
            let after = Fetching { inputs: inputs@, table: table@, report: report@ };
            assert(after =~= ingested(before, a as int, k as int).0);
        }
        sub_report.pending_fetches
    } else {
        Vec::new()
    }
}

/// Fetches a member that is wanted, if its slot still waits for it.
fn fetch_and_ingest_one(
    inputs: &mut Inputs,
    table: &mut SymbolTable,
    pending: PendingFetch,
    report: &mut DrainReport,
) -> (r: Result<Vec<PendingFetch>, FetchError>)
    requires
        pending_sound(pending, old(table)@.symbols.len(), old(inputs)@.archives.len()),
        old(table).wf(),
    ensures
        final(table).wf(),
        ({
            let before = Fetching {
                inputs: old(inputs)@,
                table: old(table)@,
                report: old(report)@,
            };
            let after = Fetching {
                inputs: final(inputs)@,
                table: final(table)@,
                report: final(report)@,
            };
            if !still_wanted(before.table, pending) {
                r is Ok && r->Ok_0@.len() == 0 && after == before
            } else {
                match fetch(before.inputs, pending.archive, pending.member) {
                    Fetch::Skip => r is Ok && r->Ok_0@.len() == 0 && after == before,
                    Fetch::Fail(e) => r is Err && r->Err_0 == e && after == before,
                    Fetch::Take(k) => r is Ok && (after, r->Ok_0@) == ingested(
                        before,
                        pending.archive.0 as int,
                        k,
                    ),
                }
            }
        }),
{
    if let Symbol::LazyArchive { .. } = table.get(pending.id) {
        load_and_ingest_member(inputs, table, pending.archive, pending.member, report)
    } else {
        Ok(Vec::new())
    }
}

fn load_and_ingest_member(
    inputs: &mut Inputs,
    table: &mut SymbolTable,
    archive: ArchiveId,
    member: MemberId,
    report: &mut DrainReport,
) -> (r: Result<Vec<PendingFetch>, FetchError>)
    requires
        archive.0 < old(inputs)@.archives.len(),
        old(table).wf(),
    ensures
        final(table).wf(),
        ({
            let before = Fetching {
                inputs: old(inputs)@,
                table: old(table)@,
                report: old(report)@,
            };
            let after = Fetching {
                inputs: final(inputs)@,
                table: final(table)@,
                report: final(report)@,
            };
            match fetch(before.inputs, archive, member) {
                Fetch::Skip => r is Ok && r->Ok_0@.len() == 0 && after == before,
                Fetch::Fail(e) => r is Err && r->Err_0 == e && after == before,
                Fetch::Take(k) => r is Ok && (after, r->Ok_0@) == ingested(
                    before,
                    archive.0 as int,
                    k,
                ),
            }
        }),
{
    let a: usize = archive.0 as usize;
    assert(inputs@.archives[a as int] == inputs.archives@[a as int]@);
    match find_member(&inputs.archives[a].members, member.0) {
        None => Err(FetchError::MemberNotFound { archive, member }),
        Some(k) => {
            assert(inputs@.archives[a as int].members[k as int]
                == inputs.archives@[a as int].members@[k as int]@);
            match &inputs.archives[a].members[k].content {
                MemberContent::Fetched => {
                    return Ok(Vec::new());
                },
                MemberContent::Unreadable(e) => {
                    return Err(FetchError::Read(*e));
                },
                MemberContent::Ready(_) => {},
            }
            Ok(ingest_loaded_member(inputs, table, a, k, report))
        },
    }
}

/// Works a queue off from its end.
fn drain_queue(
    inputs: &mut Inputs,
    table: &mut SymbolTable,
    queue: Vec<PendingFetch>,
    report: &mut DrainReport,
) -> (r: Result<(), FetchError>)
    requires
        old(table).wf(),
        queue_sound(queue@, old(table)@.symbols.len(), old(inputs)@.archives.len()),
        lazy_sound(old(table)@, old(inputs)@.archives.len()),
    ensures
        final(table).wf(),
        ({
            let before = Fetching {
                inputs: old(inputs)@,
                table: old(table)@,
                report: old(report)@,
            };
            let after = Fetching {
                inputs: final(inputs)@,
                table: final(table)@,
                report: final(report)@,
            };
            &&& after == drained(before, queue@).0
            &&& match drained(before, queue@).1 {
                None => r is Ok,
                Some(e) => r is Err && r->Err_0 == e,
            }
            &&& final(inputs)@.archives.len() == old(inputs)@.archives.len()
            &&& lazy_sound(final(table)@, final(inputs)@.archives.len())
        }),
{
    let ghost before = Fetching { inputs: inputs@, table: table@, report: report@ };
    let mut left = queue;
    while left.len() > 0
        invariant
            table.wf(),
            sound((Fetching { inputs: inputs@, table: table@, report: report@ }), left@),
            drained((Fetching { inputs: inputs@, table: table@, report: report@ }), left@)
                == drained(before, queue@),
            inputs@.archives.len() == before.inputs.archives.len(),
            before == (Fetching { inputs: old(inputs)@, table: old(table)@, report: old(report)@ }),
        decreases unfetched(inputs@.archives), left@.len(),
    {
        let ghost now = Fetching { inputs: inputs@, table: table@, report: report@ };
        let ghost waiting_now = left@;
        let p = match left.pop() {
            Some(p) => p,
            None => {
                return Ok(());
            },
        };
        proof {
            assert(waiting_now.drop_last() =~= left@);
            assert(p == waiting_now.last());
            assert(pending_sound(
                waiting_now[waiting_now.len() - 1],
                now.table.symbols.len(),
                now.inputs.archives.len(),
            ));
            assert(sound(now, left@)) by {
                assert forall|i: int| 0 <= i < left@.len() implies pending_sound(
                    #[trigger] left@[i],
                    now.table.symbols.len(),
                    now.inputs.archives.len(),
                ) by {
                    assert(left@[i] == waiting_now[i]);
                }
            }
            lemma_member_from(
                now.inputs.archives[p.archive.0 as int].members,
                p.member.0,
                0,
            );
        }
        let ghost rest = left@;
        match fetch_and_ingest_one(inputs, table, p, report) {
            Ok(new) => {
                let mut new = new;
                let ghost wanted = new@;
                left.append(&mut new);
                proof {
                    if still_wanted(now.table, p) {
                        if let Fetch::Take(k) = fetch(now.inputs, p.archive, p.member) {
                            lemma_taking_uses_up(now.inputs.archives, p.archive.0 as int, k);
                            law_ingest_keeps_sound(now, rest, p.archive.0 as int, k);
                            assert(left@ =~= rest + ingested(now, p.archive.0 as int, k).1);
                        } else {
                            assert(left@ =~= rest);
                        }
                    } else {
                        assert(left@ =~= rest);
                    }
                }
            },
            Err(e) => {
                return Err(e);
            },
        }
    }
    Ok(())
}

/// Fetches what is wanted, and what the fetched objects want in turn, until nothing
/// more is. What was wanted last comes first.
pub fn drain_fetches(
    inputs: &mut Inputs,
    table: &mut SymbolTable,
    initial: Vec<PendingFetch>,
) -> (r: Result<DrainReport, FetchError>)
    requires
        old(table).wf(),
        queue_sound(initial@, old(table)@.symbols.len(), old(inputs)@.archives.len()),
        lazy_sound(old(table)@, old(inputs)@.archives.len()),
    ensures
        final(table).wf(),
        ({
            let before = Fetching {
                inputs: old(inputs)@,
                table: old(table)@,
                report: DrainModel::empty(),
            };
            let end = drained(before, initial@);
            &&& final(inputs)@ == end.0.inputs
            &&& final(table)@ == end.0.table
            &&& match end.1 {
                None => r is Ok && r->Ok_0@ == end.0.report,
                Some(e) => r is Err && r->Err_0 == e,
            }
        }),
{
    let mut report = DrainReport::default();
    match drain_queue(inputs, table, initial, &mut report) {
        Ok(_) => Ok(report),
        Err(e) => Err(e),
    }
}

/// After the members of an archive from `i` on were taken, whether wanted or not: the
/// state, what their objects want, and the error that ended it.
pub open spec fn forced_from(f: Fetching, a: ArchiveId, i: nat, queue: Seq<PendingFetch>) -> (
    Fetching,
    Seq<PendingFetch>,
    Option<FetchError>,
)
    decreases f.inputs.archives[a.0 as int].members.len() - i,
    when a.0 < f.inputs.archives.len()
    via forced_from_ends
{
    let members = f.inputs.archives[a.0 as int].members;
    if i >= members.len() {
        (f, queue, None)
    } else if !members[i as int].is_object {
        forced_from(f, a, i + 1, queue)
    } else {
        match fetch(f.inputs, a, MemberId(members[i as int].header_offset)) {
            Fetch::Skip => forced_from(f, a, i + 1, queue),
            Fetch::Fail(e) => (f, queue, Some(e)),
            Fetch::Take(k) => {
                let next = ingested(f, a.0 as int, k);
                forced_from(next.0, a, i + 1, queue + next.1)
            },
        }
    }
}

#[via_fn]
proof fn forced_from_ends(f: Fetching, a: ArchiveId, i: nat, queue: Seq<PendingFetch>) {
    let members = f.inputs.archives[a.0 as int].members;
    if i < members.len() {
        let member = MemberId(members[i as int].header_offset);
        lemma_member_from(members, member.0, 0);
        if let Fetch::Take(k) = fetch(f.inputs, a, member) {
            let next = ingested(f, a.0 as int, k).0;
            assert(next.inputs.archives[a.0 as int].members.len() == members.len());
        }
    }
}

/// After all members of an archive were taken, and what their objects want.
pub open spec fn forced(f: Fetching, a: ArchiveId) -> (Fetching, Option<FetchError>) {
    let taken = forced_from(f, a, 0, seq![]);
    match taken.2 {
        Some(e) => (taken.0, Some(e)),
        None => drained(taken.0, taken.1),
    }
}

/// Takes every object of an archive, whether it is wanted or not.
pub fn force_load_archive(
    inputs: &mut Inputs,
    table: &mut SymbolTable,
    archive_id: ArchiveId,
    report: &mut DrainReport,
) -> (r: Result<(), FetchError>)
    requires
        archive_id.0 < old(inputs)@.archives.len(),
        old(table).wf(),
        lazy_sound(old(table)@, old(inputs)@.archives.len()),
    ensures
        final(table).wf(),
        ({
            let before = Fetching {
                inputs: old(inputs)@,
                table: old(table)@,
                report: old(report)@,
            };
            let after = Fetching {
                inputs: final(inputs)@,
                table: final(table)@,
                report: final(report)@,
            };
            &&& after == forced(before, archive_id).0
            &&& match forced(before, archive_id).1 {
                None => r is Ok,
                Some(e) => r is Err && r->Err_0 == e,
            }
            &&& final(inputs)@.archives.len() == old(inputs)@.archives.len()
            &&& lazy_sound(final(table)@, final(inputs)@.archives.len())
        }),
{
    let ghost before = Fetching { inputs: inputs@, table: table@, report: report@ };
    let a: usize = archive_id.0 as usize;
    let count: usize = inputs.archives[a].members.len();
    let mut queue: Vec<PendingFetch> = Vec::new();
    let mut i: usize = 0;
    assert(before.inputs.archives[a as int] == inputs.archives@[a as int]@);
    while i < count
        invariant
            i <= count,
            a == archive_id.0,
            table.wf(),
            archive_id.0 < before.inputs.archives.len(),
            before == (Fetching { inputs: old(inputs)@, table: old(table)@, report: old(report)@ }),
            inputs@.archives.len() == before.inputs.archives.len(),
            inputs@.archives[a as int].members.len() == count,
            sound((Fetching { inputs: inputs@, table: table@, report: report@ }), queue@),
            forced_from(
                (Fetching { inputs: inputs@, table: table@, report: report@ }),
                archive_id,
                i as nat,
                queue@,
            ) == forced_from(before, archive_id, 0, seq![]),
        decreases count - i,
    {
        let ghost now = Fetching { inputs: inputs@, table: table@, report: report@ };
        let ghost start = queue@;
        assert(now.inputs.archives[a as int] == inputs.archives@[a as int]@);
        assert(now.inputs.archives[a as int].members[i as int]
            == inputs.archives@[a as int].members@[i as int]@);
        if inputs.archives[a].members[i].is_object {
            let offset = MemberId(inputs.archives[a].members[i].header_offset);
            proof {
                lemma_member_from(now.inputs.archives[a as int].members, offset.0, 0);
            }
            match load_and_ingest_member(inputs, table, archive_id, offset, report) {
                Ok(new) => {
                    let mut new = new;
                    queue.append(&mut new);
                    proof {
                        if let Fetch::Take(k) = fetch(now.inputs, archive_id, offset) {
                            law_ingest_keeps_sound(now, start, a as int, k);
                            assert(queue@ =~= start + ingested(now, a as int, k).1);
                        } else {
                            assert(queue@ =~= start);
                        }
                    }
                },
                Err(e) => {
                    return Err(e);
                },
            }
        }
        i += 1;
    }
    drain_queue(inputs, table, queue, report)
}

/// After all members of the archives from `i` on were taken.
pub open spec fn all_forced_from(f: Fetching, i: nat, archives: nat) -> (
    Fetching,
    Option<FetchError>,
)
    decreases archives - i,
{
    if i >= archives {
        (f, None)
    } else {
        let next = forced(f, ArchiveId(i as u32));
        match next.1 {
            Some(e) => (next.0, Some(e)),
            None => all_forced_from(next.0, i + 1, archives),
        }
    }
}

/// Takes every object of every archive.
pub fn force_load_all(
    inputs: &mut Inputs,
    table: &mut SymbolTable,
    report: &mut DrainReport,
) -> (r: Result<(), FetchError>)
    requires
        old(inputs)@.archives.len() <= 0x1_0000_0000,
        old(table).wf(),
        lazy_sound(old(table)@, old(inputs)@.archives.len()),
    ensures
        final(table).wf(),
        ({
            let before = Fetching {
                inputs: old(inputs)@,
                table: old(table)@,
                report: old(report)@,
            };
            let after = Fetching {
                inputs: final(inputs)@,
                table: final(table)@,
                report: final(report)@,
            };
            let end = all_forced_from(before, 0, old(inputs)@.archives.len());
            &&& after == end.0
            &&& match end.1 {
                None => r is Ok,
                Some(e) => r is Err && r->Err_0 == e,
            }
        }),
{
    let ghost before = Fetching { inputs: inputs@, table: table@, report: report@ };
    let count: usize = inputs.archives.len();
    let mut i: usize = 0;
    while i < count
        invariant
            i <= count <= 0x1_0000_0000,
            table.wf(),
            before == (Fetching { inputs: old(inputs)@, table: old(table)@, report: old(report)@ }),
            inputs@.archives.len() == count,
            before.inputs.archives.len() == count,
            lazy_sound(table@, count as nat),
            all_forced_from(
                (Fetching { inputs: inputs@, table: table@, report: report@ }),
                i as nat,
                count as nat,
            ) == all_forced_from(before, 0, count as nat),
        decreases count - i,
    {
        match force_load_archive(inputs, table, ArchiveId(i as u32), report) {
            Ok(_) => {},
            Err(e) => {
                return Err(e);
            },
        }
        i += 1;
    }
    Ok(())
}

} // verus!
