//! Applying the relocations of the input to the bytes of the output.

use vstd::prelude::*;
use crate::atom;
use crate::atom::{Atom, AtomSection};
use crate::bytes;
use crate::bytes::{overwrite_u32, read_u32};
use crate::input::ObjectFile;
use crate::layout;
use crate::layout::{Layout, LayoutInput};
use crate::reloc::arm64;
use crate::reloc::arm64::maps;
use crate::reloc::arm64::maps::{cached_relocs_for_atom, InputMap};
use crate::reloc::arm64::patch;
use crate::reloc::arm64::patch::{
    clear_direct_import_slot, direct_import_bind_supported, patch_branch26,
    patch_got_pageoff12_relaxed, patch_page21, patch_pageoff12, patch_subtractor,
    patch_tlvp_pageoff12, patch_unsigned, Site,
};
use crate::reloc::arm64::targets;
use crate::reloc::arm64::targets::{
    dylib_import_symbol_id, find_addr, got_reloc_relaxes_locally, reloc_error,
    resolve_branch_target, resolve_got_target, resolve_referent, resolve_tlvp_target, ResolveView,
    Targets,
};
use crate::reloc::arm64::thunks;
use crate::reloc::arm64::thunks::{ThunkModel, ThunkPlan};
use crate::reloc::arm64::{describe_referent, RelocError, RelocFault};
use crate::reloc::{ParsedRelocCache, Reloc, RelocKind};
use crate::resolve::AtomId;
use crate::section::{OutputAtom, OutputSection};

verus! {

/// The thunks of a link and where they ended up.
#[verifier::ext_equal]
pub struct PlacedThunks {
    pub plan: Option<ThunkModel>,
    pub addrs: Option<Seq<Option<u64>>>,
}

/// Where a branch at `local_offset` goes: to its thunk if it has one, else to its
/// target.
pub open spec fn branch_destination(t: Targets, thunks: PlacedThunks, site: Site) -> Result<
    u64,
    RelocFault,
> {
    let redirect = match thunks.plan {
        Some(plan) => targets::lookup(
            plan.redirects,
            thunks::branch_at(site.atom.id, site.local_offset),
        ),
        None => None,
    };
    match redirect {
        None => targets::branch_target(t, *site.obj, *site.atom, site.reloc),
        Some(index) => {
            let addr = match thunks.addrs {
                Some(addrs) => if index < addrs.len() {
                    addrs[index as int]
                } else {
                    None
                },
                None => None,
            };
            match addr {
                Some(addr) => Ok(addr),
                None => Err(site.fault("thunk section missing final address"@)),
            }
        },
    }
}

/// What a load through the pointer table goes to: its slot, or the target itself
/// where that is in this image.
pub open spec fn got_load_target(t: Targets, site: Site) -> Result<u64, RelocFault> {
    if targets::relaxes_locally(t, *site.obj, site.reloc) {
        targets::referent_target(t, *site.obj, *site.atom, site.reloc.kind, site.reloc.referent)
    } else {
        targets::got_target(t, *site.obj, *site.atom, site.reloc)
    }
}

/// The bytes of an atom after one relocation, once its place is known.
pub open spec fn relocated_at(
    t: Targets,
    thunks: PlacedThunks,
    site: Site,
    place: u64,
    s: Seq<u8>,
) -> Result<Seq<u8>, RelocFault> {
    let plain = targets::referent_target(
        t,
        *site.obj,
        *site.atom,
        site.reloc.kind,
        site.reloc.referent,
    );
    let imported = targets::import_symbol(*site.obj, site.reloc.referent, t.symbols) is Some;
    match site.reloc.kind {
        RelocKind::Unsigned => if imported {
            if patch::bindable(site.reloc) {
                site.store64(s, 0)
            } else {
                Err(
                    site.fault(
                        "direct dylib imports currently require a 64-bit UNSIGNED pointer slot"@,
                    ),
                )
            }
        } else {
            match plain {
                Ok(target) => patch::unsigned_patch(site, s, target),
                Err(e) => Err(e),
            }
        },
        RelocKind::Subtractor => match plain {
            Ok(minuend) => patch::subtractor_patch(site, s, minuend, t),
            Err(e) => Err(e),
        },
        RelocKind::Branch26 => match branch_destination(t, thunks, site) {
            Ok(target) => patch::branch26_patch(site, s, place, target),
            Err(e) => Err(e),
        },
        RelocKind::Page21 => match plain {
            Ok(target) => patch::page21_patch(site, s, place, target),
            Err(e) => Err(e),
        },
        RelocKind::PageOff12 => match plain {
            Ok(target) => patch::pageoff12_patch(site, s, target),
            Err(e) => Err(e),
        },
        RelocKind::GotLoadPage21 => match got_load_target(t, site) {
            Ok(target) => patch::page21_patch(site, s, place, target),
            Err(e) => Err(e),
        },
        RelocKind::GotLoadPageOff12 => match got_load_target(t, site) {
            Ok(target) => if targets::relaxes_locally(t, *site.obj, site.reloc) {
                patch::add_patch(site, s, target)
            } else {
                patch::pageoff12_patch(site, s, target)
            },
            Err(e) => Err(e),
        },
        RelocKind::PointerToGot => match targets::got_target(
            t,
            *site.obj,
            *site.atom,
            site.reloc,
        ) {
            Ok(target) => patch::unsigned_patch(site, s, target),
            Err(e) => Err(e),
        },
        RelocKind::TlvpLoadPage21 => match targets::tlvp_target(
            t,
            *site.obj,
            *site.atom,
            site.reloc,
        ) {
            Ok(target) => patch::page21_patch(site, s, place, target),
            Err(e) => Err(e),
        },
        RelocKind::TlvpLoadPageOff12 => match targets::tlvp_target(
            t,
            *site.obj,
            *site.atom,
            site.reloc,
        ) {
            Ok(target) => if imported {
                patch::pageoff12_patch(site, s, target)
            } else {
                patch::add_patch(site, s, target)
            },
            Err(e) => Err(e),
        },
    }
}

/// The bytes of an atom after one relocation.
pub open spec fn relocated_once(
    t: Targets,
    thunks: PlacedThunks,
    atom: Atom,
    obj: ObjectFile,
    reloc: Reloc,
    s: Seq<u8>,
) -> Result<Seq<u8>, RelocFault> {
    if reloc.offset < atom.input_offset {
        Err(
            targets::fault_at(
                atom,
                obj,
                reloc.offset,
                reloc.kind,
                arm64::referent_text(obj, reloc.referent),
                "relocation lands before atom start"@,
            ),
        )
    } else {
        let local_offset = (reloc.offset - atom.input_offset) as u32;
        let site = Site { atom: &atom, obj: &obj, local_offset, reloc };
        match t.atom_addr(atom.id) {
            None => Err(site.fault("atom missing final address"@)),
            Some(base) => relocated_at(
                t,
                thunks,
                site,
                base.wrapping_add(local_offset as u64),
                s,
            ),
        }
    }
}

/// A placed plan with the vectors that hold it.
pub open spec fn placed_thunks(plan: Option<&ThunkPlan>, addrs: Option<&Vec<Option<u64>>>) -> PlacedThunks {
    PlacedThunks {
        plan: match plan {
            Some(plan) => Some(plan@),
            None => None,
        },
        addrs: match addrs {
            Some(addrs) => Some(addrs@),
            None => None,
        },
    }
}

fn resolve_branch_destination(
    site: Site<'_>,
    v: &ResolveView<'_>,
    thunk_plan: Option<&ThunkPlan>,
    thunk_addrs: Option<&Vec<Option<u64>>>,
) -> (r: Result<u64, RelocError>)
    requires
        v.wf(),
    ensures
        arm64::same_outcome(
            r,
            branch_destination(v@, placed_thunks(thunk_plan, thunk_addrs), site),
        ),
{
    if let Some(plan) = thunk_plan {
        if let Some(index) = plan.redirect_for(site.atom.id, site.local_offset) {
            if let Some(addrs) = thunk_addrs {
                if index < addrs.len() {
                    if let Some(addr) = addrs[index] {
                        return Ok(addr);
                    }
                }
            }
            return Err(site.error("thunk section missing final address"));
        }
    }
    resolve_branch_target(site.obj, site.atom, site.reloc, v)
}

fn resolve_got_load(site: Site<'_>, v: &ResolveView<'_>) -> (r: Result<u64, RelocError>)
    requires
        v.wf(),
    ensures
        arm64::same_outcome(r, got_load_target(v@, site)),
{
    if got_reloc_relaxes_locally(site.obj, site.reloc, v) {
        resolve_referent(site.obj, site.atom, site.reloc.kind, site.reloc.referent, v)
    } else {
        resolve_got_target(site.obj, site.atom, site.reloc, v)
    }
}

/// Applies one relocation to the bytes of its atom. One that fails leaves the bytes as
/// they were.
pub fn apply_one(
    bytes: &mut Vec<u8>,
    atom: &Atom,
    obj: &ObjectFile,
    reloc: Reloc,
    v: &ResolveView<'_>,
    thunk_plan: Option<&ThunkPlan>,
    thunk_addrs: Option<&Vec<Option<u64>>>,
) -> (r: Result<(), RelocError>)
    requires
        v.wf(),
    ensures
        patch::patched(
            old(bytes)@,
            final(bytes)@,
            r,
            relocated_once(
                v@,
                placed_thunks(thunk_plan, thunk_addrs),
                *atom,
                *obj,
                reloc,
                old(bytes)@,
            ),
        ),
{
    if reloc.offset < atom.input_offset {
        return Err(
            reloc_error(
                atom,
                obj,
                reloc.offset,
                reloc.kind,
                describe_referent(obj, reloc.referent),
                "relocation lands before atom start",
            ),
        );
    }
    let local_offset: u32 = reloc.offset - atom.input_offset;
    let site = Site { atom, obj, local_offset, reloc };
    let place: u64 = match find_addr(v.atom_addrs, atom.id.0) {
        Some(base) => base.wrapping_add(local_offset as u64),
        None => {
            return Err(site.error("atom missing final address"));
        },
    };
    match reloc.kind {
        RelocKind::Unsigned => {
            if dylib_import_symbol_id(obj, reloc.referent, v.sym_table).is_some() {
                if direct_import_bind_supported(reloc) {
                    clear_direct_import_slot(bytes, site)
                } else {
                    Err(
                        site.error(
                            "direct dylib imports currently require a 64-bit UNSIGNED pointer slot",
                        ),
                    )
                }
            } else {
                match resolve_referent(obj, atom, reloc.kind, reloc.referent, v) {
                    Ok(target) => patch_unsigned(bytes, site, target),
                    Err(e) => Err(e),
                }
            }
        },
        RelocKind::Subtractor => match resolve_referent(obj, atom, reloc.kind, reloc.referent, v) {
            Ok(minuend) => patch_subtractor(bytes, site, minuend, v),
            Err(e) => Err(e),
        },
        RelocKind::Branch26 => match resolve_branch_destination(site, v, thunk_plan, thunk_addrs) {
            Ok(target) => patch_branch26(bytes, site, place, target),
            Err(e) => Err(e),
        },
        RelocKind::Page21 => match resolve_referent(obj, atom, reloc.kind, reloc.referent, v) {
            Ok(target) => patch_page21(bytes, site, place, target),
            Err(e) => Err(e),
        },
        RelocKind::PageOff12 => match resolve_referent(obj, atom, reloc.kind, reloc.referent, v) {
            Ok(target) => patch_pageoff12(bytes, site, target),
            Err(e) => Err(e),
        },
        RelocKind::GotLoadPage21 => match resolve_got_load(site, v) {
            Ok(target) => patch_page21(bytes, site, place, target),
            Err(e) => Err(e),
        },
        RelocKind::GotLoadPageOff12 => match resolve_got_load(site, v) {
            Ok(target) => {
                if got_reloc_relaxes_locally(obj, reloc, v) {
                    patch_got_pageoff12_relaxed(bytes, site, target)
                } else {
                    patch_pageoff12(bytes, site, target)
                }
            },
            Err(e) => Err(e),
        },
        RelocKind::PointerToGot => match resolve_got_target(obj, atom, reloc, v) {
            Ok(target) => patch_unsigned(bytes, site, target),
            Err(e) => Err(e),
        },
        RelocKind::TlvpLoadPage21 => match resolve_tlvp_target(obj, atom, reloc, v) {
            Ok(target) => patch_page21(bytes, site, place, target),
            Err(e) => Err(e),
        },
        RelocKind::TlvpLoadPageOff12 => match resolve_tlvp_target(obj, atom, reloc, v) {
            Ok(target) => {
                if dylib_import_symbol_id(obj, reloc.referent, v.sym_table).is_some() {
                    patch_pageoff12(bytes, site, target)
                } else {
                    patch_tlvp_pageoff12(bytes, site, target)
                }
            },
            Err(e) => Err(e),
        },
    }
}

/// An error in the back pointer of an unwind entry.
pub open spec fn cie_fault(atom: AtomId, detail: Seq<char>) -> RelocFault {
    RelocFault {
        input: "<eh_frame>"@,
        atom,
        atom_offset: 4,
        kind: RelocKind::Unsigned,
        referent: "__eh_frame CIE pointer"@,
        detail,
    }
}

fn cie_error(atom: AtomId, detail: &str) -> (r: RelocError)
    ensures
        r@ == cie_fault(atom, detail@),
{
    RelocError {
        input: "<eh_frame>".to_owned(),
        atom,
        atom_offset: 4,
        kind: RelocKind::Unsigned,
        referent: "__eh_frame CIE pointer".to_owned(),
        detail: detail.to_owned(),
    }
}

/// The first of the atoms that covers `offset`.
pub open spec fn holder(atoms: Seq<Atom>, ids: Seq<AtomId>, offset: int) -> Option<AtomId>
    decreases ids.len(),
{
    if ids.len() == 0 {
        None
    } else {
        let a = atoms[ids.first().0 - 1];
        if a.input_offset <= offset < targets::atom_end(a) {
            Some(ids.first())
        } else {
            holder(atoms, ids.drop_first(), offset)
        }
    }
}

fn find_holder(v: &ResolveView<'_>, atom: &Atom, offset: u32) -> (r: Option<AtomId>)
    requires
        v.wf(),
    ensures
        r == holder(
            v@.atoms,
            atom::section_atoms(
                v@.atoms,
                atom::section_key(atom.origin, atom.input_section),
            ),
            offset as int,
        ),
{
    let ghost key = atom::section_key(atom.origin, atom.input_section);
    let ghost all = atom::section_atoms(v@.atoms, key);
    let ids = match v.atoms_by_input_section.get(
        atom.origin,
        atom.input_section,
        Ghost(v.atom_table@),
    ) {
        Some(ids) => ids,
        None => {
            return None;
        },
    };
    let mut i: usize = 0;
    assert(all.skip(0) =~= all);
    while i < ids.len()
        invariant
            v.wf(),
            ids@ == all,
            key == atom::section_key(atom.origin, atom.input_section),
            all == atom::section_atoms(v@.atoms, key),
            i <= ids@.len(),
            holder(v@.atoms, all, offset as int) == holder(
                v@.atoms,
                all.skip(i as int),
                offset as int,
            ),
        decreases ids@.len() - i,
    {
        proof {
            targets::lemma_section_atoms_exist(v.atom_table@, key, i as int);
            assert(all.skip(i as int).first() == ids@[i as int]);
            assert(all.skip(i as int).drop_first() =~= all.skip(i + 1));
        }
        let candidate = v.atom_table.get(ids[i]);
        if candidate.input_offset <= offset && offset < candidate.input_offset.saturating_add(
            candidate.size,
        ) {
            return Some(ids[i]);
        }
        i += 1;
    }
    None
}

/// The bytes of an unwind entry with the distance back to its common part in them, as
/// it is in the output.
pub open spec fn eh_frame_patch(t: Targets, atom: Atom, s: Seq<u8>) -> Result<Seq<u8>, RelocFault> {
    if atom.section != AtomSection::EhFrame || s.len() < 8 || bytes::le32(s, 4) == 0 {
        Ok(s)
    } else {
        let offset = atom.input_offset + 4 - bytes::le32(s, 4);
        if atom.input_offset + 4 > u32::MAX || offset < 0 {
            Err(cie_fault(atom.id, "invalid CIE back-pointer"@))
        } else {
            let ids = atom::section_atoms(
                t.atoms,
                atom::section_key(atom.origin, atom.input_section),
            );
            let cie = match holder(t.atoms, ids, offset) {
                Some(id) => t.atom_addr(id),
                None => None,
            };
            match (cie, t.atom_addr(atom.id)) {
                (None, _) => Err(
                    cie_fault(atom.id, "eh_frame CIE atom is missing from the final layout"@),
                ),
                (Some(_), None) => Err(
                    cie_fault(atom.id, "eh_frame atom is missing a final address"@),
                ),
                (Some(cie), Some(base)) => Ok(
                    bytes::replaced(
                        s,
                        4,
                        bytes::le32_bytes(base.wrapping_add(4).wrapping_sub(cie) as u32),
                    ),
                ),
            }
        }
    }
}

pub fn patch_eh_frame_cie_pointer(bytes: &mut Vec<u8>, atom: &Atom, v: &ResolveView<'_>) -> (r:
    Result<(), RelocError>)
    requires
        v.wf(),
    ensures
        patch::patched(old(bytes)@, final(bytes)@, r, eh_frame_patch(v@, *atom, old(bytes)@)),
{
    if atom.section != AtomSection::EhFrame || bytes.len() < 8 {
        return Ok(());
    }
    let cie_delta: u32 = read_u32(bytes.as_slice(), 4);
    if cie_delta == 0 {
        return Ok(());
    }
    if atom.input_offset > u32::MAX - 4 || atom.input_offset + 4 < cie_delta {
        return Err(cie_error(atom.id, "invalid CIE back-pointer"));
    }
    let cie_offset: u32 = atom.input_offset + 4 - cie_delta;
    let cie: Option<u64> = match find_holder(v, atom, cie_offset) {
        Some(id) => find_addr(v.atom_addrs, id.0),
        None => None,
    };
    let cie_addr: u64 = match cie {
        Some(addr) => addr,
        None => {
            return Err(
                cie_error(atom.id, "eh_frame CIE atom is missing from the final layout"),
            );
        },
    };
    let fde_field: u64 = match find_addr(v.atom_addrs, atom.id.0) {
        Some(addr) => addr.wrapping_add(4),
        None => {
            return Err(cie_error(atom.id, "eh_frame atom is missing a final address"));
        },
    };
    let rewritten: u32 = fde_field.wrapping_sub(cie_addr) as u32;
    overwrite_u32(bytes, 4, rewritten);
    Ok(())
}

/// What the sections of a layout hold, apart from where everything is.
#[verifier::ext_equal]
pub struct Contents {
    /// The bytes of each atom of each section.
    pub atoms: Seq<Seq<Seq<u8>>>,
    /// The bytes that the linker itself adds to each section.
    pub synthetic: Seq<Seq<u8>>,
}

pub open spec fn atoms_data(atoms: Seq<OutputAtom>) -> Seq<Seq<u8>> {
    atoms.map_values(|a: OutputAtom| a.data@)
}

pub open spec fn contents_of(sections: Seq<OutputSection>) -> Contents {
    Contents {
        atoms: sections.map_values(|s: OutputSection| atoms_data(s.atoms@)),
        synthetic: sections.map_values(|s: OutputSection| s.synthetic_data@),
    }
}

/// Two atoms differ at most in their bytes.
pub open spec fn same_place(a: OutputAtom, b: OutputAtom) -> bool {
    a.atom == b.atom && a.offset == b.offset && a.size == b.size
}

pub open spec fn same_places(a: Seq<OutputAtom>, b: Seq<OutputAtom>) -> bool {
    a.len() == b.len() && forall|i: int|
        0 <= i < a.len() ==> same_place(#[trigger] a[i], #[trigger] b[i])
}

/// Two sections differ at most in the bytes that they hold.
pub open spec fn same_frame(a: OutputSection, b: OutputSection) -> bool {
    &&& a.segment@ == b.segment@
    &&& a.name@ == b.name@
    &&& a.kind == b.kind
    &&& a.align_pow2 == b.align_pow2
    &&& a.flags == b.flags
    &&& a.reserved1 == b.reserved1
    &&& a.reserved2 == b.reserved2
    &&& a.reserved3 == b.reserved3
    &&& same_places(a.atoms@, b.atoms@)
    &&& a.synthetic_offset == b.synthetic_offset
    &&& a.addr == b.addr
    &&& a.size == b.size
    &&& a.file_off == b.file_off
}

/// Two layouts differ at most in the bytes that their sections hold.
pub open spec fn same_shape(a: Seq<OutputSection>, b: Seq<OutputSection>) -> bool {
    a.len() == b.len() && forall|i: int|
        0 <= i < a.len() ==> same_frame(#[trigger] a[i], #[trigger] b[i])
}

/// A step left everything but bytes alone, and wrote the bytes that `want` says or
/// failed with its error.
pub open spec fn outcome(
    before: Layout,
    after: Layout,
    r: Result<(), RelocError>,
    want: Result<Contents, RelocFault>,
) -> bool {
    &&& after.kind == before.kind
    &&& after.segments@ == before.segments@
    &&& same_shape(before.sections@, after.sections@)
    &&& match (r, want) {
        (Ok(_), Ok(c)) => contents_of(after.sections@) == c,
        (Err(e), Err(f)) => e@ == f,
        _ => false,
    }
}

/// The bytes of an atom after all its relocations.
pub open spec fn relocated(
    t: Targets,
    thunks: PlacedThunks,
    atom: Atom,
    obj: ObjectFile,
    relocs: Seq<Reloc>,
    s: Seq<u8>,
) -> Result<Seq<u8>, RelocFault>
    decreases relocs.len(),
{
    if relocs.len() == 0 {
        Ok(s)
    } else {
        match relocated(t, thunks, atom, obj, relocs.drop_last(), s) {
            Ok(b) => relocated_once(t, thunks, atom, obj, relocs.last(), b),
            Err(e) => Err(e),
        }
    }
}

proof fn lemma_relocated_fault(
    t: Targets,
    thunks: PlacedThunks,
    atom: Atom,
    obj: ObjectFile,
    relocs: Seq<Reloc>,
    s: Seq<u8>,
    n: int,
)
    requires
        0 <= n <= relocs.len(),
        relocated(t, thunks, atom, obj, relocs.take(n), s) is Err,
    ensures
        relocated(t, thunks, atom, obj, relocs, s) == relocated(
            t,
            thunks,
            atom,
            obj,
            relocs.take(n),
            s,
        ),
    decreases relocs.len() - n,
{
    if n < relocs.len() {
        assert(relocs.take(n + 1).drop_last() =~= relocs.take(n));
        lemma_relocated_fault(t, thunks, atom, obj, relocs, s, n + 1);
    } else {
        assert(relocs.take(n) =~= relocs);
    }
}

/// What the relocation of placed atoms depends on.
pub struct RegularRelocContext<'a> {
    pub input_map: &'a InputMap<'a>,
    pub resolve: &'a ResolveView<'a>,
    pub thunk_plan: Option<&'a ThunkPlan>,
    pub thunk_addrs: Option<&'a Vec<Option<u64>>>,
    pub parsed_relocs: &'a ParsedRelocCache,
}

/// A `RegularRelocContext` as mathematical values.
pub struct RelocEnv<'a> {
    pub inputs: Seq<LayoutInput<'a>>,
    pub targets: Targets,
    pub thunks: PlacedThunks,
    pub relocs: Map<u64, Vec<Reloc>>,
}

impl<'a> View for RegularRelocContext<'a> {
    type V = RelocEnv<'a>;

    open spec fn view(&self) -> RelocEnv<'a> {
        RelocEnv {
            inputs: self.input_map@,
            targets: self.resolve@,
            thunks: placed_thunks(self.thunk_plan, self.thunk_addrs),
            relocs: self.parsed_relocs@,
        }
    }
}

impl<'a> RegularRelocContext<'a> {
    pub open spec fn wf(self) -> bool {
        self.input_map.wf() && self.resolve.wf()
    }
}

/// The bytes of a placed atom after relocation.
pub open spec fn atom_result(env: RelocEnv, placed: OutputAtom) -> Result<Seq<u8>, RelocFault> {
    let a = env.targets.atoms[placed.atom.0 - 1];
    if a.size == 0 || placed.data@.len() == 0 {
        Ok(placed.data@)
    } else {
        match maps::object_for(env.inputs, a.origin) {
            None => Err(
                RelocFault {
                    input: "<missing object>"@,
                    atom: a.id,
                    atom_offset: 0,
                    kind: RelocKind::Unsigned,
                    referent: "object"@,
                    detail: "missing parsed object"@,
                },
            ),
            Some(obj) => match eh_frame_patch(env.targets, a, placed.data@) {
                Err(e) => Err(e),
                Ok(s) => relocated(
                    env.targets,
                    env.thunks,
                    a,
                    obj,
                    maps::relocs_of(env.relocs, a),
                    s,
                ),
            },
        }
    }
}

/// The first error among the atoms.
pub open spec fn atoms_fault(env: RelocEnv, atoms: Seq<OutputAtom>) -> Option<RelocFault>
    decreases atoms.len(),
{
    if atoms.len() == 0 {
        None
    } else {
        match atoms_fault(env, atoms.drop_last()) {
            Some(f) => Some(f),
            None => match atom_result(env, atoms.last()) {
                Err(f) => Some(f),
                Ok(_) => None,
            },
        }
    }
}

proof fn lemma_atoms_fault(env: RelocEnv, atoms: Seq<OutputAtom>, n: int)
    requires
        0 <= n <= atoms.len(),
        atoms_fault(env, atoms.take(n)) is Some,
    ensures
        atoms_fault(env, atoms) == atoms_fault(env, atoms.take(n)),
    decreases atoms.len() - n,
{
    if n < atoms.len() {
        assert(atoms.take(n + 1).drop_last() =~= atoms.take(n));
        lemma_atoms_fault(env, atoms, n + 1);
    } else {
        assert(atoms.take(n) =~= atoms);
    }
}

/// The first error among the atoms of the sections.
pub open spec fn sections_fault(env: RelocEnv, sections: Seq<OutputSection>) -> Option<RelocFault>
    decreases sections.len(),
{
    if sections.len() == 0 {
        None
    } else {
        match sections_fault(env, sections.drop_last()) {
            Some(f) => Some(f),
            None => atoms_fault(env, sections.last().atoms@),
        }
    }
}

pub proof fn lemma_sections_fault(env: RelocEnv, sections: Seq<OutputSection>, n: int)
    requires
        0 <= n <= sections.len(),
        sections_fault(env, sections.take(n)) is Some,
    ensures
        sections_fault(env, sections) == sections_fault(env, sections.take(n)),
    decreases sections.len() - n,
{
    if n < sections.len() {
        assert(sections.take(n + 1).drop_last() =~= sections.take(n));
        lemma_sections_fault(env, sections, n + 1);
    } else {
        assert(sections.take(n) =~= sections);
    }
}

/// The bytes of every atom of a section after relocation.
pub open spec fn relocated_atoms(env: RelocEnv, atoms: Seq<OutputAtom>) -> Seq<Seq<u8>> {
    atoms.map_values(|a: OutputAtom| atom_result(env, a)->Ok_0)
}

/// The layout's contents after the relocations of the input.
pub open spec fn regular_contents(env: RelocEnv, sections: Seq<OutputSection>) -> Result<
    Contents,
    RelocFault,
> {
    match sections_fault(env, sections) {
        Some(f) => Err(f),
        None => Ok(
            Contents {
                atoms: sections.map_values(|s: OutputSection| relocated_atoms(env, s.atoms@)),
                synthetic: contents_of(sections).synthetic,
            },
        ),
    }
}

fn apply_to_atom(data: &mut Vec<u8>, placed_atom: AtomId, ctx: &RegularRelocContext<'_>, Ghost(
    placed,
): Ghost<OutputAtom>) -> (r: Result<(), RelocError>)
    requires
        ctx.wf(),
        1 <= placed_atom.0 <= ctx@.targets.atoms.len(),
        placed.atom == placed_atom,
        placed.data@ == old(data)@,
    ensures
        match (r, atom_result(ctx@, placed)) {
            (Ok(_), Ok(s)) => final(data)@ == s,
            (Err(e), Err(f)) => e@ == f,
            _ => false,
        },
{
    let atom = ctx.resolve.atom_table.get(placed_atom);
    if atom.size == 0 || data.len() == 0 {
        return Ok(());
    }
    let obj = match ctx.input_map.get(atom.origin) {
        Some(obj) => obj,
        None => {
            return Err(
                RelocError {
                    input: "<missing object>".to_owned(),
                    atom: atom.id,
                    atom_offset: 0,
                    kind: RelocKind::Unsigned,
                    referent: "object".to_owned(),
                    detail: "missing parsed object".to_owned(),
                },
            );
        },
    };
    if let Err(e) = patch_eh_frame_cie_pointer(data, atom, ctx.resolve) {
        return Err(e);
    }
    let relocs = cached_relocs_for_atom(ctx.parsed_relocs, atom);
    let ghost start = data@;
    let ghost env = ctx@;
    let mut i: usize = 0;
    while i < relocs.len()
        invariant
            i <= relocs@.len(),
            ctx.wf(),
            env == ctx@,
            relocs@ == maps::relocs_of(env.relocs, *atom),
            relocated(env.targets, env.thunks, *atom, *obj, relocs@.take(i as int), start) == Ok::<
                _,
                RelocFault,
            >(data@),
            atom_result(env, placed) == relocated(
                env.targets,
                env.thunks,
                *atom,
                *obj,
                relocs@,
                start,
            ),
        decreases relocs@.len() - i,
    {
        proof {
            assert(relocs@.take(i + 1).drop_last() =~= relocs@.take(i as int));
            assert(relocs@.take(i + 1).last() == relocs@[i as int]);
        }
        let step = apply_one(
            data,
            atom,
            obj,
            relocs[i],
            ctx.resolve,
            ctx.thunk_plan,
            ctx.thunk_addrs,
        );
        if let Err(e) = step {
            proof {
                lemma_relocated_fault(
                    env.targets,
                    env.thunks,
                    *atom,
                    *obj,
                    relocs@,
                    start,
                    i + 1,
                );
            }
            return Err(e);
        }
        i += 1;
    }
    assert(relocs@.take(i as int) =~= relocs@);
    Ok(())
}

pub fn apply_regular_atom_chunk(atoms: &mut Vec<OutputAtom>, ctx: &RegularRelocContext<'_>) -> (r:
    Result<(), RelocError>)
    requires
        ctx.wf(),
        maps::all_known(old(atoms)@, ctx@.targets.atoms),
    ensures
        same_places(old(atoms)@, final(atoms)@),
        match (r, atoms_fault(ctx@, old(atoms)@)) {
            (Ok(_), None) => atoms_data(final(atoms)@) == relocated_atoms(ctx@, old(atoms)@),
            (Err(e), Some(f)) => e@ == f,
            _ => false,
        },
{
    let ghost before = atoms@;
    let ghost env = ctx@;
    let mut i: usize = 0;
    while i < atoms.len()
        invariant
            i <= atoms@.len(),
            ctx.wf(),
            env == ctx@,
            before == old(atoms)@,
            maps::all_known(before, env.targets.atoms),
            same_places(before, atoms@),
            atoms_fault(env, before.take(i as int)) is None,
            forall|k: int|
                0 <= k < i ==> atom_result(env, #[trigger] before[k]) == Ok::<_, RelocFault>(
                    atoms@[k].data@,
                ),
            forall|k: int| i <= k < atoms@.len() ==> #[trigger] atoms@[k] == before[k],
        decreases atoms@.len() - i,
    {
        proof {
            assert(before.take(i + 1).drop_last() =~= before.take(i as int));
            assert(before.take(i + 1).last() == before[i as int]);
            assert(1 <= before[i as int].atom.0 <= env.targets.atoms.len());
            assert(atoms@[i as int] == before[i as int]);
        }
        let id = atoms[i].atom;
        let step = apply_to_atom(&mut atoms[i].data, id, ctx, Ghost(before[i as int]));
        if let Err(e) = step {
            proof {
                lemma_atoms_fault(env, before, i + 1);
            }
            return Err(e);
        }
        i += 1;
    }
    assert(before.take(i as int) =~= before);
    assert(atoms_data(atoms@) =~= relocated_atoms(env, before));
    Ok(())
}

pub proof fn lemma_same_shape_transitive(
    a: Seq<OutputSection>,
    b: Seq<OutputSection>,
    c: Seq<OutputSection>,
)
    requires
        same_shape(a, b),
        same_shape(b, c),
    ensures
        same_shape(a, c),
{
    assert forall|i: int| 0 <= i < a.len() implies same_frame(#[trigger] a[i], #[trigger] c[i]) by {
        assert(same_frame(a[i], b[i]) && same_frame(b[i], c[i]));
        assert forall|k: int| 0 <= k < a[i].atoms@.len() implies same_place(
            #[trigger] a[i].atoms@[k],
            #[trigger] c[i].atoms@[k],
        ) by {
            assert(same_place(a[i].atoms@[k], b[i].atoms@[k]));
            assert(same_place(b[i].atoms@[k], c[i].atoms@[k]));
        }
    }
}

/// Sections are found by their names alone.
pub proof fn lemma_section_at_shape(
    a: Seq<OutputSection>,
    b: Seq<OutputSection>,
    segment: Seq<char>,
    name: Seq<char>,
)
    requires
        same_shape(a, b),
    ensures
        layout::section_at(a, segment, name) == layout::section_at(b, segment, name),
    decreases a.len(),
{
    if a.len() > 0 {
        assert(same_frame(a[a.len() - 1], b[b.len() - 1]));
        assert(same_shape(a.drop_last(), b.drop_last())) by {
            assert forall|i: int| 0 <= i < a.len() - 1 implies same_frame(
                #[trigger] a.drop_last()[i],
                #[trigger] b.drop_last()[i],
            ) by {
                assert(same_frame(a[i], b[i]));
            }
        }
        lemma_section_at_shape(a.drop_last(), b.drop_last(), segment, name);
    }
}

/// Thunk sections are found by names and places alone.
pub proof fn lemma_thunk_section_shape(
    a: Seq<OutputSection>,
    b: Seq<OutputSection>,
    segment: Seq<char>,
    atom: AtomId,
)
    requires
        same_shape(a, b),
    ensures
        thunks::thunk_section(a, segment, atom) == thunks::thunk_section(b, segment, atom),
    decreases a.len(),
{
    if a.len() >= 2 {
        let n = a.len() as int;
        assert(same_frame(a[n - 1], b[n - 1]) && same_frame(a[n - 2], b[n - 2]));
        let last = a[n - 2].atoms@.len() - 1;
        if last >= 0 {
            assert(same_place(a[n - 2].atoms@[last], b[n - 2].atoms@[last]));
        }
        assert(same_shape(a.drop_last(), b.drop_last())) by {
            assert forall|i: int| 0 <= i < a.len() - 1 implies same_frame(
                #[trigger] a.drop_last()[i],
                #[trigger] b.drop_last()[i],
            ) by {
                assert(same_frame(a[i], b[i]));
            }
        }
        lemma_thunk_section_shape(a.drop_last(), b.drop_last(), segment, atom);
    }
}

} // verus!
