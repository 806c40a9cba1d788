//! Which pointers dyld slides: those that hold addresses of this image, and no others.

use vstd::prelude::*;
use crate::atom::Atom;
use crate::dyld_info;
use crate::dyld_info::{ByPlace, RebaseSite};
use crate::input::ObjectFile;
use crate::layout;
use crate::layout::Layout;
use crate::macho::writer::rebase;
use crate::macho::writer::LinkEditContext;
use crate::reloc::arm64::maps;
use crate::reloc::{Referent, Reloc, RelocKind, RelocLength};
use crate::resolve::table;
use crate::resolve::SymbolId;
use crate::section::{OutputAtom, OutputSection, OutputSegment};
use crate::sorting;
use crate::symbol::SymKind;
use crate::synth::SlotEntry;

verus! {

/// The relocation writes the 8 bytes of a pointer into atom `a`, which stands in section
/// `i` as its `k`th; the section is one of data, other than the descriptors of
/// thread-local variables.
pub open spec fn is_data_pointer(
    ctx: LinkEditContext,
    layout: Layout,
    i: int,
    k: int,
    a: Atom,
    obj: ObjectFile,
    reloc: Reloc,
) -> bool {
    let section = layout.sections@[i];
    let key = (a.origin.0 * 0x100 + a.input_section) as u64;
    &&& 0 <= i < layout.sections@.len()
    &&& section.segment@ == "__DATA"@ || section.segment@ == "__DATA_CONST"@
    &&& section.name@ != "__thread_vars"@
    &&& 0 <= k < section.atoms@.len()
    &&& a == ctx.atom_table@[section.atoms@[k].atom.0 - 1]
    &&& maps::object_for(ctx.layout_inputs@, a.origin) == Some(obj)
    &&& ctx.parsed_relocs@.contains_key(key)
    &&& ctx.parsed_relocs@[key]@.contains(reloc)
    &&& a.input_offset <= reloc.offset
    &&& reloc.offset + 8 <= a.input_offset + a.size
    &&& reloc.kind == RelocKind::Unsigned
    &&& reloc.length == RelocLength::Quad
    &&& !reloc.pcrel
    &&& reloc.subtrahend is None
}

/// The object's symbol `idx` has a name that the symbol table has a slot for.
pub open spec fn named_slot(
    t: table::TableState,
    obj: ObjectFile,
    idx: u32,
    h: u32,
    id: SymbolId,
) -> bool {
    &&& idx < obj.symbols@.len()
    &&& t.names.no_duplicates()
    &&& h < t.names.len()
    &&& obj.name_of(obj.symbols@[idx as int]) is Ok
    &&& obj.name_of(obj.symbols@[idx as int])->Ok_0 == t.names[h as int]
    &&& t.by_name.contains_key(h)
    &&& t.by_name[h] == id
}

/// The site is where the segment's start and the offset in it lead to `address`.
pub open spec fn leads_to(segments: Seq<OutputSegment>, n: int, site: RebaseSite, address: int) -> bool {
    &&& site.segment_index == n
    &&& (segments[n].vm_addr + site.segment_offset) % 0x1_0000_0000_0000_0000 == address
        % 0x1_0000_0000_0000_0000
}

/// The segment `n` is the first of that name.
pub open spec fn first_named(segments: Seq<OutputSegment>, n: int, name: Seq<char>) -> bool {
    &&& 0 <= n < segments.len()
    &&& segments[n].name@ == name
    &&& forall|m: int| 0 <= m < n ==> (#[trigger] segments[m]).name@ != name
}

/// Where a pointer of an atom ends up in memory.
pub open spec fn pointer_address(layout: Layout, i: int, k: int, a: Atom, reloc: Reloc) -> int {
    layout.sections@[i].addr + layout.sections@[i].atoms@[k].offset + (reloc.offset
        - a.input_offset)
}

/// The pointers that dyld slides.
pub open spec fn slid(ctx: LinkEditContext, layout: Layout, start: RebaseSite) -> Seq<RebaseSite> {
    dyld_info::rebased(rebase::stream(ctx, layout)->Ok_0, start)
}

/// No two pointers that are to slide overlap, and their segments fit an opcode.
pub open spec fn pointers_apart(ctx: LinkEditContext, layout: Layout) -> bool {
    &&& rebase::all_sites(ctx, layout) is Ok
    &&& dyld_info::apart(
        sorting::distinct::<RebaseSite, ByPlace>(rebase::all_sites(ctx, layout)->Ok_0),
    )
}

spec fn site_in(at: RebaseSite, a: Atom, reloc: Reloc) -> RebaseSite {
    RebaseSite {
        segment_offset: at.segment_offset.wrapping_add(
            crate::reloc::arm64::targets::offset_in_atom(reloc, a) as u64,
        ),
        ..at
    }
}

proof fn lemma_slid(ctx: LinkEditContext, layout: Layout, start: RebaseSite, site: RebaseSite)
    requires
        pointers_apart(ctx, layout),
    ensures
        slid(ctx, layout, start).contains(site) <==> (rebase::all_sites(
            ctx,
            layout,
        )->Ok_0).contains(site),
{
    let sites = rebase::all_sites(ctx, layout)->Ok_0;
    let d = sorting::distinct::<RebaseSite, ByPlace>(sites);
    dyld_info::law_rebase_stream_slides_sites(d, start);
    assert forall|a: RebaseSite, b: RebaseSite|
        !<ByPlace as sorting::Order<RebaseSite>>::less(a, b) && !(
        #[trigger] <ByPlace as sorting::Order<RebaseSite>>::less(b, a)) implies a == b by {}
    sorting::law_distinct_keeps_all::<RebaseSite, ByPlace>(sites);
    assert(d.contains(site) <==> sites.contains(site));
}

proof fn lemma_reloc_sites(
    obj: ObjectFile,
    a: Atom,
    relocs: Seq<Reloc>,
    t: table::TableState,
    at: RebaseSite,
    site: RebaseSite,
)
    ensures
        rebase::reloc_sites(obj, a, relocs, t, at).contains(site) <==> exists|r: int|
            0 <= r < relocs.len() && rebase::needs_rebase(obj, #[trigger] relocs[r], t) && site
                == site_in(at, a, relocs[r]),
    decreases relocs.len(),
{
    let out = rebase::reloc_sites(obj, a, relocs, t, at);
    if relocs.len() > 0 {
        let front = relocs.drop_last();
        let rest = rebase::reloc_sites(obj, a, front, t, at);
        lemma_reloc_sites(obj, a, front, t, at, site);
        let last = relocs.len() - 1;
        if exists|r: int|
            0 <= r < relocs.len() && rebase::needs_rebase(obj, #[trigger] relocs[r], t) && site
                == site_in(at, a, relocs[r]) {
            let r = choose|r: int|
                0 <= r < relocs.len() && rebase::needs_rebase(obj, #[trigger] relocs[r], t) && site
                    == site_in(at, a, relocs[r]);
            if r < last {
                assert(front[r] == relocs[r]);
                let j = choose|j: int| 0 <= j < rest.len() && rest[j] == site;
                assert(out[j] == site);
            } else {
                assert(out[out.len() - 1] == site);
            }
        }
        if out.contains(site) {
            let j = choose|j: int| 0 <= j < out.len() && out[j] == site;
            if j < rest.len() {
                assert(rest[j] == site);
                let r = choose|r: int|
                    0 <= r < front.len() && rebase::needs_rebase(obj, #[trigger] front[r], t)
                        && site == site_in(at, a, front[r]);
                assert(relocs[r] == front[r]);
            } else {
                assert(site == site_in(at, a, relocs[last]));
            }
        }
    }
}

proof fn lemma_atoms_sites(
    ctx: LinkEditContext,
    placed: Seq<OutputAtom>,
    section: RebaseSite,
    site: RebaseSite,
)
    ensures
        rebase::atoms_sites(ctx, placed, section).contains(site) <==> exists|k: int|
            0 <= k < placed.len() && rebase::atom_sites(ctx, #[trigger] placed[k], section).contains(
                site,
            ),
    decreases placed.len(),
{
    let out = rebase::atoms_sites(ctx, placed, section);
    if placed.len() > 0 {
        let front = placed.drop_last();
        let rest = rebase::atoms_sites(ctx, front, section);
        let more = rebase::atom_sites(ctx, placed.last(), section);
        lemma_atoms_sites(ctx, front, section, site);
        lemma_concat_contains(rest, more, site);
        if exists|k: int|
            0 <= k < placed.len() && rebase::atom_sites(ctx, #[trigger] placed[k], section).contains(
                site,
            ) {
            let k = choose|k: int|
                0 <= k < placed.len() && rebase::atom_sites(
                    ctx,
                    #[trigger] placed[k],
                    section,
                ).contains(site);
            if k < front.len() {
                assert(front[k] == placed[k]);
            }
        }
        if out.contains(site) {
            if rest.contains(site) {
                let k = choose|k: int|
                    0 <= k < front.len() && rebase::atom_sites(
                        ctx,
                        #[trigger] front[k],
                        section,
                    ).contains(site);
                assert(placed[k] == front[k]);
            } else {
                assert(placed[placed.len() - 1] == placed.last());
            }
        }
    }
}

proof fn lemma_concat_contains(a: Seq<RebaseSite>, b: Seq<RebaseSite>, site: RebaseSite)
    ensures
        (a + b).contains(site) <==> a.contains(site) || b.contains(site),
{
    if a.contains(site) {
        let j = choose|j: int| 0 <= j < a.len() && a[j] == site;
        assert((a + b)[j] == site);
    }
    if b.contains(site) {
        let j = choose|j: int| 0 <= j < b.len() && b[j] == site;
        assert((a + b)[a.len() + j] == site);
    }
    if (a + b).contains(site) {
        let j = choose|j: int| 0 <= j < (a + b).len() && (a + b)[j] == site;
        if j < a.len() {
            assert(a[j] == site);
        } else {
            assert(b[j - a.len()] == site);
        }
    }
}

proof fn lemma_sections_sites(
    ctx: LinkEditContext,
    layout: Layout,
    sections: Seq<OutputSection>,
    site: RebaseSite,
)
    requires
        rebase::sections_sites(ctx, layout, sections) is Ok,
    ensures
        forall|i: int|
            0 <= i < sections.len() ==> rebase::section_sites(
                ctx,
                layout,
                #[trigger] sections[i],
            ) is Ok,
        (rebase::sections_sites(ctx, layout, sections)->Ok_0).contains(site) <==> exists|i: int|
            0 <= i < sections.len() && (rebase::section_sites(
                ctx,
                layout,
                #[trigger] sections[i],
            )->Ok_0).contains(site),
    decreases sections.len(),
{
    if sections.len() > 0 {
        let front = sections.drop_last();
        lemma_sections_sites(ctx, layout, front, site);
        let rest = rebase::sections_sites(ctx, layout, front)->Ok_0;
        let more = rebase::section_sites(ctx, layout, sections.last())->Ok_0;
        lemma_concat_contains(rest, more, site);
        assert forall|i: int| 0 <= i < sections.len() implies rebase::section_sites(
            ctx,
            layout,
            #[trigger] sections[i],
        ) is Ok by {
            if i < front.len() {
                assert(front[i] == sections[i]);
            }
        }
        if exists|i: int|
            0 <= i < sections.len() && (rebase::section_sites(
                ctx,
                layout,
                #[trigger] sections[i],
            )->Ok_0).contains(site) {
            let i = choose|i: int|
                0 <= i < sections.len() && (rebase::section_sites(
                    ctx,
                    layout,
                    #[trigger] sections[i],
                )->Ok_0).contains(site);
            if i < front.len() {
                assert(front[i] == sections[i]);
            }
        }
        if (rest + more).contains(site) {
            if rest.contains(site) {
                let i = choose|i: int|
                    0 <= i < front.len() && (rebase::section_sites(
                        ctx,
                        layout,
                        #[trigger] front[i],
                    )->Ok_0).contains(site);
                assert(sections[i] == front[i]);
            } else {
                assert(sections[sections.len() - 1] == sections.last());
            }
        }
    }
}

/// A pointer of the data that needs sliding is slid, at its place.
proof fn lemma_data_pointer_slides(
    ctx: LinkEditContext,
    layout: Layout,
    start: RebaseSite,
    i: int,
    k: int,
    a: Atom,
    obj: ObjectFile,
    reloc: Reloc,
    n: int,
)
    requires
        pointers_apart(ctx, layout),
        is_data_pointer(ctx, layout, i, k, a, obj, reloc),
        rebase::needs_rebase(obj, reloc, ctx.sym_table@),
        first_named(layout.segments@, n, layout.sections@[i].segment@),
    ensures
        exists|site: RebaseSite| #[trigger]
            slid(ctx, layout, start).contains(site) && leads_to(
                layout.segments@,
                n,
                site,
                pointer_address(layout, i, k, a, reloc),
            ),
{
    let section = layout.sections@[i];
    let key = (a.origin.0 * 0x100 + a.input_section) as u64;
    let relocs = maps::relocs_of(ctx.parsed_relocs@, a);
    let inside = |reloc: Reloc| maps::applies(reloc, a);
    let cached = ctx.parsed_relocs@[key]@;
    let c = choose|c: int| 0 <= c < cached.len() && cached[c] == reloc;
    assert(inside(cached[c]));
    cached.lemma_filter_contains(inside, c);
    assert(relocs.contains(reloc));
    let r = choose|r: int| 0 <= r < relocs.len() && relocs[r] == reloc;
    layout::lemma_segment_at(layout.segments@, section.segment@);
    let base = layout.segments@[n].vm_addr;
    assert(layout::segment_at(layout.segments@, section.segment@) == Some(n));
    let at = RebaseSite { segment_index: n as u8, segment_offset: section.addr.wrapping_sub(base) };
    let here = RebaseSite {
        segment_offset: at.segment_offset.wrapping_add(section.atoms@[k].offset),
        ..at
    };
    let site = site_in(here, a, reloc);
    let rest = rebase::sections_sites(ctx, layout, layout.sections@)->Ok_0;
    lemma_sections_sites(ctx, layout, layout.sections@, site);
    assert(rebase::section_sites(ctx, layout, section) is Ok);
    lemma_reloc_sites(obj, a, relocs, ctx.sym_table@, here, site);
    assert(rebase::needs_rebase(obj, relocs[r], ctx.sym_table@));
    assert(rebase::atom_sites(ctx, section.atoms@[k], at).contains(site));
    lemma_atoms_sites(ctx, section.atoms@, at, site);
    assert(rebase::section_sites(ctx, layout, section)->Ok_0 == rebase::atoms_sites(
        ctx,
        section.atoms@,
        at,
    ));
    assert((rebase::section_sites(ctx, layout, layout.sections@[i])->Ok_0).contains(site));
    assert(rest.contains(site));
    let lazy = rebase::lazy_sites(layout, *ctx.synthetic_plan)->Ok_0;
    let got = rebase::got_sites(layout, *ctx.synthetic_plan, ctx.sym_table@)->Ok_0;
    lemma_concat_contains(lazy + got, rest, site);
    lemma_slid(ctx, layout, start, site);
    lemma_place(base, section.addr, section.atoms@[k].offset, (reloc.offset - a.input_offset) as u64);
    assert(slid(ctx, layout, start).contains(site));
}

proof fn lemma_place(base: u64, section: u64, atom: u64, offset: u64)
    ensures
        (base + section.wrapping_sub(base).wrapping_add(atom).wrapping_add(offset))
            % 0x1_0000_0000_0000_0000 == (section + atom + offset) % 0x1_0000_0000_0000_0000,
{
}

/// A pointer in the data of this image to a symbol that an object of the link defines, or
/// to a common one, is slid: the stream lists its segment and its place there.
pub proof fn law_pointer_to_defined_symbol_slides(
    ctx: LinkEditContext,
    layout: Layout,
    start: RebaseSite,
    i: int,
    k: int,
    a: Atom,
    obj: ObjectFile,
    reloc: Reloc,
    h: u32,
    id: SymbolId,
    n: int,
)
    requires
        pointers_apart(ctx, layout),
        is_data_pointer(ctx, layout, i, k, a, obj, reloc),
        reloc.referent is Symbol,
        named_slot(ctx.sym_table@, obj, reloc.referent->Symbol_0, h, id),
        (ctx.sym_table@.at(id) is Defined && ctx.sym_table@.at(id)->Defined_atom.0 != 0)
            || ctx.sym_table@.at(id) is Common,
        first_named(layout.segments@, n, layout.sections@[i].segment@),
    ensures
        exists|site: RebaseSite| #[trigger]
            slid(ctx, layout, start).contains(site) && leads_to(
                layout.segments@,
                n,
                site,
                pointer_address(layout, i, k, a, reloc),
            ),
{
    lemma_named(ctx.sym_table@, obj, reloc.referent->Symbol_0, h, id);
    lemma_data_pointer_slides(ctx, layout, start, i, k, a, obj, reloc, n);
}

proof fn lemma_named(t: table::TableState, obj: ObjectFile, idx: u32, h: u32, id: SymbolId)
    requires
        named_slot(t, obj, idx, h, id),
    ensures
        rebase::own_symbol(t, obj.name_of(obj.symbols@[idx as int])->Ok_0) == Some(id),
{
    let name = t.names[h as int];
    assert(t.names.contains(name));
    assert(t.names.index_of(name) == h);
}

/// So is one to a section, and one to a symbol in a section whose name the symbol table
/// does not know.
pub proof fn law_pointer_into_section_slides(
    ctx: LinkEditContext,
    layout: Layout,
    start: RebaseSite,
    i: int,
    k: int,
    a: Atom,
    obj: ObjectFile,
    reloc: Reloc,
    n: int,
)
    requires
        pointers_apart(ctx, layout),
        is_data_pointer(ctx, layout, i, k, a, obj, reloc),
        reloc.referent is Section || {
            let sym = obj.symbols@[reloc.referent->Symbol_0 as int];
            &&& reloc.referent->Symbol_0 < obj.symbols@.len()
            &&& sym.spec_kind() == SymKind::Sect
            &&& obj.name_of(sym) is Err || !ctx.sym_table@.names.contains(obj.name_of(sym)->Ok_0)
        },
        first_named(layout.segments@, n, layout.sections@[i].segment@),
    ensures
        exists|site: RebaseSite| #[trigger]
            slid(ctx, layout, start).contains(site) && leads_to(
                layout.segments@,
                n,
                site,
                pointer_address(layout, i, k, a, reloc),
            ),
{
    lemma_data_pointer_slides(ctx, layout, start, i, k, a, obj, reloc, n);
}

/// The site is the `j`th 8-byte slot of the first section of that name.
pub open spec fn table_slot(
    layout: Layout,
    segment: Seq<char>,
    name: Seq<char>,
    site: RebaseSite,
    j: int,
) -> bool {
    exists|n: int, i: int|
        #![trigger layout.segments@[n], layout.sections@[i]]
        first_named(layout.segments@, n, segment) && 0 <= i < layout.sections@.len()
            && layout.sections@[i].segment@ == segment && layout.sections@[i].name@ == name
            && leads_to(layout.segments@, n, site, layout.sections@[i].addr + 8 * j)
}

/// The site holds a pointer of the data to something that is no import.
pub open spec fn data_slot(ctx: LinkEditContext, layout: Layout, site: RebaseSite) -> bool {
    exists|n: int, i: int, k: int, a: Atom, obj: ObjectFile, reloc: Reloc| #[trigger]
        is_data_pointer(ctx, layout, i, k, a, obj, reloc) && #[trigger] leads_to(
            layout.segments@,
            n,
            site,
            pointer_address(layout, i, k, a, reloc),
        ) && !names_import(ctx.sym_table@, obj, reloc.referent)
}

/// The relocation refers by name to something that a dylib provides.
pub open spec fn names_import(t: table::TableState, obj: ObjectFile, referent: Referent) -> bool {
    exists|h: u32, id: SymbolId|
        referent is Symbol && #[trigger] named_slot(t, obj, referent->Symbol_0, h, id) && t.at(
            id,
        ) is DylibImport
}

proof fn lemma_data_source(ctx: LinkEditContext, layout: Layout, site: RebaseSite)
    requires
        rebase::sections_sites(ctx, layout, layout.sections@) is Ok,
        (rebase::sections_sites(ctx, layout, layout.sections@)->Ok_0).contains(site),
    ensures
        data_slot(ctx, layout, site),
{
    lemma_sections_sites(ctx, layout, layout.sections@, site);
    let i = choose|i: int|
        0 <= i < layout.sections@.len() && (rebase::section_sites(
            ctx,
            layout,
            #[trigger] layout.sections@[i],
        )->Ok_0).contains(site);
    let section = layout.sections@[i];
    assert(rebase::section_sites(ctx, layout, section) is Ok);
    assert(rebase::has_pointers(section));
    layout::lemma_segment_at(layout.segments@, section.segment@);
    let n = layout::segment_at(layout.segments@, section.segment@)->0;
    let base = layout.segments@[n].vm_addr;
    let at = RebaseSite { segment_index: n as u8, segment_offset: section.addr.wrapping_sub(base) };
    assert(rebase::section_sites(ctx, layout, section)->Ok_0 == rebase::atoms_sites(
        ctx,
        section.atoms@,
        at,
    ));
    lemma_atoms_sites(ctx, section.atoms@, at, site);
    let k = choose|k: int|
        0 <= k < section.atoms@.len() && rebase::atom_sites(
            ctx,
            #[trigger] section.atoms@[k],
            at,
        ).contains(site);
    let a = ctx.atom_table@[section.atoms@[k].atom.0 - 1];
    let here = RebaseSite {
        segment_offset: at.segment_offset.wrapping_add(section.atoms@[k].offset),
        ..at
    };
    assert(maps::object_for(ctx.layout_inputs@, a.origin) is Some);
    let obj = maps::object_for(ctx.layout_inputs@, a.origin)->0;
    let relocs = maps::relocs_of(ctx.parsed_relocs@, a);
    lemma_reloc_sites(obj, a, relocs, ctx.sym_table@, here, site);
    let r = choose|r: int|
        0 <= r < relocs.len() && rebase::needs_rebase(obj, #[trigger] relocs[r], ctx.sym_table@)
            && site == site_in(here, a, relocs[r]);
    let reloc = relocs[r];
    lemma_reloc_source(ctx, a, reloc);
    lemma_place(base, section.addr, section.atoms@[k].offset, (reloc.offset - a.input_offset) as u64);
    assert(is_data_pointer(ctx, layout, i, k, a, obj, reloc));
    assert(!names_import(ctx.sym_table@, obj, reloc.referent)) by {
        if names_import(ctx.sym_table@, obj, reloc.referent) {
            let (h, id) = choose|h: u32, id: SymbolId|
                reloc.referent is Symbol && #[trigger] named_slot(
                    ctx.sym_table@,
                    obj,
                    reloc.referent->Symbol_0,
                    h,
                    id,
                ) && ctx.sym_table@.at(id) is DylibImport;
            lemma_named(ctx.sym_table@, obj, reloc.referent->Symbol_0, h, id);
        }
    }
    assert(leads_to(layout.segments@, n, site, pointer_address(layout, i, k, a, reloc)));
}

proof fn lemma_reloc_source(ctx: LinkEditContext, a: Atom, reloc: Reloc)
    requires
        maps::relocs_of(ctx.parsed_relocs@, a).contains(reloc),
    ensures
        ({
            let key = (a.origin.0 * 0x100 + a.input_section) as u64;
            &&& ctx.parsed_relocs@.contains_key(key)
            &&& ctx.parsed_relocs@[key]@.contains(reloc)
            &&& maps::applies(reloc, a)
        }),
{
    let key = (a.origin.0 * 0x100 + a.input_section) as u64;
    let all = crate::reloc::cached(ctx.parsed_relocs@, key);
    lemma_filter_source(all, |reloc: Reloc| maps::applies(reloc, a), reloc);
}

proof fn lemma_filter_source(s: Seq<Reloc>, p: spec_fn(Reloc) -> bool, x: Reloc)
    requires
        s.filter(p).contains(x),
    ensures
        s.contains(x),
        p(x),
    decreases s.len(),
{
    reveal(Seq::filter);
    if s.len() > 0 {
        let rest = s.drop_last().filter(p);
        let out = s.filter(p);
        let j = choose|j: int| 0 <= j < out.len() && out[j] == x;
        if j < rest.len() {
            assert(rest[j] == x);
            lemma_filter_source(s.drop_last(), p, x);
            let i = choose|i: int| 0 <= i < s.drop_last().len() && s.drop_last()[i] == x;
            assert(s[i] == x);
        } else {
            assert(s[s.len() - 1] == x);
        }
    }
}

proof fn lemma_slot_place(layout: Layout, segment: Seq<char>, name: Seq<char>, j: int)
    requires
        rebase::table_place(layout, segment, name) is Ok,
        0 <= j < 0x1000_0000_0000_0000,
    ensures
        table_slot(
            layout,
            segment,
            name,
            rebase::slot(rebase::table_place(layout, segment, name)->Ok_0, j),
            j,
        ),
{
    layout::lemma_segment_at(layout.segments@, segment);
    layout::lemma_section_at(layout.sections@, segment, name);
    let n = layout::segment_at(layout.segments@, segment)->0;
    let i = layout::section_at(layout.sections@, segment, name)->0;
    let base = layout.segments@[n].vm_addr;
    let addr = layout.sections@[i].addr;
    let table = rebase::table_place(layout, segment, name)->Ok_0;
    let site = rebase::slot(table, j);
    assert((j as u64).wrapping_mul(8) == 8 * j);
    assert(site.segment_offset == addr.wrapping_sub(base).wrapping_add((8 * j) as u64));
    assert(leads_to(layout.segments@, n, site, addr + 8 * j));
    assert(first_named(layout.segments@, n, segment));
    assert(layout.segments@[n].name@ == segment && layout.sections@[i].name@ == name);
}

proof fn lemma_local_slots(
    place: RebaseSite,
    entries: Seq<SlotEntry>,
    t: table::TableState,
    site: RebaseSite,
)
    ensures
        rebase::local_slots(place, entries, t).contains(site) <==> exists|j: int|
            0 <= j < entries.len() && !(t.at((#[trigger] entries[j]).symbol) is DylibImport) && site
                == rebase::slot(place, j),
    decreases entries.len(),
{
    let out = rebase::local_slots(place, entries, t);
    if entries.len() > 0 {
        let front = entries.drop_last();
        let rest = rebase::local_slots(place, front, t);
        lemma_local_slots(place, front, t, site);
        let last = entries.len() - 1;
        if exists|j: int|
            0 <= j < entries.len() && !(t.at((#[trigger] entries[j]).symbol) is DylibImport) && site
                == rebase::slot(place, j) {
            let j = choose|j: int|
                0 <= j < entries.len() && !(t.at((#[trigger] entries[j]).symbol) is DylibImport)
                    && site == rebase::slot(place, j);
            if j < last {
                assert(front[j] == entries[j]);
                let q = choose|q: int| 0 <= q < rest.len() && rest[q] == site;
                assert(out[q] == site);
            } else {
                assert(out[out.len() - 1] == site);
            }
        }
        if out.contains(site) {
            let q = choose|q: int| 0 <= q < out.len() && out[q] == site;
            if q < rest.len() {
                assert(rest[q] == site);
                let j = choose|j: int|
                    0 <= j < front.len() && !(t.at((#[trigger] front[j]).symbol) is DylibImport)
                        && site == rebase::slot(place, j);
                assert(entries[j] == front[j]);
            } else {
                assert(site == rebase::slot(place, last));
                assert(!(t.at(entries[last].symbol) is DylibImport));
            }
        }
    }
}

/// Nothing else is slid: each pointer that the stream lists is a lazy pointer, a slot of the
/// pointer table whose symbol is no import, or a pointer of the data to something that is
/// no import.
pub proof fn law_only_own_pointers_slide(
    ctx: LinkEditContext,
    layout: Layout,
    start: RebaseSite,
    site: RebaseSite,
)
    requires
        pointers_apart(ctx, layout),
        slid(ctx, layout, start).contains(site),
        ctx.synthetic_plan.got.entries@.len() < 0x1000_0000_0000_0000,
        ctx.synthetic_plan.lazy_pointers.entries@.len() < 0x1000_0000_0000_0000,
    ensures
        ({
            ||| exists|j: int|
                0 <= j < ctx.synthetic_plan.lazy_pointers.entries@.len() && #[trigger] table_slot(
                    layout,
                    "__DATA"@,
                    "__la_symbol_ptr"@,
                    site,
                    j,
                )
            ||| exists|j: int|
                0 <= j < ctx.synthetic_plan.got.entries@.len() && #[trigger] table_slot(
                    layout,
                    "__DATA_CONST"@,
                    "__got"@,
                    site,
                    j,
                ) && !(ctx.sym_table@.at(ctx.synthetic_plan.got.entries@[j].symbol) is DylibImport)
            ||| data_slot(ctx, layout, site)
        }),
{
    lemma_slid(ctx, layout, start, site);
    let lazy = rebase::lazy_sites(layout, *ctx.synthetic_plan)->Ok_0;
    let got = rebase::got_sites(layout, *ctx.synthetic_plan, ctx.sym_table@)->Ok_0;
    let rest = rebase::sections_sites(ctx, layout, layout.sections@)->Ok_0;
    lemma_concat_contains(lazy + got, rest, site);
    lemma_concat_contains(lazy, got, site);
    if lazy.contains(site) {
        let j = choose|j: int| 0 <= j < lazy.len() && lazy[j] == site;
        lemma_slot_place(layout, "__DATA"@, "__la_symbol_ptr"@, j);
    } else if got.contains(site) {
        let place = rebase::table_place(layout, "__DATA_CONST"@, "__got"@)->Ok_0;
        let entries = ctx.synthetic_plan.got.entries@;
        lemma_local_slots(place, entries, ctx.sym_table@, site);
        let j = choose|j: int|
            0 <= j < entries.len() && !(ctx.sym_table@.at((#[trigger] entries[j]).symbol)
                is DylibImport) && site == rebase::slot(place, j);
        lemma_slot_place(layout, "__DATA_CONST"@, "__got"@, j);
    } else {
        lemma_data_source(ctx, layout, site);
    }
}

/// Every lazy pointer is slid, and every slot of the pointer table whose symbol is in this
/// image.
pub proof fn law_table_pointers_slide(
    ctx: LinkEditContext,
    layout: Layout,
    start: RebaseSite,
    j: int,
)
    requires
        pointers_apart(ctx, layout),
        0 <= j < 0x1000_0000_0000_0000,
    ensures
        j < ctx.synthetic_plan.lazy_pointers.entries@.len() ==> exists|site: RebaseSite| #[trigger]
            slid(ctx, layout, start).contains(site) && table_slot(
                layout,
                "__DATA"@,
                "__la_symbol_ptr"@,
                site,
                j,
            ),
        j < ctx.synthetic_plan.got.entries@.len() && !(ctx.sym_table@.at(
            ctx.synthetic_plan.got.entries@[j].symbol,
        ) is DylibImport) ==> exists|site: RebaseSite| #[trigger]
            slid(ctx, layout, start).contains(site) && table_slot(
                layout,
                "__DATA_CONST"@,
                "__got"@,
                site,
                j,
            ),
{
    let lazy = rebase::lazy_sites(layout, *ctx.synthetic_plan)->Ok_0;
    let got = rebase::got_sites(layout, *ctx.synthetic_plan, ctx.sym_table@)->Ok_0;
    let rest = rebase::sections_sites(ctx, layout, layout.sections@)->Ok_0;
    if j < ctx.synthetic_plan.lazy_pointers.entries@.len() {
        let site = lazy[j];
        lemma_slot_place(layout, "__DATA"@, "__la_symbol_ptr"@, j);
        assert(lazy.contains(site));
        lemma_concat_contains(lazy + got, rest, site);
        lemma_concat_contains(lazy, got, site);
        lemma_slid(ctx, layout, start, site);
        assert(slid(ctx, layout, start).contains(site));
    }
    if j < ctx.synthetic_plan.got.entries@.len() && !(ctx.sym_table@.at(
        ctx.synthetic_plan.got.entries@[j].symbol,
    ) is DylibImport) {
        let place = rebase::table_place(layout, "__DATA_CONST"@, "__got"@)->Ok_0;
        let site = rebase::slot(place, j);
        lemma_local_slots(place, ctx.synthetic_plan.got.entries@, ctx.sym_table@, site);
        lemma_slot_place(layout, "__DATA_CONST"@, "__got"@, j);
        lemma_concat_contains(lazy + got, rest, site);
        lemma_concat_contains(lazy, got, site);
        lemma_slid(ctx, layout, start, site);
        assert(slid(ctx, layout, start).contains(site));
    }
}

} // verus!
