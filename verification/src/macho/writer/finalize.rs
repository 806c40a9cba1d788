//! Making a layout final: room for the header, and the size of the tables.
//!
//! The room that the header needs and the tables depend on each other, so a
//! layout is made, planned and measured, and made again where the room was not
//! right. The decisions stand here; the caller makes the layouts and the plans.

use vstd::prelude::*;
use crate::layout;
use crate::layout::{Layout, PAGE_SIZE};
use crate::macho::dylib;
use crate::macho::dylib::{DependencyModel, DylibDependency};
use crate::macho::reader::HEADER_SIZE;
use crate::macho::writer;
use crate::macho::writer::commands;
use crate::macho::writer::commands::{estimate_header_size, header_mismatch};
use crate::macho::writer::file;
use crate::macho::writer::imports::ImportModel;
use crate::macho::writer::plan;
use crate::macho::writer::plan::{
    apply_indirect_starts, size_linkedit_segment, CodeSignaturePlan, IndirectStarts, LinkEditModel,
    LinkEditPlan,
};
use crate::macho::writer::symbol_plan::SymbolPlanModel;
use crate::macho::writer::{LinkEditContext, WriteError, WriteFault};
use crate::options::{LinkOptions, OutputKind};
use crate::section::{OutputSection, OutputSegment};

verus! {

/// How far a layout has come.
#[derive(Debug, Clone, Copy, PartialEq, Eq, Structural)]
pub enum FinalizeStage {
    /// Planned, with no room made for the header yet.
    Planned,
    /// Made again with the estimated room for the header, and planned again.
    Estimated { header_size: u64 },
    /// Made once more with the room that the header turned out to need.
    Corrected,
}

/// What is to be done with a planned layout.
#[derive(Debug, Clone, Copy, PartialEq, Eq, Structural)]
pub enum FinalizeAction {
    /// Make it again with so much room for the header, plan it, and come back.
    Relayout { header_size: u64, next: FinalizeStage },
    /// It is final.
    Done,
}

impl FinalizeStage {
    /// How many more layouts there can be.
    pub open spec fn left(self) -> nat {
        match self {
            FinalizeStage::Planned => 2,
            FinalizeStage::Estimated { .. } => 1,
            FinalizeStage::Corrected => 0,
        }
    }
}

/// `b` is `a` with the sections' starts in the indirect symbol table.
pub open spec fn starts_applied(a: Layout, b: Layout, starts: IndirectStarts) -> bool {
    &&& b.kind == a.kind
    &&& b.segments@ == a.segments@
    &&& b.sections@ == a.sections@.map_values(|s: OutputSection| plan::with_start(starts, s))
}

/// `b` is `a` with a link-edit segment of the size of its tables, one byte at least.
pub open spec fn tables_sized(a: Layout, b: Layout, linkedit: LinkEditModel) -> bool {
    &&& b.kind == a.kind
    &&& b.sections@ == a.sections@
    &&& match layout::segment_at(a.segments@, "__LINKEDIT"@) {
        None => false,
        Some(i) => {
            let size: u64 = if linkedit.size() == 0 {
                1
            } else {
                linkedit.size()
            };
            b.segments@ == a.segments@.update(
                i,
                OutputSegment {
                    file_size: size,
                    vm_size: writer::aligned(size, PAGE_SIZE),
                    ..a.segments@[i]
                },
            )
        },
    }
}

/// A layout is final only with a segment for its tables.
pub open spec fn finished(layout: Layout) -> Result<FinalizeAction, WriteFault> {
    match layout::segment_at(layout.segments@, "__LINKEDIT"@) {
        None => Err(WriteFault::MissingSegment("__LINKEDIT"@)),
        Some(_) => Ok(FinalizeAction::Done),
    }
}

/// What follows from a planned layout. The first time the header is estimated; the
/// second time it is measured, and only where the estimate was wrong there is a third.
pub open spec fn next_action(
    stage: FinalizeStage,
    layout: Layout,
    kind: OutputKind,
    opts: LinkOptions,
    dylibs: Seq<DependencyModel>,
    linkedit: LinkEditModel,
) -> Result<FinalizeAction, WriteFault> {
    match stage {
        FinalizeStage::Planned => {
            let header_size = commands::header_estimate(layout, kind, opts, dylibs, linkedit) as u64;
            Ok(
                FinalizeAction::Relayout {
                    header_size,
                    next: FinalizeStage::Estimated { header_size },
                },
            )
        },
        FinalizeStage::Estimated { header_size } => match commands::commands(
            layout,
            kind,
            opts,
            None,
            dylibs,
            linkedit,
        ) {
            Err(e) => Err(e),
            Ok(list) => if HEADER_SIZE + commands::sizes(list) == header_size {
                finished(layout)
            } else {
                Ok(
                    FinalizeAction::Relayout {
                        header_size: (HEADER_SIZE + commands::sizes(list)) as u64,
                        next: FinalizeStage::Corrected,
                    },
                )
            },
        },
        FinalizeStage::Corrected => finished(layout),
    }
}

/// The header and the commands of a layout have a size that a file can hold.
pub open spec fn measurable(
    layout: Layout,
    kind: OutputKind,
    opts: LinkOptions,
    dylibs: Seq<DependencyModel>,
    linkedit: LinkEditModel,
) -> bool {
    &&& commands::sections_listed(layout)
    &&& commands::header_estimate(layout, kind, opts, dylibs, linkedit) <= u32::MAX
    &&& forall|b: Layout| #[trigger]
        starts_applied(layout, b, linkedit.indirect_starts) ==> commands::commands_small(
            commands::commands(b, kind, opts, None, dylibs, linkedit),
        )
    &&& match linkedit.code_signature {
        Some(signature) => signature.dataoff >= linkedit.base_off,
        None => true,
    }
}

proof fn lemma_starts_keep_measures(
    a: Layout,
    b: Layout,
    kind: OutputKind,
    opts: LinkOptions,
    dylibs: Seq<DependencyModel>,
    linkedit: LinkEditModel,
)
    requires
        measurable(a, kind, opts, dylibs, linkedit),
        starts_applied(a, b, linkedit.indirect_starts),
    ensures
        commands::sections_listed(b),
        commands::header_estimate(b, kind, opts, dylibs, linkedit) <= u32::MAX,
        commands::commands_small(commands::commands(b, kind, opts, None, dylibs, linkedit)),
{
    assert(b.sections@.len() == a.sections@.len());
}

/// What follows from a layout whose sections know their starts.
fn choose_action(
    layout: &Layout,
    kind: OutputKind,
    opts: &LinkOptions,
    dylibs: &[DylibDependency],
    linkedit: &LinkEditPlan,
    stage: FinalizeStage,
) -> (r: Result<FinalizeAction, WriteError>)
    requires
        commands::sections_listed(*layout),
        commands::header_estimate(
            *layout,
            kind,
            *opts,
            dylib::dependencies_view(dylibs@),
            linkedit@,
        ) <= u32::MAX,
        commands::commands_small(
            commands::commands(
                *layout,
                kind,
                *opts,
                None,
                dylib::dependencies_view(dylibs@),
                linkedit@,
            ),
        ),
    ensures
        writer::same_result(
            r,
            next_action(stage, *layout, kind, *opts, dylib::dependencies_view(dylibs@), linkedit@),
        ),
{
    match stage {
        FinalizeStage::Planned => {
            let header_size: u64 = estimate_header_size(layout, kind, opts, dylibs, linkedit);
            return Ok(
                FinalizeAction::Relayout {
                    header_size,
                    next: FinalizeStage::Estimated { header_size },
                },
            );
        },
        FinalizeStage::Estimated { header_size } => {
            match header_mismatch(layout, kind, opts, dylibs, linkedit, header_size) {
                Err(e) => {
                    return Err(e);
                },
                Ok(Some(exact)) => {
                    return Ok(
                        FinalizeAction::Relayout {
                            header_size: exact,
                            next: FinalizeStage::Corrected,
                        },
                    );
                },
                Ok(None) => {},
            }
        },
        FinalizeStage::Corrected => {},
    }
    match layout.find_segment("__LINKEDIT") {
        None => Err(WriteError::MissingSegment("__LINKEDIT")),
        Some(_) => Ok(FinalizeAction::Done),
    }
}

/// One step of making a layout final, from the plan of its tables.
pub fn finalize_layout_with_linkedit(
    layout: &mut Layout,
    kind: OutputKind,
    opts: &LinkOptions,
    dylibs: &[DylibDependency],
    linkedit: &LinkEditPlan,
    stage: FinalizeStage,
) -> (r: Result<FinalizeAction, WriteError>)
    requires
        measurable(*old(layout), kind, *opts, dylib::dependencies_view(dylibs@), linkedit@),
    ensures
        exists|b: Layout|
            {
                &&& #[trigger] starts_applied(*old(layout), b, linkedit@.indirect_starts)
                &&& writer::same_result(
                    r,
                    next_action(
                        stage,
                        b,
                        kind,
                        *opts,
                        dylib::dependencies_view(dylibs@),
                        linkedit@,
                    ),
                )
                &&& if r == Ok::<FinalizeAction, WriteError>(FinalizeAction::Done) {
                    tables_sized(b, *final(layout), linkedit@)
                } else {
                    *final(layout) == b
                }
            },
{
    apply_indirect_starts(layout, linkedit);
    let ghost b = *layout;
    proof {
        assert(starts_applied(*old(layout), b, linkedit@.indirect_starts));
        lemma_starts_keep_measures(
            *old(layout),
            b,
            kind,
            *opts,
            dylib::dependencies_view(dylibs@),
            linkedit@,
        );
    }
    let action = match choose_action(layout, kind, opts, dylibs, linkedit, stage) {
        Ok(action) => action,
        Err(e) => {
            return Err(e);
        },
    };
    if let FinalizeAction::Done = action {
        size_linkedit_segment(layout, linkedit)?;
        assert(tables_sized(b, *layout, linkedit@));
    }
    Ok(action)
}

/// The plan of a layout without symbols, with its signature.
pub open spec fn bare_plan(layout: Layout, signature: Option<CodeSignaturePlan>) -> Result<
    LinkEditModel,
    WriteFault,
> {
    match plan::linkedit_base(layout) {
        Err(e) => Err(e),
        Ok(base) => Ok(LinkEditModel { code_signature: signature, ..plan::minimal_plan(base) }),
    }
}

/// One step of making a layout without symbols final.
pub fn finalize_layout(
    layout: &mut Layout,
    kind: OutputKind,
    opts: &LinkOptions,
    dylibs: &[DylibDependency],
    signature: Option<CodeSignaturePlan>,
    stage: FinalizeStage,
) -> (r: Result<FinalizeAction, WriteError>)
    requires
        match bare_plan(*old(layout), signature) {
            Ok(l) => measurable(*old(layout), kind, *opts, dylib::dependencies_view(dylibs@), l),
            Err(_) => true,
        },
    ensures
        match bare_plan(*old(layout), signature) {
            Err(f) => match r {
                Err(e) => e@ == f && *final(layout) == *old(layout),
                Ok(_) => false,
            },
            Ok(l) => exists|b: Layout|
                {
                    &&& #[trigger] starts_applied(*old(layout), b, l.indirect_starts)
                    &&& writer::same_result(
                        r,
                        next_action(stage, b, kind, *opts, dylib::dependencies_view(dylibs@), l),
                    )
                    &&& if r == Ok::<FinalizeAction, WriteError>(FinalizeAction::Done) {
                        tables_sized(b, *final(layout), l)
                    } else {
                        *final(layout) == b
                    }
                },
        },
{
    let mut linkedit = match LinkEditPlan::minimal(layout) {
        Ok(plan) => plan,
        Err(e) => {
            return Err(e);
        },
    };
    linkedit.code_signature = signature;
    assert(linkedit@ =~= bare_plan(*layout, signature)->Ok_0);
    finalize_layout_with_linkedit(layout, kind, opts, dylibs, &linkedit, stage)
}

/// A layout is made again twice at most.
pub proof fn law_stages_end(
    stage: FinalizeStage,
    layout: Layout,
    kind: OutputKind,
    opts: LinkOptions,
    dylibs: Seq<DependencyModel>,
    linkedit: LinkEditModel,
)
    ensures
        next_action(stage, layout, kind, opts, dylibs, linkedit) matches Ok(
            FinalizeAction::Relayout { next, .. },
        ) ==> next.left() < stage.left(),
{
}

/// A layout that was made with its own estimate as the room for the header is final:
/// the estimate is never corrected.
pub proof fn law_estimated_layout_is_final(
    layout: Layout,
    kind: OutputKind,
    opts: LinkOptions,
    dylibs: Seq<DependencyModel>,
    linkedit: LinkEditModel,
    header_size: u64,
)
    requires
        commands::names_differ(layout.segments@),
        layout::segment_at(layout.segments@, "__LINKEDIT"@) is Some,
        header_size == commands::header_estimate(layout, kind, opts, dylibs, linkedit),
    ensures
        match commands::commands(layout, kind, opts, None, dylibs, linkedit) {
            Ok(_) => next_action(
                FinalizeStage::Estimated { header_size },
                layout,
                kind,
                opts,
                dylibs,
                linkedit,
            ) == Ok::<FinalizeAction, WriteFault>(FinalizeAction::Done),
            Err(e) => next_action(
                FinalizeStage::Estimated { header_size },
                layout,
                kind,
                opts,
                dylibs,
                linkedit,
            ) == Err::<FinalizeAction, WriteFault>(e),
        },
{
    if commands::commands(layout, kind, opts, None, dylibs, linkedit) is Ok {
        commands::law_estimate_is_exact(layout, kind, opts, None, dylibs, linkedit);
    }
}

/// Every table stands in the link-edit data, before the strings end.
pub open spec fn tables_in_place(l: LinkEditModel) -> bool {
    &&& l.base_off <= l.regular_end()
    &&& forall|i: int|
        0 <= i < 11 && (#[trigger] file::table_puts(l)[i]).part.len() > 0 ==> l.base_off
            <= file::table_puts(l)[i].at && file::table_puts(l)[i].at
            + file::table_puts(l)[i].part.len() <= l.regular_end()
}

/// The plan of a layout's tables starts where the layout has its link-edit segment, and
/// every table stands in its place. The tables are not larger than their fields.
pub proof fn law_plan_is_in_place(
    layout: Layout,
    ctx: LinkEditContext,
    records: Seq<ImportModel>,
    symbols: SymbolPlanModel,
    trie: Seq<u8>,
    signature: Option<CodeSignaturePlan>,
)
    requires
        plan::linkedit_plan(layout, ctx, records, symbols, trie) is Ok,
        plan::sizes_fit(plan::linkedit_plan(layout, ctx, records, symbols, trie)->Ok_0.tables),
    ensures
        ({
            let l = LinkEditModel {
                code_signature: signature,
                ..plan::linkedit_plan(layout, ctx, records, symbols, trie)->Ok_0
            };
            &&& plan::linkedit_base(layout) == Ok::<u32, WriteFault>(l.base_off)
            &&& tables_in_place(l)
        }),
{
    let l = LinkEditModel {
        code_signature: signature,
        ..plan::linkedit_plan(layout, ctx, records, symbols, trie)->Ok_0
    };
    let base = l.base_off;
    let p = plan::places(base, l.tables)->Ok_0;
    let b = plan::blocks(p, l.tables);
    plan::law_tables_apart(base, l.tables);
    assert(b[8] == (p.stroff as int, l.tables.strtab.len() as int));
    assert forall|i: int| 0 <= i < 11 && (#[trigger] file::table_puts(l)[i]).part.len() > 0 implies l.base_off
        <= file::table_puts(l)[i].at && file::table_puts(l)[i].at
        + file::table_puts(l)[i].part.len() <= l.regular_end() by {
        file::lemma_table_block(base, l, i);
    }
}

/// So it is with the plan of a layout without symbols.
pub proof fn law_bare_plan_is_in_place(layout: Layout, signature: Option<CodeSignaturePlan>)
    requires
        bare_plan(layout, signature) is Ok,
    ensures
        plan::linkedit_base(layout) == Ok::<u32, WriteFault>(
            bare_plan(layout, signature)->Ok_0.base_off,
        ),
        tables_in_place(bare_plan(layout, signature)->Ok_0),
{
}

proof fn lemma_file_holds_segment(segments: Seq<OutputSegment>, i: int)
    requires
        0 <= i < segments.len(),
    ensures
        segments[i].file_off.wrapping_add(segments[i].file_size) <= file::file_size(segments),
    decreases segments.len(),
{
    if i < segments.len() - 1 {
        lemma_file_holds_segment(segments.drop_last(), i);
    }
}

/// A layout on which finalizing ends can be written: if its sections have their place in
/// the file behind the first `front` bytes, so has everything that is written, the
/// tables too. `b` is the planned layout and `done` the final one.
pub proof fn law_final_layout_is_writable(
    b: Layout,
    done: Layout,
    l: LinkEditModel,
    front: int,
)
    requires
        tables_sized(b, done, l),
        plan::linkedit_base(b) == Ok::<u32, WriteFault>(l.base_off),
        tables_in_place(l),
        l.code_signature matches Some(signature) ==> l.regular_end() <= signature.dataoff,
        file::file_size(done.segments@) <= usize::MAX,
        file::within(
            file::all_section_puts(b.sections@),
            file::file_size(done.segments@) as int,
        ),
        file::behind(file::all_section_puts(b.sections@), front),
        front <= l.base_off,
    ensures
        file::image_fits(done, l),
        file::behind(file::all_section_puts(done.sections@) + file::table_puts(l), front),
{
    let i = layout::segment_at(b.segments@, "__LINKEDIT"@)->0;
    layout::lemma_segment_at(b.segments@, "__LINKEDIT"@);
    lemma_file_holds_segment(done.segments@, i);
    let size = file::file_size(done.segments@);
    let a = file::all_section_puts(b.sections@);
    let w = file::table_puts(l);
    assert(done.segments@[i].file_off == l.base_off);
    assert(l.regular_end() <= size);
    assert forall|k: int| 0 <= k < (a + w).len() && (#[trigger] (a + w)[k]).part.len() > 0 implies front
        <= (a + w)[k].at && 0 <= (a + w)[k].at && (a + w)[k].at + (a + w)[k].part.len() <= size by {
        if k < a.len() {
            assert((a + w)[k] == a[k]);
        } else {
            assert((a + w)[k] == w[k - a.len()]);
        }
    }
}

} // verus!
