//! The whole plan of an image: its imports, its symbols and its tables together.
//!
//! The export trie is encoded outside, from the exports of `plan_symbols`.

use vstd::prelude::*;
use crate::layout::Layout;
use crate::macho::writer::imports;
use crate::macho::writer::imports::collect_imports;
use crate::macho::writer::plan;
use crate::macho::writer::plan::{build_linkedit_plan, LinkEditModel, LinkEditPlan};
use crate::macho::writer::symbol_plan;
use crate::macho::writer::symbol_plan::{build_output_symbols, SymbolPlanModel, SymbolTablePlan};
use crate::macho::writer::symbols;
use crate::macho::writer::{LinkEditContext, WriteError, WriteFault};
use crate::options::{LinkOptions, OutputKind};
use crate::resolve::suggest;
use crate::symbol_visibility::SymbolVisibilityPolicy;

verus! {

/// The symbols of an image: those of its inputs, with the imports that its synthetic
/// sections name.
pub open spec fn image_symbols(
    layout: Layout,
    kind: OutputKind,
    opts: LinkOptions,
    visibility: SymbolVisibilityPolicy,
    ctx: LinkEditContext,
) -> Result<SymbolPlanModel, WriteFault> {
    match plan::linkedit_base(layout) {
        Err(e) => Err(e),
        Ok(_) => symbol_plan::symbol_plan(
            layout,
            kind,
            opts.strip_locals,
            *ctx.synthetic_plan,
            imports::imports(ctx.sym_table@, *ctx.synthetic_plan),
            symbol_plan::global_env(layout, ctx, visibility, opts.dead_strip),
        ),
    }
}

/// The plan of an image: that of exactly these imports and these symbols.
pub open spec fn image_plan(
    layout: Layout,
    kind: OutputKind,
    opts: LinkOptions,
    visibility: SymbolVisibilityPolicy,
    ctx: LinkEditContext,
    trie: Seq<u8>,
) -> Result<LinkEditModel, WriteFault> {
    match image_symbols(layout, kind, opts, visibility, ctx) {
        Err(e) => Err(e),
        Ok(symbols) => plan::linkedit_plan(
            layout,
            ctx,
            imports::imports(ctx.sym_table@, *ctx.synthetic_plan),
            symbols,
            trie,
        ),
    }
}

/// What an image is planned from holds together.
pub open spec fn plannable(layout: Layout, ctx: LinkEditContext) -> bool {
    &&& plan::sound(layout, ctx)
    &&& suggest::names_known(ctx.sym_table@)
    &&& imports::plan_known(*ctx.synthetic_plan, ctx.sym_table@.symbols.len())
    &&& ctx.layout_inputs@.len() < usize::MAX
    &&& symbols::inputs_sound(ctx.layout_inputs@)
    &&& symbols::private_fits(layout, *ctx.synthetic_plan)
}

/// The symbols of an image, and with them the exports that its trie is made of.
pub fn plan_symbols(
    layout: &Layout,
    kind: OutputKind,
    opts: &LinkOptions,
    visibility: &SymbolVisibilityPolicy,
    ctx: &LinkEditContext<'_>,
) -> (r: Result<SymbolTablePlan, WriteError>)
    requires
        plannable(*layout, *ctx),
    ensures
        match (r, image_symbols(*layout, kind, *opts, *visibility, *ctx)) {
            (Ok(symbols), Ok(m)) => symbols@ == m,
            (Err(e), Err(f)) => e@ == f,
            _ => false,
        },
{
    match plan::find_linkedit_base(layout) {
        Ok(_) => {},
        Err(e) => {
            return Err(e);
        },
    }
    let records = collect_imports(ctx.sym_table, ctx.synthetic_plan);
    build_output_symbols(
        layout,
        kind,
        opts.dead_strip,
        opts.strip_locals,
        visibility,
        ctx,
        &records,
    )
}

/// Plans an image, with the encoded trie of its exports.
pub fn plan_image(
    layout: &Layout,
    kind: OutputKind,
    opts: &LinkOptions,
    visibility: &SymbolVisibilityPolicy,
    ctx: &LinkEditContext<'_>,
    export_trie: Vec<u8>,
) -> (r: Result<LinkEditPlan, WriteError>)
    requires
        plannable(*layout, *ctx),
    ensures
        plan::same_plan(r, image_plan(*layout, kind, *opts, *visibility, *ctx, export_trie@)),
{
    let symbols = match plan_symbols(layout, kind, opts, visibility, ctx) {
        Ok(symbols) => symbols,
        Err(e) => {
            return Err(e);
        },
    };
    let records = collect_imports(ctx.sym_table, ctx.synthetic_plan);
    build_linkedit_plan(layout, ctx, &records, symbols, export_trie)
}

} // verus!
