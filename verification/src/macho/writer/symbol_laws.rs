//! What a symbol table says: which entry a symbol has, where its parts lie, and that
//! what is exported is what the table holds.

use vstd::prelude::*;
use crate::layout;
use crate::layout::Layout;
use crate::macho::exports::{ExportKind, ExportModel};
use crate::macho::reader::ReadError;
use crate::macho::writer::imports::ImportModel;
use crate::macho::writer::symbol_plan;
use crate::macho::writer::symbol_plan::SymbolPlanModel;
use crate::macho::writer::symbols;
use crate::macho::writer::symbols::{GlobalEnv, OutputSymbolPartition, SymbolEnv, SymbolModel};
use crate::macho::writer::WriteFault;
use crate::options::OutputKind;
use crate::reloc::arm64::places;
use crate::resolve::{Symbol, SymbolId};
use crate::section::{OutputSection, SectionKind};
use crate::sorting;
use crate::string_table;
use crate::symbol::InputSymbol;
use crate::synth::SyntheticPlan;
use crate::text;

verus! {

/// Every symbol is of this part.
spec fn all_in(s: Seq<SymbolModel>, p: OutputSymbolPartition) -> bool {
    forall|i: int| 0 <= i < s.len() ==> (#[trigger] s[i]).partition == p
}

proof fn lemma_part_all(s: Seq<SymbolModel>, p: OutputSymbolPartition, q: OutputSymbolPartition)
    requires
        all_in(s, p),
    ensures
        symbols::part(s, q) == if p == q {
            s
        } else {
            seq![]
        },
    decreases s.len(),
{
    if s.len() > 0 {
        assert(s[s.len() - 1].partition == p);
        assert forall|i: int| 0 <= i < s.drop_last().len() implies (
        #[trigger] s.drop_last()[i]).partition == p by {
            assert(s.drop_last()[i] == s[i]);
        }
        lemma_part_all(s.drop_last(), p, q);
        assert(s =~= s.drop_last().push(s.last()));
    } else {
        assert(s =~= seq![]);
    }
}

proof fn lemma_part_concat(a: Seq<SymbolModel>, b: Seq<SymbolModel>, p: OutputSymbolPartition)
    ensures
        symbols::part(a + b, p) == symbols::part(a, p) + symbols::part(b, p),
    decreases b.len(),
{
    if b.len() == 0 {
        assert(a + b =~= a);
        assert(symbols::part(a, p) + symbols::part(b, p) =~= symbols::part(a, p));
    } else {
        assert((a + b).drop_last() =~= a + b.drop_last());
        assert((a + b).last() == b.last());
        lemma_part_concat(a, b.drop_last(), p);
        assert(symbols::part(a + b, p) =~= symbols::part(a, p) + symbols::part(b, p));
    }
}

proof fn lemma_part_in(s: Seq<SymbolModel>, p: OutputSymbolPartition)
    ensures
        all_in(symbols::part(s, p), p),
        forall|m: SymbolModel| #[trigger]
            symbols::part(s, p).contains(m) <==> s.contains(m) && m.partition == p,
    decreases s.len(),
{
    let out = symbols::part(s, p);
    if s.len() > 0 {
        let rest = symbols::part(s.drop_last(), p);
        lemma_part_in(s.drop_last(), p);
        assert(s =~= s.drop_last().push(s.last()));
        assert forall|m: SymbolModel| #[trigger] out.contains(m) <==> s.contains(m) && m.partition
            == p by {
            if s.contains(m) && m.partition == p {
                let i = choose|i: int| 0 <= i < s.len() && s[i] == m;
                if i < s.len() - 1 {
                    assert(s.drop_last()[i] == m);
                    assert(rest.contains(m));
                    let j = choose|j: int| 0 <= j < rest.len() && rest[j] == m;
                    assert(out[j] == m);
                } else {
                    assert(out[out.len() - 1] == m);
                }
            }
            if out.contains(m) {
                let j = choose|j: int| 0 <= j < out.len() && out[j] == m;
                if j < rest.len() {
                    assert(rest[j] == m);
                    assert(rest.contains(m));
                    let i = choose|i: int|
                        0 <= i < s.drop_last().len() && s.drop_last()[i] == m;
                    assert(s[i] == m);
                } else {
                    assert(s[s.len() - 1] == m);
                }
            }
        }
    }
}

proof fn lemma_file_locals_in(
    env: SymbolEnv,
    id: crate::resolve::InputId,
    n: usize,
    obj: crate::input::ObjectFile,
    syms: Seq<InputSymbol>,
)
    requires
        symbols::file_locals(env, id, n, obj, syms) is Ok,
    ensures
        all_in(symbols::file_locals(env, id, n, obj, syms)->Ok_0, OutputSymbolPartition::Local),
        no_known(symbols::file_locals(env, id, n, obj, syms)->Ok_0),
    decreases syms.len(),
{
    if syms.len() > 0 {
        lemma_file_locals_in(env, id, n, obj, syms.drop_last());
    }
}

/// None of the symbols is in the linker's own table.
spec fn no_known(s: Seq<SymbolModel>) -> bool {
    forall|i: int| 0 <= i < s.len() ==> (#[trigger] s[i]).symbol is None
}

proof fn lemma_all_locals_in(env: SymbolEnv, inputs: Seq<crate::layout::LayoutInput>, n: nat)
    requires
        symbols::all_locals(env, inputs, n) is Ok,
    ensures
        all_in(symbols::all_locals(env, inputs, n)->Ok_0, OutputSymbolPartition::Local),
        no_known(symbols::all_locals(env, inputs, n)->Ok_0),
    decreases n,
{
    if n > 0 {
        lemma_all_locals_in(env, inputs, (n - 1) as nat);
        let input = inputs[n - 1];
        lemma_file_locals_in(
            env,
            input.id,
            symbols::file_number(inputs, input.id),
            *input.object,
            input.object.symbols@,
        );
    }
}

proof fn lemma_sorted_in(
    s: Seq<SymbolModel>,
    less: spec_fn(SymbolModel, SymbolModel) -> bool,
    p: OutputSymbolPartition,
)
    requires
        all_in(s, p),
    ensures
        all_in(sorting::sorted_by(s, less), p),
        sorting::sorted_by(s, less).len() == s.len(),
{
    sorting::lemma_sorted_by_keeps(s, less);
    let out = sorting::sorted_by(s, less);
    assert forall|i: int| 0 <= i < out.len() implies (#[trigger] out[i]).partition == p by {
        assert(s.contains(out[i]));
    }
}

/// The three parts of a table in their order.
spec fn parts(
    layout: Layout,
    kind: OutputKind,
    strip_locals: bool,
    plan: SyntheticPlan,
    records: Seq<ImportModel>,
    g: GlobalEnv,
) -> (Seq<SymbolModel>, Seq<SymbolModel>, Seq<SymbolModel>) {
    let f = symbol_plan::found(layout, kind, plan, g)->Ok_0;
    (
        if strip_locals {
            seq![]
        } else {
            sorting::sorted_by(f.0, symbol_plan::local_order())
        },
        sorting::sorted_by(f.1, symbol_plan::name_order()),
        sorting::sorted_by(symbol_plan::undefined_symbols(records), symbol_plan::name_order()),
    )
}

proof fn lemma_parts(
    layout: Layout,
    kind: OutputKind,
    strip_locals: bool,
    plan: SyntheticPlan,
    records: Seq<ImportModel>,
    g: GlobalEnv,
)
    requires
        symbol_plan::found(layout, kind, plan, g) is Ok,
    ensures
        ({
            let f = symbol_plan::found(layout, kind, plan, g)->Ok_0;
            let ps = parts(layout, kind, strip_locals, plan, records, g);
            let specs = symbol_plan::table_order(f.0, f.1, records, strip_locals);
            &&& specs == ps.0 + ps.1 + ps.2
            &&& all_in(ps.0, OutputSymbolPartition::Local)
            &&& all_in(ps.1, OutputSymbolPartition::ExternalDefined)
            &&& all_in(ps.2, OutputSymbolPartition::Undefined)
            &&& symbols::part(specs, OutputSymbolPartition::Local) == ps.0
            &&& symbols::part(specs, OutputSymbolPartition::ExternalDefined) == ps.1
            &&& symbols::part(specs, OutputSymbolPartition::Undefined) == ps.2
        }),
{
    let f = symbol_plan::found(layout, kind, plan, g)->Ok_0;
    let header = symbols::header_symbol(
        layout,
        kind,
        g.visibility.spec_hides("__mh_execute_header"@),
    )->Ok_0;
    let all = symbols::globals(g, g.table.symbols.len())->Ok_0;
    lemma_all_locals_in(g.env, g.inputs, g.inputs.len());
    lemma_part_in(header, OutputSymbolPartition::Local);
    lemma_part_in(header, OutputSymbolPartition::ExternalDefined);
    lemma_part_in(all, OutputSymbolPartition::Local);
    lemma_part_in(all, OutputSymbolPartition::ExternalDefined);
    assert(all_in(f.0, OutputSymbolPartition::Local));
    assert(all_in(f.1, OutputSymbolPartition::ExternalDefined));
    let u = symbol_plan::undefined_symbols(records);
    assert(all_in(u, OutputSymbolPartition::Undefined));
    lemma_sorted_in(f.0, symbol_plan::local_order(), OutputSymbolPartition::Local);
    lemma_sorted_in(f.1, symbol_plan::name_order(), OutputSymbolPartition::ExternalDefined);
    lemma_sorted_in(u, symbol_plan::name_order(), OutputSymbolPartition::Undefined);
    let ps = parts(layout, kind, strip_locals, plan, records, g);
    lemma_part_of_three(ps.0, ps.1, ps.2);
}

proof fn lemma_part_of_three(a: Seq<SymbolModel>, b: Seq<SymbolModel>, c: Seq<SymbolModel>)
    requires
        all_in(a, OutputSymbolPartition::Local),
        all_in(b, OutputSymbolPartition::ExternalDefined),
        all_in(c, OutputSymbolPartition::Undefined),
    ensures
        symbols::part(a + b + c, OutputSymbolPartition::Local) == a,
        symbols::part(a + b + c, OutputSymbolPartition::ExternalDefined) == b,
        symbols::part(a + b + c, OutputSymbolPartition::Undefined) == c,
{
    lemma_part_split(a, b, c, OutputSymbolPartition::Local);
    lemma_part_split(a, b, c, OutputSymbolPartition::ExternalDefined);
    lemma_part_split(a, b, c, OutputSymbolPartition::Undefined);
}

proof fn lemma_part_split(
    a: Seq<SymbolModel>,
    b: Seq<SymbolModel>,
    c: Seq<SymbolModel>,
    p: OutputSymbolPartition,
)
    requires
        all_in(a, OutputSymbolPartition::Local),
        all_in(b, OutputSymbolPartition::ExternalDefined),
        all_in(c, OutputSymbolPartition::Undefined),
    ensures
        symbols::part(a + b + c, p) == match p {
            OutputSymbolPartition::Local => a,
            OutputSymbolPartition::ExternalDefined => b,
            OutputSymbolPartition::Undefined => c,
        },
{
    lemma_part_concat(a + b, c, p);
    lemma_part_concat(a, b, p);
    lemma_part_all(a, OutputSymbolPartition::Local, p);
    lemma_part_all(b, OutputSymbolPartition::ExternalDefined, p);
    lemma_part_all(c, OutputSymbolPartition::Undefined, p);
    assert(symbols::part(a + b + c, p) =~= symbols::part(a, p) + symbols::part(b, p)
        + symbols::part(c, p));
}

/// The section's contents are copied for each thread.
pub open spec fn per_thread(sections: Seq<OutputSection>, n_sect: u8) -> bool {
    &&& 1 <= n_sect <= sections.len()
    &&& (sections[n_sect - 1].kind is ThreadLocalRegular || sections[n_sect - 1].kind
        is ThreadLocalZeroFill)
}

/// The place that an export leads to, counted from the image's start.
pub open spec fn exported_address(kind: ExportKind) -> Option<u64> {
    match kind {
        ExportKind::Regular { address } => Some(address),
        ExportKind::ThreadLocal { address } => Some(address),
        _ => None,
    }
}

/// The offset leads to the name in the string table, as long as the name holds no zero
/// byte and the table stays below four gigabytes.
pub open spec fn names(p: SymbolPlanModel, strx: u32, name: Seq<char>) -> bool {
    p.strtab.len() <= u32::MAX && !text::utf8(name).contains(0u8) ==> string_table::name_at(
        p.strtab,
        strx,
    ) == Ok::<Seq<char>, ReadError>(name)
}

/// The parts of the table follow each other without a gap: the local symbols, the defined
/// ones that others see, the undefined ones.
pub proof fn law_parts_tile_table(
    layout: Layout,
    kind: OutputKind,
    strip_locals: bool,
    plan: SyntheticPlan,
    records: Seq<ImportModel>,
    g: GlobalEnv,
)
    requires
        symbol_plan::symbol_plan(layout, kind, strip_locals, plan, records, g) is Ok,
        (symbol_plan::symbol_plan(layout, kind, strip_locals, plan, records, g)->Ok_0).symbols.len()
            <= u32::MAX,
    ensures
        ({
            let p = symbol_plan::symbol_plan(layout, kind, strip_locals, plan, records, g)->Ok_0;
            let d = p.dysymtab;
            &&& d.ilocalsym == 0
            &&& d.iextdefsym == d.nlocalsym
            &&& d.iundefsym == d.iextdefsym + d.nextdefsym
            &&& p.symbols.len() == d.iundefsym + d.nundefsym
            &&& d.nundefsym == records.len()
            &&& strip_locals ==> d.nlocalsym == 0
        }),
{
    lemma_parts(layout, kind, strip_locals, plan, records, g);
    let u = symbol_plan::undefined_symbols(records);
    sorting::lemma_sorted_by_keeps(u, symbol_plan::name_order());
}

/// The bits of an export's flags that say what it is.
proof fn lemma_flag_bits()
    ensures
        0u64 & 4 == 0,
        4u64 & 4 == 4,
        (0u64 | 2) & 4 == 0,
        (4u64 | 2) & 4 == 4,
        (0u64 | 1) & 4 == 0,
        (4u64 | 1) & 4 == 4,
        0u64 & 3 == 0,
        4u64 & 3 == 0,
        (0u64 | 2) & 3 == 2,
        (4u64 | 2) & 3 == 2,
        (0u64 | 1) & 3 == 1,
        (4u64 | 1) & 3 == 1,
{
    assert(0u64 & 4 == 0 && 4u64 & 4 == 4 && (0u64 | 2) & 4 == 0 && (4u64 | 2) & 4 == 4 && (0u64
        | 1) & 4 == 0 && (4u64 | 1) & 4 == 4 && 0u64 & 3 == 0 && 4u64 & 3 == 0 && (0u64 | 2) & 3
        == 2 && (4u64 | 2) & 3 == 2 && (0u64 | 1) & 3 == 1 && (4u64 | 1) & 3 == 1)
        by (bit_vector);
}

/// The exports of an image are its defined symbols that others see, one for one. Each has
/// the name of its entry in the symbol table and its weakness. An absolute one has the
/// value of the entry; any other lies as far from the start of `__TEXT` as the entry's
/// value does.
pub proof fn law_exports_are_table_entries(
    layout: Layout,
    kind: OutputKind,
    strip_locals: bool,
    plan: SyntheticPlan,
    records: Seq<ImportModel>,
    g: GlobalEnv,
    text: int,
    x: int,
)
    requires
        symbol_plan::symbol_plan(layout, kind, strip_locals, plan, records, g) is Ok,
        (symbol_plan::symbol_plan(layout, kind, strip_locals, plan, records, g)->Ok_0).symbols.len()
            <= u32::MAX,
        kind is Dylib || kind is Executable,
        0 <= text < layout.segments@.len(),
        layout.segments@[text].name@ == "__TEXT"@,
        forall|k: int| 0 <= k < text ==> (#[trigger] layout.segments@[k]).name@ != "__TEXT"@,
        0 <= x < (symbol_plan::symbol_plan(
            layout,
            kind,
            strip_locals,
            plan,
            records,
            g,
        )->Ok_0).dysymtab.nextdefsym,
    ensures
        ({
            let p = symbol_plan::symbol_plan(layout, kind, strip_locals, plan, records, g)->Ok_0;
            let export = p.exports[x];
            let entry = p.symbols[p.dysymtab.iextdefsym + x].raw;
            let start = layout.segments@[text].vm_addr;
            &&& p.exports.len() == p.dysymtab.nextdefsym
            &&& p.dysymtab.iextdefsym + x < p.symbols.len()
            &&& names(p, entry.strx, export.name)
            &&& export.flags & 4 != 0 <==> entry.n_desc & 0x80 != 0
            &&& entry.n_type & 0x0e == 2 ==> export.flags & 3 == 2 && export.kind == (
            ExportKind::Absolute { address: entry.n_value })
            &&& entry.n_type & 0x0e != 2 && per_thread(layout.sections@, entry.n_sect)
                ==> export.flags & 3 == 1 && export.kind is ThreadLocal
            &&& entry.n_type & 0x0e != 2 && !per_thread(layout.sections@, entry.n_sect)
                ==> export.flags & 3 == 0 && export.kind is Regular
            &&& entry.n_type & 0x0e != 2 && start <= entry.n_value ==> exported_address(
                export.kind,
            ) is Some && exported_address(export.kind)->0 + start == entry.n_value
        }),
{
    lemma_parts(layout, kind, strip_locals, plan, records, g);
    layout::lemma_segment_at(layout.segments@, "__TEXT"@);
    let f = symbol_plan::found(layout, kind, plan, g)->Ok_0;
    let ps = parts(layout, kind, strip_locals, plan, records, g);
    let specs = symbol_plan::table_order(f.0, f.1, records, strip_locals);
    let j = ps.0.len() + x;
    assert(specs[j] == ps.1[x]);
    assert(symbol_plan::image_base(layout) == layout.segments@[text].vm_addr);
    lemma_flag_bits();
    lemma_entry_name(
        specs,
        (symbol_plan::symbol_plan(layout, kind, strip_locals, plan, records, g)->Ok_0).exports,
        j,
    );
}

proof fn lemma_entry_name(specs: Seq<SymbolModel>, exports: Seq<ExportModel>, j: int)
    requires
        0 <= j < specs.len(),
    ensures
        names(
            symbol_plan::table_plan(specs, exports),
            symbol_plan::table_plan(specs, exports).symbols[j].raw.strx,
            specs[j].name,
        ),
{
    let raw = string_table::table_of(symbol_plan::names_of(specs)).raw;
    assert(raw.len() <= string_table::padded8(raw).len());
    if raw.len() <= u32::MAX && !text::utf8(specs[j].name).contains(0u8) {
        symbol_plan::law_entries_lead_to_names(specs, j);
    }
}

/// An index of a symbol leads to an entry that was made for the symbol.
proof fn lemma_indices(specs: Seq<SymbolModel>, id: u32)
    requires
        specs.len() <= u32::MAX,
    ensures
        symbol_plan::indices(specs).contains_key(id) <==> exists|j: int|
            0 <= j < specs.len() && (#[trigger] specs[j]).symbol == Some(SymbolId(id)),
        symbol_plan::indices(specs).contains_key(id) ==> symbol_plan::indices(specs)[id]
            < specs.len() && specs[symbol_plan::indices(specs)[id] as int].symbol == Some(
            SymbolId(id),
        ),
    decreases specs.len(),
{
    if specs.len() > 0 {
        let rest = specs.drop_last();
        lemma_indices(rest, id);
        let last = specs.len() - 1;
        if exists|j: int| 0 <= j < rest.len() && (#[trigger] rest[j]).symbol == Some(SymbolId(id)) {
            let j = choose|j: int|
                0 <= j < rest.len() && (#[trigger] rest[j]).symbol == Some(SymbolId(id));
            assert(specs[j].symbol == Some(SymbolId(id)));
        }
        if exists|j: int| 0 <= j < specs.len() && (#[trigger] specs[j]).symbol == Some(SymbolId(id)) {
            let j = choose|j: int|
                0 <= j < specs.len() && (#[trigger] specs[j]).symbol == Some(SymbolId(id));
            if j < last {
                assert(rest[j].symbol == Some(SymbolId(id)));
            }
        }
        if symbol_plan::indices(rest).contains_key(id) {
            assert(rest[symbol_plan::indices(rest)[id] as int]
                == specs[symbol_plan::indices(rest)[id] as int]);
        }
        match specs[last].symbol {
            Some(other) => {
                assert(specs[last].symbol == Some(other));
            },
            None => {},
        }
    }
}

/// What is listed for a slot is what the slot's symbol gives.
proof fn lemma_globals(g: GlobalEnv, n: nat, id: u32)
    requires
        n <= g.table.symbols.len(),
        n <= u32::MAX,
        symbols::globals(g, n) is Ok,
    ensures
        forall|j: int|
            0 <= j < (symbols::globals(g, n)->Ok_0).len() && (#[trigger] (symbols::globals(
                g,
                n,
            )->Ok_0)[j]).symbol == Some(SymbolId(id)) ==> id < n && symbols::global_symbol(
                g,
                SymbolId(id),
                g.table.symbols[id as int],
            ) == Ok::<Option<SymbolModel>, WriteFault>(Some((symbols::globals(g, n)->Ok_0)[j])),
        forall|j: int|
            0 <= j < (symbols::globals(g, n)->Ok_0).len() ==> (#[trigger] (symbols::globals(
                g,
                n,
            )->Ok_0)[j]).symbol is Some,
        id < n && (symbols::global_symbol(g, SymbolId(id), g.table.symbols[id as int]) matches Ok(
            Some(_),
        )) ==> (symbols::globals(g, n)->Ok_0).contains(
            (symbols::global_symbol(g, SymbolId(id), g.table.symbols[id as int])->Ok_0)->0,
        ),
        id < n ==> symbols::global_symbol(g, SymbolId(id), g.table.symbols[id as int]) is Ok,
    decreases n,
{
    if n > 0 {
        let k = (n - 1) as nat;
        lemma_globals(g, k, id);
        let rest = symbols::globals(g, k)->Ok_0;
        let out = symbols::globals(g, n)->Ok_0;
        let made = symbols::global_symbol(g, SymbolId(k as u32), g.table.symbols[n - 1]);
        assert forall|j: int|
            0 <= j < out.len() && (#[trigger] out[j]).symbol == Some(SymbolId(id)) implies id < n
            && symbols::global_symbol(g, SymbolId(id), g.table.symbols[id as int]) == Ok::<
            Option<SymbolModel>,
            WriteFault,
        >(Some(out[j])) by {
            if j < rest.len() {
                assert(out[j] == rest[j]);
            }
        }
        assert forall|j: int| 0 <= j < out.len() implies (#[trigger] out[j]).symbol is Some by {
            if j < rest.len() {
                assert(out[j] == rest[j]);
            }
        }
        let own = symbols::global_symbol(g, SymbolId(id), g.table.symbols[id as int]);
        if id < n && own is Ok && own->Ok_0 is Some {
            let m = own->Ok_0->0;
            if id == k {
                assert(out[out.len() - 1] == m);
            } else {
                let j = choose|j: int| 0 <= j < rest.len() && rest[j] == m;
                assert(out[j] == m);
            }
        }
    }
}

/// What is found for a slot's symbol is listed, and nothing else is listed for the slot.
proof fn lemma_slot_listed(
    layout: Layout,
    kind: OutputKind,
    strip_locals: bool,
    plan: SyntheticPlan,
    records: Seq<ImportModel>,
    g: GlobalEnv,
    id: u32,
)
    requires
        symbol_plan::found(layout, kind, plan, g) is Ok,
        g.table.symbols.len() <= u32::MAX,
        id < g.table.symbols.len(),
    ensures
        ({
            let f = symbol_plan::found(layout, kind, plan, g)->Ok_0;
            let specs = symbol_plan::table_order(f.0, f.1, records, strip_locals);
            let made = symbols::global_symbol(g, SymbolId(id), g.table.symbols[id as int]);
            &&& made is Ok
            &&& made->Ok_0 is Some && (!strip_locals || (made->Ok_0)->0.partition
                is ExternalDefined) && !((made->Ok_0)->0.partition is Undefined)
                ==> specs.contains((made->Ok_0)->0)
            &&& forall|j: int|
                0 <= j < specs.len() && (#[trigger] specs[j]).symbol == Some(SymbolId(id))
                    && !(specs[j].partition is Undefined) ==> made == Ok::<
                    Option<SymbolModel>,
                    WriteFault,
                >(Some(specs[j]))
        }),
{
    let f = symbol_plan::found(layout, kind, plan, g)->Ok_0;
    let specs = symbol_plan::table_order(f.0, f.1, records, strip_locals);
    let made = symbols::global_symbol(g, SymbolId(id), g.table.symbols[id as int]);
    let n = g.table.symbols.len();
    let all = symbols::globals(g, n)->Ok_0;
    let header = symbols::header_symbol(
        layout,
        kind,
        g.visibility.spec_hides("__mh_execute_header"@),
    )->Ok_0;
    lemma_globals(g, n, id);
    lemma_parts(layout, kind, strip_locals, plan, records, g);
    lemma_all_locals_in(g.env, g.inputs, g.inputs.len());
    lemma_part_in(header, OutputSymbolPartition::Local);
    lemma_part_in(header, OutputSymbolPartition::ExternalDefined);
    lemma_part_in(all, OutputSymbolPartition::Local);
    lemma_part_in(all, OutputSymbolPartition::ExternalDefined);
    sorting::lemma_sorted_by_keeps(f.0, symbol_plan::local_order());
    sorting::lemma_sorted_by_keeps(f.1, symbol_plan::name_order());
    let ps = parts(layout, kind, strip_locals, plan, records, g);
    assert forall|j: int|
        0 <= j < specs.len() && (#[trigger] specs[j]).symbol == Some(SymbolId(id)) && !(
        specs[j].partition is Undefined) implies made == Ok::<Option<SymbolModel>, WriteFault>(
        Some(specs[j]),
    ) by {
        let m = specs[j];
        if j < ps.0.len() {
            assert(ps.0[j] == m);
            assert(f.0.contains(m));
            lemma_local_is_global(layout, kind, plan, g, m);
        } else {
            assert(j < ps.0.len() + ps.1.len()) by {
                if j >= ps.0.len() + ps.1.len() {
                    assert(ps.2[j - ps.0.len() - ps.1.len()] == m);
                }
            }
            assert(ps.1[j - ps.0.len()] == m);
            assert(f.1.contains(m));
            lemma_external_is_global(layout, kind, plan, g, m);
        }
        let q = choose|q: int| 0 <= q < all.len() && all[q] == m;
        assert(all[q].symbol == Some(SymbolId(id)));
    }
    if made->Ok_0 is Some && (!strip_locals || (made->Ok_0)->0.partition is ExternalDefined) && !((
    made->Ok_0)->0.partition is Undefined) {
        let m = (made->Ok_0)->0;
        assert(all.contains(m));
        if m.partition is ExternalDefined {
            let part = symbols::part(all, OutputSymbolPartition::ExternalDefined);
            assert(part.contains(m));
            let q = choose|q: int| 0 <= q < part.len() && part[q] == m;
            assert(f.1[f.1.len() - part.len() + q] == m);
            assert(ps.1.contains(m));
            let w = choose|w: int| 0 <= w < ps.1.len() && ps.1[w] == m;
            assert(specs[ps.0.len() + w] == m);
        } else {
            let part = symbols::part(all, OutputSymbolPartition::Local);
            assert(part.contains(m));
            let q = choose|q: int| 0 <= q < part.len() && part[q] == m;
            assert(f.0[f.0.len() - part.len() + q] == m);
            assert(ps.0.contains(m));
            let w = choose|w: int| 0 <= w < ps.0.len() && ps.0[w] == m;
            assert(specs[w] == m);
        }
    }
}

proof fn lemma_local_is_global(
    layout: Layout,
    kind: OutputKind,
    plan: SyntheticPlan,
    g: GlobalEnv,
    m: SymbolModel,
)
    requires
        symbol_plan::found(layout, kind, plan, g) is Ok,
        (symbol_plan::found(layout, kind, plan, g)->Ok_0).0.contains(m),
        m.symbol is Some,
    ensures
        (symbols::globals(g, g.table.symbols.len())->Ok_0).contains(m),
{
    let locals = (symbol_plan::found(layout, kind, plan, g)->Ok_0).0;
    let header = symbols::header_symbol(
        layout,
        kind,
        g.visibility.spec_hides("__mh_execute_header"@),
    )->Ok_0;
    let own = symbols::all_locals(g.env, g.inputs, g.inputs.len())->Ok_0;
    let private = symbols::private_symbol(layout, plan)->Ok_0;
    let all = symbols::globals(g, g.table.symbols.len())->Ok_0;
    let a = symbols::part(header, OutputSymbolPartition::Local);
    let d = symbols::part(all, OutputSymbolPartition::Local);
    lemma_all_locals_in(g.env, g.inputs, g.inputs.len());
    lemma_part_in(header, OutputSymbolPartition::Local);
    lemma_part_in(all, OutputSymbolPartition::Local);
    let j = choose|j: int| 0 <= j < locals.len() && locals[j] == m;
    if j < a.len() {
        assert(a[j] == m);
        assert(a.contains(m));
        assert(header.contains(m));
    } else if j < a.len() + own.len() {
        assert(own[j - a.len()] == m);
    } else if j < a.len() + own.len() + private.len() {
        assert(private[j - a.len() - own.len()] == m);
    } else {
        assert(d[j - a.len() - own.len() - private.len()] == m);
        assert(d.contains(m));
    }
}

proof fn lemma_external_is_global(
    layout: Layout,
    kind: OutputKind,
    plan: SyntheticPlan,
    g: GlobalEnv,
    m: SymbolModel,
)
    requires
        symbol_plan::found(layout, kind, plan, g) is Ok,
        (symbol_plan::found(layout, kind, plan, g)->Ok_0).1.contains(m),
        m.symbol is Some,
    ensures
        (symbols::globals(g, g.table.symbols.len())->Ok_0).contains(m),
{
    let externals = (symbol_plan::found(layout, kind, plan, g)->Ok_0).1;
    let header = symbols::header_symbol(
        layout,
        kind,
        g.visibility.spec_hides("__mh_execute_header"@),
    )->Ok_0;
    let all = symbols::globals(g, g.table.symbols.len())->Ok_0;
    let a = symbols::part(header, OutputSymbolPartition::ExternalDefined);
    let d = symbols::part(all, OutputSymbolPartition::ExternalDefined);
    lemma_part_in(header, OutputSymbolPartition::ExternalDefined);
    lemma_part_in(all, OutputSymbolPartition::ExternalDefined);
    let j = choose|j: int| 0 <= j < externals.len() && externals[j] == m;
    if j < a.len() {
        assert(a[j] == m);
        assert(a.contains(m));
        assert(header.contains(m));
    } else {
        assert(d[j - a.len()] == m);
        assert(d.contains(m));
    }
}

/// A symbol that an object defines has an entry in the table, which the plan's index leads
/// to: it has the symbol's name, its final address as its value, the number of its output
/// section, and is seen by others unless the link hides it. Only a private symbol has
/// none, and one that is hidden where local symbols are stripped.
pub proof fn law_defined_symbol_has_entry(
    layout: Layout,
    kind: OutputKind,
    strip_locals: bool,
    plan: SyntheticPlan,
    records: Seq<ImportModel>,
    g: GlobalEnv,
    id: u32,
    i: int,
    k: int,
)
    requires
        symbol_plan::symbol_plan(layout, kind, strip_locals, plan, records, g) is Ok,
        (symbol_plan::symbol_plan(layout, kind, strip_locals, plan, records, g)->Ok_0).symbols.len()
            <= u32::MAX,
        g.env == symbols::env_of(layout.sections@, g.env.atoms, g.env.redirects),
        g.table.symbols.len() <= u32::MAX,
        id < g.table.symbols.len(),
        g.table.symbols[id as int] is Defined,
        !g.table.symbols[id as int]->private_extern,
        g.table.symbols[id as int]->Defined_atom.0 != 0,
        places::stands_at(layout.sections@, i, k, g.table.symbols[id as int]->Defined_atom.0),
        layout.sections@.len() < 0xff,
        forall|r: int| 0 <= r < records.len() ==> (#[trigger] records[r]).symbol.0 != id,
    ensures
        ({
            let p = symbol_plan::symbol_plan(layout, kind, strip_locals, plan, records, g)->Ok_0;
            let symbol = g.table.symbols[id as int];
            let name = g.table.names[symbol.spec_name().0 as int];
            let hidden = g.visibility.spec_hides(name);
            let j = p.symbol_indices[id];
            let entry = p.symbols[j as int].raw;
            &&& p.symbol_indices.contains_key(id) <==> !(hidden && strip_locals)
            &&& !(hidden && strip_locals) ==> {
                &&& j < p.symbols.len()
                &&& names(p, entry.strx, name)
                &&& entry.n_value == (places::final_address(layout.sections@, i, k) + symbol->value)
                    % 0x1_0000_0000_0000_0000
                &&& entry.n_sect == i + 1
                &&& entry.n_type == if hidden {
                    0x1eu8
                } else {
                    0x0fu8
                }
                &&& entry.n_desc & 0x80 != 0 <==> symbol->Defined_weak
                &&& hidden <==> j < p.dysymtab.nlocalsym
                &&& j < p.dysymtab.iundefsym
            }
        }),
{
    let f = symbol_plan::found(layout, kind, plan, g)->Ok_0;
    let specs = symbol_plan::table_order(f.0, f.1, records, strip_locals);
    let p = symbol_plan::symbol_plan(layout, kind, strip_locals, plan, records, g)->Ok_0;
    let symbol = g.table.symbols[id as int];
    let name = g.table.names[symbol.spec_name().0 as int];
    let hidden = g.visibility.spec_hides(name);
    lemma_slot_listed(layout, kind, strip_locals, plan, records, g, id);
    lemma_parts(layout, kind, strip_locals, plan, records, g);
    law_parts_tile_table(layout, kind, strip_locals, plan, records, g);
    lemma_indices(specs, id);
    places::law_atom_address(layout.sections@, i, k, symbol->Defined_atom.0);
    places::law_atom_section(layout.sections@, i, k, symbol->Defined_atom.0);
    lemma_definition_bits();
    let made = symbols::global_symbol(g, SymbolId(id), symbol)->Ok_0->0;
    assert(made.name == name);
    let ps = parts(layout, kind, strip_locals, plan, records, g);
    assert forall|q: int| 0 <= q < specs.len() && (#[trigger] specs[q]).symbol == Some(
        SymbolId(id),
    ) implies specs[q] == made by {
        if specs[q].partition is Undefined {
            lemma_undefined(records, ps, specs, q);
        }
    }
    if !(hidden && strip_locals) {
        assert(specs.contains(made));
        let w = choose|w: int| 0 <= w < specs.len() && specs[w] == made;
        assert(specs[w].symbol == Some(SymbolId(id)));
        let j = p.symbol_indices[id] as int;
        assert(specs[j] == made);
        lemma_entry_name(specs, p.exports, j);
        assert(hidden <==> j < ps.0.len()) by {
            if j < ps.0.len() {
                assert(ps.0[j] == made);
            } else if j < ps.0.len() + ps.1.len() {
                assert(ps.1[j - ps.0.len()] == made);
            } else {
                assert(ps.2[j - ps.0.len() - ps.1.len()] == made);
            }
        }
        assert(j < ps.0.len() + ps.1.len()) by {
            if j >= ps.0.len() + ps.1.len() {
                assert(ps.2[j - ps.0.len() - ps.1.len()] == made);
            }
        }
    } else if p.symbol_indices.contains_key(id) {
        let j = p.symbol_indices[id] as int;
        assert(specs[j] == made);
        if j < ps.1.len() {
            assert(ps.1[j] == made);
        } else {
            assert(ps.2[j - ps.1.len()] == made);
        }
    }
}

/// An undefined symbol of a table is that of an import.
proof fn lemma_undefined(
    records: Seq<ImportModel>,
    ps: (Seq<SymbolModel>, Seq<SymbolModel>, Seq<SymbolModel>),
    specs: Seq<SymbolModel>,
    q: int,
)
    requires
        specs == ps.0 + ps.1 + ps.2,
        all_in(ps.0, OutputSymbolPartition::Local),
        all_in(ps.1, OutputSymbolPartition::ExternalDefined),
        ps.2 == sorting::sorted_by(
            symbol_plan::undefined_symbols(records),
            symbol_plan::name_order(),
        ),
        0 <= q < specs.len(),
        specs[q].partition is Undefined,
    ensures
        ps.0.len() + ps.1.len() <= q,
        exists|r: int|
            0 <= r < records.len() && specs[q] == symbol_plan::undefined_symbol(
                #[trigger] records[r],
            ),
{
    let u = symbol_plan::undefined_symbols(records);
    sorting::lemma_sorted_by_keeps(u, symbol_plan::name_order());
    if q < ps.0.len() {
        assert(ps.0[q] == specs[q]);
    } else if q < ps.0.len() + ps.1.len() {
        assert(ps.1[q - ps.0.len()] == specs[q]);
    } else {
        assert(ps.2[q - ps.0.len() - ps.1.len()] == specs[q]);
        assert(u.contains(specs[q]));
        let r = choose|r: int| 0 <= r < u.len() && u[r] == specs[q];
        assert(symbol_plan::undefined_symbol(records[r]) == specs[q]);
    }
}

proof fn lemma_definition_bits()
    ensures
        0x0eu8 | 0x10 == 0x1e,
        0x0eu8 | 0x01 == 0x0f,
        forall|weak: bool, kept: bool| #[trigger]
            symbols::definition_desc(weak, kept) & 0x80 != 0 <==> weak,
{
    assert(0x0eu8 | 0x10 == 0x1e && 0x0eu8 | 0x01 == 0x0f && (0x80u16 | 0x20) & 0x80 != 0 && (0x80u16
        | 0) & 0x80 != 0 && (0u16 | 0x20) & 0x80 == 0 && (0u16 | 0) & 0x80 == 0) by (bit_vector);
}

/// An import has an entry among the undefined symbols, which the plan's index leads to: it
/// has the import's name and, in its upper half, the number of the dylib that is to
/// provide it.
pub proof fn law_import_has_entry(
    layout: Layout,
    kind: OutputKind,
    strip_locals: bool,
    plan: SyntheticPlan,
    records: Seq<ImportModel>,
    g: GlobalEnv,
    r: int,
)
    requires
        symbol_plan::symbol_plan(layout, kind, strip_locals, plan, records, g) is Ok,
        (symbol_plan::symbol_plan(layout, kind, strip_locals, plan, records, g)->Ok_0).symbols.len()
            <= u32::MAX,
        g.table.symbols.len() <= u32::MAX,
        0 <= r < records.len(),
        records[r].symbol.0 < g.table.symbols.len(),
        !(g.table.symbols[records[r].symbol.0 as int] is Defined),
        forall|q: int|
            0 <= q < records.len() && (#[trigger] records[q]).symbol == records[r].symbol ==> q
                == r,
        records[r].ordinal <= 0xff,
    ensures
        ({
            let p = symbol_plan::symbol_plan(layout, kind, strip_locals, plan, records, g)->Ok_0;
            let import = records[r];
            let j = p.symbol_indices[import.symbol.0];
            let entry = p.symbols[j as int].raw;
            &&& p.symbol_indices.contains_key(import.symbol.0)
            &&& p.dysymtab.iundefsym <= j < p.symbols.len()
            &&& names(p, entry.strx, import.name)
            &&& entry.n_type == 1
            &&& entry.n_sect == 0
            &&& entry.n_value == 0
            &&& entry.n_desc == import.ordinal * 0x100 + if import.weak_import {
                0x40int
            } else {
                0int
            }
        }),
{
    let f = symbol_plan::found(layout, kind, plan, g)->Ok_0;
    let specs = symbol_plan::table_order(f.0, f.1, records, strip_locals);
    let p = symbol_plan::symbol_plan(layout, kind, strip_locals, plan, records, g)->Ok_0;
    let import = records[r];
    let id = import.symbol.0;
    let made = symbol_plan::undefined_symbol(import);
    lemma_slot_listed(layout, kind, strip_locals, plan, records, g, id);
    lemma_parts(layout, kind, strip_locals, plan, records, g);
    law_parts_tile_table(layout, kind, strip_locals, plan, records, g);
    lemma_indices(specs, id);
    let ps = parts(layout, kind, strip_locals, plan, records, g);
    let u = symbol_plan::undefined_symbols(records);
    sorting::lemma_sorted_by_keeps(u, symbol_plan::name_order());
    assert(u[r] == made);
    assert(ps.2.contains(made));
    let w = choose|w: int| 0 <= w < ps.2.len() && ps.2[w] == made;
    assert(specs[ps.0.len() + ps.1.len() + w] == made);
    assert(specs[ps.0.len() + ps.1.len() + w].symbol == Some(SymbolId(id)));
    let j = p.symbol_indices[id] as int;
    assert(specs[j].partition is Undefined);
    lemma_undefined(records, ps, specs, j);
    let q = choose|q: int|
        0 <= q < records.len() && specs[j] == symbol_plan::undefined_symbol(#[trigger] records[q]);
    assert(records[q].symbol == import.symbol);
    lemma_entry_name(specs, p.exports, j);
    let o = import.ordinal;
    assert(o <= 0xff ==> (o << 8u16) | 0 == o * 0x100 && (o << 8u16) | 0x40 == o * 0x100 + 0x40)
        by (bit_vector);
    assert(0u8 | 1 == 1) by (bit_vector);
}

} // verus!
