//! The symbols of an image, before they are put in order.

use vstd::prelude::*;
use crate::atom;
use crate::atom::{Atom, AtomTable};
use crate::input::ObjectFile;
use crate::layout;
use crate::layout::{Layout, LayoutInput};
use crate::macho::constants::{
    NO_SECT, N_ABS, N_EXT, N_INDR, N_NO_DEAD_STRIP, N_PEXT, N_SECT, N_UNDF, N_WEAK_DEF,
    REFERENCED_DYNAMICALLY,
};
use crate::macho::writer::ranges;
use crate::macho::writer::ranges::{find_containing_atom, AtomRangeIndex};
use crate::macho::writer::starts;
use crate::macho::writer::starts::is_assembler_temporary_symbol;
use crate::macho::writer::{WriteError, WriteFault};
use crate::options::OutputKind;
use crate::reloc::arm64::maps;
use crate::reloc::arm64::maps::InputMap;
use crate::reloc::arm64::targets;
use crate::resolve::suggest;
use crate::resolve::table;
use crate::resolve::{InputId, Symbol, SymbolId, SymbolTable};
use crate::section::OutputSection;
use crate::symbol::{InputSymbol, SymKind};
use crate::symbol_visibility::SymbolVisibilityPolicy;
use crate::synth::SyntheticPlan;
use std::collections::HashMap;

verus! {

broadcast use vstd::std_specs::hash::group_hash_axioms;

/// The parts of a symbol table.
#[derive(Debug, Clone, Copy, PartialEq, Eq, Structural)]
pub enum OutputSymbolPartition {
    Local,
    ExternalDefined,
    Undefined,
}

/// A symbol of the output.
#[derive(Debug, Clone)]
pub struct OutputSymbolSpec {
    pub symbol: Option<SymbolId>,
    pub name: String,
    pub partition: OutputSymbolPartition,
    pub n_type: u8,
    pub n_sect: u8,
    pub n_desc: u16,
    pub n_value: u64,
    pub size: u64,
    pub file_index: usize,
}

/// An `OutputSymbolSpec` with its name as a character sequence.
#[verifier::ext_equal]
pub struct SymbolModel {
    pub symbol: Option<SymbolId>,
    pub name: Seq<char>,
    pub partition: OutputSymbolPartition,
    pub n_type: u8,
    pub n_sect: u8,
    pub n_desc: u16,
    pub n_value: u64,
    pub size: u64,
    pub file_index: usize,
}

impl View for OutputSymbolSpec {
    type V = SymbolModel;

    open spec fn view(&self) -> SymbolModel {
        SymbolModel {
            symbol: self.symbol,
            name: self.name@,
            partition: self.partition,
            n_type: self.n_type,
            n_sect: self.n_sect,
            n_desc: self.n_desc,
            n_value: self.n_value,
            size: self.size,
            file_index: self.file_index,
        }
    }
}

pub open spec fn symbols_view(specs: Seq<OutputSymbolSpec>) -> Seq<SymbolModel> {
    specs.map_values(|s: OutputSymbolSpec| s@)
}

pub(crate) fn push_spec(out: &mut Vec<OutputSymbolSpec>, spec: OutputSymbolSpec)
    ensures
        symbols_view(final(out)@) == symbols_view(old(out)@).push(spec@),
{
    let ghost before = out@;
    out.push(spec);
    assert(symbols_view(out@) =~= symbols_view(before).push(spec@));
}

/// The type of a symbol with a place.
pub open spec fn sect_type(private: bool) -> u8 {
    if private {
        N_SECT | N_PEXT
    } else {
        N_SECT | N_EXT
    }
}

pub fn defined_symbol_type(private_extern: bool) -> (r: u8)
    ensures
        r == sect_type(private_extern),
{
    if private_extern {
        N_SECT | N_PEXT
    } else {
        N_SECT | N_EXT
    }
}

/// The type of a symbol with a fixed value.
pub open spec fn abs_type(private: bool) -> u8 {
    if private {
        N_ABS | N_PEXT
    } else {
        N_ABS | N_EXT
    }
}

pub fn absolute_symbol_type(private_extern: bool) -> (r: u8)
    ensures
        r == abs_type(private_extern),
{
    if private_extern {
        N_ABS | N_PEXT
    } else {
        N_ABS | N_EXT
    }
}

/// The type that a symbol of the input keeps.
pub open spec fn kept_type(sym: InputSymbol) -> u8 {
    let base = match sym.spec_kind() {
        SymKind::Sect => N_SECT,
        SymKind::Abs => N_ABS,
        SymKind::Undef => N_UNDF,
        SymKind::Indirect => N_INDR,
    };
    if sym.spec_is_private_ext() {
        base | N_PEXT
    } else if sym.spec_is_ext() {
        base | N_EXT
    } else {
        base
    }
}

pub fn input_symbol_type(input_sym: &InputSymbol) -> (r: u8)
    ensures
        r == kept_type(*input_sym),
{
    let base: u8 = match input_sym.kind() {
        SymKind::Sect => N_SECT,
        SymKind::Abs => N_ABS,
        SymKind::Undef => N_UNDF,
        SymKind::Indirect => N_INDR,
    };
    if input_sym.is_private_ext() {
        base | N_PEXT
    } else if input_sym.is_ext() {
        base | N_EXT
    } else {
        base
    }
}

/// The symbol for the start of an executable.
pub open spec fn header_symbol(layout: Layout, kind: OutputKind, hidden: bool) -> Result<
    Seq<SymbolModel>,
    WriteFault,
> {
    if kind != OutputKind::Executable || layout.sections@.len() == 0 {
        Ok(seq![])
    } else {
        match layout::segment_at(layout.segments@, "__TEXT"@) {
            None => Err(WriteFault::MissingSegment("__TEXT"@)),
            Some(i) => Ok(
                seq![
                    SymbolModel {
                        symbol: None,
                        name: "__mh_execute_header"@,
                        partition: if hidden {
                            OutputSymbolPartition::Local
                        } else {
                            OutputSymbolPartition::ExternalDefined
                        },
                        n_type: sect_type(hidden),
                        n_sect: 1,
                        n_desc: REFERENCED_DYNAMICALLY,
                        n_value: layout.segments@[i].vm_addr,
                        size: 0,
                        file_index: 0,
                    },
                ],
            ),
        }
    }
}

pub(crate) fn push_header_symbol(
    layout: &Layout,
    kind: OutputKind,
    hidden: bool,
    out: &mut Vec<OutputSymbolSpec>,
) -> (r: Result<(), WriteError>)
    ensures
        match (r, header_symbol(*layout, kind, hidden)) {
            (Ok(_), Ok(more)) => symbols_view(final(out)@) == symbols_view(old(out)@) + more,
            (Err(e), Err(f)) => e@ == f,
            _ => false,
        },
{
    let ghost before = symbols_view(out@);
    assert(before =~= before + Seq::<SymbolModel>::empty());
    if kind != OutputKind::Executable || layout.sections.len() == 0 {
        return Ok(());
    }
    let n_value: u64 = match layout.segment("__TEXT") {
        Some(segment) => segment.vm_addr,
        None => {
            return Err(WriteError::MissingSegment("__TEXT"));
        },
    };
    let spec = OutputSymbolSpec {
        symbol: None,
        name: "__mh_execute_header".to_owned(),
        partition: if hidden {
            OutputSymbolPartition::Local
        } else {
            OutputSymbolPartition::ExternalDefined
        },
        n_type: defined_symbol_type(hidden),
        n_sect: 1,
        n_desc: REFERENCED_DYNAMICALLY,
        n_value,
        size: 0,
        file_index: 0,
    };
    push_spec(out, spec);
    assert(symbols_view(out@) =~= before + seq![spec@]);
    Ok(())
}

/// Where atoms are, for the symbols in them.
pub struct SymbolEnv {
    pub atoms: Seq<Atom>,
    pub redirects: Map<u32, u32>,
    pub addrs: Map<u32, u64>,
    /// The output section of each atom.
    pub sections: Map<u32, usize>,
}

pub open spec fn env_of(sections: Seq<OutputSection>, atoms: Seq<Atom>, redirects: Map<u32, u32>) -> SymbolEnv {
    SymbolEnv {
        atoms,
        redirects,
        addrs: maps::atom_addresses(sections),
        sections: maps::atom_sections(sections),
    }
}

/// A section's number in a symbol, counted from one.
pub open spec fn ordinal(place: usize) -> u8 {
    (place + 1) as u8
}

/// What the symbols of the inputs are looked up in.
pub struct LocalSymbolContext<'a> {
    pub atom_table: &'a AtomTable,
    pub atom_ranges: &'a AtomRangeIndex,
    pub atom_sections: &'a HashMap<u32, usize>,
    pub atom_addrs: &'a HashMap<u32, u64>,
}

impl<'a> LocalSymbolContext<'a> {
    pub open spec fn of(self, env: SymbolEnv) -> bool {
        &&& self.atom_table@ == env.atoms
        &&& self.atom_ranges.wf()
        &&& self.atom_ranges.indexes(env.atoms, env.redirects)
        &&& self.atom_sections@ == env.sections
        &&& self.atom_addrs@ == env.addrs
        &&& forall|a: u32| #[trigger]
            env.addrs.contains_key(a) ==> 1 <= a <= env.atoms.len()
        &&& forall|a: u32| #[trigger] env.sections.contains_key(a) ==> env.sections[a] < usize::MAX
    }
}

/// The name under which a symbol of the input is kept; empty if it cannot be read.
pub open spec fn kept_name(obj: ObjectFile, sym: InputSymbol) -> Seq<char> {
    match obj.name_of(sym) {
        Ok(name) => name,
        Err(_) => ""@,
    }
}

/// A symbol of the input that others do not see.
pub open spec fn is_local(obj: ObjectFile, sym: InputSymbol) -> bool {
    &&& !sym.is_stab()
    &&& !(sym.spec_is_ext() && !sym.spec_is_private_ext())
    &&& !starts::temporary_name(kept_name(obj, sym))
}

/// A local symbol as it is in the output; nothing where it is dropped.
pub open spec fn local_symbol(
    env: SymbolEnv,
    id: InputId,
    file_index: usize,
    obj: ObjectFile,
    sym: InputSymbol,
) -> Result<Option<SymbolModel>, WriteFault> {
    let model = SymbolModel {
        symbol: None,
        name: kept_name(obj, sym),
        partition: OutputSymbolPartition::Local,
        n_type: kept_type(sym),
        n_sect: NO_SECT,
        n_desc: sym.raw.n_desc,
        n_value: sym.raw.n_value,
        size: 0,
        file_index,
    };
    if !is_local(obj, sym) {
        Ok(None)
    } else {
        match sym.spec_kind() {
            SymKind::Sect => match ranges::containing(
                ranges::section_ranges(
                    env.atoms,
                    env.redirects,
                    atom::section_key(id, sym.raw.n_sect),
                ),
                targets::section_relative(obj, sym) as u32,
                1,
            ) {
                None => Err(WriteFault::MissingSegment("__UNKNOWN"@)),
                Some((atom, delta)) => match (
                    targets::lookup(env.addrs, atom.0),
                    targets::lookup(env.sections, atom.0),
                ) {
                    (None, _) => Err(
                        WriteFault::DefinedSymbolAtomMissing(SymbolId(u32::MAX), atom),
                    ),
                    (Some(_), None) => Err(
                        WriteFault::DefinedSymbolSectionMissing(SymbolId(u32::MAX), atom),
                    ),
                    (Some(addr), Some(place)) => Ok(
                        Some(
                            SymbolModel {
                                n_sect: ordinal(place),
                                n_value: addr.wrapping_add(delta as u64),
                                size: env.atoms[atom.0 - 1].size.saturating_sub(delta) as u64,
                                ..model
                            },
                        ),
                    ),
                },
            },
            SymKind::Abs => Ok(Some(model)),
            SymKind::Undef => Ok(None),
            SymKind::Indirect => Ok(None),
        }
    }
}

/// Every local symbol with a place has a section.
pub open spec fn sections_exist(obj: ObjectFile) -> bool {
    forall|i: int|
        0 <= i < obj.symbols@.len() ==> (is_local(obj, #[trigger] obj.symbols@[i])
            && obj.symbols@[i].spec_kind() == SymKind::Sect ==> obj.section_index(
            obj.symbols@[i],
        ) is Some)
}

fn make_local_symbol(
    ctx: &LocalSymbolContext<'_>,
    id: InputId,
    file_index: usize,
    object: &ObjectFile,
    sym: &InputSymbol,
    Ghost(env): Ghost<SymbolEnv>,
) -> (r: Result<Option<OutputSymbolSpec>, WriteError>)
    requires
        ctx.of(env),
        is_local(*object, *sym) && sym.spec_kind() == SymKind::Sect ==> object.section_index(
            *sym,
        ) is Some,
    ensures
        match (r, local_symbol(env, id, file_index, *object, *sym)) {
            (Ok(Some(spec)), Ok(Some(m))) => spec@ == m,
            (Ok(None), Ok(None)) => true,
            (Err(e), Err(f)) => e@ == f,
            _ => false,
        },
{
    if sym.stab_kind().is_some() || (sym.is_ext() && !sym.is_private_ext()) {
        return Ok(None);
    }
    let name: String = match object.symbol_name(sym) {
        Ok(name) => name.to_owned(),
        Err(_) => "".to_owned(),
    };
    if is_assembler_temporary_symbol(name.as_str()) {
        return Ok(None);
    }
    match sym.kind() {
        SymKind::Sect => {
            let section = match object.section_for_symbol(sym) {
                Some(section) => section,
                None => {
                    return Ok(None);
                },
            };
            let offset: u32 = sym.value().saturating_sub(section.addr) as u32;
            proof {
                let key = atom::section_key(id, sym.raw.n_sect);
                assert(ctx.atom_ranges.ranges(key) == ranges::section_ranges(
                    env.atoms,
                    env.redirects,
                    key,
                ));
            }
            let (atom_id, delta) = match find_containing_atom(
                ctx.atom_ranges,
                id,
                sym.sect_idx(),
                offset,
            ) {
                Some(found) => found,
                None => {
                    return Err(WriteError::MissingSegment("__UNKNOWN"));
                },
            };
            let addr: u64 = match ctx.atom_addrs.get(&atom_id.0) {
                Some(addr) => *addr,
                None => {
                    return Err(
                        WriteError::DefinedSymbolAtomMissing(SymbolId(u32::MAX), atom_id),
                    );
                },
            };
            let place: usize = match ctx.atom_sections.get(&atom_id.0) {
                Some(place) => *place,
                None => {
                    return Err(
                        WriteError::DefinedSymbolSectionMissing(SymbolId(u32::MAX), atom_id),
                    );
                },
            };
            assert(env.addrs.contains_key(atom_id.0) && env.sections.contains_key(atom_id.0));
            Ok(
                Some(
                    OutputSymbolSpec {
                        symbol: None,
                        name,
                        partition: OutputSymbolPartition::Local,
                        n_type: input_symbol_type(sym),
                        n_sect: (place + 1) as u8,
                        n_desc: sym.raw.n_desc,
                        n_value: addr.wrapping_add(delta as u64),
                        size: ctx.atom_table.get(atom_id).size.saturating_sub(delta) as u64,
                        file_index,
                    },
                ),
            )
        },
        SymKind::Abs => Ok(
            Some(
                OutputSymbolSpec {
                    symbol: None,
                    name,
                    partition: OutputSymbolPartition::Local,
                    n_type: input_symbol_type(sym),
                    n_sect: NO_SECT,
                    n_desc: sym.raw.n_desc,
                    n_value: sym.value(),
                    size: 0,
                    file_index,
                },
            ),
        ),
        SymKind::Undef => Ok(None),
        SymKind::Indirect => Ok(None),
    }
}

/// The local symbols of one input.
pub open spec fn file_locals(
    env: SymbolEnv,
    id: InputId,
    file_index: usize,
    obj: ObjectFile,
    symbols: Seq<InputSymbol>,
) -> Result<Seq<SymbolModel>, WriteFault>
    decreases symbols.len(),
{
    if symbols.len() == 0 {
        Ok(seq![])
    } else {
        match file_locals(env, id, file_index, obj, symbols.drop_last()) {
            Err(e) => Err(e),
            Ok(rest) => match local_symbol(env, id, file_index, obj, symbols.last()) {
                Err(e) => Err(e),
                Ok(None) => Ok(rest),
                Ok(Some(m)) => Ok(rest.push(m)),
            },
        }
    }
}

proof fn lemma_file_fault(
    env: SymbolEnv,
    id: InputId,
    file_index: usize,
    obj: ObjectFile,
    symbols: Seq<InputSymbol>,
    n: int,
)
    requires
        0 <= n <= symbols.len(),
        file_locals(env, id, file_index, obj, symbols.take(n)) is Err,
    ensures
        file_locals(env, id, file_index, obj, symbols) == file_locals(
            env,
            id,
            file_index,
            obj,
            symbols.take(n),
        ),
    decreases symbols.len() - n,
{
    if n < symbols.len() {
        assert(symbols.take(n + 1).drop_last() =~= symbols.take(n));
        lemma_file_fault(env, id, file_index, obj, symbols, n + 1);
    } else {
        assert(symbols.take(n) =~= symbols);
    }
}

pub(crate) fn collect_local_symbols(
    ctx: &LocalSymbolContext<'_>,
    id: InputId,
    file_index: usize,
    object: &ObjectFile,
    out: &mut Vec<OutputSymbolSpec>,
    Ghost(env): Ghost<SymbolEnv>,
) -> (r: Result<(), WriteError>)
    requires
        ctx.of(env),
        sections_exist(*object),
    ensures
        match (r, file_locals(env, id, file_index, *object, object.symbols@)) {
            (Ok(_), Ok(more)) => symbols_view(final(out)@) == symbols_view(old(out)@) + more,
            (Err(e), Err(f)) => e@ == f,
            _ => false,
        },
{
    let ghost before = symbols_view(out@);
    let ghost all = object.symbols@;
    assert(before =~= before + Seq::<SymbolModel>::empty());
    let mut i: usize = 0;
    while i < object.symbols.len()
        invariant
            i <= all.len(),
            all == object.symbols@,
            ctx.of(env),
            sections_exist(*object),
            match file_locals(env, id, file_index, *object, all.take(i as int)) {
                Ok(more) => symbols_view(out@) == before + more,
                Err(_) => false,
            },
        decreases all.len() - i,
    {
        let ghost rest = file_locals(env, id, file_index, *object, all.take(i as int))->Ok_0;
        assert(all.take(i + 1).drop_last() =~= all.take(i as int));
        assert(all.take(i + 1).last() == object.symbols@[i as int]);
        match make_local_symbol(ctx, id, file_index, object, &object.symbols[i], Ghost(env)) {
            Ok(Some(spec)) => {
                push_spec(out, spec);
                assert(symbols_view(out@) =~= before + rest.push(spec@));
            },
            Ok(None) => {},
            Err(e) => {
                proof {
                    lemma_file_fault(env, id, file_index, *object, all, i + 1);
                }
                return Err(e);
            },
        }
        i += 1;
    }
    assert(all.take(i as int) =~= all);
    Ok(())
}

/// Which input an id stands for, counted from one; zero for none.
pub open spec fn file_number(inputs: Seq<LayoutInput>, id: InputId) -> usize {
    match maps::input_at(inputs, id) {
        Some(i) => (i + 1) as usize,
        None => 0,
    }
}

pub(crate) fn find_file_number(input_map: &InputMap<'_>, id: InputId) -> (r: usize)
    requires
        input_map.wf(),
        input_map@.len() < usize::MAX,
    ensures
        r == file_number(input_map@, id),
{
    match input_map.place(id) {
        Some(i) => i + 1,
        None => 0,
    }
}

/// The local symbols of the first `n` inputs.
pub open spec fn all_locals(env: SymbolEnv, inputs: Seq<LayoutInput>, n: nat) -> Result<
    Seq<SymbolModel>,
    WriteFault,
>
    decreases n,
{
    if n == 0 {
        Ok(seq![])
    } else {
        match all_locals(env, inputs, (n - 1) as nat) {
            Err(e) => Err(e),
            Ok(rest) => {
                let input = inputs[n - 1];
                match file_locals(
                    env,
                    input.id,
                    file_number(inputs, input.id),
                    *input.object,
                    input.object.symbols@,
                ) {
                    Err(e) => Err(e),
                    Ok(more) => Ok(rest + more),
                }
            },
        }
    }
}

proof fn lemma_locals_fault(env: SymbolEnv, inputs: Seq<LayoutInput>, n: nat, all: nat)
    requires
        n <= all,
        all_locals(env, inputs, n) is Err,
    ensures
        all_locals(env, inputs, all) == all_locals(env, inputs, n),
    decreases all - n,
{
    if n < all {
        lemma_locals_fault(env, inputs, n + 1, all);
    }
}

/// Every input's local symbols have their sections.
pub open spec fn inputs_sound(inputs: Seq<LayoutInput>) -> bool {
    forall|i: int| 0 <= i < inputs.len() ==> sections_exist(*(#[trigger] inputs[i]).object)
}

pub(crate) fn push_all_locals(
    ctx: &LocalSymbolContext<'_>,
    input_map: &InputMap<'_>,
    out: &mut Vec<OutputSymbolSpec>,
    Ghost(env): Ghost<SymbolEnv>,
) -> (r: Result<(), WriteError>)
    requires
        ctx.of(env),
        input_map.wf(),
        input_map@.len() < usize::MAX,
        inputs_sound(input_map@),
    ensures
        match (r, all_locals(env, input_map@, input_map@.len())) {
            (Ok(_), Ok(more)) => symbols_view(final(out)@) == symbols_view(old(out)@) + more,
            (Err(e), Err(f)) => e@ == f,
            _ => false,
        },
{
    let ghost before = symbols_view(out@);
    let ghost inputs = input_map@;
    assert(before =~= before + Seq::<SymbolModel>::empty());
    let mut i: usize = 0;
    while i < input_map.len()
        invariant
            i <= inputs.len(),
            inputs == input_map@,
            ctx.of(env),
            input_map.wf(),
            inputs.len() < usize::MAX,
            inputs_sound(inputs),
            match all_locals(env, inputs, i as nat) {
                Ok(more) => symbols_view(out@) == before + more,
                Err(_) => false,
            },
        decreases inputs.len() - i,
    {
        let input = input_map.at(i);
        let ghost rest = all_locals(env, inputs, i as nat)->Ok_0;
        assert(sections_exist(*inputs[i as int].object));
        let file_index: usize = find_file_number(input_map, input.id);
        let step = collect_local_symbols(ctx, input.id, file_index, input.object, out, Ghost(env));
        if let Err(e) = step {
            proof {
                lemma_locals_fault(env, inputs, (i + 1) as nat, inputs.len());
            }
            return Err(e);
        }
        proof {
            let more = file_locals(
                env,
                input.id,
                file_index,
                *input.object,
                input.object.symbols@,
            )->Ok_0;
            assert(symbols_view(out@) =~= before + (rest + more));
        }
        i += 1;
    }
    Ok(())
}

/// The symbol for dyld's private slot, where the plan has one.
pub open spec fn private_symbol(layout: Layout, plan: SyntheticPlan) -> Result<
    Seq<SymbolModel>,
    WriteFault,
> {
    if !plan.needs_dyld_private {
        Ok(seq![])
    } else {
        match layout::section_at(layout.sections@, "__DATA"@, "__data"@) {
            None => Err(WriteFault::MissingSegment("__DATA"@)),
            Some(i) => Ok(
                seq![
                    SymbolModel {
                        symbol: None,
                        name: "__dyld_private"@,
                        partition: OutputSymbolPartition::Local,
                        n_type: N_SECT,
                        n_sect: (i + 1) as u8,
                        n_desc: 0,
                        n_value: layout.sections@[i].addr.wrapping_add(
                            layout.sections@[i].synthetic_offset,
                        ),
                        size: 8,
                        file_index: 0,
                    },
                ],
            ),
        }
    }
}

/// The section of dyld's private slot has a number that fits its field.
pub open spec fn private_fits(layout: Layout, plan: SyntheticPlan) -> bool {
    plan.needs_dyld_private ==> match layout::section_at(
        layout.sections@,
        "__DATA"@,
        "__data"@,
    ) {
        Some(i) => i < u8::MAX,
        None => true,
    }
}

pub fn collect_synthetic_local_symbols(
    layout: &Layout,
    synthetic_plan: &SyntheticPlan,
    out: &mut Vec<OutputSymbolSpec>,
) -> (r: Result<(), WriteError>)
    requires
        private_fits(*layout, *synthetic_plan),
    ensures
        match (r, private_symbol(*layout, *synthetic_plan)) {
            (Ok(_), Ok(more)) => symbols_view(final(out)@) == symbols_view(old(out)@) + more,
            (Err(e), Err(f)) => e@ == f,
            _ => false,
        },
{
    let ghost before = symbols_view(out@);
    assert(before =~= before + Seq::<SymbolModel>::empty());
    if !synthetic_plan.needs_dyld_private {
        return Ok(());
    }
    let i: usize = match layout.find_section("__DATA", "__data") {
        Some(i) => i,
        None => {
            return Err(WriteError::MissingSegment("__DATA"));
        },
    };
    let spec = OutputSymbolSpec {
        symbol: None,
        name: "__dyld_private".to_owned(),
        partition: OutputSymbolPartition::Local,
        n_type: N_SECT,
        n_sect: (i + 1) as u8,
        n_desc: 0,
        n_value: layout.sections[i].addr.wrapping_add(layout.sections[i].synthetic_offset),
        size: 8,
        file_index: 0,
    };
    push_spec(out, spec);
    assert(symbols_view(out@) =~= before + seq![spec@]);
    Ok(())
}

/// What decides how global symbols are shown.
pub struct GlobalEnv<'a> {
    pub env: SymbolEnv,
    pub inputs: Seq<LayoutInput<'a>>,
    pub table: table::TableState,
    pub visibility: SymbolVisibilityPolicy,
    pub dead_strip: bool,
}

/// The marks of a definition.
pub open spec fn definition_desc(weak: bool, no_dead_strip: bool) -> u16 {
    (if weak {
        N_WEAK_DEF
    } else {
        0
    }) | (if no_dead_strip {
        N_NO_DEAD_STRIP
    } else {
        0
    })
}

/// A global symbol as it is in the output; nothing where it is dropped.
pub open spec fn global_symbol(g: GlobalEnv, id: SymbolId, symbol: Symbol) -> Result<
    Option<SymbolModel>,
    WriteFault,
> {
    match symbol {
        Symbol::Defined { name, origin, atom, value, weak, private_extern, no_dead_strip } => {
            let name = g.table.names[name.0 as int];
            let hidden = g.visibility.spec_hides(name);
            let model = SymbolModel {
                symbol: Some(id),
                name,
                partition: if hidden {
                    OutputSymbolPartition::Local
                } else {
                    OutputSymbolPartition::ExternalDefined
                },
                n_type: abs_type(hidden),
                n_sect: NO_SECT,
                n_desc: definition_desc(weak, no_dead_strip),
                n_value: value,
                size: 0,
                file_index: file_number(g.inputs, origin),
            };
            if private_extern {
                Ok(None)
            } else if atom.0 == 0 {
                Ok(Some(model))
            } else {
                match (
                    targets::lookup(g.env.addrs, atom.0),
                    targets::lookup(g.env.sections, atom.0),
                ) {
                    (None, _) => if g.dead_strip {
                        Ok(None)
                    } else {
                        Err(WriteFault::DefinedSymbolAtomMissing(id, atom))
                    },
                    (Some(_), None) => Err(WriteFault::DefinedSymbolSectionMissing(id, atom)),
                    (Some(addr), Some(place)) => Ok(
                        Some(
                            SymbolModel {
                                n_type: sect_type(hidden),
                                n_sect: ordinal(place),
                                n_value: addr.wrapping_add(value),
                                size: g.env.atoms[atom.0 - 1].size.saturating_sub(
                                    value as u32,
                                ) as u64,
                                ..model
                            },
                        ),
                    ),
                }
            }
        },
        _ => Ok(None),
    }
}

fn make_global_symbol(
    ctx: &LocalSymbolContext<'_>,
    input_map: &InputMap<'_>,
    sym_table: &SymbolTable,
    visibility: &SymbolVisibilityPolicy,
    dead_strip: bool,
    id: SymbolId,
    symbol: &Symbol,
    Ghost(g): Ghost<GlobalEnv<'_>>,
) -> (r: Result<Option<OutputSymbolSpec>, WriteError>)
    requires
        ctx.of(g.env),
        input_map.wf(),
        input_map@ == g.inputs,
        g.inputs.len() < usize::MAX,
        sym_table@ == g.table,
        *visibility == g.visibility,
        dead_strip == g.dead_strip,
        symbol.spec_name().0 < g.table.names.len(),
    ensures
        match (r, global_symbol(g, id, *symbol)) {
            (Ok(Some(spec)), Ok(Some(m))) => spec@ == m,
            (Ok(None), Ok(None)) => true,
            (Err(e), Err(f)) => e@ == f,
            _ => false,
        },
{
    if let Symbol::Defined { name, origin, atom, value, weak, private_extern, no_dead_strip } =
        symbol {
        if *private_extern {
            return Ok(None);
        }
        let name: String = sym_table.name_str(*name).to_owned();
        let hidden = visibility.hides(name.as_str());
        let file_index: usize = find_file_number(input_map, *origin);
        let weak_bit: u16 = if *weak {
            N_WEAK_DEF
        } else {
            0
        };
        let keep_bit: u16 = if *no_dead_strip {
            N_NO_DEAD_STRIP
        } else {
            0
        };
        let n_desc: u16 = weak_bit | keep_bit;
        let partition = if hidden {
            OutputSymbolPartition::Local
        } else {
            OutputSymbolPartition::ExternalDefined
        };
        if atom.0 == 0 {
            return Ok(
                Some(
                    OutputSymbolSpec {
                        symbol: Some(id),
                        name,
                        partition,
                        n_type: absolute_symbol_type(hidden),
                        n_sect: NO_SECT,
                        n_desc,
                        n_value: *value,
                        size: 0,
                        file_index,
                    },
                ),
            );
        }
        let addr: u64 = match ctx.atom_addrs.get(&atom.0) {
            Some(addr) => *addr,
            None => {
                return if dead_strip {
                    Ok(None)
                } else {
                    Err(WriteError::DefinedSymbolAtomMissing(id, *atom))
                };
            },
        };
        let place: usize = match ctx.atom_sections.get(&atom.0) {
            Some(place) => *place,
            None => {
                return Err(WriteError::DefinedSymbolSectionMissing(id, *atom));
            },
        };
        assert(g.env.addrs.contains_key(atom.0) && g.env.sections.contains_key(atom.0));
        return Ok(
            Some(
                OutputSymbolSpec {
                    symbol: Some(id),
                    name,
                    partition,
                    n_type: defined_symbol_type(hidden),
                    n_sect: (place + 1) as u8,
                    n_desc,
                    n_value: addr.wrapping_add(*value),
                    size: ctx.atom_table.get(*atom).size.saturating_sub(*value as u32) as u64,
                    file_index,
                },
            ),
        );
    }
    Ok(None)
}

/// The global symbols of the first `n` slots.
pub open spec fn globals(g: GlobalEnv, n: nat) -> Result<Seq<SymbolModel>, WriteFault>
    decreases n,
{
    if n == 0 {
        Ok(seq![])
    } else {
        match globals(g, (n - 1) as nat) {
            Err(e) => Err(e),
            Ok(rest) => match global_symbol(
                g,
                SymbolId((n - 1) as u32),
                g.table.symbols[n - 1],
            ) {
                Err(e) => Err(e),
                Ok(None) => Ok(rest),
                Ok(Some(m)) => Ok(rest.push(m)),
            },
        }
    }
}

proof fn lemma_globals_fault(g: GlobalEnv, n: nat, all: nat)
    requires
        n <= all,
        globals(g, n) is Err,
    ensures
        globals(g, all) == globals(g, n),
    decreases all - n,
{
    if n < all {
        lemma_globals_fault(g, n + 1, all);
    }
}

/// The symbols of one part.
pub open spec fn part(symbols: Seq<SymbolModel>, partition: OutputSymbolPartition) -> Seq<
    SymbolModel,
>
    decreases symbols.len(),
{
    if symbols.len() == 0 {
        seq![]
    } else {
        let rest = part(symbols.drop_last(), partition);
        if symbols.last().partition == partition {
            rest.push(symbols.last())
        } else {
            rest
        }
    }
}

/// Collects the global symbols: those to hide with the locals, the others apart.
pub(crate) fn push_globals(
    ctx: &LocalSymbolContext<'_>,
    input_map: &InputMap<'_>,
    sym_table: &SymbolTable,
    visibility: &SymbolVisibilityPolicy,
    dead_strip: bool,
    locals: &mut Vec<OutputSymbolSpec>,
    externals: &mut Vec<OutputSymbolSpec>,
    Ghost(g): Ghost<GlobalEnv<'_>>,
) -> (r: Result<(), WriteError>)
    requires
        ctx.of(g.env),
        input_map.wf(),
        input_map@ == g.inputs,
        g.inputs.len() < usize::MAX,
        sym_table@ == g.table,
        suggest::names_known(g.table),
        *visibility == g.visibility,
        dead_strip == g.dead_strip,
    ensures
        match (r, globals(g, g.table.symbols.len())) {
            (Ok(_), Ok(all)) => {
                &&& symbols_view(final(locals)@) == symbols_view(old(locals)@) + part(
                    all,
                    OutputSymbolPartition::Local,
                )
                &&& symbols_view(final(externals)@) == symbols_view(old(externals)@) + part(
                    all,
                    OutputSymbolPartition::ExternalDefined,
                )
            },
            (Err(e), Err(f)) => e@ == f,
            _ => false,
        },
{
    let ghost l0 = symbols_view(locals@);
    let ghost e0 = symbols_view(externals@);
    let all = sym_table.iter();
    assert(l0 =~= l0 + Seq::<SymbolModel>::empty());
    assert(e0 =~= e0 + Seq::<SymbolModel>::empty());
    let mut i: usize = 0;
    while i < all.len()
        invariant
            i <= all@.len(),
            all@ == Seq::new(
                g.table.symbols.len(),
                |k: int| (SymbolId(k as u32), g.table.symbols[k]),
            ),
            ctx.of(g.env),
            input_map.wf(),
            input_map@ == g.inputs,
            g.inputs.len() < usize::MAX,
            sym_table@ == g.table,
            suggest::names_known(g.table),
            *visibility == g.visibility,
            dead_strip == g.dead_strip,
            match globals(g, i as nat) {
                Ok(done) => {
                    &&& symbols_view(locals@) == l0 + part(done, OutputSymbolPartition::Local)
                    &&& symbols_view(externals@) == e0 + part(
                        done,
                        OutputSymbolPartition::ExternalDefined,
                    )
                },
                Err(_) => false,
            },
        decreases all@.len() - i,
    {
        let ghost done = globals(g, i as nat)->Ok_0;
        let (id, symbol) = all[i];
        assert(g.table.symbols[i as int].spec_name().0 < g.table.names.len());
        match make_global_symbol(
            ctx,
            input_map,
            sym_table,
            visibility,
            dead_strip,
            id,
            &symbol,
            Ghost(g),
        ) {
            Ok(Some(spec)) => {
                proof {
                    assert(done.push(spec@).drop_last() =~= done);
                }
                if spec.partition == OutputSymbolPartition::Local {
                    push_spec(locals, spec);
                    assert(symbols_view(locals@) =~= l0 + part(
                        done.push(spec@),
                        OutputSymbolPartition::Local,
                    ));
                } else {
                    push_spec(externals, spec);
                    assert(symbols_view(externals@) =~= e0 + part(
                        done.push(spec@),
                        OutputSymbolPartition::ExternalDefined,
                    ));
                }
            },
            Ok(None) => {},
            Err(e) => {
                proof {
                    lemma_globals_fault(g, (i + 1) as nat, g.table.symbols.len());
                }
                return Err(e);
            },
        }
        i += 1;
    }
    Ok(())
}

} // verus!
