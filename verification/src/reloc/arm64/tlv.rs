//! Thread-local variable descriptors.
//!
//! A descriptor is three words: the address of a function, which dyld fills in, a key,
//! and the variable's offset in the thread-local storage template.

use vstd::prelude::*;
use crate::atom;
use crate::atom::Atom;
use crate::bytes;
use crate::bytes::{overwrite_u64, read_u64};
use crate::input::ObjectFile;
use crate::layout;
use crate::layout::{Layout, LayoutInput};
use crate::reloc::arm64;
use crate::reloc::arm64::apply;
use crate::reloc::arm64::apply::Contents;
use crate::reloc::arm64::maps;
use crate::reloc::arm64::maps::{cached_relocs_for_atom, InputMap};
use crate::reloc::arm64::targets;
use crate::reloc::arm64::targets::{
    find_section_addr, reloc_error, resolve_input_symbol_at_origin, ResolveView, Targets,
};
use crate::reloc::arm64::{numbered, RelocError, RelocFault};
use crate::reloc::{ParsedRelocCache, Referent, Reloc, RelocKind};
use crate::resolve::AtomId;
use crate::section::{OutputAtom, OutputSection};
use crate::symbol::{InputSymbol, SymKind};
use crate::synth::SyntheticPlan;
use crate::text;
use crate::text::{hex_string, same_text};

verus! {

/// A symbol stands at the start of the descriptor at `offset` of an atom.
pub open spec fn owns_descriptor(obj: ObjectFile, atom: Atom, offset: u32, sym: InputSymbol) -> bool {
    &&& sym.spec_kind() == SymKind::Sect
    &&& sym.raw.n_sect == atom.input_section
    &&& obj.section_index(sym) is Some
    &&& targets::section_relative(obj, sym) == atom.input_offset + offset
}

fn symbol_owns_descriptor(obj: &ObjectFile, atom: &Atom, offset: u32, sym: &InputSymbol) -> (r: bool)
    ensures
        r == owns_descriptor(*obj, *atom, offset, *sym),
{
    if sym.kind() != SymKind::Sect || sym.sect_idx() != atom.input_section {
        return false;
    }
    match obj.section_for_symbol(sym) {
        Some(section) => sym.value().saturating_sub(section.addr) == atom.input_offset as u64
            + offset as u64,
        None => false,
    }
}

/// The symbols at the start of a descriptor, in the order of the symbol table.
pub open spec fn owners(obj: ObjectFile, atom: Atom, offset: u32, symbols: Seq<InputSymbol>) -> Seq<
    InputSymbol,
>
    decreases symbols.len(),
{
    if symbols.len() == 0 {
        seq![]
    } else {
        let rest = owners(obj, atom, offset, symbols.drop_last());
        if owns_descriptor(obj, atom, offset, symbols.last()) {
            rest.push(symbols.last())
        } else {
            rest
        }
    }
}

pub fn descriptor_owner_symbols(obj: &ObjectFile, atom: &Atom, descriptor_offset: u32) -> (r: Vec<
    InputSymbol,
>)
    ensures
        r@ == owners(*obj, *atom, descriptor_offset, obj.symbols@),
{
    let mut out: Vec<InputSymbol> = Vec::new();
    let mut i: usize = 0;
    while i < obj.symbols.len()
        invariant
            i <= obj.symbols@.len(),
            out@ == owners(*obj, *atom, descriptor_offset, obj.symbols@.take(i as int)),
        decreases obj.symbols@.len() - i,
    {
        assert(obj.symbols@.take(i + 1).drop_last() =~= obj.symbols@.take(i as int));
        if symbol_owns_descriptor(obj, atom, descriptor_offset, &obj.symbols[i]) {
            out.push(obj.symbols[i]);
        }
        i += 1;
    }
    assert(obj.symbols@.take(i as int) =~= obj.symbols@);
    out
}

/// The first symbol with this name.
pub open spec fn named(obj: ObjectFile, symbols: Seq<InputSymbol>, name: Seq<char>) -> Option<
    InputSymbol,
>
    decreases symbols.len(),
{
    if symbols.len() == 0 {
        None
    } else if obj.name_of(symbols.first()) == Ok::<Seq<char>, crate::macho::reader::ReadError>(
        name,
    ) {
        Some(symbols.first())
    } else {
        named(obj, symbols.drop_first(), name)
    }
}

/// The symbol that holds the first value of the variable that `owner` describes.
pub open spec fn init_symbol(obj: ObjectFile, owner: InputSymbol) -> Option<InputSymbol> {
    match obj.name_of(owner) {
        Err(_) => None,
        Ok(name) => named(obj, obj.symbols@, name + "$tlv$init"@),
    }
}

pub fn matching_tlv_init_symbol(obj: &ObjectFile, owner: &InputSymbol) -> (r: Option<InputSymbol>)
    ensures
        r == init_symbol(*obj, *owner),
{
    let owner_name = match obj.symbol_name(owner) {
        Ok(name) => name,
        Err(_) => {
            return None;
        },
    };
    let mut init_name = owner_name.to_owned();
    init_name.append("$tlv$init");
    let mut i: usize = 0;
    assert(obj.symbols@.skip(0) =~= obj.symbols@);
    while i < obj.symbols.len()
        invariant
            i <= obj.symbols@.len(),
            named(*obj, obj.symbols@, init_name@) == named(
                *obj,
                obj.symbols@.skip(i as int),
                init_name@,
            ),
            init_symbol(*obj, *owner) == named(*obj, obj.symbols@, init_name@),
        decreases obj.symbols@.len() - i,
    {
        assert(obj.symbols@.skip(i as int).first() == obj.symbols@[i as int]);
        assert(obj.symbols@.skip(i as int).drop_first() =~= obj.symbols@.skip(i + 1));
        if let Ok(name) = obj.symbol_name(&obj.symbols[i]) {
            if same_text(name, init_name.as_str()) {
                return Some(obj.symbols[i]);
            }
        }
        i += 1;
    }
    None
}

/// Where the first value of a variable is: in the first input that has it.
pub open spec fn named_init(
    t: Targets,
    inputs: Seq<LayoutInput>,
    atom: Atom,
    owner: InputSymbol,
    from: int,
) -> Result<Option<u64>, RelocFault>
    decreases inputs.len() - from,
{
    if from < 0 || from >= inputs.len() {
        Ok(None)
    } else {
        let obj = *inputs[from].object;
        if maps::input_at(inputs, inputs[from].id) == Some(from) && init_symbol(obj, owner) is Some {
            match targets::input_symbol_target(
                t,
                inputs[from].id,
                obj,
                atom,
                RelocKind::Unsigned,
                init_symbol(obj, owner)->0,
            ) {
                Ok(addr) => Ok(Some(addr)),
                Err(e) => Err(e),
            }
        } else {
            named_init(t, inputs, atom, owner, from + 1)
        }
    }
}

pub fn resolve_named_tlv_init(
    owner: &InputSymbol,
    atom: &Atom,
    input_map: &InputMap<'_>,
    v: &ResolveView<'_>,
) -> (r: Result<Option<u64>, RelocError>)
    requires
        v.wf(),
        input_map.wf(),
    ensures
        arm64::same_outcome(r, named_init(v@, input_map@, *atom, *owner, 0)),
{
    let mut i: usize = 0;
    while i < input_map.len()
        invariant
            i <= input_map@.len(),
            v.wf(),
            input_map.wf(),
            named_init(v@, input_map@, *atom, *owner, 0) == named_init(
                v@,
                input_map@,
                *atom,
                *owner,
                i as int,
            ),
        decreases input_map@.len() - i,
    {
        let input = input_map.at(i);
        let current = match input_map.place(input.id) {
            Some(place) => place == i,
            None => false,
        };
        if current {
            if let Some(symbol) = matching_tlv_init_symbol(input.object, owner) {
                return match resolve_input_symbol_at_origin(
                    input.id,
                    input.object,
                    atom,
                    RelocKind::Unsigned,
                    &symbol,
                    v,
                ) {
                    Ok(addr) => Ok(Some(addr)),
                    Err(e) => Err(e),
                };
            }
        }
        i += 1;
    }
    Ok(None)
}

/// The address that a descriptor's last word is relocated to.
pub open spec fn descriptor_referent(t: Targets, obj: ObjectFile, atom: Atom, reloc: Reloc) -> Result<
    u64,
    RelocFault,
> {
    match reloc.referent {
        Referent::Section(idx) => match targets::lookup(
            t.section_addrs,
            atom::section_key(atom.origin, idx),
        ) {
            Some(addr) => Ok(addr),
            None => Err(
                targets::fault_at(
                    atom,
                    obj,
                    targets::offset_in_atom(reloc, atom),
                    reloc.kind,
                    "section #"@ + text::dec(idx as nat),
                    "TLV descriptor referent section was not laid out"@,
                ),
            ),
        },
        Referent::Symbol(idx) => if idx < obj.symbols@.len() {
            targets::input_symbol_target(
                t,
                atom.origin,
                obj,
                atom,
                reloc.kind,
                obj.symbols@[idx as int],
            )
        } else {
            Err(
                targets::fault_at(
                    atom,
                    obj,
                    targets::offset_in_atom(reloc, atom),
                    reloc.kind,
                    "symbol #"@ + text::dec(idx as nat),
                    "TLV descriptor symbol index is out of range"@,
                ),
            )
        },
    }
}

pub fn resolve_tlv_descriptor_referent(
    obj: &ObjectFile,
    atom: &Atom,
    reloc: Reloc,
    v: &ResolveView<'_>,
) -> (r: Result<u64, RelocError>)
    requires
        v.wf(),
    ensures
        arm64::same_outcome(r, descriptor_referent(v@, *obj, *atom, reloc)),
{
    match reloc.referent {
        Referent::Section(idx) => match find_section_addr(v.section_addrs, atom.origin, idx) {
            Some(addr) => Ok(addr),
            None => Err(
                reloc_error(
                    atom,
                    obj,
                    reloc.offset.saturating_sub(atom.input_offset),
                    reloc.kind,
                    numbered("section #", idx as u64),
                    "TLV descriptor referent section was not laid out",
                ),
            ),
        },
        Referent::Symbol(idx) => {
            if idx as usize >= obj.symbols.len() {
                return Err(
                    reloc_error(
                        atom,
                        obj,
                        reloc.offset.saturating_sub(atom.input_offset),
                        reloc.kind,
                        numbered("symbol #", idx as u64),
                        "TLV descriptor symbol index is out of range",
                    ),
                );
            }
            resolve_input_symbol_at_origin(
                atom.origin,
                obj,
                atom,
                reloc.kind,
                &obj.symbols[idx as usize],
                v,
            )
        },
    }
}

/// Where the first value of a variable is, by the first of the descriptor's names that
/// tells.
pub open spec fn owned_init(
    t: Targets,
    inputs: Seq<LayoutInput>,
    atom: Atom,
    owners: Seq<InputSymbol>,
) -> Result<Option<u64>, RelocFault>
    decreases owners.len(),
{
    if owners.len() == 0 {
        Ok(None)
    } else {
        match named_init(t, inputs, atom, owners.first(), 0) {
            Err(e) => Err(e),
            Ok(Some(addr)) => Ok(Some(addr)),
            Ok(None) => owned_init(t, inputs, atom, owners.drop_first()),
        }
    }
}

/// The first relocation at `offset`.
pub open spec fn reloc_at(relocs: Seq<Reloc>, offset: int) -> Option<Reloc>
    decreases relocs.len(),
{
    if relocs.len() == 0 {
        None
    } else if relocs.first().offset == offset {
        Some(relocs.first())
    } else {
        reloc_at(relocs.drop_first(), offset)
    }
}

fn find_reloc(relocs: &Vec<Reloc>, offset: u64) -> (r: Option<Reloc>)
    ensures
        r == reloc_at(relocs@, offset as int),
{
    let mut i: usize = 0;
    assert(relocs@.skip(0) =~= relocs@);
    while i < relocs.len()
        invariant
            i <= relocs@.len(),
            reloc_at(relocs@, offset as int) == reloc_at(relocs@.skip(i as int), offset as int),
        decreases relocs@.len() - i,
    {
        assert(relocs@.skip(i as int).first() == relocs@[i as int]);
        assert(relocs@.skip(i as int).drop_first() =~= relocs@.skip(i + 1));
        if relocs[i].offset as u64 == offset {
            return Some(relocs[i]);
        }
        i += 1;
    }
    None
}

/// The address of the first value of the variable whose descriptor is at `offset` of an
/// atom: by name, else by the relocation of the descriptor's last word, else that word.
pub open spec fn init_address(
    t: Targets,
    inputs: Seq<LayoutInput>,
    atom: Atom,
    obj: ObjectFile,
    relocs: Seq<Reloc>,
    offset: u32,
    last_word: u64,
) -> Result<u64, RelocFault> {
    match owned_init(t, inputs, atom, owners(obj, atom, offset, obj.symbols@)) {
        Err(e) => Err(e),
        Ok(Some(addr)) => Ok(addr),
        Ok(None) => match reloc_at(relocs, atom.input_offset + offset + 16) {
            Some(reloc) => match descriptor_referent(t, obj, atom, reloc) {
                Ok(target) => Ok(target.wrapping_add_signed(reloc.addend)),
                Err(e) => Err(e),
            },
            None => Ok(last_word),
        },
    }
}

pub fn resolve_tlv_init_address(
    last_word: u64,
    atom: &Atom,
    obj: &ObjectFile,
    relocs: &Vec<Reloc>,
    descriptor_offset: u32,
    input_map: &InputMap<'_>,
    v: &ResolveView<'_>,
) -> (r: Result<u64, RelocError>)
    requires
        v.wf(),
        input_map.wf(),
    ensures
        arm64::same_outcome(
            r,
            init_address(
                v@,
                input_map@,
                *atom,
                *obj,
                relocs@,
                descriptor_offset,
                last_word,
            ),
        ),
{
    let found = descriptor_owner_symbols(obj, atom, descriptor_offset);
    let ghost all = found@;
    let ghost want = init_address(
        v@,
        input_map@,
        *atom,
        *obj,
        relocs@,
        descriptor_offset,
        last_word,
    );
    let mut i: usize = 0;
    assert(all.skip(0) =~= all);
    while i < found.len()
        invariant
            i <= found@.len(),
            found@ == all,
            all == owners(*obj, *atom, descriptor_offset, obj.symbols@),
            v.wf(),
            input_map.wf(),
            want == init_address(
                v@,
                input_map@,
                *atom,
                *obj,
                relocs@,
                descriptor_offset,
                last_word,
            ),
            owned_init(v@, input_map@, *atom, all) == owned_init(
                v@,
                input_map@,
                *atom,
                all.skip(i as int),
            ),
        decreases found@.len() - i,
    {
        assert(all.skip(i as int).first() == found@[i as int]);
        assert(all.skip(i as int).drop_first() =~= all.skip(i + 1));
        match resolve_named_tlv_init(&found[i], atom, input_map, v) {
            Err(e) => {
                return Err(e);
            },
            Ok(Some(addr)) => {
                return Ok(addr);
            },
            Ok(None) => {},
        }
        i += 1;
    }
    let field: u64 = atom.input_offset as u64 + descriptor_offset as u64 + 16;
    if let Some(reloc) = find_reloc(relocs, field) {
        return match resolve_tlv_descriptor_referent(obj, atom, reloc, v) {
            Ok(target) => Ok(target.wrapping_add_signed(reloc.addend)),
            Err(e) => Err(e),
        };
    }
    Ok(last_word)
}

/// An error in a descriptor.
pub open spec fn tlv_fault(input: Seq<char>, atom: AtomId, atom_offset: u32, detail: Seq<char>) -> RelocFault {
    RelocFault {
        input,
        atom,
        atom_offset,
        kind: RelocKind::Unsigned,
        referent: "__thread_vars"@,
        detail,
    }
}

fn tlv_error(input: &str, atom: AtomId, atom_offset: u32, detail: &str) -> (r: RelocError)
    ensures
        r@ == tlv_fault(input@, atom, atom_offset, detail@),
{
    RelocError {
        input: input.to_owned(),
        atom,
        atom_offset,
        kind: RelocKind::Unsigned,
        referent: "__thread_vars".to_owned(),
        detail: detail.to_owned(),
    }
}

pub open spec fn before_template_detail(init: u64, template: u64) -> Seq<char> {
    "TLV init address 0x"@ + text::hex(init as nat) + " lands before TLS template base 0x"@
        + text::hex(template as nat)
}

fn before_template_message(init: u64, template: u64) -> (r: String)
    ensures
        r@ == before_template_detail(init, template),
{
    let mut s = "TLV init address 0x".to_owned();
    s.append(hex_string(init).as_str());
    s.append(" lands before TLS template base 0x");
    s.append(hex_string(template).as_str());
    s
}

/// What the descriptors of a link depend on.
pub struct TlvEnv<'a> {
    pub inputs: Seq<LayoutInput<'a>>,
    pub targets: Targets,
    pub relocs: Map<u64, Vec<Reloc>>,
    /// The start of the thread-local storage template.
    pub template: u64,
}

/// The bytes with the descriptor at `24 * k` finished: no function, and the variable's
/// offset in the template.
pub open spec fn descriptor_done(
    env: TlvEnv,
    id: AtomId,
    atom: Atom,
    obj: ObjectFile,
    relocs: Seq<Reloc>,
    k: int,
    s: Seq<u8>,
) -> Result<Seq<u8>, RelocFault> {
    let start = 24 * k;
    if start + 24 > s.len() {
        Err(
            tlv_fault(
                "<synthetic tlv>"@,
                id,
                start as u32,
                "TLV descriptor lands outside atom bytes"@,
            ),
        )
    } else {
        let cleared = bytes::replaced(s, start, bytes::le64_bytes(0));
        match init_address(
            env.targets,
            env.inputs,
            atom,
            obj,
            relocs,
            start as u32,
            bytes::le64(cleared, start + 16),
        ) {
            Err(e) => Err(e),
            Ok(init) => if init < env.template {
                Err(
                    tlv_fault(
                        "<synthetic tlv>"@,
                        id,
                        (start as u32).wrapping_add(16),
                        before_template_detail(init, env.template),
                    ),
                )
            } else {
                Ok(
                    bytes::replaced(
                        cleared,
                        start + 16,
                        bytes::le64_bytes((init - env.template) as u64),
                    ),
                )
            },
        }
    }
}

/// The bytes with the first `n` descriptors finished.
pub open spec fn descriptors_done(
    env: TlvEnv,
    id: AtomId,
    atom: Atom,
    obj: ObjectFile,
    relocs: Seq<Reloc>,
    n: nat,
    s: Seq<u8>,
) -> Result<Seq<u8>, RelocFault>
    decreases n,
{
    if n == 0 {
        Ok(s)
    } else {
        match descriptors_done(env, id, atom, obj, relocs, (n - 1) as nat, s) {
            Err(e) => Err(e),
            Ok(b) => descriptor_done(env, id, atom, obj, relocs, n - 1, b),
        }
    }
}

proof fn lemma_descriptors_fault(
    env: TlvEnv,
    id: AtomId,
    atom: Atom,
    obj: ObjectFile,
    relocs: Seq<Reloc>,
    n: nat,
    all: nat,
    s: Seq<u8>,
)
    requires
        n <= all,
        descriptors_done(env, id, atom, obj, relocs, n, s) is Err,
    ensures
        descriptors_done(env, id, atom, obj, relocs, all, s) == descriptors_done(
            env,
            id,
            atom,
            obj,
            relocs,
            n,
            s,
        ),
    decreases all - n,
{
    if n < all {
        lemma_descriptors_fault(env, id, atom, obj, relocs, n + 1, all, s);
    }
}

/// The bytes of a placed atom with its descriptors finished.
pub open spec fn tlv_atom(env: TlvEnv, placed: OutputAtom, s: Seq<u8>) -> Result<
    Seq<u8>,
    RelocFault,
> {
    let a = env.targets.atoms[placed.atom.0 - 1];
    match maps::object_for(env.inputs, a.origin) {
        None => Err(
            tlv_fault(
                "<missing object>"@,
                placed.atom,
                0,
                "missing parsed object for TLV descriptor atom"@,
            ),
        ),
        Some(obj) => if placed.size % 24 != 0 {
            Err(
                tlv_fault(
                    "<synthetic tlv>"@,
                    placed.atom,
                    0,
                    "TLV descriptor atom has unexpected size 0x"@ + text::hex(placed.size as nat),
                ),
            )
        } else {
            descriptors_done(
                env,
                placed.atom,
                a,
                obj,
                maps::relocs_of(env.relocs, a),
                (placed.size / 24) as nat,
                s,
            )
        },
    }
}

/// What the code that finishes descriptors reads.
struct TlvContext<'a> {
    input_map: &'a InputMap<'a>,
    relocs: &'a ParsedRelocCache,
    resolve: &'a ResolveView<'a>,
    template: u64,
}

impl<'a> TlvContext<'a> {
    spec fn env(self) -> TlvEnv<'a> {
        TlvEnv {
            inputs: self.input_map@,
            targets: self.resolve@,
            relocs: self.relocs@,
            template: self.template,
        }
    }

    spec fn wf(self) -> bool {
        self.input_map.wf() && self.resolve.wf()
    }
}

fn finish_descriptor(
    data: &mut Vec<u8>,
    ctx: &TlvContext<'_>,
    id: AtomId,
    atom: &Atom,
    obj: &ObjectFile,
    relocs: &Vec<Reloc>,
    start: u64,
) -> (r: Result<(), RelocError>)
    requires
        ctx.wf(),
        start % 24 == 0,
    ensures
        final(data)@.len() == old(data)@.len(),
        match (
            r,
            descriptor_done(
                ctx.env(),
                id,
                *atom,
                *obj,
                relocs@,
                (start / 24) as int,
                old(data)@,
            ),
        ) {
            (Ok(_), Ok(s)) => final(data)@ == s,
            (Err(e), Err(f)) => e@ == f,
            _ => false,
        },
{
    assert(24 * (start / 24) == start);
    assert(data.len() == data@.len());
    if data.len() < 24 || start > (data.len() - 24) as u64 {
        return Err(
            tlv_error(
                "<synthetic tlv>",
                id,
                start as u32,
                "TLV descriptor lands outside atom bytes",
            ),
        );
    }
    let offset: u32 = start as u32;
    overwrite_u64(data, start as usize, 0);
    let last_word: u64 = read_u64(data.as_slice(), start as usize + 16);
    let init: u64 = match resolve_tlv_init_address(
        last_word,
        atom,
        obj,
        relocs,
        offset,
        ctx.input_map,
        ctx.resolve,
    ) {
        Ok(init) => init,
        Err(e) => {
            return Err(e);
        },
    };
    if init < ctx.template {
        return Err(
            tlv_error(
                "<synthetic tlv>",
                id,
                offset.wrapping_add(16),
                before_template_message(init, ctx.template).as_str(),
            ),
        );
    }
    overwrite_u64(data, start as usize + 16, init - ctx.template);
    Ok(())
}

fn finish_atom(
    data: &mut Vec<u8>,
    id: AtomId,
    size: u64,
    ctx: &TlvContext<'_>,
    Ghost(placed): Ghost<OutputAtom>,
) -> (r: Result<(), RelocError>)
    requires
        ctx.wf(),
        1 <= id.0 <= ctx.env().targets.atoms.len(),
        placed.atom == id,
        placed.size == size,
    ensures
        match (r, tlv_atom(ctx.env(), placed, old(data)@)) {
            (Ok(_), Ok(s)) => final(data)@ == s,
            (Err(e), Err(f)) => e@ == f,
            _ => false,
        },
{
    let ghost env = ctx.env();
    let atom = ctx.resolve.atom_table.get(id);
    let obj = match ctx.input_map.get(atom.origin) {
        Some(obj) => obj,
        None => {
            return Err(
                tlv_error(
                    "<missing object>",
                    id,
                    0,
                    "missing parsed object for TLV descriptor atom",
                ),
            );
        },
    };
    if size % 24 != 0 {
        let mut detail = "TLV descriptor atom has unexpected size 0x".to_owned();
        detail.append(hex_string(size).as_str());
        return Err(tlv_error("<synthetic tlv>", id, 0, detail.as_str()));
    }
    let relocs = cached_relocs_for_atom(ctx.relocs, atom);
    let ghost before = data@;
    let ghost all = (size / 24) as nat;
    let mut k: u64 = 0;
    while k < size / 24
        invariant
            k <= size / 24,
            ctx.wf(),
            env == ctx.env(),
            all == (size / 24) as nat,
            before == old(data)@,
            data@.len() == before.len(),
            descriptors_done(env, id, *atom, *obj, relocs@, k as nat, before) == Ok::<
                _,
                RelocFault,
            >(data@),
            tlv_atom(env, placed, before) == descriptors_done(
                env,
                id,
                *atom,
                *obj,
                relocs@,
                all,
                before,
            ),
        decreases size / 24 - k,
    {
        assert(k * 24 <= size);
        let start: u64 = k * 24;
        assert(start % 24 == 0 && start / 24 == k);
        let step = finish_descriptor(data, ctx, id, atom, obj, &relocs, start);
        if let Err(e) = step {
            proof {
                lemma_descriptors_fault(
                    env,
                    id,
                    *atom,
                    *obj,
                    relocs@,
                    (k + 1) as nat,
                    all,
                    before,
                );
            }
            return Err(e);
        }
        k += 1;
    }
    Ok(())
}

/// The first error among the atoms with these bytes.
pub open spec fn tlv_fault_in(env: TlvEnv, atoms: Seq<OutputAtom>, data: Seq<Seq<u8>>) -> Option<
    RelocFault,
>
    decreases atoms.len(),
{
    if atoms.len() == 0 {
        None
    } else {
        match tlv_fault_in(env, atoms.drop_last(), data) {
            Some(f) => Some(f),
            None => match tlv_atom(env, atoms.last(), data[atoms.len() - 1]) {
                Err(f) => Some(f),
                Ok(_) => None,
            },
        }
    }
}

proof fn lemma_tlv_fault(env: TlvEnv, atoms: Seq<OutputAtom>, data: Seq<Seq<u8>>, n: int)
    requires
        0 <= n <= atoms.len(),
        tlv_fault_in(env, atoms.take(n), data) is Some,
    ensures
        tlv_fault_in(env, atoms, data) == tlv_fault_in(env, atoms.take(n), data),
    decreases atoms.len() - n,
{
    if n < atoms.len() {
        assert(atoms.take(n + 1).drop_last() =~= atoms.take(n));
        lemma_tlv_fault(env, atoms, data, n + 1);
    } else {
        assert(atoms.take(n) =~= atoms);
    }
}

/// The bytes of every atom with its descriptors finished.
pub open spec fn tlv_atoms(env: TlvEnv, atoms: Seq<OutputAtom>, data: Seq<Seq<u8>>) -> Seq<
    Seq<u8>,
> {
    Seq::new(atoms.len(), |k: int| tlv_atom(env, atoms[k], data[k])->Ok_0)
}

fn finish_atoms(atoms: &mut Vec<OutputAtom>, ctx: &TlvContext<'_>) -> (r: Result<(), RelocError>)
    requires
        ctx.wf(),
        maps::all_known(old(atoms)@, ctx.env().targets.atoms),
    ensures
        apply::same_places(old(atoms)@, final(atoms)@),
        match (r, tlv_fault_in(ctx.env(), old(atoms)@, apply::atoms_data(old(atoms)@))) {
            (Ok(_), None) => apply::atoms_data(final(atoms)@) == tlv_atoms(
                ctx.env(),
                old(atoms)@,
                apply::atoms_data(old(atoms)@),
            ),
            (Err(e), Some(f)) => e@ == f,
            _ => false,
        },
{
    let ghost before = atoms@;
    let ghost data = apply::atoms_data(before);
    let ghost env = ctx.env();
    let mut i: usize = 0;
    while i < atoms.len()
        invariant
            i <= atoms@.len(),
            ctx.wf(),
            env == ctx.env(),
            before == old(atoms)@,
            maps::all_known(before, env.targets.atoms),
            apply::same_places(before, atoms@),
            data == apply::atoms_data(before),
            tlv_fault_in(env, before.take(i as int), data) is None,
            forall|k: int|
                0 <= k < i ==> tlv_atom(env, #[trigger] before[k], data[k]) == Ok::<
                    _,
                    RelocFault,
                >(atoms@[k].data@),
            forall|k: int| i <= k < atoms@.len() ==> #[trigger] atoms@[k] == before[k],
        decreases atoms@.len() - i,
    {
        proof {
            assert(before.take(i + 1).drop_last() =~= before.take(i as int));
            assert(before.take(i + 1).last() == before[i as int]);
            assert(1 <= before[i as int].atom.0 <= env.targets.atoms.len());
            assert(atoms@[i as int] == before[i as int]);
        }
        let id = atoms[i].atom;
        let size: u64 = atoms[i].size;
        let step = finish_atom(&mut atoms[i].data, id, size, ctx, Ghost(before[i as int]));
        if let Err(e) = step {
            proof {
                lemma_tlv_fault(env, before, data, i + 1);
            }
            return Err(e);
        }
        i += 1;
    }
    assert(before.take(i as int) =~= before);
    assert(apply::atoms_data(atoms@) =~= tlv_atoms(env, before, data));
    Ok(())
}

/// Where the thread-local storage template starts.
pub open spec fn template_base(sections: Seq<OutputSection>) -> Option<u64> {
    match layout::section_at(sections, "__DATA"@, "__thread_data"@) {
        Some(i) => Some(sections[i].addr),
        None => match layout::section_at(sections, "__DATA"@, "__thread_bss"@) {
            Some(i) => Some(sections[i].addr),
            None => None,
        },
    }
}

fn find_template_base(layout: &Layout) -> (r: Option<u64>)
    ensures
        r == template_base(layout.sections@),
{
    match layout.find_section("__DATA", "__thread_data") {
        Some(i) => Some(layout.sections[i].addr),
        None => match layout.find_section("__DATA", "__thread_bss") {
            Some(i) => Some(layout.sections[i].addr),
            None => None,
        },
    }
}

/// The layout's contents with the descriptors of its `__thread_vars` section finished,
/// where the link has thread-local variables.
pub open spec fn tlv_contents<'a>(
    t: Targets,
    inputs: Seq<LayoutInput<'a>>,
    relocs: Map<u64, Vec<Reloc>>,
    sections: Seq<OutputSection>,
    plan: SyntheticPlan,
    c: Contents,
) -> Result<Contents, RelocFault> {
    let place = layout::section_at(sections, "__DATA"@, "__thread_vars"@);
    match (plan.tlv_bootstrap_symbol, template_base(sections), place) {
        (Some(_), Some(template), Some(i)) => {
            let env = TlvEnv { inputs, targets: t, relocs, template };
            let atoms = sections[i].atoms@;
            match tlv_fault_in(env, atoms, c.atoms[i]) {
                Some(f) => Err(f),
                None => Ok(
                    Contents { atoms: c.atoms.update(i, tlv_atoms(env, atoms, c.atoms[i])), ..c },
                ),
            }
        },
        _ => Ok(c),
    }
}

/// Finishes the descriptors of thread-local variables.
pub fn synthesize_thread_variable_section(
    layout: &mut Layout,
    plan: &SyntheticPlan,
    input_map: &InputMap<'_>,
    reloc_cache: &ParsedRelocCache,
    v: &ResolveView<'_>,
) -> (r: Result<(), RelocError>)
    requires
        v.wf(),
        input_map.wf(),
        maps::atoms_known(old(layout).sections@, v@.atoms),
    ensures
        apply::outcome(
            *old(layout),
            *final(layout),
            r,
            tlv_contents(
                v@,
                input_map@,
                reloc_cache@,
                old(layout).sections@,
                *plan,
                apply::contents_of(old(layout).sections@),
            ),
        ),
{
    let ghost before = layout.sections@;
    if plan.tlv_bootstrap_symbol.is_none() {
        return Ok(());
    }
    let template: u64 = match find_template_base(layout) {
        Some(template) => template,
        None => {
            return Ok(());
        },
    };
    let i: usize = match layout.find_section("__DATA", "__thread_vars") {
        Some(i) => i,
        None => {
            return Ok(());
        },
    };
    let ctx = TlvContext { input_map, relocs: reloc_cache, resolve: v, template };
    assert(maps::all_known(before[i as int].atoms@, v@.atoms));
    let r = finish_atoms(&mut layout.sections[i].atoms, &ctx);
    proof {
        let after = layout.sections@;
        assert(after =~= before.update(i as int, after[i as int]));
        assert(apply::same_shape(before, after)) by {
            assert forall|j: int| 0 <= j < before.len() implies apply::same_frame(
                #[trigger] before[j],
                #[trigger] after[j],
            ) by {}
        }
        let c = apply::contents_of(before);
        let done = apply::contents_of(after);
        assert(done.synthetic =~= c.synthetic);
        assert(done.atoms =~= c.atoms.update(i as int, apply::atoms_data(after[i as int].atoms@)));
    }
    r
}

proof fn lemma_tlv_atoms_shape(
    env: TlvEnv,
    a: Seq<OutputAtom>,
    b: Seq<OutputAtom>,
    data: Seq<Seq<u8>>,
)
    requires
        apply::same_places(a, b),
    ensures
        tlv_fault_in(env, a, data) == tlv_fault_in(env, b, data),
        tlv_atoms(env, a, data) == tlv_atoms(env, b, data),
    decreases a.len(),
{
    assert forall|k: int| 0 <= k < a.len() implies tlv_atom(env, a[k], data[k]) == tlv_atom(
        env,
        b[k],
        data[k],
    ) by {
        assert(apply::same_place(a[k], b[k]));
    }
    assert(tlv_atoms(env, a, data) =~= tlv_atoms(env, b, data));
    if a.len() > 0 {
        let n = a.len() - 1;
        assert(apply::same_place(a[n], b[n]));
        assert(apply::same_places(a.drop_last(), b.drop_last())) by {
            assert forall|i: int| 0 <= i < n implies apply::same_place(
                #[trigger] a.drop_last()[i],
                #[trigger] b.drop_last()[i],
            ) by {
                assert(apply::same_place(a[i], b[i]));
            }
        }
        lemma_tlv_atoms_shape(env, a.drop_last(), b.drop_last(), data);
    }
}

/// Finishing descriptors depends on what the sections hold only through the contents.
pub proof fn lemma_tlv_contents_shape<'a>(
    t: Targets,
    inputs: Seq<LayoutInput<'a>>,
    relocs: Map<u64, Vec<Reloc>>,
    a: Seq<OutputSection>,
    b: Seq<OutputSection>,
    plan: SyntheticPlan,
    c: Contents,
)
    requires
        apply::same_shape(a, b),
    ensures
        tlv_contents(t, inputs, relocs, a, plan, c) == tlv_contents(t, inputs, relocs, b, plan, c),
{
    apply::lemma_section_at_shape(a, b, "__DATA"@, "__thread_data"@);
    apply::lemma_section_at_shape(a, b, "__DATA"@, "__thread_bss"@);
    apply::lemma_section_at_shape(a, b, "__DATA"@, "__thread_vars"@);
    layout::lemma_section_at(a, "__DATA"@, "__thread_data"@);
    layout::lemma_section_at(a, "__DATA"@, "__thread_bss"@);
    layout::lemma_section_at(a, "__DATA"@, "__thread_vars"@);
    assert(template_base(a) == template_base(b));
    if let Some(i) = layout::section_at(a, "__DATA"@, "__thread_vars"@) {
        if let Some(template) = template_base(a) {
            let env = TlvEnv { inputs, targets: t, relocs, template };
            assert(apply::same_frame(a[i], b[i]));
            lemma_tlv_atoms_shape(env, a[i].atoms@, b[i].atoms@, c.atoms[i]);
        }
    }
}

} // verus!
