//! The relocations of all inputs, taken apart once.

use std::collections::HashMap;
use vstd::prelude::*;
use crate::atom;
use crate::atom::key_of_section;
use crate::input::ObjectFile;
use crate::layout::LayoutInput;
use crate::macho::writer::{WriteError, WriteFault};
use crate::reloc;
use crate::reloc::{parse_raw_relocs, parse_relocs, ParsedRelocCache, Reloc};
use crate::resolve::InputId;
use crate::section::InputSection;

verus! {

broadcast use vstd::std_specs::hash::group_hash_axioms;

/// The relocations of a section, if it has any.
pub open spec fn section_relocs(path: Seq<char>, n: u8, s: InputSection) -> Result<
    Option<Seq<Reloc>>,
    WriteFault,
> {
    if s.raw_relocs@.len() == 0 {
        Ok(None)
    } else {
        match reloc::raw_relocs_of(s.raw_relocs@, 0, s.nreloc) {
            Err(e) => Err(WriteFault::MalformedRelocations(path, n, e.message())),
            Ok(raws) => match reloc::fused(raws) {
                Err(e) => Err(WriteFault::MalformedRelocations(path, n, e.message())),
                Ok(relocs) => Ok(Some(relocs)),
            },
        }
    }
}

/// `m` with the relocations of an object's first `n` sections.
pub open spec fn with_sections(m: Map<u64, Seq<Reloc>>, id: InputId, obj: ObjectFile, n: nat) -> Result<
    Map<u64, Seq<Reloc>>,
    WriteFault,
>
    decreases n,
{
    if n == 0 {
        Ok(m)
    } else {
        match with_sections(m, id, obj, (n - 1) as nat) {
            Err(e) => Err(e),
            Ok(rest) => match section_relocs(obj.path@, n as u8, obj.sections@[n - 1]) {
                Err(e) => Err(e),
                Ok(None) => Ok(rest),
                Ok(Some(relocs)) => Ok(rest.insert(atom::section_key(id, n as u8), relocs)),
            },
        }
    }
}

/// The relocations of all inputs' sections.
pub open spec fn all_relocs(inputs: Seq<LayoutInput>) -> Result<Map<u64, Seq<Reloc>>, WriteFault>
    decreases inputs.len(),
{
    if inputs.len() == 0 {
        Ok(Map::empty())
    } else {
        match all_relocs(inputs.drop_last()) {
            Err(e) => Err(e),
            Ok(m) => with_sections(
                m,
                inputs.last().id,
                *inputs.last().object,
                inputs.last().object.sections@.len(),
            ),
        }
    }
}

/// A cache by its contents.
pub open spec fn cache_view(m: Map<u64, Vec<Reloc>>) -> Map<u64, Seq<Reloc>> {
    m.map_values(|v: Vec<Reloc>| v@)
}

proof fn lemma_sections_fault(
    m: Map<u64, Seq<Reloc>>,
    id: InputId,
    obj: ObjectFile,
    n: nat,
    all: nat,
)
    requires
        n <= all,
        with_sections(m, id, obj, n) is Err,
    ensures
        with_sections(m, id, obj, all) == with_sections(m, id, obj, n),
    decreases all - n,
{
    if n < all {
        lemma_sections_fault(m, id, obj, n + 1, all);
    }
}

proof fn lemma_inputs_fault(inputs: Seq<LayoutInput>, n: int)
    requires
        0 <= n <= inputs.len(),
        all_relocs(inputs.take(n)) is Err,
    ensures
        all_relocs(inputs) == all_relocs(inputs.take(n)),
    decreases inputs.len() - n,
{
    if n < inputs.len() {
        assert(inputs.take(n + 1).drop_last() =~= inputs.take(n));
        lemma_inputs_fault(inputs, n + 1);
    } else {
        assert(inputs.take(n) =~= inputs);
    }
}

fn read_section(object: &ObjectFile, n: u8, section: &InputSection) -> (r: Result<
    Option<Vec<Reloc>>,
    WriteError,
>)
    ensures
        match (r, section_relocs(object.path@, n, *section)) {
            (Ok(Some(v)), Ok(Some(s))) => v@ == s,
            (Ok(None), Ok(None)) => true,
            (Err(e), Err(f)) => e@ == f,
            _ => false,
        },
{
    if section.raw_relocs.len() == 0 {
        return Ok(None);
    }
    let raws = match parse_raw_relocs(section.raw_relocs.as_slice(), 0, section.nreloc) {
        Ok(raws) => raws,
        Err(e) => {
            return Err(WriteError::MalformedRelocations(object.path.clone(), n, e.to_string()));
        },
    };
    match parse_relocs(raws.as_slice()) {
        Ok(relocs) => Ok(Some(relocs)),
        Err(e) => Err(WriteError::MalformedRelocations(object.path.clone(), n, e.to_string())),
    }
}

fn read_object(cache: &mut ParsedRelocCache, id: InputId, object: &ObjectFile) -> (r: Result<
    (),
    WriteError,
>)
    ensures
        match (
            r,
            with_sections(cache_view(old(cache)@), id, *object, object.sections@.len()),
        ) {
            (Ok(_), Ok(m)) => cache_view(final(cache)@) == m,
            (Err(e), Err(f)) => e@ == f,
            _ => false,
        },
{
    let ghost before = cache_view(cache@);
    let mut i: usize = 0;
    while i < object.sections.len()
        invariant
            i <= object.sections@.len(),
            before == cache_view(old(cache)@),
            with_sections(before, id, *object, i as nat) == Ok::<_, WriteFault>(
                cache_view(cache@),
            ),
        decreases object.sections@.len() - i,
    {
        let n: u8 = (i + 1) as u8;
        match read_section(object, n, &object.sections[i]) {
            Ok(Some(relocs)) => {
                let ghost was = cache@;
                cache.insert(key_of_section(id, n), relocs);
                assert(cache_view(cache@) =~= cache_view(was).insert(
                    atom::section_key(id, n),
                    relocs@,
                ));
            },
            Ok(None) => {},
            Err(e) => {
                proof {
                    lemma_sections_fault(
                        before,
                        id,
                        *object,
                        (i + 1) as nat,
                        object.sections@.len(),
                    );
                }
                return Err(e);
            },
        }
        i += 1;
    }
    Ok(())
}

/// Takes the relocations of all inputs apart.
pub fn build_parsed_reloc_cache(inputs: &[LayoutInput<'_>]) -> (r: Result<
    ParsedRelocCache,
    WriteError,
>)
    ensures
        match (r, all_relocs(inputs@)) {
            (Ok(cache), Ok(m)) => cache_view(cache@) == m,
            (Err(e), Err(f)) => e@ == f,
            _ => false,
        },
{
    let mut cache: ParsedRelocCache = HashMap::new();
    assert(cache_view(cache@) =~= Map::empty());
    let mut i: usize = 0;
    while i < inputs.len()
        invariant
            i <= inputs@.len(),
            all_relocs(inputs@.take(i as int)) == Ok::<_, WriteFault>(cache_view(cache@)),
        decreases inputs@.len() - i,
    {
        assert(inputs@.take(i + 1).drop_last() =~= inputs@.take(i as int));
        let input = inputs[i];
        if let Err(e) = read_object(&mut cache, input.id, input.object) {
            proof {
                lemma_inputs_fault(inputs@, i + 1);
            }
            return Err(e);
        }
        i += 1;
    }
    assert(inputs@.take(i as int) =~= inputs@);
    Ok(cache)
}

} // verus!
