//! Writing relocated values into the bytes of an atom.
//!
//! A patch that fails leaves the bytes as they were.

use vstd::prelude::*;
use crate::atom::Atom;
use crate::bytes;
use crate::bytes::{overwrite_u32, overwrite_u64};
use crate::input::ObjectFile;
use crate::reloc::arm64;
use crate::reloc::arm64::encode;
use crate::reloc::arm64::encode::{
    branch26_message, fits_signed, is_add_immediate, make_add, page, page21_message,
    pageoff_load_store_shift, set_imm12, set_imm21, set_imm26, unaligned_message,
};
use crate::reloc::arm64::targets;
use crate::reloc::arm64::targets::{reloc_error, resolve_referent, ResolveView, Targets};
use crate::reloc::arm64::{describe_referent, RelocError, RelocFault};
use crate::reloc::{Reloc, RelocLength};
use crate::text;
use crate::text::hex_string;

verus! {

/// A relocation and where in its atom it applies.
#[derive(Clone, Copy)]
pub struct Site<'a> {
    pub atom: &'a Atom,
    pub obj: &'a ObjectFile,
    pub local_offset: u32,
    pub reloc: Reloc,
}

impl<'a> Site<'a> {
    pub open spec fn fault(self, detail: Seq<char>) -> RelocFault {
        targets::fault_at(
            *self.atom,
            *self.obj,
            self.local_offset,
            self.reloc.kind,
            arm64::referent_text(*self.obj, self.reloc.referent),
            detail,
        )
    }

    pub(crate) fn error(self, detail: &str) -> (r: RelocError)
        ensures
            r@ == self.fault(detail@),
    {
        reloc_error(
            self.atom,
            self.obj,
            self.local_offset,
            self.reloc.kind,
            describe_referent(self.obj, self.reloc.referent),
            detail,
        )
    }

    /// The 32-bit word at the site.
    pub open spec fn load32(self, s: Seq<u8>) -> Result<u32, RelocFault> {
        if self.local_offset + 4 <= s.len() {
            Ok(bytes::le32(s, self.local_offset as int))
        } else {
            Err(self.fault("relocation write would run past the atom bytes"@))
        }
    }

    fn read_u32(self, bytes: &Vec<u8>) -> (r: Result<u32, RelocError>)
        ensures
            arm64::same_outcome(r, self.load32(bytes@)),
    {
        let start: usize = self.local_offset as usize;
        if bytes.len() < 4 || start > bytes.len() - 4 {
            Err(self.error("relocation write would run past the atom bytes"))
        } else {
            Ok(bytes::read_u32(bytes.as_slice(), start))
        }
    }

    /// The 64-bit word at the site.
    pub open spec fn load64(self, s: Seq<u8>) -> Result<u64, RelocFault> {
        if self.local_offset + 8 <= s.len() {
            Ok(bytes::le64(s, self.local_offset as int))
        } else {
            Err(self.fault("relocation write would run past the atom bytes"@))
        }
    }

    fn read_u64(self, bytes: &Vec<u8>) -> (r: Result<u64, RelocError>)
        ensures
            arm64::same_outcome(r, self.load64(bytes@)),
    {
        let start: usize = self.local_offset as usize;
        if bytes.len() < 8 || start > bytes.len() - 8 {
            Err(self.error("relocation write would run past the atom bytes"))
        } else {
            Ok(bytes::read_u64(bytes.as_slice(), start))
        }
    }

    /// The bytes with a 32-bit word at the site.
    pub open spec fn store32(self, s: Seq<u8>, v: u32) -> Result<Seq<u8>, RelocFault> {
        if self.local_offset + 4 <= s.len() {
            Ok(bytes::replaced(s, self.local_offset as int, bytes::le32_bytes(v)))
        } else {
            Err(self.fault("relocation write would run past the atom bytes"@))
        }
    }

    fn write_u32(self, bytes: &mut Vec<u8>, value: u32) -> (r: Result<(), RelocError>)
        ensures
            patched(old(bytes)@, final(bytes)@, r, self.store32(old(bytes)@, value)),
    {
        let start: usize = self.local_offset as usize;
        if bytes.len() < 4 || start > bytes.len() - 4 {
            Err(self.error("relocation write would run past the atom bytes"))
        } else {
            overwrite_u32(bytes, start, value);
            Ok(())
        }
    }

    /// The bytes with a 64-bit word at the site.
    pub open spec fn store64(self, s: Seq<u8>, v: u64) -> Result<Seq<u8>, RelocFault> {
        if self.local_offset + 8 <= s.len() {
            Ok(bytes::replaced(s, self.local_offset as int, bytes::le64_bytes(v)))
        } else {
            Err(self.fault("relocation write would run past the atom bytes"@))
        }
    }

    fn write_u64(self, bytes: &mut Vec<u8>, value: u64) -> (r: Result<(), RelocError>)
        ensures
            patched(old(bytes)@, final(bytes)@, r, self.store64(old(bytes)@, value)),
    {
        let start: usize = self.local_offset as usize;
        if bytes.len() < 8 || start > bytes.len() - 8 {
            Err(self.error("relocation write would run past the atom bytes"))
        } else {
            overwrite_u64(bytes, start, value);
            Ok(())
        }
    }
}

/// `r` and the bytes after a patch are what `want` says: the new bytes, or an error
/// with the bytes untouched.
pub open spec fn patched(
    before: Seq<u8>,
    after: Seq<u8>,
    r: Result<(), RelocError>,
    want: Result<Seq<u8>, RelocFault>,
) -> bool {
    match (r, want) {
        (Ok(_), Ok(s)) => after == s,
        (Err(e), Err(f)) => e@ == f && after == before,
        _ => false,
    }
}

/// A width's name.
pub open spec fn length_name(length: RelocLength) -> Seq<char> {
    match length {
        RelocLength::Byte => "Byte"@,
        RelocLength::Half => "Half"@,
        RelocLength::Word => "Word"@,
        RelocLength::Quad => "Quad"@,
    }
}

fn width_message(what: &str, length: RelocLength) -> (r: String)
    ensures
        r@ == what@ + length_name(length),
{
    let mut s = what.to_owned();
    s.append(
        match length {
            RelocLength::Byte => "Byte",
            RelocLength::Half => "Half",
            RelocLength::Word => "Word",
            RelocLength::Quad => "Quad",
        },
    );
    s
}

/// What the bytes at the site already add to the target.
pub open spec fn implicit_addend(site: Site, s: Seq<u8>) -> Result<i64, RelocFault> {
    match site.reloc.length {
        RelocLength::Word => match site.load32(s) {
            Ok(v) => Ok((v as i32) as i64),
            Err(e) => Err(e),
        },
        RelocLength::Quad => match site.load64(s) {
            Ok(v) => Ok(v as i64),
            Err(e) => Err(e),
        },
        other => Err(site.fault("unsupported implicit addend width "@ + length_name(other))),
    }
}

pub fn read_implicit_addend(bytes: &Vec<u8>, site: Site<'_>) -> (r: Result<i64, RelocError>)
    ensures
        arm64::same_outcome(r, implicit_addend(site, bytes@)),
{
    match site.reloc.length {
        RelocLength::Word => match site.read_u32(bytes) {
            Ok(v) => Ok((v as i32) as i64),
            Err(e) => Err(e),
        },
        RelocLength::Quad => match site.read_u64(bytes) {
            Ok(v) => Ok(v as i64),
            Err(e) => Err(e),
        },
        other => Err(
            site.error(width_message("unsupported implicit addend width ", other).as_str()),
        ),
    }
}

/// The bytes with a pointer-sized value at the site, in the relocation's width.
pub open spec fn stored(site: Site, s: Seq<u8>, value: u64, unsupported: Seq<char>) -> Result<
    Seq<u8>,
    RelocFault,
> {
    match site.reloc.length {
        RelocLength::Word => site.store32(s, value as u32),
        RelocLength::Quad => site.store64(s, value),
        other => Err(site.fault(unsupported + length_name(other))),
    }
}

fn store_value(bytes: &mut Vec<u8>, site: Site<'_>, value: u64, unsupported: &str) -> (r: Result<
    (),
    RelocError,
>)
    ensures
        patched(old(bytes)@, final(bytes)@, r, stored(site, old(bytes)@, value, unsupported@)),
{
    match site.reloc.length {
        RelocLength::Word => site.write_u32(bytes, value as u32),
        RelocLength::Quad => site.write_u64(bytes, value),
        other => Err(site.error(width_message(unsupported, other).as_str())),
    }
}

/// The bytes with the address of `target` in them.
pub open spec fn unsigned_patch(site: Site, s: Seq<u8>, target: u64) -> Result<Seq<u8>, RelocFault> {
    match implicit_addend(site, s) {
        Ok(implicit) => stored(
            site,
            s,
            target.wrapping_add_signed(site.reloc.addend).wrapping_add_signed(implicit),
            "unsupported UNSIGNED width "@,
        ),
        Err(e) => Err(e),
    }
}

pub fn patch_unsigned(bytes: &mut Vec<u8>, site: Site<'_>, target: u64) -> (r: Result<
    (),
    RelocError,
>)
    ensures
        patched(old(bytes)@, final(bytes)@, r, unsigned_patch(site, old(bytes)@, target)),
{
    let implicit: i64 = match read_implicit_addend(bytes, site) {
        Ok(v) => v,
        Err(e) => {
            return Err(e);
        },
    };
    let value: u64 = target.wrapping_add_signed(site.reloc.addend).wrapping_add_signed(implicit);
    store_value(bytes, site, value, "unsupported UNSIGNED width ")
}

/// dyld can bind the pointer itself.
pub open spec fn bindable(reloc: Reloc) -> bool {
    reloc.length == RelocLength::Quad && !reloc.pcrel && reloc.subtrahend is None
}

pub fn direct_import_bind_supported(reloc: Reloc) -> (r: bool)
    ensures
        r == bindable(reloc),
{
    matches!(reloc.length, RelocLength::Quad) && !reloc.pcrel && reloc.subtrahend.is_none()
}

/// Clears a pointer that dyld fills in.
pub fn clear_direct_import_slot(bytes: &mut Vec<u8>, site: Site<'_>) -> (r: Result<(), RelocError>)
    ensures
        patched(old(bytes)@, final(bytes)@, r, site.store64(old(bytes)@, 0)),
{
    site.write_u64(bytes, 0)
}

/// The bytes with the difference of two addresses in them.
pub open spec fn subtractor_patch(site: Site, s: Seq<u8>, minuend: u64, v: Targets) -> Result<
    Seq<u8>,
    RelocFault,
> {
    match site.reloc.subtrahend {
        None => Err(site.fault("SUBTRACTOR reloc missing subtrahend pair"@)),
        Some(subtrahend) => match targets::referent_target(
            v,
            *site.obj,
            *site.atom,
            site.reloc.kind,
            subtrahend,
        ) {
            Err(e) => Err(e),
            Ok(base) => match implicit_addend(site, s) {
                Err(e) => Err(e),
                Ok(implicit) => stored(
                    site,
                    s,
                    minuend.wrapping_sub(base).wrapping_add_signed(
                        site.reloc.addend,
                    ).wrapping_add_signed(implicit),
                    "unsupported SUBTRACTOR width "@,
                ),
            },
        },
    }
}

pub fn patch_subtractor(
    bytes: &mut Vec<u8>,
    site: Site<'_>,
    minuend: u64,
    v: &ResolveView<'_>,
) -> (r: Result<(), RelocError>)
    requires
        v.wf(),
    ensures
        patched(old(bytes)@, final(bytes)@, r, subtractor_patch(site, old(bytes)@, minuend, v@)),
{
    let subtrahend = match site.reloc.subtrahend {
        Some(subtrahend) => subtrahend,
        None => {
            return Err(site.error("SUBTRACTOR reloc missing subtrahend pair"));
        },
    };
    let base: u64 = match resolve_referent(site.obj, site.atom, site.reloc.kind, subtrahend, v) {
        Ok(base) => base,
        Err(e) => {
            return Err(e);
        },
    };
    let implicit: i64 = match read_implicit_addend(bytes, site) {
        Ok(v) => v,
        Err(e) => {
            return Err(e);
        },
    };
    let value: u64 = minuend.wrapping_sub(base).wrapping_add_signed(
        site.reloc.addend,
    ).wrapping_add_signed(implicit);
    store_value(bytes, site, value, "unsupported SUBTRACTOR width ")
}

/// The bytes with a branch from `place` to `target` in them.
pub open spec fn branch26_patch(site: Site, s: Seq<u8>, place: u64, target: u64) -> Result<
    Seq<u8>,
    RelocFault,
> {
    let delta = encode::distance(place, target.wrapping_add_signed(site.reloc.addend));
    if delta & 0b11 != 0 {
        Err(site.fault(encode::unaligned_detail(delta)))
    } else if !encode::signed_fits(delta >> 2, 26) {
        Err(site.fault(encode::branch26_detail(delta)))
    } else {
        match site.load32(s) {
            Ok(insn) => site.store32(s, encode::with_imm26(insn, delta >> 2)),
            Err(e) => Err(e),
        }
    }
}

pub fn patch_branch26(bytes: &mut Vec<u8>, site: Site<'_>, place: u64, target: u64) -> (r: Result<
    (),
    RelocError,
>)
    ensures
        patched(old(bytes)@, final(bytes)@, r, branch26_patch(site, old(bytes)@, place, target)),
{
    let delta: i64 = target.wrapping_add_signed(site.reloc.addend).wrapping_sub(place) as i64;
    if delta & 0b11 != 0 {
        return Err(site.error(unaligned_message(delta).as_str()));
    }
    let imm: i64 = delta >> 2;
    if !fits_signed(imm, 26) {
        return Err(site.error(branch26_message(delta).as_str()));
    }
    let insn: u32 = match site.read_u32(bytes) {
        Ok(insn) => insn,
        Err(e) => {
            return Err(e);
        },
    };
    site.write_u32(bytes, set_imm26(insn, imm))
}

/// The bytes with the distance between two pages in them.
pub open spec fn page21_patch(site: Site, s: Seq<u8>, place: u64, target: u64) -> Result<
    Seq<u8>,
    RelocFault,
> {
    let delta = encode::page_distance(place, target.wrapping_add_signed(site.reloc.addend));
    if !encode::signed_fits(delta >> 12, 21) {
        Err(site.fault(encode::page21_detail(delta)))
    } else {
        match site.load32(s) {
            Ok(insn) => site.store32(s, encode::with_imm21(insn, delta >> 12)),
            Err(e) => Err(e),
        }
    }
}

pub fn patch_page21(bytes: &mut Vec<u8>, site: Site<'_>, place: u64, target: u64) -> (r: Result<
    (),
    RelocError,
>)
    ensures
        patched(old(bytes)@, final(bytes)@, r, page21_patch(site, old(bytes)@, place, target)),
{
    let delta: i64 = page(target.wrapping_add_signed(site.reloc.addend)).wrapping_sub(
        page(place),
    ) as i64;
    let imm: i64 = delta >> 12;
    if !fits_signed(imm, 21) {
        return Err(site.error(page21_message(delta).as_str()));
    }
    let insn: u32 = match site.read_u32(bytes) {
        Ok(insn) => insn,
        Err(e) => {
            return Err(e);
        },
    };
    site.write_u32(bytes, set_imm21(insn, imm))
}

/// How far into its page the target lies.
pub open spec fn page_offset(site: Site, target: u64) -> u64 {
    target.wrapping_add_signed(site.reloc.addend) & 0xfff
}

pub open spec fn misaligned_detail(pageoff: u64) -> Seq<char> {
    "page offset 0x"@ + text::hex(pageoff as nat) + " is not aligned for scaled load/store"@
}

fn misaligned_message(pageoff: u64) -> (r: String)
    ensures
        r@ == misaligned_detail(pageoff),
{
    let mut s = "page offset 0x".to_owned();
    s.append(hex_string(pageoff).as_str());
    s.append(" is not aligned for scaled load/store");
    s
}

/// The bytes with an offset into a page in them, scaled as the instruction wants it.
pub open spec fn pageoff12_patch(site: Site, s: Seq<u8>, target: u64) -> Result<
    Seq<u8>,
    RelocFault,
> {
    let pageoff = page_offset(site, target);
    match site.load32(s) {
        Err(e) => Err(e),
        Ok(insn) => if encode::add_immediate(insn) {
            site.store32(s, encode::with_imm12(insn, pageoff))
        } else {
            let shift = encode::load_store_shift(insn);
            if pageoff % (1u64 << shift) != 0 {
                Err(site.fault(misaligned_detail(pageoff)))
            } else {
                site.store32(s, encode::with_imm12(insn, pageoff >> shift))
            }
        },
    }
}

pub fn patch_pageoff12(bytes: &mut Vec<u8>, site: Site<'_>, target: u64) -> (r: Result<
    (),
    RelocError,
>)
    ensures
        patched(old(bytes)@, final(bytes)@, r, pageoff12_patch(site, old(bytes)@, target)),
{
    let pageoff: u64 = target.wrapping_add_signed(site.reloc.addend) & 0xfff;
    let insn: u32 = match site.read_u32(bytes) {
        Ok(insn) => insn,
        Err(e) => {
            return Err(e);
        },
    };
    let imm: u64 = if is_add_immediate(insn) {
        pageoff
    } else {
        let shift: u64 = pageoff_load_store_shift(insn);
        assert((1u64 << shift) > 0) by (bit_vector)
            requires
                shift <= 4,
        ;
        let scale: u64 = 1u64 << shift;
        if pageoff % scale != 0 {
            return Err(site.error(misaligned_message(pageoff).as_str()));
        }
        pageoff >> shift
    };
    site.write_u32(bytes, set_imm12(insn, imm))
}

/// The bytes with a load turned into an `add` of the offset into the page.
pub open spec fn add_patch(site: Site, s: Seq<u8>, target: u64) -> Result<Seq<u8>, RelocFault> {
    match site.load32(s) {
        Err(e) => Err(e),
        Ok(insn) => site.store32(s, encode::add_for(insn, page_offset(site, target))),
    }
}

/// Thread-local variables of this image are reached without a load.
pub fn patch_tlvp_pageoff12(bytes: &mut Vec<u8>, site: Site<'_>, target: u64) -> (r: Result<
    (),
    RelocError,
>)
    ensures
        patched(old(bytes)@, final(bytes)@, r, add_patch(site, old(bytes)@, target)),
{
    let pageoff: u64 = target.wrapping_add_signed(site.reloc.addend) & 0xfff;
    match site.read_u32(bytes) {
        Ok(insn) => site.write_u32(bytes, make_add(insn, pageoff)),
        Err(e) => Err(e),
    }
}

/// Symbols of this image are reached without their pointer-table slot.
pub fn patch_got_pageoff12_relaxed(bytes: &mut Vec<u8>, site: Site<'_>, target: u64) -> (r: Result<
    (),
    RelocError,
>)
    ensures
        patched(old(bytes)@, final(bytes)@, r, add_patch(site, old(bytes)@, target)),
{
    let pageoff: u64 = target.wrapping_add_signed(site.reloc.addend) & 0xfff;
    match site.read_u32(bytes) {
        Ok(insn) => site.write_u32(bytes, make_add(insn, pageoff)),
        Err(e) => Err(e),
    }
}

} // verus!
