//! Load commands are read back as they were written.

use vstd::prelude::*;
use crate::bytes;
use crate::macho::constants::{
    LC_BUILD_VERSION, LC_DYLD_EXPORTS_TRIE, LC_DYLD_INFO_ONLY, LC_DYSYMTAB, LC_RPATH,
    LC_SEGMENT_64, LC_SYMTAB,
};
use crate::macho::reader;
use crate::macho::reader::{
    BuildTool, BuildVersionCmd, DylibCmd, DyldInfoCmd, DysymtabCmd, LoadCommand, MachHeader64,
    RpathCmd, Section64Header, Segment64, SymtabCmd, HEADER_SIZE,
};
use crate::text;

verus! {

/// A kind of command that is taken apart.
pub open spec fn known_kind(cmd: u32) -> bool {
    cmd == LC_SEGMENT_64 || cmd == LC_SYMTAB || cmd == LC_DYSYMTAB || cmd == LC_DYLD_INFO_ONLY
        || cmd == LC_DYLD_EXPORTS_TRIE || reader::is_dylib_cmd(cmd) || cmd == LC_RPATH || cmd
        == LC_BUILD_VERSION
}

/// The command can be told from its bytes: its size fits its field, its text has no
/// zero byte in it, and its number is that of its kind.
pub open spec fn readable(c: LoadCommand) -> bool {
    &&& c.spec_cmdsize() <= u32::MAX
    &&& match c {
        LoadCommand::Dylib(d) => reader::is_dylib_cmd(d.cmd) && !text::utf8(d.name@).contains(0u8),
        LoadCommand::Rpath(r) => !text::utf8(r.path@).contains(0u8),
        LoadCommand::Raw { cmd, cmdsize, data } => !known_kind(cmd) && cmdsize == 8 + data@.len(),
        _ => true,
    }
}

/// `part` stands in `s` at `at`.
pub open spec fn stands(s: Seq<u8>, at: int, part: Seq<u8>) -> bool {
    0 <= at && at + part.len() <= s.len() && s.subrange(at, at + part.len()) == part
}

proof fn lemma_field32(s: Seq<u8>, at: int, v: u32)
    requires
        stands(s, at, bytes::le32_bytes(v)),
    ensures
        bytes::le32(s, at) == v,
{
    bytes::lemma_le32_of_bytes(s, at, v);
}

proof fn lemma_field64(s: Seq<u8>, at: int, v: u64)
    requires
        stands(s, at, bytes::le64_bytes(v)),
    ensures
        bytes::le64(s, at) == v,
{
    bytes::lemma_le64_of_bytes(s, at, v);
}

/// The first of two parts, and the second behind it.
proof fn lemma_parts(s: Seq<u8>, at: int, a: Seq<u8>, b: Seq<u8>)
    requires
        stands(s, at, a + b),
    ensures
        stands(s, at, a),
        stands(s, at + a.len(), b),
{
    let whole = s.subrange(at, at + (a + b).len());
    assert(s.subrange(at, at + a.len()) =~= whole.subrange(0, a.len() as int));
    assert(whole.subrange(0, a.len() as int) =~= a);
    assert(s.subrange(at + a.len(), at + a.len() + b.len()) =~= whole.subrange(
        a.len() as int,
        (a + b).len() as int,
    ));
    assert(whole.subrange(a.len() as int, (a + b).len() as int) =~= b);
}

/// Numbers one behind the other.
spec fn words(v: Seq<u32>) -> Seq<u8>
    decreases v.len(),
{
    if v.len() == 0 {
        seq![]
    } else {
        words(v.drop_last()) + bytes::le32_bytes(v.last())
    }
}

proof fn lemma_words(s: Seq<u8>, at: int, v: Seq<u32>)
    requires
        stands(s, at, words(v)),
    ensures
        words(v).len() == 4 * v.len(),
        forall|i: int| 0 <= i < v.len() ==> bytes::le32(s, at + 4 * i) == #[trigger] v[i],
    decreases v.len(),
{
    if v.len() > 0 {
        lemma_words_len(v.drop_last());
        lemma_parts(s, at, words(v.drop_last()), bytes::le32_bytes(v.last()));
        lemma_words(s, at, v.drop_last());
        lemma_field32(s, at + 4 * (v.len() - 1), v.last());
        assert forall|i: int| 0 <= i < v.len() implies bytes::le32(s, at + 4 * i)
            == #[trigger] v[i] by {
            if i < v.len() - 1 {
                assert(v.drop_last()[i] == v[i]);
            }
        }
    }
}

proof fn lemma_words_len(v: Seq<u32>)
    ensures
        words(v).len() == 4 * v.len(),
    decreases v.len(),
{
    if v.len() > 0 {
        lemma_words_len(v.drop_last());
    }
}

proof fn lemma_words_push(v: Seq<u32>, x: u32)
    ensures
        words(v.push(x)) == words(v) + bytes::le32_bytes(x),
{
    assert(v.push(x).drop_last() =~= v);
}

spec fn dysymtab_words(c: DysymtabCmd) -> Seq<u32> {
    Seq::empty().push(c.ilocalsym).push(c.nlocalsym).push(c.iextdefsym).push(c.nextdefsym).push(
        c.iundefsym,
    ).push(c.nundefsym).push(c.tocoff).push(c.ntoc).push(c.modtaboff).push(c.nmodtab).push(
        c.extrefsymoff,
    ).push(c.nextrefsyms).push(c.indirectsymoff).push(c.nindirectsyms).push(c.extreloff).push(
        c.nextrel,
    ).push(c.locreloff).push(c.nlocrel)
}

proof fn lemma_dysymtab_words(c: DysymtabCmd)
    ensures
        c.encoded() == words(dysymtab_words(c)),
{
    let w0: Seq<u32> = Seq::empty();
    let w1 = w0.push(c.ilocalsym);
    let w2 = w1.push(c.nlocalsym);
    let w3 = w2.push(c.iextdefsym);
    let w4 = w3.push(c.nextdefsym);
    let w5 = w4.push(c.iundefsym);
    let w6 = w5.push(c.nundefsym);
    let w7 = w6.push(c.tocoff);
    let w8 = w7.push(c.ntoc);
    let w9 = w8.push(c.modtaboff);
    let w10 = w9.push(c.nmodtab);
    let w11 = w10.push(c.extrefsymoff);
    let w12 = w11.push(c.nextrefsyms);
    let w13 = w12.push(c.indirectsymoff);
    let w14 = w13.push(c.nindirectsyms);
    let w15 = w14.push(c.extreloff);
    let w16 = w15.push(c.nextrel);
    let w17 = w16.push(c.locreloff);
    lemma_words_push(w0, c.ilocalsym);
    lemma_words_push(w1, c.nlocalsym);
    lemma_words_push(w2, c.iextdefsym);
    lemma_words_push(w3, c.nextdefsym);
    lemma_words_push(w4, c.iundefsym);
    lemma_words_push(w5, c.nundefsym);
    lemma_words_push(w6, c.tocoff);
    lemma_words_push(w7, c.ntoc);
    lemma_words_push(w8, c.modtaboff);
    lemma_words_push(w9, c.nmodtab);
    lemma_words_push(w10, c.extrefsymoff);
    lemma_words_push(w11, c.nextrefsyms);
    lemma_words_push(w12, c.indirectsymoff);
    lemma_words_push(w13, c.nindirectsyms);
    lemma_words_push(w14, c.extreloff);
    lemma_words_push(w15, c.nextrel);
    lemma_words_push(w16, c.locreloff);
    lemma_words_push(w17, c.nlocrel);
    assert(words(w0) + bytes::le32_bytes(c.ilocalsym) =~= bytes::le32_bytes(c.ilocalsym));
}

proof fn lemma_dysymtab(c: DysymtabCmd, s: Seq<u8>, at: int)
    requires
        stands(s, at + 8, c.encoded()),
    ensures
        DysymtabCmd::decoded(s, at) == c,
        c.encoded().len() == 72,
{
    let v = dysymtab_words(c);
    lemma_dysymtab_words(c);
    lemma_words(s, at + 8, v);
    assert(bytes::le32(s, at + 8 + 4 * 0) == v[0]);
    assert(bytes::le32(s, at + 8 + 4 * 1) == v[1]);
    assert(bytes::le32(s, at + 8 + 4 * 2) == v[2]);
    assert(bytes::le32(s, at + 8 + 4 * 3) == v[3]);
    assert(bytes::le32(s, at + 8 + 4 * 4) == v[4]);
    assert(bytes::le32(s, at + 8 + 4 * 5) == v[5]);
    assert(bytes::le32(s, at + 8 + 4 * 6) == v[6]);
    assert(bytes::le32(s, at + 8 + 4 * 7) == v[7]);
    assert(bytes::le32(s, at + 8 + 4 * 8) == v[8]);
    assert(bytes::le32(s, at + 8 + 4 * 9) == v[9]);
    assert(bytes::le32(s, at + 8 + 4 * 10) == v[10]);
    assert(bytes::le32(s, at + 8 + 4 * 11) == v[11]);
    assert(bytes::le32(s, at + 8 + 4 * 12) == v[12]);
    assert(bytes::le32(s, at + 8 + 4 * 13) == v[13]);
    assert(bytes::le32(s, at + 8 + 4 * 14) == v[14]);
    assert(bytes::le32(s, at + 8 + 4 * 15) == v[15]);
    assert(bytes::le32(s, at + 8 + 4 * 16) == v[16]);
    assert(bytes::le32(s, at + 8 + 4 * 17) == v[17]);
}

spec fn dyld_info_words(c: DyldInfoCmd) -> Seq<u32> {
    Seq::empty().push(c.rebase_off).push(c.rebase_size).push(c.bind_off).push(c.bind_size).push(
        c.weak_bind_off,
    ).push(c.weak_bind_size).push(c.lazy_bind_off).push(c.lazy_bind_size).push(c.export_off).push(
        c.export_size,
    )
}

proof fn lemma_dyld_info(c: DyldInfoCmd, s: Seq<u8>, at: int)
    requires
        stands(s, at + 8, c.encoded()),
    ensures
        DyldInfoCmd::decoded(s, at) == c,
        c.encoded().len() == 40,
{
    let w0: Seq<u32> = Seq::empty();
    let w1 = w0.push(c.rebase_off);
    let w2 = w1.push(c.rebase_size);
    let w3 = w2.push(c.bind_off);
    let w4 = w3.push(c.bind_size);
    let w5 = w4.push(c.weak_bind_off);
    let w6 = w5.push(c.weak_bind_size);
    let w7 = w6.push(c.lazy_bind_off);
    let w8 = w7.push(c.lazy_bind_size);
    let w9 = w8.push(c.export_off);
    lemma_words_push(w0, c.rebase_off);
    lemma_words_push(w1, c.rebase_size);
    lemma_words_push(w2, c.bind_off);
    lemma_words_push(w3, c.bind_size);
    lemma_words_push(w4, c.weak_bind_off);
    lemma_words_push(w5, c.weak_bind_size);
    lemma_words_push(w6, c.lazy_bind_off);
    lemma_words_push(w7, c.lazy_bind_size);
    lemma_words_push(w8, c.export_off);
    lemma_words_push(w9, c.export_size);
    assert(words(w0) + bytes::le32_bytes(c.rebase_off) =~= bytes::le32_bytes(c.rebase_off));
    let v = dyld_info_words(c);
    assert(c.encoded() == words(v));
    lemma_words(s, at + 8, v);
    assert(bytes::le32(s, at + 8 + 4 * 0) == v[0]);
    assert(bytes::le32(s, at + 8 + 4 * 1) == v[1]);
    assert(bytes::le32(s, at + 8 + 4 * 2) == v[2]);
    assert(bytes::le32(s, at + 8 + 4 * 3) == v[3]);
    assert(bytes::le32(s, at + 8 + 4 * 4) == v[4]);
    assert(bytes::le32(s, at + 8 + 4 * 5) == v[5]);
    assert(bytes::le32(s, at + 8 + 4 * 6) == v[6]);
    assert(bytes::le32(s, at + 8 + 4 * 7) == v[7]);
    assert(bytes::le32(s, at + 8 + 4 * 8) == v[8]);
    assert(bytes::le32(s, at + 8 + 4 * 9) == v[9]);
}

proof fn lemma_symtab(c: SymtabCmd, s: Seq<u8>, at: int)
    requires
        stands(s, at + 8, c.encoded()),
    ensures
        SymtabCmd::decoded(s, at) == c,
        c.encoded().len() == 16,
{
    let a = bytes::le32_bytes(c.symoff);
    let b = bytes::le32_bytes(c.nsyms);
    let d = bytes::le32_bytes(c.stroff);
    let e = bytes::le32_bytes(c.strsize);
    lemma_parts(s, at + 8, a + b + d, e);
    lemma_parts(s, at + 8, a + b, d);
    lemma_parts(s, at + 8, a, b);
    lemma_field32(s, at + 8, c.symoff);
    lemma_field32(s, at + 12, c.nsyms);
    lemma_field32(s, at + 16, c.stroff);
    lemma_field32(s, at + 20, c.strsize);
}

proof fn lemma_section(h: Section64Header, s: Seq<u8>, at: int)
    requires
        stands(s, at, h.encoded()),
    ensures
        h.decodes(s, at),
        h.encoded().len() == 80,
{
    let n1 = h.sectname@;
    let n2 = h.segname@;
    let p0 = n1 + n2;
    let p1 = p0 + bytes::le64_bytes(h.addr);
    let p2 = p1 + bytes::le64_bytes(h.size);
    let p3 = p2 + bytes::le32_bytes(h.offset);
    let p4 = p3 + bytes::le32_bytes(h.align);
    let p5 = p4 + bytes::le32_bytes(h.reloff);
    let p6 = p5 + bytes::le32_bytes(h.nreloc);
    let p7 = p6 + bytes::le32_bytes(h.flags);
    let p8 = p7 + bytes::le32_bytes(h.reserved1);
    let p9 = p8 + bytes::le32_bytes(h.reserved2);
    lemma_parts(s, at, p9, bytes::le32_bytes(h.reserved3));
    lemma_parts(s, at, p8, bytes::le32_bytes(h.reserved2));
    lemma_parts(s, at, p7, bytes::le32_bytes(h.reserved1));
    lemma_parts(s, at, p6, bytes::le32_bytes(h.flags));
    lemma_parts(s, at, p5, bytes::le32_bytes(h.nreloc));
    lemma_parts(s, at, p4, bytes::le32_bytes(h.reloff));
    lemma_parts(s, at, p3, bytes::le32_bytes(h.align));
    lemma_parts(s, at, p2, bytes::le32_bytes(h.offset));
    lemma_parts(s, at, p1, bytes::le64_bytes(h.size));
    lemma_parts(s, at, p0, bytes::le64_bytes(h.addr));
    lemma_parts(s, at, n1, n2);
    lemma_field64(s, at + 32, h.addr);
    lemma_field64(s, at + 40, h.size);
    lemma_field32(s, at + 48, h.offset);
    lemma_field32(s, at + 52, h.align);
    lemma_field32(s, at + 56, h.reloff);
    lemma_field32(s, at + 60, h.nreloc);
    lemma_field32(s, at + 64, h.flags);
    lemma_field32(s, at + 68, h.reserved1);
    lemma_field32(s, at + 72, h.reserved2);
    lemma_field32(s, at + 76, h.reserved3);
}

proof fn lemma_section_len(h: Section64Header)
    ensures
        h.encoded().len() == 80,
{
}

proof fn lemma_sections_len(v: Seq<Section64Header>)
    ensures
        reader::section_headers_bytes(v).len() == 80 * v.len(),
    decreases v.len(),
{
    if v.len() > 0 {
        lemma_sections_len(v.drop_last());
        lemma_section_len(v.last());
    }
}

proof fn lemma_sections(v: Seq<Section64Header>, s: Seq<u8>, at: int)
    requires
        stands(s, at, reader::section_headers_bytes(v)),
    ensures
        forall|i: int| 0 <= i < v.len() ==> (#[trigger] v[i]).decodes(s, at + 80 * i),
    decreases v.len(),
{
    if v.len() > 0 {
        let front = reader::section_headers_bytes(v.drop_last());
        lemma_sections_len(v.drop_last());
        lemma_parts(s, at, front, v.last().encoded());
        lemma_sections(v.drop_last(), s, at);
        lemma_section(v.last(), s, at + 80 * (v.len() - 1));
        assert forall|i: int| 0 <= i < v.len() implies (#[trigger] v[i]).decodes(
            s,
            at + 80 * i,
        ) by {
            if i < v.len() - 1 {
                assert(v.drop_last()[i] == v[i]);
            }
        }
    }
}

proof fn lemma_segment(seg: Segment64, s: Seq<u8>, at: int)
    requires
        stands(s, at + 8, seg.encoded()),
        seg.sections@.len() <= u32::MAX,
    ensures
        seg.decodes(s, at),
        bytes::le32(s, at + 64) == seg.sections@.len(),
        seg.encoded().len() == seg.spec_wire_size() - 8,
{
    let at8 = at + 8;
    let count = seg.sections@.len() as u32;
    let p0 = seg.segname@;
    let p1 = p0 + bytes::le64_bytes(seg.vmaddr);
    let p2 = p1 + bytes::le64_bytes(seg.vmsize);
    let p3 = p2 + bytes::le64_bytes(seg.fileoff);
    let p4 = p3 + bytes::le64_bytes(seg.filesize);
    let p5 = p4 + bytes::le32_bytes(seg.maxprot);
    let p6 = p5 + bytes::le32_bytes(seg.initprot);
    let p7 = p6 + bytes::le32_bytes(count);
    let p8 = p7 + bytes::le32_bytes(seg.flags);
    let tail = reader::section_headers_bytes(seg.sections@);
    lemma_sections_len(seg.sections@);
    lemma_parts(s, at8, p8, tail);
    lemma_parts(s, at8, p7, bytes::le32_bytes(seg.flags));
    lemma_parts(s, at8, p6, bytes::le32_bytes(count));
    lemma_parts(s, at8, p5, bytes::le32_bytes(seg.initprot));
    lemma_parts(s, at8, p4, bytes::le32_bytes(seg.maxprot));
    lemma_parts(s, at8, p3, bytes::le64_bytes(seg.filesize));
    lemma_parts(s, at8, p2, bytes::le64_bytes(seg.fileoff));
    lemma_parts(s, at8, p1, bytes::le64_bytes(seg.vmsize));
    lemma_parts(s, at8, p0, bytes::le64_bytes(seg.vmaddr));
    lemma_field64(s, at + 24, seg.vmaddr);
    lemma_field64(s, at + 32, seg.vmsize);
    lemma_field64(s, at + 40, seg.fileoff);
    lemma_field64(s, at + 48, seg.filesize);
    lemma_field32(s, at + 56, seg.maxprot);
    lemma_field32(s, at + 60, seg.initprot);
    lemma_field32(s, at + 64, count);
    lemma_field32(s, at + 68, seg.flags);
    lemma_sections(seg.sections@, s, at + 72);
}

proof fn lemma_tools_len(v: Seq<BuildTool>)
    ensures
        reader::tools_bytes(v).len() == 8 * v.len(),
    decreases v.len(),
{
    if v.len() > 0 {
        lemma_tools_len(v.drop_last());
    }
}

proof fn lemma_tools(v: Seq<BuildTool>, s: Seq<u8>, at: int)
    requires
        stands(s, at, reader::tools_bytes(v)),
    ensures
        forall|i: int|
            0 <= i < v.len() ==> #[trigger] v[i] == (BuildTool {
                tool: bytes::le32(s, at + 8 * i),
                version: bytes::le32(s, at + 4 + 8 * i),
            }),
    decreases v.len(),
{
    if v.len() > 0 {
        let front = reader::tools_bytes(v.drop_last());
        let t = bytes::le32_bytes(v.last().tool);
        lemma_tools_len(v.drop_last());
        lemma_parts(s, at, front + t, bytes::le32_bytes(v.last().version));
        lemma_parts(s, at, front, t);
        lemma_tools(v.drop_last(), s, at);
        lemma_field32(s, at + 8 * (v.len() - 1), v.last().tool);
        lemma_field32(s, at + 4 + 8 * (v.len() - 1), v.last().version);
        assert forall|i: int| 0 <= i < v.len() implies #[trigger] v[i] == (BuildTool {
            tool: bytes::le32(s, at + 8 * i),
            version: bytes::le32(s, at + 4 + 8 * i),
        }) by {
            if i < v.len() - 1 {
                assert(v.drop_last()[i] == v[i]);
            }
        }
    }
}

proof fn lemma_build_version(b: BuildVersionCmd, s: Seq<u8>, at: int)
    requires
        stands(s, at + 8, b.encoded()),
        b.tools@.len() <= u32::MAX,
    ensures
        b.decodes(s, at),
        bytes::le32(s, at + 20) == b.tools@.len(),
        b.encoded().len() == b.spec_wire_size() - 8,
{
    let count = b.tools@.len() as u32;
    let p0 = bytes::le32_bytes(b.platform);
    let p1 = p0 + bytes::le32_bytes(b.minos);
    let p2 = p1 + bytes::le32_bytes(b.sdk);
    let p3 = p2 + bytes::le32_bytes(count);
    lemma_tools_len(b.tools@);
    lemma_parts(s, at + 8, p3, reader::tools_bytes(b.tools@));
    lemma_parts(s, at + 8, p2, bytes::le32_bytes(count));
    lemma_parts(s, at + 8, p1, bytes::le32_bytes(b.sdk));
    lemma_parts(s, at + 8, p0, bytes::le32_bytes(b.minos));
    lemma_field32(s, at + 8, b.platform);
    lemma_field32(s, at + 12, b.minos);
    lemma_field32(s, at + 16, b.sdk);
    lemma_field32(s, at + 20, count);
    lemma_tools(b.tools@, s, at + 24);
    assert forall|i: int| 0 <= i < b.tools@.len() implies #[trigger] b.tools@[i] == (BuildTool {
        tool: bytes::le32(s, at + 24 + 8 * i),
        version: bytes::le32(s, at + 28 + 8 * i),
    }) by {
        assert(at + 24 + 4 + 8 * i == at + 28 + 8 * i);
    }
}

/// A text with a zero byte behind it ends there.
proof fn lemma_text_ends(s: Seq<u8>, start: int, name: Seq<u8>, end: int)
    requires
        stands(s, start, name),
        !name.contains(0u8),
        start + name.len() < end <= s.len(),
        s[start + name.len()] == 0,
    ensures
        reader::nul_at(s, start, end) == start + name.len(),
    decreases name.len(),
{
    let part = s.subrange(start, start + name.len());
    if name.len() > 0 {
        assert(part[0] == s[start]);
        assert(name[0] == s[start]);
        assert(name.contains(name[0]));
        let rest = name.drop_first();
        assert(s.subrange(start + 1, start + 1 + rest.len()) =~= part.subrange(
            1,
            name.len() as int,
        ));
        assert(part.subrange(1, name.len() as int) =~= rest);
        assert(!rest.contains(0u8)) by {
            if rest.contains(0u8) {
                let i = choose|i: int| 0 <= i < rest.len() && rest[i] == 0u8;
                assert(name[i + 1] == 0u8);
            }
        }
        lemma_text_ends(s, start + 1, rest, end);
    }
}

proof fn lemma_zeros(n: int)
    ensures
        bytes::zeros(n).len() == if n > 0 {
            n
        } else {
            0
        },
        n > 0 ==> bytes::zeros(n)[0] == 0,
{
}

/// The text behind the fixed part of a command is read back.
proof fn lemma_command_text(
    s: Seq<u8>,
    at: int,
    size: u32,
    fixed: u32,
    name: Seq<char>,
    padding: int,
)
    requires
        0 <= at,
        padding > 0,
        at + size <= s.len(),
        fixed + text::utf8(name).len() + padding == size,
        bytes::le32(s, at + 4) == size,
        bytes::le32(s, at + 8) == fixed,
        stands(s, at + fixed, text::utf8(name) + bytes::zeros(padding)),
        !text::utf8(name).contains(0u8),
    ensures
        reader::command_text(s, at) == text::utf8(name),
        vstd::utf8::valid_utf8(reader::command_text(s, at)),
        vstd::utf8::decode_utf8(reader::command_text(s, at)) == name,
{
    let b = text::utf8(name);
    let start = at + fixed;
    lemma_zeros(padding);
    lemma_parts(s, start, b, bytes::zeros(padding));
    let z = s.subrange(start + b.len(), start + b.len() + padding);
    assert(z[0] == s[start + b.len()]);
    assert(z =~= bytes::zeros(padding));
    lemma_text_ends(s, start, b, at + size);
    assert(reader::command_text(s, at) =~= b);
    vstd::utf8::encode_utf8_valid_utf8(name);
    vstd::utf8::encode_utf8_decode_utf8(name);
}

proof fn lemma_dylib(d: DylibCmd, s: Seq<u8>, at: int)
    requires
        0 <= at,
        d.spec_wire_size() <= u32::MAX,
        at + d.spec_wire_size() <= s.len(),
        bytes::le32(s, at) == d.cmd,
        bytes::le32(s, at + 4) == d.spec_wire_size(),
        stands(s, at + 8, d.encoded()),
        reader::is_dylib_cmd(d.cmd),
        !text::utf8(d.name@).contains(0u8),
    ensures
        reader::command_error(s, at) is None,
        LoadCommand::Dylib(d).decodes(s, at),
        d.encoded().len() == d.spec_wire_size() - 8,
{
    let b = text::utf8(d.name@);
    let size = d.spec_wire_size();
    let padding = size - 24 - b.len();
    assert(size % 8 == 0 && padding > 0);
    lemma_zeros(padding);
    let p0 = bytes::le32_bytes(24);
    let p1 = p0 + bytes::le32_bytes(d.timestamp);
    let p2 = p1 + bytes::le32_bytes(d.current_version);
    let p3 = p2 + bytes::le32_bytes(d.compatibility_version);
    assert(d.encoded() =~= p3 + (b + bytes::zeros(padding)));
    lemma_parts(s, at + 8, p3, b + bytes::zeros(padding));
    lemma_parts(s, at + 8, p2, bytes::le32_bytes(d.compatibility_version));
    lemma_parts(s, at + 8, p1, bytes::le32_bytes(d.current_version));
    lemma_parts(s, at + 8, p0, bytes::le32_bytes(d.timestamp));
    lemma_field32(s, at + 8, 24);
    lemma_field32(s, at + 12, d.timestamp);
    lemma_field32(s, at + 16, d.current_version);
    lemma_field32(s, at + 20, d.compatibility_version);
    lemma_command_text(s, at, size as u32, 24, d.name@, padding);
}

proof fn lemma_rpath(r: RpathCmd, s: Seq<u8>, at: int)
    requires
        0 <= at,
        r.spec_wire_size() <= u32::MAX,
        at + r.spec_wire_size() <= s.len(),
        bytes::le32(s, at) == LC_RPATH,
        bytes::le32(s, at + 4) == r.spec_wire_size(),
        stands(s, at + 8, r.encoded()),
        !text::utf8(r.path@).contains(0u8),
    ensures
        reader::command_error(s, at) is None,
        LoadCommand::Rpath(r).decodes(s, at),
        r.encoded().len() == r.spec_wire_size() - 8,
{
    let b = text::utf8(r.path@);
    let size = r.spec_wire_size();
    let padding = size - 12 - b.len();
    assert(size % 8 == 0 && padding > 0);
    lemma_zeros(padding);
    let p0 = bytes::le32_bytes(12);
    assert(r.encoded() =~= p0 + (b + bytes::zeros(padding)));
    lemma_parts(s, at + 8, p0, b + bytes::zeros(padding));
    lemma_field32(s, at + 8, 12);
    lemma_command_text(s, at, size as u32, 12, r.path@, padding);
}

proof fn lemma_segment_len(seg: Segment64)
    ensures
        seg.encoded().len() == seg.spec_wire_size() - 8,
{
    lemma_sections_len(seg.sections@);
}

proof fn lemma_dyld_info_len(c: DyldInfoCmd)
    ensures
        c.encoded().len() == 40,
{
}

proof fn lemma_dysymtab_len(c: DysymtabCmd)
    ensures
        c.encoded().len() == 72,
{
    lemma_dysymtab_words(c);
    lemma_words_len(dysymtab_words(c));
}

proof fn lemma_build_version_len(b: BuildVersionCmd)
    ensures
        b.encoded().len() == b.spec_wire_size() - 8,
{
    lemma_tools_len(b.tools@);
}

proof fn lemma_dylib_len(d: DylibCmd)
    ensures
        d.encoded().len() == d.spec_wire_size() - 8,
{
    lemma_zeros(d.spec_wire_size() - 24 - text::utf8(d.name@).len());
}

proof fn lemma_rpath_len(r: RpathCmd)
    ensures
        r.encoded().len() == r.spec_wire_size() - 8,
{
    lemma_zeros(r.spec_wire_size() - 12 - text::utf8(r.path@).len());
}

proof fn lemma_symtab_len(c: SymtabCmd)
    ensures
        c.encoded().len() == 16,
{
}

proof fn lemma_body_len(c: LoadCommand)
    requires
        readable(c),
    ensures
        c.body().len() == c.spec_cmdsize() - 8,
{
    match c {
        LoadCommand::Segment64(x) => {
            lemma_segment_len(x);
        },
        LoadCommand::Symtab(x) => {
            lemma_symtab_len(x);
        },
        LoadCommand::Dysymtab(x) => {
            lemma_dysymtab_len(x);
        },
        LoadCommand::DyldInfoOnly(x) => {
            lemma_dyld_info_len(x);
        },
        LoadCommand::DyldExportsTrie(_) => {},
        LoadCommand::Dylib(x) => {
            lemma_dylib_len(x);
        },
        LoadCommand::Rpath(x) => {
            lemma_rpath_len(x);
        },
        LoadCommand::BuildVersion(x) => {
            lemma_build_version_len(x);
        },
        LoadCommand::Raw { .. } => {},
    }
}

/// A command has as many bytes as it says.
pub proof fn law_command_size(c: LoadCommand)
    requires
        readable(c),
    ensures
        c.encoded().len() == c.spec_cmdsize(),
{
    lemma_body_len(c);
    let body = c.body();
    let head = bytes::le32_bytes(c.code()) + bytes::le32_bytes(c.spec_cmdsize() as u32);
    assert(c.encoded() == head + body);
    assert(head.len() == 8);
}

/// A command is read back from its own bytes, wherever they stand.
pub proof fn law_command_read_of_write(c: LoadCommand, s: Seq<u8>, at: int)
    requires
        readable(c),
        stands(s, at, c.encoded()),
    ensures
        reader::command_error(s, at) is None,
        c.decodes(s, at),
        bytes::le32(s, at + 4) == c.spec_cmdsize(),
{
    let size = c.spec_cmdsize() as u32;
    let head = bytes::le32_bytes(c.code());
    law_command_size(c);
    lemma_parts(s, at, head + bytes::le32_bytes(size), c.body());
    lemma_parts(s, at, head, bytes::le32_bytes(size));
    lemma_field32(s, at, c.code());
    lemma_field32(s, at + 4, size);
    match c {
        LoadCommand::Segment64(seg) => {
            lemma_segment(seg, s, at);
        },
        LoadCommand::Symtab(x) => {
            lemma_symtab(x, s, at);
        },
        LoadCommand::Dysymtab(x) => {
            lemma_dysymtab(x, s, at);
        },
        LoadCommand::DyldInfoOnly(x) => {
            lemma_dyld_info(x, s, at);
        },
        LoadCommand::DyldExportsTrie(x) => {
            lemma_parts(
                s,
                at + 8,
                bytes::le32_bytes(x.dataoff),
                bytes::le32_bytes(x.datasize),
            );
            lemma_field32(s, at + 8, x.dataoff);
            lemma_field32(s, at + 12, x.datasize);
        },
        LoadCommand::Dylib(d) => {
            lemma_dylib(d, s, at);
        },
        LoadCommand::Rpath(r) => {
            lemma_rpath(r, s, at);
        },
        LoadCommand::BuildVersion(b) => {
            lemma_build_version(b, s, at);
        },
        LoadCommand::Raw { cmd, cmdsize, data } => {
            assert(s.subrange(at + 8, at + cmdsize) =~= data@);
        },
    }
}

proof fn lemma_list_read(commands: Seq<LoadCommand>, s: Seq<u8>, at: int)
    requires
        forall|k: int| 0 <= k < commands.len() ==> readable(#[trigger] commands[k]),
        stands(s, at, reader::commands_bytes(commands)),
    ensures
        reader::commands_error(s, at, commands.len()) is None,
        reader::command_start(s, at, commands.len()) == at + reader::commands_bytes(
            commands,
        ).len(),
        forall|k: int|
            0 <= k < commands.len() ==> (#[trigger] commands[k]).decodes(
                s,
                reader::command_start(s, at, k as nat),
            ),
    decreases commands.len(),
{
    if commands.len() > 0 {
        let n = (commands.len() - 1) as nat;
        let front = commands.drop_last();
        let c = commands.last();
        assert forall|k: int| 0 <= k < front.len() implies readable(#[trigger] front[k]) by {
            assert(front[k] == commands[k]);
        }
        assert(readable(commands[n as int]));
        lemma_parts(s, at, reader::commands_bytes(front), c.encoded());
        lemma_list_read(front, s, at);
        let start = at + reader::commands_bytes(front).len();
        law_command_read_of_write(c, s, start);
        law_command_size(c);
        assert forall|k: int| 0 <= k < commands.len() implies (#[trigger] commands[k]).decodes(
            s,
            reader::command_start(s, at, k as nat),
        ) by {
            if k < front.len() {
                assert(front[k] == commands[k]);
            }
        }
    }
}

/// The commands behind a header are read back as they were written, whatever stands
/// behind them.
pub proof fn law_commands_read_of_write(
    header: MachHeader64,
    commands: Seq<LoadCommand>,
    more: Seq<u8>,
)
    requires
        forall|k: int| 0 <= k < commands.len() ==> readable(#[trigger] commands[k]),
    ensures
        ({
            let s = header.encoded() + reader::commands_bytes(commands) + more;
            &&& reader::commands_error(s, HEADER_SIZE as int, commands.len()) is None
            &&& reader::commands_decode(commands, s, commands.len())
        }),
{
    let body = reader::commands_bytes(commands);
    let s = header.encoded() + body + more;
    assert(header.encoded().len() == 32);
    assert(s.subrange(32, 32int + body.len()) =~= body);
    lemma_list_read(commands, s, 32);
}

} // verus!
