//! What the bytes of an image hold of its sections.

use vstd::prelude::*;
use crate::layout::Layout;
use crate::macho::reader::LoadCommand;
use crate::macho::writer::file;
use crate::macho::writer::file::Put;
use crate::macho::writer::plan::LinkEditModel;
use crate::options::OutputKind;
use crate::section;
use crate::section::OutputSection;

verus! {

/// No two of the pieces that go into the file overlap.
pub open spec fn pieces_apart(layout: Layout, l: LinkEditModel) -> bool {
    let w = file::all_section_puts(layout.sections@) + file::table_puts(l);
    forall|i: int, j: int| 0 <= i < j < w.len() ==> file::apart(#[trigger] w[i], #[trigger] w[j])
}

proof fn lemma_section_has_piece(sections: Seq<OutputSection>, s: int, k: int)
    requires
        0 <= s < sections.len(),
        0 <= k < file::section_puts(sections[s]).len(),
    ensures
        exists|m: int|
            0 <= m < file::all_section_puts(sections).len() && #[trigger] file::all_section_puts(
                sections,
            )[m] == file::section_puts(sections[s])[k],
    decreases sections.len(),
{
    let rest = sections.drop_last();
    let front = file::all_section_puts(rest);
    let all = file::all_section_puts(sections);
    let piece = file::section_puts(sections[s])[k];
    assert(all == front + file::section_puts(sections.last()));
    if s == sections.len() - 1 {
        let m = front.len() + k;
        assert(all[m] == piece);
    } else {
        assert(rest[s] == sections[s]);
        lemma_section_has_piece(rest, s, k);
        let m = choose|m: int| 0 <= m < front.len() && #[trigger] front[m] == piece;
        assert(all[m] == piece);
    }
}

proof fn lemma_piece_stays(
    layout: Layout,
    kind: OutputKind,
    list: Seq<LoadCommand>,
    l: LinkEditModel,
    piece: Put,
)
    requires
        file::image_fits(layout, l),
        pieces_apart(layout, l),
        piece.part.len() > 0,
        exists|m: int|
            0 <= m < file::all_section_puts(layout.sections@).len()
                && #[trigger] file::all_section_puts(layout.sections@)[m] == piece,
    ensures
        ({
            let image = file::image(layout, kind, list, l);
            &&& 0 <= piece.at
            &&& piece.at + piece.part.len() <= image.len()
            &&& image.subrange(piece.at, piece.at + piece.part.len()) == piece.part
        }),
{
    let a = file::all_section_puts(layout.sections@);
    let w = a + file::table_puts(l);
    let start = file::skeleton(layout, kind, list);
    let m = choose|m: int| 0 <= m < a.len() && #[trigger] a[m] == piece;
    assert(w[m] == piece);
    file::lemma_put_len(start, w);
    file::law_put_stays(start, w, m);
}

/// What an atom holds stands in the image where the atom's section starts, so far in as
/// the atom lies in it.
pub proof fn law_atom_is_in_image(
    layout: Layout,
    kind: OutputKind,
    list: Seq<LoadCommand>,
    l: LinkEditModel,
    s: int,
    a: int,
)
    requires
        file::image_fits(layout, l),
        pieces_apart(layout, l),
        0 <= s < layout.sections@.len(),
        0 <= a < layout.sections@[s].atoms@.len(),
        !section::kind_is_zerofill(layout.sections@[s].kind),
        layout.sections@[s].file_off + layout.sections@[s].atoms@[a].offset <= usize::MAX,
        layout.sections@[s].file_off + layout.sections@[s].atoms@[a].offset <= u64::MAX,
    ensures
        forall|i: int|
            0 <= i < layout.sections@[s].atoms@[a].data@.len() ==> ({
                let at = layout.sections@[s].file_off + layout.sections@[s].atoms@[a].offset + i;
                &&& at < file::image(layout, kind, list, l).len()
                &&& file::image(layout, kind, list, l)[at]
                    == #[trigger] layout.sections@[s].atoms@[a].data@[i]
            }),
{
    let sec = layout.sections@[s];
    let atom = sec.atoms@[a];
    if atom.data@.len() > 0 {
        let k = a + 1;
        let piece = Put { at: sec.file_off + atom.offset, part: atom.data@ };
        assert(file::section_puts(sec)[k] == piece);
        lemma_section_has_piece(layout.sections@, s, k);
        lemma_piece_stays(layout, kind, list, l, piece);
        let image = file::image(layout, kind, list, l);
        assert forall|i: int| 0 <= i < atom.data@.len() implies ({
            let at = sec.file_off + atom.offset + i;
            &&& at < image.len()
            &&& image[at] == #[trigger] atom.data@[i]
        }) by {
            assert(image.subrange(piece.at, piece.at + piece.part.len())[i] == image[piece.at + i]);
        }
    }
}

/// What the linker made for a section stands in the image where the section starts, so
/// far in as it was planned.
pub proof fn law_made_bytes_are_in_image(
    layout: Layout,
    kind: OutputKind,
    list: Seq<LoadCommand>,
    l: LinkEditModel,
    s: int,
)
    requires
        file::image_fits(layout, l),
        pieces_apart(layout, l),
        0 <= s < layout.sections@.len(),
        !section::kind_is_zerofill(layout.sections@[s].kind),
        layout.sections@[s].file_off + layout.sections@[s].synthetic_offset <= usize::MAX,
        layout.sections@[s].file_off + layout.sections@[s].synthetic_offset <= u64::MAX,
    ensures
        forall|i: int|
            0 <= i < layout.sections@[s].synthetic_data@.len() ==> ({
                let at = layout.sections@[s].file_off + layout.sections@[s].synthetic_offset + i;
                &&& at < file::image(layout, kind, list, l).len()
                &&& file::image(layout, kind, list, l)[at]
                    == #[trigger] layout.sections@[s].synthetic_data@[i]
            }),
{
    let sec = layout.sections@[s];
    if sec.synthetic_data@.len() > 0 {
        let piece = Put { at: sec.file_off + sec.synthetic_offset, part: sec.synthetic_data@ };
        assert(file::section_puts(sec)[0] == piece);
        lemma_section_has_piece(layout.sections@, s, 0);
        lemma_piece_stays(layout, kind, list, l, piece);
        let image = file::image(layout, kind, list, l);
        assert forall|i: int| 0 <= i < sec.synthetic_data@.len() implies ({
            let at = sec.file_off + sec.synthetic_offset + i;
            &&& at < image.len()
            &&& image[at] == #[trigger] sec.synthetic_data@[i]
        }) by {
            assert(image.subrange(piece.at, piece.at + piece.part.len())[i] == image[piece.at + i]);
        }
    }
}

} // verus!
