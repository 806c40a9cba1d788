//! Mach-O string tables.
//!
//! A string table is a run of zero-terminated names. A symbol's `strx` is an
//! offset into it; the name runs from there to the next zero byte. Names that
//! end alike may share bytes: an offset may point into the middle of a name.

use vstd::prelude::*;
use crate::bytes::push_bytes;
use crate::macho::reader;
use crate::macho::reader::{find_nul, ReadError};
use crate::sorting;
use crate::sorting::{stable_sort, Order};
use crate::text;
use crate::text::same_text;

verus! {

#[derive(Debug, Clone, PartialEq, Eq)]
pub struct StringTable {
    raw: Vec<u8>,
}

/// The end of the name at `start`: the next zero byte, or the table's end.
pub open spec fn name_end(table: Seq<u8>, start: int) -> int {
    reader::nul_at(table, start, table.len() as int)
}

pub open spec fn strx_error<T>(start: u32, reason: &'static str) -> Result<T, ReadError> {
    Err(ReadError::BadCmdsize { cmd: 0, cmdsize: 0, at_offset: start as usize, reason })
}

/// The name at offset `strx`, or why there is none.
pub open spec fn name_at(table: Seq<u8>, strx: u32) -> Result<Seq<char>, ReadError> {
    let end = name_end(table, strx as int);
    if strx >= table.len() {
        strx_error(strx, "strx out of bounds")
    } else if end == table.len() {
        strx_error(strx, "unterminated string (no null byte before end)")
    } else if !vstd::utf8::valid_utf8(table.subrange(strx as int, end)) {
        strx_error(strx, "non-UTF-8 bytes in symbol name")
    } else {
        Ok(vstd::utf8::decode_utf8(table.subrange(strx as int, end)))
    }
}

impl View for StringTable {
    type V = Seq<u8>;

    closed spec fn view(&self) -> Seq<u8> {
        self.raw@
    }
}

/// What `StringTable::from_file` complains about.
pub open spec fn table_error(file: Seq<u8>, stroff: u32, strsize: u32) -> Option<ReadError> {
    let have = file.len() as usize;
    if stroff + strsize > usize::MAX {
        Some(
            ReadError::Truncated {
                need: usize::MAX,
                have,
                context: "string table (stroff + strsize overflows)",
            },
        )
    } else if stroff + strsize > file.len() {
        Some(
            ReadError::Truncated {
                need: (stroff + strsize) as usize,
                have,
                context: "string table",
            },
        )
    } else {
        None
    }
}

impl StringTable {
    /// Copies the string table out of a file image. Both numbers come from
    /// `LC_SYMTAB`.
    pub fn from_file(file_bytes: &[u8], stroff: u32, strsize: u32) -> (r: Result<
        StringTable,
        ReadError,
    >)
        ensures
            match r {
                Ok(table) => table_error(file_bytes@, stroff, strsize) is None && table@
                    == file_bytes@.subrange(stroff as int, stroff + strsize),
                Err(e) => table_error(file_bytes@, stroff, strsize) == Some(e),
            },
    {
        let start: usize = stroff as usize;
        let end: usize = match start.checked_add(strsize as usize) {
            Some(end) => end,
            None => return Err(
                ReadError::Truncated {
                    need: usize::MAX,
                    have: file_bytes.len(),
                    context: "string table (stroff + strsize overflows)",
                },
            ),
        };
        if end > file_bytes.len() {
            return Err(
                ReadError::Truncated {
                    need: end,
                    have: file_bytes.len(),
                    context: "string table",
                },
            );
        }
        Ok(
            StringTable {
                raw: vstd::slice::slice_to_vec(vstd::slice::slice_subrange(file_bytes, start, end)),
            },
        )
    }

    /// A table made of the given bytes.
    pub fn from_bytes(raw: Vec<u8>) -> (r: StringTable)
        ensures
            r@ == raw@,
    {
        StringTable { raw }
    }

    pub fn as_bytes(&self) -> (r: &[u8])
        ensures
            r@ == self@,
    {
        self.raw.as_slice()
    }

    pub fn len(&self) -> (r: usize)
        ensures
            r == self@.len(),
    {
        self.raw.len()
    }

    pub fn is_empty(&self) -> (r: bool)
        ensures
            r == (self@.len() == 0),
    {
        self.raw.len() == 0
    }

    /// The zero-terminated name at offset `strx`. Offset 0 is the empty name in
    /// a table that starts with a zero byte, as tables do.
    pub fn get(&self, strx: u32) -> (r: Result<&str, ReadError>)
        ensures
            match r {
                Ok(name) => name_at(self@, strx) == Ok::<_, ReadError>(name@),
                Err(e) => name_at(self@, strx) == Err::<Seq<char>, _>(e),
            },
    {
        let start: usize = strx as usize;
        if start >= self.raw.len() {
            return Err(
                ReadError::BadCmdsize {
                    cmd: 0,
                    cmdsize: 0,
                    at_offset: start,
                    reason: "strx out of bounds",
                },
            );
        }
        let end: usize = find_nul(self.raw.as_slice(), start, self.raw.len());
        if end == self.raw.len() {
            return Err(
                ReadError::BadCmdsize {
                    cmd: 0,
                    cmdsize: 0,
                    at_offset: start,
                    reason: "unterminated string (no null byte before end)",
                },
            );
        }
        match core::str::from_utf8(
            vstd::slice::slice_subrange(self.raw.as_slice(), start, end),
        ) {
            Ok(name) => Ok(name),
            Err(_) => Err(
                ReadError::BadCmdsize {
                    cmd: 0,
                    cmdsize: 0,
                    at_offset: start,
                    reason: "non-UTF-8 bytes in symbol name",
                },
            ),
        }
    }
}

/// The order of names by their bytes from the last to the first, a name that
/// continues further to the left in front of one that stops.
pub open spec fn suffix_less(a: Seq<u8>, b: Seq<u8>) -> bool
    decreases a.len(),
{
    if a.len() == 0 {
        false
    } else if b.len() == 0 {
        true
    } else if a.last() != b.last() {
        a.last() < b.last()
    } else {
        suffix_less(a.drop_last(), b.drop_last())
    }
}

proof fn lemma_suffix_asymmetric(a: Seq<u8>, b: Seq<u8>)
    ensures
        suffix_less(a, b) ==> !suffix_less(b, a),
    decreases a.len(),
{
    if a.len() > 0 && b.len() > 0 {
        lemma_suffix_asymmetric(a.drop_last(), b.drop_last());
    }
}

proof fn lemma_suffix_transitive(a: Seq<u8>, b: Seq<u8>, c: Seq<u8>)
    ensures
        !suffix_less(b, a) && !suffix_less(c, b) ==> !suffix_less(c, a),
    decreases a.len(),
{
    if a.len() > 0 && b.len() > 0 && c.len() > 0 {
        lemma_suffix_transitive(a.drop_last(), b.drop_last(), c.drop_last());
    }
}

/// Names by `suffix_less` of their bytes.
pub struct SuffixOrder;

impl Order<String> for SuffixOrder {
    open spec fn less(a: String, b: String) -> bool {
        suffix_less(text::utf8(a@), text::utf8(b@))
    }

    fn is_less(a: &String, b: &String) -> (r: bool) {
        reverse_suffix_order(a.as_str(), b.as_str())
    }

    proof fn law_asymmetric(a: String, b: String) {
        lemma_suffix_asymmetric(text::utf8(a@), text::utf8(b@));
    }

    proof fn law_transitive(a: String, b: String, c: String) {
        lemma_suffix_transitive(text::utf8(a@), text::utf8(b@), text::utf8(c@));
    }
}

/// Whether `lhs` comes before `rhs` when names are read from their ends.
fn reverse_suffix_order(lhs: &str, rhs: &str) -> (r: bool)
    ensures
        r == suffix_less(text::utf8(lhs@), text::utf8(rhs@)),
{
    let a = lhs.as_bytes();
    let b = rhs.as_bytes();
    let mut i: usize = a.len();
    let mut j: usize = b.len();
    assert(a@.take(i as int) =~= a@ && b@.take(j as int) =~= b@);
    while i > 0
        invariant
            a@ == text::utf8(lhs@),
            b@ == text::utf8(rhs@),
            i <= a@.len(),
            j <= b@.len(),
            suffix_less(a@, b@) == suffix_less(a@.take(i as int), b@.take(j as int)),
        decreases i,
    {
        if j == 0 {
            return true;
        }
        if a[i - 1] != b[j - 1] {
            return a[i - 1] < b[j - 1];
        }
        assert(a@.take(i as int).drop_last() =~= a@.take(i - 1));
        assert(b@.take(j as int).drop_last() =~= b@.take(j - 1));
        i -= 1;
        j -= 1;
    }
    false
}

/// Collects names and lays them out so that a name that ends another shares its
/// bytes.
#[derive(Debug, Clone, PartialEq, Eq)]
pub struct StringTableBuilder {
    names: Vec<String>,
}

/// Where each name stands in a finished table.
#[derive(Debug, Clone, PartialEq, Eq)]
pub struct StringOffsets {
    entries: Vec<(String, u32)>,
}

/// The offset of the first entry for `name`.
pub open spec fn offset_in(entries: Seq<(Seq<char>, u32)>, name: Seq<char>) -> Option<u32>
    decreases entries.len(),
{
    if entries.len() == 0 {
        None
    } else if entries.first().0 == name {
        Some(entries.first().1)
    } else {
        offset_in(entries.drop_first(), name)
    }
}

impl View for StringOffsets {
    type V = Seq<(Seq<char>, u32)>;

    closed spec fn view(&self) -> Seq<(Seq<char>, u32)> {
        named(self.entries@)
    }
}

/// Names and offsets by their views.
pub open spec fn named(entries: Seq<(String, u32)>) -> Seq<(Seq<char>, u32)> {
    entries.map_values(|e: (String, u32)| (e.0@, e.1))
}

impl StringOffsets {
    /// The offset of `name`, if it was inserted.
    pub fn get(&self, name: &str) -> (r: Option<u32>)
        ensures
            r == offset_in(self@, name@),
    {
        let mut i: usize = 0;
        assert(self@.skip(0) =~= self@);
        while i < self.entries.len()
            invariant
                i <= self.entries@.len(),
                offset_in(self@, name@) == offset_in(self@.skip(i as int), name@),
            decreases self.entries@.len() - i,
        {
            assert(self@.skip(i as int).first() == self@[i as int]);
            assert(self@.skip(i as int).drop_first() =~= self@.skip(i + 1));
            if same_text(self.entries[i].0.as_str(), name) {
                return Some(self.entries[i].1);
            }
            i += 1;
        }
        None
    }
}

/// A table under construction: its bytes, the names that were written out and
/// every name with its offset.
pub struct TableLayout {
    pub raw: Seq<u8>,
    pub roots: Seq<(Seq<u8>, u32)>,
    pub entries: Seq<(Seq<char>, u32)>,
}

/// `name` is the tail of `whole`.
pub open spec fn ends_with(whole: Seq<u8>, name: Seq<u8>) -> bool {
    name.len() <= whole.len() && whole.skip(whole.len() - name.len()) == name
}

/// Where the first root that ends with `name` holds it.
pub open spec fn suffix_offset(roots: Seq<(Seq<u8>, u32)>, name: Seq<u8>) -> Option<u32>
    decreases roots.len(),
{
    if roots.len() == 0 {
        None
    } else if ends_with(roots.first().0, name) {
        Some(roots.first().1.wrapping_add((roots.first().0.len() - name.len()) as u32))
    } else {
        suffix_offset(roots.drop_first(), name)
    }
}

/// One name more: it shares a root's bytes if it can, else it is written out.
pub open spec fn placed(t: TableLayout, name: Seq<char>) -> TableLayout {
    match suffix_offset(t.roots, text::utf8(name)) {
        Some(offset) => TableLayout { entries: t.entries.push((name, offset)), ..t },
        None => TableLayout {
            raw: t.raw + text::utf8(name) + seq![0u8],
            roots: t.roots.push((text::utf8(name), t.raw.len() as u32)),
            entries: t.entries.push((name, t.raw.len() as u32)),
        },
    }
}

/// The names placed one after the other behind a zero byte.
pub open spec fn laid_out(names: Seq<Seq<char>>) -> TableLayout
    decreases names.len(),
{
    if names.len() == 0 {
        TableLayout { raw: seq![0u8], roots: seq![], entries: seq![] }
    } else {
        placed(laid_out(names.drop_last()), names.last())
    }
}

/// `raw` with zero bytes behind it up to a multiple of eight.
pub open spec fn padded8(raw: Seq<u8>) -> Seq<u8> {
    raw + Seq::new(((8 - raw.len() % 8) % 8) as nat, |i: int| 0u8)
}

pub open spec fn texts(names: Seq<String>) -> Seq<Seq<char>> {
    names.map_values(|n: String| n@)
}

impl View for StringTableBuilder {
    type V = Seq<Seq<char>>;

    /// The distinct names in the order in which they first came.
    closed spec fn view(&self) -> Seq<Seq<char>> {
        texts(self.names@)
    }
}

/// The names in suffix order, each of them once.
pub open spec fn suffix_sorted(order: Seq<Seq<char>>, names: Seq<Seq<char>>) -> bool {
    &&& order.len() == names.len()
    &&& forall|n: Seq<char>| #[trigger] order.contains(n) <==> names.contains(n)
    &&& forall|i: int, j: int|
        0 <= i < j < order.len() ==> suffix_less(
            text::utf8(#[trigger] order[i]),
            text::utf8(#[trigger] order[j]),
        )
}

pub open spec fn names_suffix_less() -> spec_fn(Seq<char>, Seq<char>) -> bool {
    |a: Seq<char>, b: Seq<char>| suffix_less(text::utf8(a), text::utf8(b))
}

/// The names in suffix order.
pub open spec fn suffix_order(names: Seq<Seq<char>>) -> Seq<Seq<char>> {
    sorting::sorted_by(names, names_suffix_less())
}

/// The names, each of them once, in the order in which they first come.
pub open spec fn once_each(names: Seq<Seq<char>>) -> Seq<Seq<char>>
    decreases names.len(),
{
    if names.len() == 0 {
        seq![]
    } else {
        let rest = once_each(names.drop_last());
        if rest.contains(names.last()) {
            rest
        } else {
            rest.push(names.last())
        }
    }
}

/// The table of these names.
pub open spec fn table_of(names: Seq<Seq<char>>) -> TableLayout {
    laid_out(suffix_order(once_each(names)))
}

impl StringTableBuilder {
    /// No name is held twice.
    pub closed spec fn wf(self) -> bool {
        forall|i: int, j: int|
            0 <= i < j < self.names@.len() ==> (#[trigger] self.names@[i])@ != (
            #[trigger] self.names@[j])@
    }

    pub fn new() -> (r: StringTableBuilder)
        ensures
            r.wf(),
            r@ == Seq::<Seq<char>>::empty(),
    {
        let r = StringTableBuilder { names: Vec::new() };
        assert(r@ =~= Seq::<Seq<char>>::empty());
        r
    }

    pub fn insert(&mut self, name: &str)
        requires
            old(self).wf(),
        ensures
            final(self).wf(),
            final(self)@ == if old(self)@.contains(name@) {
                old(self)@
            } else {
                old(self)@.push(name@)
            },
    {
        let mut i: usize = 0;
        while i < self.names.len()
            invariant
                *self == *old(self),
                self.wf(),
                i <= self.names@.len(),
                forall|k: int| 0 <= k < i ==> (#[trigger] self.names@[k])@ != name@,
            decreases self.names@.len() - i,
        {
            if same_text(self.names[i].as_str(), name) {
                assert(self@[i as int] == name@);
                return;
            }
            i += 1;
        }
        assert forall|k: int| 0 <= k < self@.len() implies self@[k] != name@ by {
            assert(self@[k] == self.names@[k]@);
        }
        self.names.push(name.to_owned());
        assert(self@ =~= old(self)@.push(name@));
    }

    /// Lays the names out in suffix order and pads the table to a multiple of
    /// eight bytes.
    pub fn finish(self) -> (r: (Vec<u8>, StringOffsets))
        requires
            self.wf(),
        ensures
            suffix_sorted(suffix_order(self@), self@),
            r.0@ == padded8(laid_out(suffix_order(self@)).raw),
            r.1@ == laid_out(suffix_order(self@)).entries,
    {
        let ghost given = self.names@;
        let mut names: Vec<String> = self.names;
        stable_sort::<String, SuffixOrder>(&mut names);
        let ghost order = texts(names@);
        proof {
            lemma_sorted_names(given);
            assert(self@ == texts(given));
            sorting::lemma_sort_map::<String, Seq<char>, SuffixOrder>(
                given,
                |n: String| n@,
                names_suffix_less(),
            );
            assert(order == suffix_order(self@));
        }
        let mut raw: Vec<u8> = Vec::new();
        raw.push(0);
        let mut roots: Vec<(String, u32)> = Vec::new();
        let mut entries: Vec<(String, u32)> = Vec::new();
        let mut i: usize = 0;
        assert(raw@ =~= seq![0u8]);
        assert(order.take(0) =~= seq![]);
        assert(root_views(roots@) =~= seq![]);
        assert(named(entries@) =~= seq![]);
        while i < names.len()
            invariant
                i <= names@.len(),
                order == texts(names@),
                laid_out(order.take(i as int)) == (TableLayout {
                    raw: raw@,
                    roots: root_views(roots@),
                    entries: named(entries@),
                }),
            decreases names@.len() - i,
        {
            let ghost before = laid_out(order.take(i as int));
            let name: &String = &names[i];
            assert(order.take(i + 1).drop_last() =~= order.take(i as int));
            assert(order.take(i + 1).last() == name@);
            match find_suffix_offset(&roots, name.as_str()) {
                Some(offset) => {
                    entries.push((name.clone(), offset));
                    assert(named(entries@) =~= before.entries.push((name@, offset)));
                },
                None => {
                    let offset: u32 = raw.len() as u32;
                    push_bytes(&mut raw, name.as_str().as_bytes());
                    raw.push(0);
                    roots.push((name.clone(), offset));
                    entries.push((name.clone(), offset));
                    assert(raw@ =~= before.raw + text::utf8(name@) + seq![0u8]);
                    assert(root_views(roots@) =~= before.roots.push((text::utf8(name@), offset)));
                    assert(named(entries@) =~= before.entries.push((name@, offset)));
                },
            }
            i += 1;
        }
        assert(order.take(i as int) =~= order);
        let ghost body = raw@;
        let ghost pad = (8 - body.len() % 8) % 8;
        let ghost mut k: nat = 0;
        assert(raw@ =~= body + Seq::new(k, |i: int| 0u8));
        while raw.len() % 8 != 0
            invariant
                raw@ == body + Seq::new(k, |i: int| 0u8),
                pad == (8 - body.len() % 8) % 8,
                k <= pad,
            decreases pad - k,
        {
            raw.push(0);
            proof {
                k = k + 1;
            }
            assert(raw@ =~= body + Seq::new(k, |i: int| 0u8));
        }
        assert(k == pad);
        let offsets = StringOffsets { entries };
        assert(raw@ == padded8(laid_out(order).raw));
        (raw, offsets)
    }
}

/// Roots by the bytes of their names.
spec fn root_views(roots: Seq<(String, u32)>) -> Seq<(Seq<u8>, u32)> {
    roots.map_values(|r: (String, u32)| (text::utf8(r.0@), r.1))
}

fn bytes_end_with(whole: &[u8], name: &[u8]) -> (r: bool)
    ensures
        r == ends_with(whole@, name@),
{
    if name.len() > whole.len() {
        return false;
    }
    let skip: usize = whole.len() - name.len();
    let tail = vstd::slice::slice_subrange(whole, skip, whole.len());
    assert(tail@ =~= whole@.skip(skip as int));
    text::same_bytes(tail, name)
}

fn find_suffix_offset(roots: &Vec<(String, u32)>, name: &str) -> (r: Option<u32>)
    ensures
        r == suffix_offset(root_views(roots@), text::utf8(name@)),
{
    let bytes = name.as_bytes();
    let ghost all = root_views(roots@);
    let mut i: usize = 0;
    assert(all.skip(0) =~= all);
    while i < roots.len()
        invariant
            i <= roots@.len(),
            all == root_views(roots@),
            bytes@ == text::utf8(name@),
            suffix_offset(all, bytes@) == suffix_offset(all.skip(i as int), bytes@),
        decreases roots@.len() - i,
    {
        assert(all.skip(i as int).first() == all[i as int]);
        assert(all.skip(i as int).drop_first() =~= all.skip(i + 1));
        let existing = roots[i].0.as_str().as_bytes();
        if bytes_end_with(existing, bytes) {
            return Some(roots[i].1.wrapping_add((existing.len() - bytes.len()) as u32));
        }
        i += 1;
    }
    None
}

proof fn lemma_suffix_total(a: Seq<u8>, b: Seq<u8>)
    requires
        a != b,
    ensures
        suffix_less(a, b) || suffix_less(b, a),
    decreases a.len(),
{
    if a.len() > 0 && b.len() > 0 {
        if a.last() == b.last() {
            if a.drop_last() == b.drop_last() {
                assert(a =~= a.drop_last().push(a.last()));
                assert(b =~= b.drop_last().push(b.last()));
            }
            lemma_suffix_total(a.drop_last(), b.drop_last());
        }
    } else if a.len() == 0 && b.len() == 0 {
        assert(a =~= b);
    }
}

proof fn lemma_sorted_names(given: Seq<String>)
    requires
        forall|i: int, j: int|
            0 <= i < j < given.len() ==> (#[trigger] given[i])@ != (#[trigger] given[j])@,
    ensures
        suffix_sorted(
            texts(sorting::stable_sorted::<String, SuffixOrder>(given)),
            texts(given),
        ),
{
    broadcast use vstd::seq_lib::group_to_multiset_ensures;

    let sorted = sorting::stable_sorted::<String, SuffixOrder>(given);
    sorting::law_sorted::<String, SuffixOrder>(given);
    let order = texts(sorted);
    let names = texts(given);
    assert(given.no_duplicates());
    given.lemma_multiset_has_no_duplicates();
    assert forall|x: String| #[trigger] sorted.to_multiset().count(x) <= 1 by {
        assert(given.to_multiset().count(x) > 0 ==> given.to_multiset().contains(x));
    }
    sorted.lemma_multiset_has_no_duplicates_conv();
    assert forall|x: String| sorted.contains(x) <==> given.contains(x) by {
        assert(sorted.contains(x) <==> sorted.to_multiset().count(x) > 0);
        assert(given.contains(x) <==> given.to_multiset().count(x) > 0);
    }
    assert forall|n: Seq<char>| #[trigger] order.contains(n) <==> names.contains(n) by {
        if order.contains(n) {
            let i = choose|i: int| 0 <= i < order.len() && order[i] == n;
            assert(sorted.contains(sorted[i]));
            let k = choose|k: int| 0 <= k < given.len() && given[k] == sorted[i];
            assert(names[k] == n);
        }
        if names.contains(n) {
            let i = choose|i: int| 0 <= i < names.len() && names[i] == n;
            assert(given.contains(given[i]));
            let k = choose|k: int| 0 <= k < sorted.len() && sorted[k] == given[i];
            assert(order[k] == n);
        }
    }
    assert forall|i: int, j: int| 0 <= i < j < order.len() implies suffix_less(
        text::utf8(#[trigger] order[i]),
        text::utf8(#[trigger] order[j]),
    ) by {
        assert(order[i] == sorted[i]@ && order[j] == sorted[j]@);
        assert(!SuffixOrder::less(sorted[j], sorted[i]));
        assert(sorted.contains(sorted[i]) && sorted.contains(sorted[j]));
        let a = choose|a: int| 0 <= a < given.len() && given[a] == sorted[i];
        let b = choose|b: int| 0 <= b < given.len() && given[b] == sorted[j];
        assert(sorted[i] != sorted[j]);
        assert(a != b);
        assert(order[i] != order[j]) by {
            if a < b {
                assert(given[a]@ != given[b]@);
            } else {
                assert(given[b]@ != given[a]@);
            }
        }
        if text::utf8(order[i]) == text::utf8(order[j]) {
            text::lemma_utf8_injective(order[i], order[j]);
        }
        lemma_suffix_total(text::utf8(order[i]), text::utf8(order[j]));
    }
}

/// `bytes`, and a zero byte behind them, stand at `offset` in the table.
pub open spec fn stands_at(raw: Seq<u8>, bytes: Seq<u8>, offset: int) -> bool {
    &&& 0 <= offset
    &&& offset + bytes.len() < raw.len()
    &&& raw.subrange(offset, offset + bytes.len()) == bytes
    &&& raw[offset + bytes.len()] == 0
}

proof fn lemma_stands_longer(raw: Seq<u8>, more: Seq<u8>, bytes: Seq<u8>, offset: int)
    requires
        stands_at(raw, bytes, offset),
    ensures
        stands_at(raw + more, bytes, offset),
{
    assert((raw + more).subrange(offset, offset + bytes.len()) =~= raw.subrange(
        offset,
        offset + bytes.len(),
    ));
}

proof fn lemma_suffix_stands(raw: Seq<u8>, roots: Seq<(Seq<u8>, u32)>, name: Seq<u8>)
    requires
        raw.len() <= u32::MAX,
        forall|i: int|
            0 <= i < roots.len() ==> stands_at(raw, (#[trigger] roots[i]).0, roots[i].1 as int),
        suffix_offset(roots, name) is Some,
    ensures
        stands_at(raw, name, suffix_offset(roots, name)->0 as int),
    decreases roots.len(),
{
    let whole = roots[0].0;
    let at = roots[0].1 as int;
    if ends_with(whole, name) {
        let d = whole.len() - name.len();
        assert(raw.subrange(at + d, at + d + name.len()) =~= raw.subrange(
            at,
            at + whole.len(),
        ).skip(d));
    } else {
        let rest = roots.drop_first();
        assert forall|i: int| 0 <= i < rest.len() implies stands_at(
            raw,
            (#[trigger] rest[i]).0,
            rest[i].1 as int,
        ) by {
            assert(rest[i] == roots[i + 1]);
        }
        lemma_suffix_stands(raw, rest, name);
    }
}

proof fn lemma_layout_stands(names: Seq<Seq<char>>)
    requires
        laid_out(names).raw.len() <= u32::MAX,
    ensures
        ({
            let t = laid_out(names);
            &&& t.entries.len() == names.len()
            &&& forall|i: int|
                0 <= i < t.roots.len() ==> stands_at(
                    t.raw,
                    (#[trigger] t.roots[i]).0,
                    t.roots[i].1 as int,
                )
            &&& forall|i: int|
                0 <= i < names.len() ==> (#[trigger] t.entries[i]).0 == names[i] && stands_at(
                    t.raw,
                    text::utf8(names[i]),
                    t.entries[i].1 as int,
                )
        }),
    decreases names.len(),
{
    if names.len() > 0 {
        let t0 = laid_out(names.drop_last());
        let t = laid_out(names);
        let name = names.last();
        let b = text::utf8(name);
        lemma_layout_stands(names.drop_last());
        match suffix_offset(t0.roots, b) {
            Some(offset) => {
                lemma_suffix_stands(t0.raw, t0.roots, b);
            },
            None => {
                let more = b + seq![0u8];
                assert(t.raw =~= t0.raw + more);
                assert forall|i: int| 0 <= i < t.roots.len() implies stands_at(
                    t.raw,
                    (#[trigger] t.roots[i]).0,
                    t.roots[i].1 as int,
                ) by {
                    if i < t0.roots.len() {
                        assert(t.roots[i] == t0.roots[i]);
                        lemma_stands_longer(t0.raw, more, t0.roots[i].0, t0.roots[i].1 as int);
                    } else {
                        assert(t.raw.subrange(
                            t0.raw.len() as int,
                            (t0.raw.len() + b.len()) as int,
                        ) =~= b);
                    }
                }
                assert(stands_at(t.raw, b, t0.raw.len() as int)) by {
                    assert(t.raw.subrange(t0.raw.len() as int, (t0.raw.len() + b.len()) as int) =~= b);
                }
            },
        }
        assert forall|i: int| 0 <= i < names.len() implies (#[trigger] t.entries[i]).0 == names[i]
            && stands_at(t.raw, text::utf8(names[i]), t.entries[i].1 as int) by {
            if i < names.len() - 1 {
                assert(t.entries[i] == t0.entries[i]);
                assert(names.drop_last()[i] == names[i]);
                if suffix_offset(t0.roots, b) is None {
                    lemma_stands_longer(
                        t0.raw,
                        b + seq![0u8],
                        text::utf8(names[i]),
                        t0.entries[i].1 as int,
                    );
                    assert(t.raw =~= t0.raw + (b + seq![0u8]));
                }
            }
        }
    }
}

proof fn lemma_nul_after(s: Seq<u8>, i: int, stop: int, end: int)
    requires
        0 <= i <= stop < end,
        s[stop] == 0,
        forall|k: int| i <= k < stop ==> s[k] != 0,
    ensures
        reader::nul_at(s, i, end) == stop,
    decreases stop - i,
{
    if i < stop {
        lemma_nul_after(s, i + 1, stop, end);
    }
}

/// Looking up the offset that the builder gave a name finds that name again, as
/// long as the name holds no zero byte and the table stays below four gigabytes.
pub proof fn law_names_found_again(order: Seq<Seq<char>>, i: int)
    requires
        0 <= i < order.len(),
        laid_out(order).raw.len() <= u32::MAX,
        !text::utf8(order[i]).contains(0u8),
    ensures
        laid_out(order).entries[i].0 == order[i],
        name_at(padded8(laid_out(order).raw), laid_out(order).entries[i].1) == Ok::<_, ReadError>(
            order[i],
        ),
{
    let t = laid_out(order);
    let name = order[i];
    let b = text::utf8(name);
    let raw = padded8(t.raw);
    let at = t.entries[i].1 as int;
    lemma_layout_stands(order);
    let pad = Seq::new(((8 - t.raw.len() % 8) % 8) as nat, |i: int| 0u8);
    lemma_stands_longer(t.raw, pad, b, at);
    assert forall|k: int| at <= k < at + b.len() implies raw[k] != 0 by {
        assert(raw.subrange(at, at + b.len())[k - at] == raw[k]);
        assert(b.contains(b[k - at]));
    }
    lemma_nul_after(raw, at, at + b.len(), raw.len() as int);
    vstd::utf8::encode_utf8_valid_utf8(name);
    vstd::utf8::encode_utf8_decode_utf8(name);
}

/// A finished table starts with a zero byte and is a multiple of eight bytes long.
pub proof fn law_table_shape(order: Seq<Seq<char>>)
    ensures
        padded8(laid_out(order).raw).len() % 8 == 0,
        padded8(laid_out(order).raw).len() > 0,
        padded8(laid_out(order).raw)[0] == 0,
    decreases order.len(),
{
    if order.len() > 0 {
        law_table_shape(order.drop_last());
        lemma_raw_grows(order);
    }
}

proof fn lemma_raw_grows(order: Seq<Seq<char>>)
    ensures
        laid_out(order).raw.len() > 0,
        laid_out(order).raw[0] == 0,
    decreases order.len(),
{
    if order.len() > 0 {
        lemma_raw_grows(order.drop_last());
    }
}

/// No other name of `all` ends with `name`.
pub open spec fn ends_no_other(all: Seq<Seq<char>>, name: Seq<char>) -> bool {
    forall|m: Seq<char>| #[trigger]
        all.contains(m) && m != name ==> !ends_with(text::utf8(m), text::utf8(name))
}

/// The bytes that `names` take in the table of `all`: a name that ends another takes
/// none, any other takes its bytes and a zero byte.
pub open spec fn room(all: Seq<Seq<char>>, names: Seq<Seq<char>>) -> nat
    decreases names.len(),
{
    if names.len() == 0 {
        0
    } else {
        room(all, names.drop_last()) + if ends_no_other(all, names.last()) {
            text::utf8(names.last()).len() + 1
        } else {
            0
        }
    }
}

proof fn lemma_room_without(all: Seq<Seq<char>>, names: Seq<Seq<char>>, i: int)
    requires
        0 <= i < names.len(),
    ensures
        room(all, names) == room(all, names.remove(i)) + room(all, seq![names[i]]),
    decreases names.len(),
{
    let one = seq![names[i]];
    assert(one.drop_last() =~= seq![]);
    assert(room(all, one.drop_last()) == 0);
    if i == names.len() - 1 {
        assert(names.remove(i) =~= names.drop_last());
    } else {
        let less = names.drop_last();
        lemma_room_without(all, less, i);
        assert(names.remove(i).drop_last() =~= less.remove(i));
        assert(names.remove(i).last() == names.last());
    }
}

proof fn lemma_without(s: Seq<Seq<char>>, i: int)
    requires
        s.no_duplicates(),
        0 <= i < s.len(),
    ensures
        s.remove(i).no_duplicates(),
        forall|n: Seq<char>| #[trigger] s.remove(i).contains(n) <==> s.contains(n) && n != s[i],
{
    let less = s.remove(i);
    assert forall|n: Seq<char>| #[trigger] less.contains(n) <==> s.contains(n) && n != s[i] by {
        if less.contains(n) {
            let k = choose|k: int| 0 <= k < less.len() && less[k] == n;
            assert(s[if k < i { k } else { k + 1 }] == n);
        }
        if s.contains(n) && n != s[i] {
            let k = choose|k: int| 0 <= k < s.len() && s[k] == n;
            assert(less[if k < i { k } else { k - 1 }] == n);
        }
    }
}

proof fn lemma_room_any_order(all: Seq<Seq<char>>, a: Seq<Seq<char>>, b: Seq<Seq<char>>)
    requires
        a.no_duplicates(),
        b.no_duplicates(),
        a.len() == b.len(),
        forall|n: Seq<char>| #[trigger] a.contains(n) <==> b.contains(n),
    ensures
        room(all, a) == room(all, b),
    decreases a.len(),
{
    if a.len() > 0 {
        let last = a.len() - 1;
        assert(a.contains(a[last]));
        let i = choose|i: int| 0 <= i < b.len() && b[i] == a[last];
        lemma_room_without(all, a, last);
        lemma_room_without(all, b, i);
        lemma_without(a, last);
        lemma_without(b, i);
        lemma_room_any_order(all, a.remove(last), b.remove(i));
    }
}

proof fn lemma_longer_comes_first(whole: Seq<u8>, name: Seq<u8>)
    requires
        ends_with(whole, name),
        whole != name,
    ensures
        suffix_less(whole, name),
    decreases name.len(),
{
    let d = whole.len() - name.len();
    if d == 0 {
        assert(whole.skip(0) =~= whole);
    }
    if name.len() > 0 {
        assert(whole.last() == whole.skip(d).last());
        assert(whole.drop_last().skip(d) =~= name.drop_last());
        if whole.drop_last() == name.drop_last() {
            assert(whole.len() == name.len());
        }
        lemma_longer_comes_first(whole.drop_last(), name.drop_last());
    }
}

proof fn lemma_root_found(roots: Seq<(Seq<u8>, u32)>, name: Seq<u8>, i: int)
    requires
        0 <= i < roots.len(),
        ends_with(roots[i].0, name),
    ensures
        suffix_offset(roots, name) is Some,
    decreases roots.len(),
{
    if !ends_with(roots.first().0, name) {
        assert(roots.drop_first()[i - 1] == roots[i]);
        lemma_root_found(roots.drop_first(), name, i - 1);
    }
}

proof fn lemma_found_root(roots: Seq<(Seq<u8>, u32)>, name: Seq<u8>) -> (i: int)
    requires
        suffix_offset(roots, name) is Some,
    ensures
        0 <= i < roots.len(),
        ends_with(roots[i].0, name),
    decreases roots.len(),
{
    if ends_with(roots.first().0, name) {
        0
    } else {
        let k = lemma_found_root(roots.drop_first(), name);
        assert(roots.drop_first()[k] == roots[k + 1]);
        k + 1
    }
}

proof fn lemma_ends_through(a: Seq<u8>, b: Seq<u8>, c: Seq<u8>)
    requires
        ends_with(a, b),
        ends_with(b, c),
    ensures
        ends_with(a, c),
{
    let d = a.len() - c.len();
    assert(a.skip(d) =~= a.skip(a.len() - b.len()).skip(b.len() - c.len()));
}

#[verifier::opaque]
spec fn has_root(roots: Seq<(Seq<u8>, u32)>, name: Seq<u8>) -> bool {
    exists|i: int| 0 <= i < roots.len() && ends_with((#[trigger] roots[i]).0, name)
}

#[verifier::opaque]
spec fn is_name(order: Seq<Seq<char>>, bytes: Seq<u8>) -> bool {
    exists|j: int| 0 <= j < order.len() && text::utf8(#[trigger] order[j]) == bytes
}

/// Every name so far ends a root, and every root is one of them.
spec fn covered(order: Seq<Seq<char>>, roots: Seq<(Seq<u8>, u32)>) -> bool {
    &&& forall|j: int|
        0 <= j < order.len() ==> has_root(roots, text::utf8(#[trigger] order[j]))
    &&& forall|i: int| 0 <= i < roots.len() ==> is_name(order, (#[trigger] roots[i]).0)
}

spec fn in_suffix_order(order: Seq<Seq<char>>) -> bool {
    forall|i: int, j: int|
        0 <= i < j < order.len() ==> suffix_less(
            text::utf8(#[trigger] order[i]),
            text::utf8(#[trigger] order[j]),
        )
}

/// A name is found among the roots of those before it exactly where it ends another.
proof fn lemma_shared_or_not(order: Seq<Seq<char>>, k: int, roots: Seq<(Seq<u8>, u32)>)
    requires
        0 <= k < order.len(),
        in_suffix_order(order),
        covered(order.take(k), roots),
    ensures
        suffix_offset(roots, text::utf8(order[k])) is Some <==> !ends_no_other(order, order[k]),
{
    let less = order.take(k);
    let name = order[k];
    let b = text::utf8(name);
    if suffix_offset(roots, b) is Some {
        let i = lemma_found_root(roots, b);
        assert(is_name(less, roots[i].0));
        reveal(is_name);
        let j = choose|j: int| 0 <= j < less.len() && text::utf8(#[trigger] less[j]) == roots[i].0;
        assert(less[j] == order[j]);
        assert(suffix_less(text::utf8(order[j]), text::utf8(order[k])));
        lemma_suffix_asymmetric(b, b);
        assert(order.contains(order[j]) && order[j] != name);
    } else {
        assert forall|m: Seq<char>| #[trigger] order.contains(m) && m != name implies !ends_with(
            text::utf8(m),
            b,
        ) by {
            let j = choose|j: int| 0 <= j < order.len() && order[j] == m;
            if ends_with(text::utf8(m), b) {
                if text::utf8(m) == b {
                    text::lemma_utf8_injective(m, name);
                }
                lemma_longer_comes_first(text::utf8(m), b);
                lemma_suffix_asymmetric(text::utf8(m), b);
                if k < j {
                    assert(suffix_less(text::utf8(order[k]), text::utf8(order[j])));
                }
                assert(less[j] == m);
                assert(has_root(roots, text::utf8(less[j])));
                reveal(has_root);
                let i = choose|i: int|
                    0 <= i < roots.len() && ends_with(
                        (#[trigger] roots[i]).0,
                        text::utf8(less[j]),
                    );
                lemma_ends_through(roots[i].0, text::utf8(m), b);
                lemma_root_found(roots, b, i);
            }
        }
    }
}

proof fn lemma_covered_step(less: Seq<Seq<char>>, t: TableLayout, name: Seq<char>)
    requires
        covered(less, t.roots),
    ensures
        covered(less.push(name), placed(t, name).roots),
{
    let part = less.push(name);
    let roots = placed(t, name).roots;
    let b = text::utf8(name);
    assert forall|j: int| 0 <= j < part.len() implies has_root(
        roots,
        text::utf8(#[trigger] part[j]),
    ) by {
        if j < less.len() {
            assert(has_root(t.roots, text::utf8(less[j])));
            reveal(has_root);
            let i = choose|i: int|
                0 <= i < t.roots.len() && ends_with(
                    (#[trigger] t.roots[i]).0,
                    text::utf8(less[j]),
                );
            assert(roots[i] == t.roots[i]);
        } else {
            reveal(has_root);
            if suffix_offset(t.roots, b) is Some {
                let i = lemma_found_root(t.roots, b);
                assert(roots[i] == t.roots[i]);
            } else {
                assert(b.skip(0) =~= b);
                assert(ends_with(roots[t.roots.len() as int].0, b));
            }
        }
    }
    assert forall|i: int| 0 <= i < roots.len() implies is_name(part, (#[trigger] roots[i]).0) by {
        if i < t.roots.len() {
            assert(is_name(less, t.roots[i].0));
            reveal(is_name);
            let j = choose|j: int|
                0 <= j < less.len() && text::utf8(#[trigger] less[j]) == t.roots[i].0;
            assert(part[j] == less[j]);
        } else {
            reveal(is_name);
            assert(part[less.len() as int] == name);
        }
    }
}

proof fn lemma_layout_room(order: Seq<Seq<char>>, k: int)
    requires
        0 <= k <= order.len(),
        in_suffix_order(order),
    ensures
        covered(order.take(k), laid_out(order.take(k)).roots),
        laid_out(order.take(k)).raw.len() == 1 + room(order, order.take(k)),
    decreases k,
{
    if k > 0 {
        lemma_layout_room(order, k - 1);
        let less = order.take(k - 1);
        let name = order[k - 1];
        assert(order.take(k).drop_last() =~= less);
        assert(order.take(k) =~= less.push(name));
        lemma_shared_or_not(order, k - 1, laid_out(less).roots);
        lemma_covered_step(less, laid_out(less), name);
    } else {
        assert(order.take(0) =~= seq![]);
    }
}

proof fn lemma_padded_len(raw: Seq<u8>)
    ensures
        padded8(raw).len() % 8 == 0,
        raw.len() <= padded8(raw).len() < raw.len() + 8,
{
}

/// A table is as long as one zero byte and the names that end no other name, each with
/// a zero byte, rounded up to a multiple of eight: names that end others take no room.
/// This holds of any names, in whatever order they come.
pub proof fn law_table_size(names: Seq<Seq<char>>)
    requires
        names.no_duplicates(),
        suffix_sorted(suffix_order(names), names),
    ensures
        ({
            let len = padded8(laid_out(suffix_order(names)).raw).len();
            let least = 1 + room(names, names);
            &&& len % 8 == 0
            &&& least <= len < least + 8
        }),
{
    let order = suffix_order(names);
    assert(in_suffix_order(order));
    lemma_layout_room(order, order.len() as int);
    assert(order.take(order.len() as int) =~= order);
    lemma_padded_len(laid_out(order).raw);
    assert(order.no_duplicates()) by {
        assert forall|i: int, j: int| 0 <= i < order.len() && 0 <= j < order.len() && i != j implies order[i]
            != order[j] by {
            let a = if i < j { i } else { j };
            let b = if i < j { j } else { i };
            assert(suffix_less(text::utf8(order[a]), text::utf8(order[b])));
            lemma_suffix_asymmetric(text::utf8(order[a]), text::utf8(order[a]));
        }
    }
    lemma_room_any_order(order, order, names);
    lemma_room_same_names(order, names, names);
}

proof fn lemma_room_same_names(a: Seq<Seq<char>>, b: Seq<Seq<char>>, names: Seq<Seq<char>>)
    requires
        forall|n: Seq<char>| #[trigger] a.contains(n) <==> b.contains(n),
    ensures
        room(a, names) == room(b, names),
    decreases names.len(),
{
    if names.len() > 0 {
        lemma_room_same_names(a, b, names.drop_last());
        let name = names.last();
        if ends_no_other(a, name) {
            assert forall|m: Seq<char>| #[trigger] b.contains(m) && m != name implies !ends_with(
                text::utf8(m),
                text::utf8(name),
            ) by {
                assert(a.contains(m));
            }
        }
        if ends_no_other(b, name) {
            assert forall|m: Seq<char>| #[trigger] a.contains(m) && m != name implies !ends_with(
                text::utf8(m),
                text::utf8(name),
            ) by {
                assert(b.contains(m));
            }
        }
    }
}

} // verus!
