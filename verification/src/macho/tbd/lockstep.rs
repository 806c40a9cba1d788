//! Both readers of stubs, line by line over the same document.

use vstd::prelude::*;
use crate::macho::tbd;
use crate::macho::tbd::agree;
use crate::macho::tbd::decode;
use crate::macho::tbd::decode::Partial;
use crate::macho::tbd::direct;
use crate::macho::tbd::direct::Progress;
use crate::macho::tbd::entry;
use crate::macho::tbd::entry::{EntryModel, Shape};
use crate::macho::tbd::{ScopedModel, TargetModel, TbdFault, TbdModel};
use crate::macho::tbd_yaml::block;
use crate::macho::tbd_yaml::lines;
use crate::macho::tbd_yaml::lines::Line;
use crate::macho::tbd_yaml::values;
use crate::macho::tbd_yaml::{Node, YamlFault};
use crate::text;

verus! {

/// The key and the value that the general reader finds in a line.
pub open spec fn pair_of(full: Seq<char>) -> Result<(Seq<char>, Seq<char>), YamlFault> {
    block::key_value(full, 0, 0)
}

/// The quick reader finds the same key and the same value: in `first`, on raw line `at`,
/// where the general one has the whole of it in `full`. The value ends before the raw
/// line `next`. A list that goes on over an idle line the quick reader refuses.
pub open spec fn agrees(
    raw: Seq<Seq<char>>,
    at: int,
    next: int,
    first: Seq<char>,
    full: Seq<char>,
) -> bool {
    match (direct::key_rest(first), pair_of(full)) {
        (Some((key, rest)), Ok((k, value))) => {
            &&& k == key
            &&& at < next <= raw.len()
            &&& agree::no_nul_escape(value)
            &&& if value.len() > 0 && text::trimmed(value).len() > 0 && text::trimmed(value).first() == '[' {
                &&& rest.len() > 0
                &&& text::trimmed_start(rest).len() > 0 && text::trimmed_start(rest).first() == '['
                &&& forall|gather: bool|
                    (#[trigger] direct::flow_at(raw, at, rest, gather)) is Ok ==> direct::flow_at(
                        raw,
                        at,
                        rest,
                        gather,
                    ) == Ok::<(Seq<char>, int), TbdFault>((text::trimmed(value), next))
            } else {
                &&& rest == value
                &&& next == at + 1
                &&& text::trimmed_start(rest).len() > 0 ==> text::trimmed_start(rest).first() != '['
            }
        },
        _ => false,
    }
}

/// The quick reader takes the list, if there is one.
pub open spec fn gathers(raw: Seq<Seq<char>>, at: int, rest: Seq<char>) -> bool {
    let t = text::trimmed_start(rest);
    t.len() > 0 && t.first() == '[' ==> forall|gather: bool|
        (#[trigger] direct::flow_at(raw, at, rest, gather)) is Ok
}

pub open spec fn key_at(full: Seq<char>) -> Seq<char> {
    pair_of(full)->Ok_0.0
}

pub open spec fn value_at(full: Seq<char>) -> Seq<char> {
    pair_of(full)->Ok_0.1
}

pub open spec fn rest_of(first: Seq<char>) -> Seq<char> {
    (direct::key_rest(first)->0).1
}

/// The lines of a document. Line `k` starts on the raw line `rows[k]` and ends before
/// `ends[k]`. The last of `rows` is where the document ends.
pub struct Page {
    pub raw: Seq<Seq<char>>,
    pub rows: Seq<int>,
    pub ends: Seq<int>,
    pub lines: Seq<Line>,
}

/// The raw lines from `a` to `b` hold nothing, or only a comment.
pub open spec fn idle(raw: Seq<Seq<char>>, a: int, b: int) -> bool {
    forall|j: int| a <= j < b ==> direct::busy(#[trigger] raw[j]) is None
}

pub open spec fn is_scoped_key(key: Seq<char>) -> bool {
    key == "parent-umbrella"@ || key == "allowable-clients"@ || key == "reexported-libraries"@
        || key == "exports"@ || key == "reexports"@
}

impl Page {
    pub open spec fn start(self, k: int) -> Seq<char> {
        self.raw[self.rows[k]]
    }

    pub open spec fn busy(self, k: int) -> Seq<char> {
        direct::busy(self.start(k))->0
    }

    /// Line `k` stands on its own raw lines at an indent, with idle lines behind it.
    pub open spec fn line(self, k: int, indent: usize) -> bool {
        &&& 0 <= k < self.lines.len()
        &&& 0 <= self.rows[k] < self.ends[k] <= self.rows[k + 1] <= self.raw.len()
        &&& self.lines[k].indent == indent
        &&& lines::spaces(self.start(k)) == indent
        &&& direct::busy(self.start(k)) is Some
        &&& !direct::is_mark(self.busy(k))
        &&& forall|j: int|
            self.rows[k] < j < self.rows[k + 1] ==> direct::busy(#[trigger] self.raw[j]) is Some
                ==> !direct::is_mark(direct::busy(self.raw[j])->0) && lines::spaces(self.raw[j]) > 0
        &&& idle(self.raw, self.ends[k], self.rows[k + 1])
    }

    /// A key of the stub.
    pub open spec fn top(self, k: int) -> bool {
        let full = self.lines[k].content;
        &&& self.line(k, 0)
        &&& !block::is_item(full)
        &&& agrees(self.raw, self.rows[k], self.ends[k], self.busy(k), full)
        &&& is_scoped_key(key_at(full)) ==> value_at(full).len() == 0
        &&& value_at(full).len() == 0 ==> self.entry(k + 1)
    }

    /// The first key of an entry.
    pub open spec fn entry(self, k: int) -> bool {
        let full = self.lines[k].content;
        let after = text::trimmed_start(self.busy(k).drop_first());
        &&& self.line(k, 2)
        &&& self.busy(k).first() == '-'
        &&& after.len() > 0
        &&& block::is_item(full)
        &&& full.first() == '-'
        &&& full != "-"@
        &&& agrees(
            self.raw,
            self.rows[k],
            self.ends[k],
            after,
            full.skip("- "@.len() as int),
        )
        &&& full.skip("- "@.len() as int).len() > 0
        &&& key_at(full.skip("- "@.len() as int)) == "targets"@
        &&& value_at(full.skip("- "@.len() as int)).len() > 0
    }

    /// A further key of an entry.
    pub open spec fn nested(self, k: int) -> bool {
        let full = self.lines[k].content;
        &&& self.line(k, 4)
        &&& !block::is_item(full)
        &&& agrees(self.raw, self.rows[k], self.ends[k], self.busy(k), full)
        &&& key_at(full) != "targets"@
        &&& value_at(full).len() > 0
    }

    /// Every line is a key of the stub, or a key of an entry under one.
    pub open spec fn usual(self) -> bool {
        let n = self.lines.len() as int;
        &&& self.rows.len() == n + 1
        &&& self.ends.len() == n
        &&& forall|k: int|
            0 <= k < n ==> #[trigger] self.top(k) || self.entry(k) && k > 0 && (self.entry(k - 1)
                || self.nested(k - 1) || self.top(k - 1) && value_at(
                self.lines[k - 1].content,
            ).len() == 0) || self.nested(k) && k > 0 && (self.entry(k - 1) || self.nested(k - 1))
        &&& self.ended()
    }

    pub open spec fn end(self) -> int {
        self.rows[self.lines.len() as int]
    }

    /// Behind the last line the text or the document ends.
    pub open spec fn ended(self) -> bool {
        let e = self.end();
        &&& 0 <= e <= self.raw.len()
        &&& e < self.raw.len() ==> direct::busy(self.raw[e]) is Some && direct::is_mark(
            direct::busy(self.raw[e])->0,
        )
    }

    /// The raw line `i` is the first of some idle ones in front of an indented line: there
    /// the quick reader stops.
    #[verifier::opaque]
    pub open spec fn stuck(self, i: int) -> bool {
        exists|k: int|
            0 < k < self.lines.len() && (#[trigger] self.lines[k]).indent > 0 && i == self.ends[k
                - 1] && i < self.rows[k]
    }

    /// The list on line `k`, if there is one, is taken by the quick reader.
    pub open spec fn taken(self, k: int) -> bool {
        let b = self.busy(k);
        gathers(
            self.raw,
            self.rows[k],
            rest_of(
                if self.lines[k].indent == 2 {
                    text::trimmed_start(b.drop_first())
                } else {
                    b
                },
            ),
        )
    }

    /// Idle lines stand neither in lists nor in front of indented lines.
    #[verifier::opaque]
    pub open spec fn smooth(self) -> bool {
        forall|k: int|
            0 <= k < self.lines.len() ==> self.taken(k) && ((#[trigger] self.lines[k]).indent > 0
                && k > 0 ==> self.ends[k - 1] == self.rows[k])
    }

    /// The lines from `a` to `b` stand under others.
    pub open spec fn indented(self, a: int, b: int) -> bool {
        forall|k: int| a <= k < b ==> (#[trigger] self.lines[k]).indent > 0
    }
}

/// Those of the entries that serve the target.
pub open spec fn serving(s: Seq<EntryModel>, wanted: TargetModel) -> Seq<EntryModel>
    decreases s.len(),
{
    if s.len() == 0 {
        seq![]
    } else {
        let rest = serving(s.drop_last(), wanted);
        if tbd::any_serves(s.last().targets, wanted) {
            rest.push(s.last())
        } else {
            rest
        }
    }
}

proof fn lemma_serving_kept<M>(s: Seq<EntryModel>, f: spec_fn(EntryModel) -> ScopedModel<M>, wanted: TargetModel)
    requires
        forall|e: EntryModel| (#[trigger] f(e)).targets == e.targets,
    ensures
        tbd::kept(s.map_values(f), wanted) == serving(s, wanted).map_values(f),
    decreases s.len(),
{
    let all = s.map_values(f);
    if s.len() == 0 {
        assert(tbd::kept(all, wanted) =~= serving(s, wanted).map_values(f));
    } else {
        lemma_serving_kept(s.drop_last(), f, wanted);
        assert(all.drop_last() =~= s.drop_last().map_values(f));
        assert(all.last() == f(s.last()));
        assert(tbd::kept(all, wanted) =~= serving(s, wanted).map_values(f));
    }
}

proof fn lemma_strings(items: Seq<Node>, i: int, context: Seq<char>, done: Seq<Seq<char>>)
    requires
        0 <= i <= items.len(),
        decode::strings_from(items, i, context, done) is Ok,
    ensures
        forall|j: int| i <= j < items.len() ==> #[trigger] items[j] is Scalar,
        decode::strings_from(items, i, context, done)->Ok_0 == done + agree::scalar_texts(
            items,
        ).skip(i),
    decreases items.len() - i,
{
    let all = agree::scalar_texts(items);
    if i < items.len() {
        lemma_strings(items, i + 1, context, done.push(items[i]->Scalar_0));
        assert(all.skip(i) =~= seq![all[i]] + all.skip(i + 1));
        assert(done.push(items[i]->Scalar_0) + all.skip(i + 1) =~= done + all.skip(i));
    } else {
        assert(done + all.skip(i) =~= done);
    }
}

proof fn lemma_targets(items: Seq<Node>, i: int, done: Seq<TargetModel>)
    requires
        0 <= i <= items.len(),
        decode::targets_from(items, i, done) is Ok,
    ensures
        forall|j: int| i <= j < items.len() ==> #[trigger] items[j] is Scalar,
        direct::targets_from(agree::scalar_texts(items), i, done) == decode::targets_from(
            items,
            i,
            done,
        ),
    decreases items.len() - i,
{
    if i < items.len() {
        lemma_targets(items, i + 1, done.push(tbd::target_of(items[i]->Scalar_0)->Ok_0));
    }
}

/// The quick reader finds what is expected or, unless `sure`, refuses it.
pub open spec fn same_or_refused<T>(r: Result<T, TbdFault>, expected: T, sure: bool) -> bool {
    match r {
        Ok(v) => v == expected,
        Err(_) => !sure,
    }
}

/// A list that the general reader takes, the quick one takes too or refuses.
proof fn lemma_list(raw: Seq<Seq<char>>, at: int, next: int, first: Seq<char>, full: Seq<char>, line: usize, col: usize, context: Seq<char>)
    requires
        agrees(raw, at, next, first, full),
        values::inline_value(value_at(full), line, col) is Ok,
        value_at(full).len() > 0,
    ensures
        ({
            let n = values::inline_value(value_at(full), line, col)->Ok_0;
            let rest = rest_of(first);
            &&& n is Sequence && decode::string_list(n, context) is Ok ==> same_or_refused(
                direct::string_list(raw, at, rest),
                (decode::string_list(n, context)->Ok_0, next),
                gathers(raw, at, rest),
            )
            &&& decode::target_list(n) is Ok ==> same_or_refused(
                direct::target_list(raw, at, rest),
                (decode::target_list(n)->Ok_0, next),
                gathers(raw, at, rest),
            )
            &&& same_or_refused(direct::skipped(raw, at, rest), next, gathers(raw, at, rest))
            &&& n is Scalar ==> next == at + 1 && n == Node::Scalar(direct::plain(rest))
        }),
{
    let value = value_at(full);
    let n = values::inline_value(value, line, col)->Ok_0;
    let rest = rest_of(first);
    if n is Sequence {
        let items = n->Sequence_0;
        if decode::string_list(n, context) is Ok {
            lemma_strings(items, 0, context, seq![]);
            agree::law_lists_agree(value, line, col);
            assert(agree::scalar_texts(items).skip(0) =~= agree::scalar_texts(items));
            assert(Seq::<Seq<char>>::empty() + agree::scalar_texts(items)
                =~= agree::scalar_texts(items));
        }
        if decode::target_list(n) is Ok {
            lemma_targets(items, 0, seq![]);
            agree::law_lists_agree(value, line, col);
        }
    } else if n is Scalar {
        agree::law_scalars_agree(value, line, col);
    }
}

/// An entry under way on both sides.
spec fn same_entry(g: Progress, p: Partial, wanted: TargetModel) -> bool {
    &&& p.targets is Some
    &&& g.targets == p.targets
    &&& g.serves == Some(tbd::any_serves(p.targets->0, wanted))
    &&& g.serves == Some(true) ==> g.scalar == p.scalar && g.lists == p.lists
}

proof fn lemma_pair(
    page: Page,
    k: int,
    shape: Shape,
    wanted: TargetModel,
    g: Progress,
    p: Partial,
    line: usize,
    col: usize,
)
    requires
        page.nested(k),
        same_entry(g, p, wanted),
        values::inline_value(value_at(page.lines[k].content), line, col) is Ok,
        decode::with_pair(
            shape,
            p,
            key_at(page.lines[k].content),
            values::inline_value(value_at(page.lines[k].content), line, col)->Ok_0,
        ) is Ok,
    ensures
        ({
            let key = key_at(page.lines[k].content);
            let n = values::inline_value(value_at(page.lines[k].content), line, col)->Ok_0;
            let rest = rest_of(page.busy(k));
            let r = direct::with_pair(page.raw, page.rows[k], shape, wanted, g, key, rest);
            &&& page.taken(k) ==> r is Ok
            &&& r is Ok ==> r->Ok_0.1 == page.ends[k] && same_entry(
                r->Ok_0.0,
                decode::with_pair(shape, p, key, n)->Ok_0,
                wanted,
            )
        }),
{
    let full = page.lines[k].content;
    lemma_list(
        page.raw,
        page.rows[k],
        page.ends[k],
        page.busy(k),
        full,
        line,
        col,
        key_at(full),
    );
    lemma_value_not_null(value_at(full), full, line, col);
}

proof fn lemma_value_not_null(value: Seq<char>, full: Seq<char>, line: usize, col: usize)
    requires
        pair_of(full) is Ok,
        value == value_at(full),
        value.len() > 0,
    ensures
        values::inline_value(value, line, col) != Ok::<Node, YamlFault>(Node::Null),
{
    agree::lemma_start_stays(full.skip(
        crate::macho::tbd_yaml::scan::colon_from(
            full,
            0,
            crate::macho::tbd_yaml::scan::nothing_open(),
        )->0 + 1,
    ));
    agree::lemma_trimmed_nonempty(value);
}

proof fn lemma_child_on_line(
    lines: Seq<Line>,
    cursor: int,
    indent: usize,
    rest: Seq<char>,
    line: usize,
    col: usize,
)
    requires
        rest.len() > 0,
    ensures
        block::child(lines, cursor, indent, rest, line, col) == match values::inline_value(
            rest,
            line,
            col,
        ) {
            Ok(v) => Ok((v, cursor)),
            Err(e) => Err(e),
        },
{
}

proof fn lemma_rows(page: Page, i: int, j: int)
    requires
        page.usual(),
        0 <= i <= j <= page.lines.len(),
    ensures
        0 <= page.rows[i] <= page.rows[j] <= page.raw.len(),
        i < j ==> page.rows[i] < page.rows[j],
        i < j ==> page.rows[i] < page.ends[j - 1] <= page.rows[j],
    decreases j - i,
{
    if i < j {
        assert(page.top(i) || page.entry(i) || page.nested(i));
        lemma_rows(page, i + 1, j);
    } else if j < page.lines.len() {
        assert(page.top(j) || page.entry(j) || page.nested(j));
    }
}

proof fn lemma_gets_stuck(page: Page, k: int)
    requires
        0 < k < page.lines.len(),
        page.lines[k].indent > 0,
        page.ends[k - 1] < page.rows[k],
    ensures
        page.stuck(page.ends[k - 1]),
{
    reveal(Page::stuck);
}

proof fn lemma_taken(page: Page, k: int)
    requires
        page.smooth(),
        0 <= k < page.lines.len(),
    ensures
        page.taken(k),
{
    reveal(Page::smooth);
    assert(page.lines[k].indent >= 0);
}

/// Where the quick reader stops in front of idle lines, it has read all that it can of
/// the entries.
proof fn lemma_stuck(page: Page, i: int, shape: Shape, wanted: TargetModel)
    requires
        page.usual(),
        page.stuck(i),
    ensures
        0 <= i < page.raw.len(),
        direct::busy(page.raw[i]) is None,
        !page.smooth(),
        forall|g: Progress|
            #[trigger] direct::nested_from(page.raw, i, shape, wanted, g) == Ok::<
                (Progress, int),
                TbdFault,
            >((g, i)),
        forall|done: Seq<EntryModel>|
            #[trigger] direct::entries_from(page.raw, i, shape, wanted, done) == Ok::<
                (Seq<EntryModel>, int),
                TbdFault,
            >((done, i)),
{
    reveal(Page::stuck);
    reveal(Page::smooth);
    let k = choose|k: int|
        0 < k < page.lines.len() && (#[trigger] page.lines[k]).indent > 0 && i == page.ends[k - 1]
            && i < page.rows[k];
    assert(page.top(k - 1) || page.entry(k - 1) || page.nested(k - 1));
}

proof fn lemma_nested(
    page: Page,
    c: int,
    done: Seq<(Seq<char>, Node)>,
    shape: Shape,
    wanted: TargetModel,
    g: Progress,
    p: Partial,
)
    requires
        page.usual(),
        0 < c <= page.lines.len(),
        block::pairs_from(page.lines, c, 4, done) matches Ok((Node::Mapping(pairs), _))
            && decode::pairs_from(shape, pairs, done.len() as int, p) is Ok,
        same_entry(g, p, wanted),
    ensures
        ({
            let (node, m) = block::pairs_from(page.lines, c, 4, done)->Ok_0;
            let pairs = node->Mapping_0;
            let r = direct::nested_from(page.raw, page.ends[c - 1], shape, wanted, g);
            &&& c <= m <= page.lines.len()
            &&& page.smooth() ==> r is Ok
            &&& r is Ok ==> page.ends[c - 1] <= r->Ok_0.1 <= page.raw.len()
            &&& r is Ok ==> page.stuck(r->Ok_0.1) || r->Ok_0.1 == page.ends[m - 1] && same_entry(
                r->Ok_0.0,
                decode::pairs_from(shape, pairs, done.len() as int, p)->Ok_0,
                wanted,
            )
        }),
    decreases page.lines.len() - c,
{
    let n = page.lines.len() as int;
    let (node, m) = block::pairs_from(page.lines, c, 4, done)->Ok_0;
    let pairs = node->Mapping_0;
    let i = page.ends[c - 1];
    lemma_pairs_go_on(page, c, done);
    lemma_rows(page, c - 1, c);
    assert(page.top(c - 1) || page.entry(c - 1) || page.nested(c - 1));
    if c < n {
        assert(page.top(c) || page.entry(c) || page.nested(c));
    }
    if c < n && page.nested(c) {
        if i < page.rows[c] {
            lemma_gets_stuck(page, c);
            lemma_stuck(page, i, shape, wanted);
        } else {
            let full = page.lines[c].content;
            let line = page.lines[c].line_no;
            let col = block::value_col(4, key_at(full));
            lemma_child_on_line(page.lines, c + 1, 4, value_at(full), line, col);
            let v = values::inline_value(value_at(full), line, col)->Ok_0;
            let more = done.push((key_at(full), v));
            assert(block::pairs_from(page.lines, c, 4, done) == block::pairs_from(
                page.lines,
                c + 1,
                4,
                more,
            ));
            lemma_nested_prefix(page, c + 1, more);
            assert(pairs[done.len() as int] == (key_at(full), v)) by {
                assert(pairs.take(more.len() as int)[done.len() as int] == more[done.len() as int]);
            }
            lemma_pair(page, c, shape, wanted, g, p, line, col);
            let q = decode::with_pair(shape, p, key_at(full), v)->Ok_0;
            let r = direct::with_pair(
                page.raw,
                page.rows[c],
                shape,
                wanted,
                g,
                key_at(full),
                rest_of(page.busy(c)),
            );
            if page.smooth() {
                lemma_taken(page, c);
            }
            assert(direct::nested_pair(page.raw, page.rows[c]) == direct::key_rest(page.busy(c)));
            if r is Ok {
                lemma_nested(page, c + 1, more, shape, wanted, r->Ok_0.0, q);
            }
        }
    } else {
        assert(pairs == done && m == c);
        assert(direct::nested_pair(page.raw, i) is None);
    }
}

proof fn lemma_nested_prefix(page: Page, c: int, done: Seq<(Seq<char>, Node)>)
    requires
        page.usual(),
        0 <= c <= page.lines.len(),
        block::pairs_from(page.lines, c, 4, done) matches Ok((Node::Mapping(_), _)),
    ensures
        ({
            let pairs = (block::pairs_from(page.lines, c, 4, done)->Ok_0).0->Mapping_0;
            &&& done.len() <= pairs.len()
            &&& pairs.take(done.len() as int) == done
        }),
    decreases page.lines.len() - c,
{
    let pairs = (block::pairs_from(page.lines, c, 4, done)->Ok_0).0->Mapping_0;
    let n = page.lines.len() as int;
    if c < n {
        assert(page.top(c) || page.entry(c) || page.nested(c));
    }
    if c < n && page.nested(c) {
        let full = page.lines[c].content;
        let line = page.lines[c].line_no;
        let col = block::value_col(4, key_at(full));
        lemma_child_on_line(page.lines, c + 1, 4, value_at(full), line, col);
        let v = values::inline_value(value_at(full), line, col)->Ok_0;
        let more = done.push((key_at(full), v));
        lemma_nested_prefix(page, c + 1, more);
        assert(pairs.take(more.len() as int).take(done.len() as int) =~= pairs.take(
            done.len() as int,
        ));
        assert(more.take(done.len() as int) =~= done);
    } else {
        assert(pairs.take(done.len() as int) =~= done);
    }
}

proof fn lemma_no_scalar(shape: Shape, pairs: Seq<(Seq<char>, Node)>, i: int, p: Partial)
    requires
        shape.scalar_key is None,
        p.scalar is None,
        decode::pairs_from(shape, pairs, i, p) is Ok,
    ensures
        (decode::pairs_from(shape, pairs, i, p)->Ok_0).scalar is None,
    decreases pairs.len() - i,
{
    if i < pairs.len() {
        lemma_no_scalar(
            shape,
            pairs,
            i + 1,
            decode::with_pair(shape, p, pairs[i].0, pairs[i].1)->Ok_0,
        );
    }
}

/// The quick reader has found an entry.
spec fn entry_found(g: Progress, x: EntryModel, wanted: TargetModel) -> bool {
    &&& g.targets == Some(x.targets)
    &&& g.serves == Some(tbd::any_serves(x.targets, wanted))
    &&& g.serves == Some(true) ==> g.lists == x.lists && x.scalar == match g.scalar {
        Some(s) => s,
        None => ""@,
    }
}

/// One entry on both sides.
proof fn lemma_entry(page: Page, c: int, shape: Shape, wanted: TargetModel)
    requires
        page.usual(),
        0 <= c < page.lines.len(),
        page.entry(c),
        ({
            let after = page.lines[c].content.skip("- "@.len() as int);
            block::item(page.lines, c, 2, after) matches Ok((node, _)) && decode::entry_of(
                shape,
                node,
            ) is Ok
        }),
    ensures
        ({
            let after = page.lines[c].content.skip("- "@.len() as int);
            let (node, m) = block::item(page.lines, c, 2, after)->Ok_0;
            let x = decode::entry_of(shape, node)->Ok_0;
            let first = text::trimmed_start(page.busy(c).drop_first());
            let r = direct::entry_at(
                page.raw,
                page.rows[c],
                shape,
                wanted,
                "targets"@,
                rest_of(first),
            );
            &&& c < m <= page.lines.len()
            &&& page.smooth() ==> r is Ok
            &&& r is Ok ==> page.rows[c] < r->Ok_0.1 <= page.raw.len()
            &&& r is Ok ==> page.stuck(r->Ok_0.1) || r->Ok_0.1 == page.ends[m - 1] && entry_found(
                r->Ok_0.0,
                x,
                wanted,
            )
        }),
{
    let after = page.lines[c].content.skip("- "@.len() as int);
    let line = page.lines[c].line_no;
    let key = key_at(after);
    let col = block::value_col(4, key);
    let v = values::inline_value(value_at(after), line, col)->Ok_0;
    let first = text::trimmed_start(page.busy(c).drop_first());
    assert(2usize.wrapping_add(2) == 4);
    lemma_child_on_line(page.lines, c + 1, 4, value_at(after), line, col);
    assert(block::item(page.lines, c, 2, after) == block::pairs_from(
        page.lines,
        c + 1,
        4,
        seq![(key, v)],
    ));
    let (node, m) = block::item(page.lines, c, 2, after)->Ok_0;
    let pairs = node->Mapping_0;
    lemma_nested_prefix(page, c + 1, seq![(key, v)]);
    assert(pairs[0] == (key, v)) by {
        assert(pairs.take(1)[0] == seq![(key, v)][0]);
    }
    lemma_list(page.raw, page.rows[c], page.ends[c], first, after, line, col, key);
    if page.smooth() {
        lemma_taken(page, c);
    }
    let start = decode::nothing_yet(shape);
    let p = decode::with_pair(shape, start, key, v)->Ok_0;
    let g = Progress {
        targets: p.targets,
        serves: Some(tbd::any_serves(p.targets->0, wanted)),
        ..direct::nothing_yet(shape)
    };
    assert(direct::nothing_yet(shape).lists =~= start.lists);
    assert(same_entry(g, p, wanted));
    lemma_nested(page, c + 1, seq![(key, v)], shape, wanted, g, p);
    if shape.scalar_key is None {
        lemma_no_scalar(shape, pairs, 0, start);
    }
}

proof fn lemma_sequence_prefix(page: Page, c: int, done: Seq<Node>)
    requires
        page.usual(),
        0 <= c <= page.lines.len(),
        block::sequence_from(page.lines, c, 2, done) matches Ok((Node::Sequence(_), _)),
    ensures
        ({
            let items = (block::sequence_from(page.lines, c, 2, done)->Ok_0).0->Sequence_0;
            &&& done.len() <= items.len()
            &&& items.take(done.len() as int) == done
        }),
    decreases page.lines.len() - c,
{
    let items = (block::sequence_from(page.lines, c, 2, done)->Ok_0).0->Sequence_0;
    let n = page.lines.len() as int;
    if c < n {
        assert(page.top(c) || page.entry(c) || page.nested(c));
    }
    if c < n && page.entry(c) {
        let after = page.lines[c].content.skip("- "@.len() as int);
        let (v, next) = block::item(page.lines, c, 2, after)->Ok_0;
        if block::leads_on(page.lines, c, next) {
            let more = done.push(v);
            lemma_sequence_prefix(page, next, more);
            assert(items.take(more.len() as int).take(done.len() as int) =~= items.take(
                done.len() as int,
            ));
            assert(more.take(done.len() as int) =~= done);
        } else {
            assert(items.take(done.len() as int) =~= done);
        }
    } else {
        assert(items.take(done.len() as int) =~= done);
    }
}

proof fn lemma_serving_push(acc: Seq<EntryModel>, x: EntryModel, wanted: TargetModel)
    ensures
        serving(acc.push(x), wanted) == if tbd::any_serves(x.targets, wanted) {
            serving(acc, wanted).push(x)
        } else {
            serving(acc, wanted)
        },
{
    assert(acc.push(x).drop_last() =~= acc);
}

/// One entry more on the quick side.
proof fn lemma_entry_step(
    page: Page,
    c: int,
    next: int,
    shape: Shape,
    wanted: TargetModel,
    acc: Seq<EntryModel>,
    x: EntryModel,
)
    requires
        page.usual(),
        page.entry(c),
        ({
            let first = text::trimmed_start(page.busy(c).drop_first());
            direct::entry_at(
                page.raw,
                page.rows[c],
                shape,
                wanted,
                "targets"@,
                rest_of(first),
            ) matches Ok((_, at)) ==> page.rows[c] < at <= page.raw.len()
        }),
    ensures
        ({
            let first = text::trimmed_start(page.busy(c).drop_first());
            let e = direct::entry_at(
                page.raw,
                page.rows[c],
                shape,
                wanted,
                "targets"@,
                rest_of(first),
            );
            let r = direct::entries_from(
                page.raw,
                page.rows[c],
                shape,
                wanted,
                serving(acc, wanted),
            );
            &&& e is Err ==> r is Err
            &&& e is Ok && page.stuck(e->Ok_0.1) ==> r is Ok && r->Ok_0.1 == e->Ok_0.1
            &&& e is Ok && e->Ok_0.1 == page.ends[next - 1] && entry_found(e->Ok_0.0, x, wanted)
                ==> r == direct::entries_from(
                page.raw,
                page.ends[next - 1],
                shape,
                wanted,
                serving(acc.push(x), wanted),
            )
        }),
{
    let first = text::trimmed_start(page.busy(c).drop_first());
    let e = direct::entry_at(page.raw, page.rows[c], shape, wanted, "targets"@, rest_of(first));
    lemma_serving_push(acc, x, wanted);
    assert(direct::entry_start(page.raw, page.rows[c]) == Some(
        Ok::<(Seq<char>, Seq<char>), TbdFault>(("targets"@, rest_of(first))),
    ));
    if e is Ok {
        let (g, at) = e->Ok_0;
        let done = serving(acc, wanted);
        let made = EntryModel {
            targets: g.targets->0,
            scalar: match g.scalar {
                Some(s) => s,
                None => ""@,
            },
            lists: g.lists,
        };
        assert(direct::entries_from(page.raw, page.rows[c], shape, wanted, done)
            == direct::entries_from(
            page.raw,
            at,
            shape,
            wanted,
            if g.serves == Some(true) {
                done.push(made)
            } else {
                done
            },
        ));
        if entry_found(g, x, wanted) && g.serves == Some(true) {
            assert(made == x);
        }
        if page.stuck(at) {
            lemma_stuck(page, at, shape, wanted);
        }
    }
}

/// The entries under a key on both sides.
proof fn lemma_entries(
    page: Page,
    c: int,
    done: Seq<Node>,
    shape: Shape,
    wanted: TargetModel,
    acc: Seq<EntryModel>,
)
    requires
        page.usual(),
        0 < c <= page.lines.len(),
        c < page.lines.len() ==> !page.nested(c),
        block::sequence_from(page.lines, c, 2, done) matches Ok((Node::Sequence(items), _))
            && decode::entries_from(shape, items, done.len() as int, acc) is Ok,
    ensures
        ({
            let (node, m) = block::sequence_from(page.lines, c, 2, done)->Ok_0;
            let items = node->Sequence_0;
            let all = decode::entries_from(shape, items, done.len() as int, acc)->Ok_0;
            let r = direct::entries_from(
                page.raw,
                page.ends[c - 1],
                shape,
                wanted,
                serving(acc, wanted),
            );
            &&& c <= m <= page.lines.len()
            &&& page.smooth() ==> r is Ok
            &&& r is Ok ==> page.ends[c - 1] <= r->Ok_0.1 <= page.raw.len()
            &&& r is Ok ==> page.stuck(r->Ok_0.1) || r->Ok_0 == (
                serving(all, wanted),
                page.ends[m - 1],
            )
        }),
    decreases page.lines.len() - c,
{
    let n = page.lines.len() as int;
    let (node, m) = block::sequence_from(page.lines, c, 2, done)->Ok_0;
    let items = node->Sequence_0;
    let i = page.ends[c - 1];
    lemma_sequence_goes_on(page, c, done);
    lemma_rows(page, c - 1, c);
    assert(page.top(c - 1) || page.entry(c - 1) || page.nested(c - 1));
    if c < n {
        assert(page.top(c) || page.entry(c) || page.nested(c));
    }
    if c < n && page.entry(c) {
        assert(page.lines[c].indent > 0);
        if i < page.rows[c] {
            lemma_gets_stuck(page, c);
            lemma_stuck(page, i, shape, wanted);
        } else {
            let after = page.lines[c].content.skip("- "@.len() as int);
            let (v, next) = block::item(page.lines, c, 2, after)->Ok_0;
            lemma_item_leads_on(page, c, after);
            let more = done.push(v);
            lemma_sequence_prefix(page, next, more);
            assert(items[done.len() as int] == v) by {
                assert(items.take(more.len() as int)[done.len() as int] == more[done.len() as int]);
            }
            let x = decode::entry_of(shape, v)->Ok_0;
            lemma_entry(page, c, shape, wanted);
            lemma_rows(page, c, next);
            lemma_entry_step(page, c, next, shape, wanted, acc, x);
            lemma_entries(page, next, more, shape, wanted, acc.push(x));
        }
    } else {
        assert(items == done && m == c);
        assert(direct::entry_start(page.raw, i) is None);
    }
}

proof fn lemma_item_leads_on(page: Page, c: int, after: Seq<char>)
    requires
        page.usual(),
        page.entry(c),
        after == page.lines[c].content.skip("- "@.len() as int),
        block::item(page.lines, c, 2, after) is Ok,
    ensures
        block::leads_on(page.lines, c, (block::item(page.lines, c, 2, after)->Ok_0).1),
        (block::item(page.lines, c, 2, after)->Ok_0).0 is Mapping,
        page.indented(c, (block::item(page.lines, c, 2, after)->Ok_0).1),
        ({
            let m = (block::item(page.lines, c, 2, after)->Ok_0).1;
            m < page.lines.len() ==> !page.nested(m)
        }),
{
    let line = page.lines[c].line_no;
    let key = key_at(after);
    let col = block::value_col(4, key);
    assert(2usize.wrapping_add(2) == 4);
    lemma_child_on_line(page.lines, c + 1, 4, value_at(after), line, col);
    let v = values::inline_value(value_at(after), line, col)->Ok_0;
    lemma_pairs_go_on(page, c + 1, seq![(key, v)]);
}

/// Where an entry stands, there is a sequence with a mapping in it.
proof fn lemma_first_entry(page: Page, c: int)
    requires
        page.usual(),
        page.entry(c),
        block::sequence_from(page.lines, c, 2, seq![]) is Ok,
    ensures
        ({
            let node = (block::sequence_from(page.lines, c, 2, seq![])->Ok_0).0;
            &&& node is Sequence
            &&& decode::target_list(node) is Err
        }),
{
    let after = page.lines[c].content.skip("- "@.len() as int);
    let (v, next) = block::item(page.lines, c, 2, after)->Ok_0;
    lemma_item_leads_on(page, c, after);
    lemma_sequence_is_one(page.lines, next, seq![v]);
    lemma_sequence_prefix(page, next, seq![v]);
    assert(Seq::<Node>::empty().push(v) =~= seq![v]);
    let items = (block::sequence_from(page.lines, c, 2, seq![])->Ok_0).0->Sequence_0;
    assert(items[0] == items.take(1)[0]);
}

proof fn lemma_sequence_is_one(lines: Seq<Line>, c: int, done: Seq<Node>)
    ensures
        block::sequence_from(lines, c, 2, done) matches Ok((node, _)) ==> node is Sequence,
    decreases lines.len() - c,
{
    if block::sequence_from(lines, c, 2, done) is Ok && 0 <= c < lines.len() {
        let content = lines[c].content;
        let after = if content == "-"@ {
            seq![]
        } else {
            content.skip("- "@.len() as int)
        };
        if let Ok((v, next)) = block::item(lines, c, 2, after) {
            if block::leads_on(lines, c, next) {
                lemma_sequence_is_one(lines, next, done.push(v));
            }
        }
    }
}

proof fn lemma_pairs_go_on(page: Page, c: int, done: Seq<(Seq<char>, Node)>)
    requires
        page.usual(),
        0 <= c <= page.lines.len(),
        block::pairs_from(page.lines, c, 4, done) is Ok,
    ensures
        c <= (block::pairs_from(page.lines, c, 4, done)->Ok_0).1 <= page.lines.len(),
        (block::pairs_from(page.lines, c, 4, done)->Ok_0).0 is Mapping,
        page.indented(c, (block::pairs_from(page.lines, c, 4, done)->Ok_0).1),
        ({
            let m = (block::pairs_from(page.lines, c, 4, done)->Ok_0).1;
            m < page.lines.len() ==> !page.nested(m)
        }),
    decreases page.lines.len() - c,
{
    if c < page.lines.len() {
        assert(page.top(c) || page.entry(c) || page.nested(c));
        if page.nested(c) {
            let full = page.lines[c].content;
            let line = page.lines[c].line_no;
            let col = block::value_col(4, key_at(full));
            lemma_child_on_line(page.lines, c + 1, 4, value_at(full), line, col);
            let v = values::inline_value(value_at(full), line, col)->Ok_0;
            lemma_pairs_go_on(page, c + 1, done.push((key_at(full), v)));
        }
    }
}

proof fn lemma_keys_differ()
    ensures
        !is_scoped_key("tbd-version"@),
        !is_scoped_key("targets"@),
        !is_scoped_key("install-name"@),
        !is_scoped_key("current-version"@),
        !is_scoped_key("compatibility-version"@),
{
    reveal_strlit("tbd-version");
    reveal_strlit("targets");
    reveal_strlit("install-name");
    reveal_strlit("current-version");
    reveal_strlit("compatibility-version");
    reveal_strlit("parent-umbrella");
    reveal_strlit("allowable-clients");
    reveal_strlit("reexported-libraries");
    reveal_strlit("exports");
    reveal_strlit("reexports");
    assert("targets"@[0] != "exports"@[0]);
    assert("current-version"@[0] != "parent-umbrella"@[0]);
    assert("tbd-version"@.len() == 11 && "install-name"@.len() == 12);
    assert("compatibility-version"@.len() == 21 && "parent-umbrella"@.len() == 15);
    assert("allowable-clients"@.len() == 17 && "reexported-libraries"@.len() == 20);
    assert("exports"@.len() == 7 && "reexports"@.len() == 9);
}

/// The value of a key that stands on the key's line, on both sides.
proof fn lemma_plain_key(
    page: Page,
    c: int,
    wanted: TargetModel,
    full: bool,
    t: TbdModel,
    line: usize,
    col: usize,
)
    requires
        page.top(c),
        value_at(page.lines[c].content).len() > 0,
        values::inline_value(value_at(page.lines[c].content), line, col) is Ok,
        decode::with_key(
            t,
            key_at(page.lines[c].content),
            values::inline_value(value_at(page.lines[c].content), line, col)->Ok_0,
        ) is Ok,
    ensures
        ({
            let key = key_at(page.lines[c].content);
            let v = values::inline_value(value_at(page.lines[c].content), line, col)->Ok_0;
            let u = decode::with_key(t, key, v)->Ok_0;
            let r = direct::with_key(
                page.raw,
                page.rows[c],
                wanted,
                full,
                tbd::seen(t, wanted, full),
                key,
                rest_of(page.busy(c)),
            );
            &&& page.taken(c) ==> r is Ok
            &&& r is Ok ==> r->Ok_0.0 == tbd::seen(u, wanted, full)
            &&& r is Ok ==> r->Ok_0.1 == page.ends[c] || r->Ok_0.1 == direct::block_end(
                page.raw,
                page.rows[c] + 1,
            )
        }),
{
    let held = page.lines[c].content;
    lemma_list(
        page.raw,
        page.rows[c],
        page.ends[c],
        page.busy(c),
        held,
        line,
        col,
        key_at(held),
    );
}

proof fn lemma_child_below(page: Page, c: int, line: usize, col: usize)
    requires
        page.usual(),
        page.top(c),
        value_at(page.lines[c].content).len() == 0,
    ensures
        block::child(page.lines, c + 1, 0, value_at(page.lines[c].content), line, col)
            == block::sequence_from(page.lines, c + 1, 2, seq![]),
{
    assert(page.entry(c + 1));
    lemma_block_of_entries(page, c + 1);
}

proof fn lemma_block_of_entries(page: Page, c: int)
    requires
        page.entry(c),
    ensures
        block::block(page.lines, c, 2) == block::sequence_from(page.lines, c, 2, seq![]),
{
}

/// The entries of one shape under a key, on both sides.
proof fn lemma_shape(page: Page, c: int, shape: Shape, wanted: TargetModel)
    requires
        page.usual(),
        page.entry(c),
        0 < c,
        block::sequence_from(page.lines, c, 2, seq![]) matches Ok((node, _)) && decode::entries(
            shape,
            node,
        ) is Ok,
    ensures
        ({
            let (node, m) = block::sequence_from(page.lines, c, 2, seq![])->Ok_0;
            let all = decode::entries(shape, node)->Ok_0;
            let r = direct::entries_from(page.raw, page.ends[c - 1], shape, wanted, seq![]);
            &&& c <= m <= page.lines.len()
            &&& page.smooth() ==> r is Ok
            &&& r is Ok ==> page.ends[c - 1] <= r->Ok_0.1 <= page.raw.len()
            &&& r is Ok ==> page.stuck(r->Ok_0.1) || r->Ok_0 == (
                serving(all, wanted),
                page.ends[m - 1],
            )
            &&& tbd::kept(entry::scalars_of(all), wanted) == entry::scalars_of(
                serving(all, wanted),
            )
            &&& tbd::kept(entry::texts_of(all), wanted) == entry::texts_of(serving(all, wanted))
            &&& tbd::kept(entry::symbols_of(all), wanted) == entry::symbols_of(
                serving(all, wanted),
            )
        }),
{
    let (node, m) = block::sequence_from(page.lines, c, 2, seq![])->Ok_0;
    let all = decode::entries(shape, node)->Ok_0;
    lemma_entries(page, c, seq![], shape, wanted, seq![]);
    assert(serving(Seq::<EntryModel>::empty(), wanted) =~= seq![]);
    lemma_serving_kept(
        all,
        |e: EntryModel| ScopedModel { targets: e.targets, value: e.scalar },
        wanted,
    );
    lemma_serving_kept(
        all,
        |e: EntryModel| ScopedModel { targets: e.targets, value: e.lists[0] },
        wanted,
    );
    lemma_serving_kept(
        all,
        |e: EntryModel|
            ScopedModel {
                targets: e.targets,
                value: tbd::ListsModel {
                    symbols: e.lists[0],
                    weak_symbols: e.lists[1],
                    thread_local_symbols: e.lists[2],
                    objc_classes: e.lists[3],
                    objc_eh_types: e.lists[4],
                    objc_ivars: e.lists[5],
                },
            },
        wanted,
    );
}

/// What is indented under line `k` is passed over, up to line `m`.
proof fn lemma_passed(page: Page, k: int, m: int, j: int)
    requires
        page.usual(),
        0 <= k < m <= page.lines.len(),
        m < page.lines.len() ==> page.top(m),
        page.indented(k + 1, m),
        page.rows[k] < j <= page.rows[k + 1],
    ensures
        direct::block_end(page.raw, j) == page.rows[m],
    decreases m - k, page.rows[k + 1] - j,
{
    assert(page.top(k) || page.entry(k) || page.nested(k));
    if j < page.rows[k + 1] {
        assert(0 <= j < page.raw.len());
        assert(direct::busy(page.raw[j]) is Some ==> !direct::is_mark(
            direct::busy(page.raw[j])->0,
        ) && lines::spaces(page.raw[j]) > 0);
        lemma_passed(page, k, m, j + 1);
    } else if k + 1 < m {
        assert(page.lines[k + 1].indent > 0);
        assert(page.top(k + 1) || page.entry(k + 1) || page.nested(k + 1));
        lemma_passed(page, k + 1, m, j + 1);
    }
}

/// A key with entries under it, on both sides.
proof fn lemma_scoped_key(page: Page, c: int, wanted: TargetModel, full: bool, t: TbdModel)
    requires
        page.usual(),
        page.top(c),
        value_at(page.lines[c].content).len() == 0,
        block::sequence_from(page.lines, c + 1, 2, seq![]) matches Ok((node, _))
            && decode::with_key(t, key_at(page.lines[c].content), node) is Ok,
    ensures
        ({
            let key = key_at(page.lines[c].content);
            let (node, m) = block::sequence_from(page.lines, c + 1, 2, seq![])->Ok_0;
            let u = decode::with_key(t, key, node)->Ok_0;
            let r = direct::with_key(
                page.raw,
                page.rows[c],
                wanted,
                full,
                tbd::seen(t, wanted, full),
                key,
                rest_of(page.busy(c)),
            );
            &&& c < m <= page.lines.len()
            &&& m < page.lines.len() ==> page.top(m)
            &&& page.smooth() ==> r is Ok
            &&& r is Ok ==> page.rows[c] < r->Ok_0.1 <= page.raw.len()
            &&& r is Ok ==> page.stuck(r->Ok_0.1) || r->Ok_0.0 == tbd::seen(u, wanted, full) && (
            r->Ok_0.1 == page.ends[m - 1] || r->Ok_0.1 == page.rows[m])
        }),
{
    let key = key_at(page.lines[c].content);
    let (node, m) = block::sequence_from(page.lines, c + 1, 2, seq![])->Ok_0;
    lemma_keys_differ();
    assert(page.entry(c + 1));
    assert(page.ends[c] == page.rows[c] + 1);
    if key == "parent-umbrella"@ {
        lemma_shape(page, c + 1, entry::umbrella_shape(), wanted);
    } else if key == "allowable-clients"@ {
        lemma_shape(page, c + 1, entry::list_shape("clients"@), wanted);
    } else if key == "reexported-libraries"@ {
        lemma_shape(page, c + 1, entry::list_shape("libraries"@), wanted);
    } else if key == "exports"@ || key == "reexports"@ {
        lemma_shape(page, c + 1, entry::symbols_shape(), wanted);
    } else {
        lemma_first_entry(page, c + 1);
    }
    lemma_sequence_goes_on(page, c + 1, seq![]);
    lemma_rows(page, c, m);
    lemma_passed(page, c, m, page.rows[c] + 1);
}

proof fn lemma_mapping_prefix(page: Page, c: int, done: Seq<(Seq<char>, Node)>)
    requires
        page.usual(),
        0 <= c <= page.lines.len(),
        block::mapping_from(page.lines, c, 0, done) matches Ok((Node::Mapping(_), _)),
    ensures
        ({
            let pairs = (block::mapping_from(page.lines, c, 0, done)->Ok_0).0->Mapping_0;
            &&& done.len() <= pairs.len()
            &&& pairs.take(done.len() as int) == done
        }),
    decreases page.lines.len() - c,
{
    let pairs = (block::mapping_from(page.lines, c, 0, done)->Ok_0).0->Mapping_0;
    let n = page.lines.len() as int;
    if c < n {
        assert(page.top(c) || page.entry(c) || page.nested(c));
    }
    if c < n && page.top(c) {
        let full = page.lines[c].content;
        let line = page.lines[c].line_no;
        let col = block::value_col(0, key_at(full));
        let (v, next) = block::child(page.lines, c + 1, 0, value_at(full), line, col)->Ok_0;
        if block::leads_on(page.lines, c, next) {
            let more = done.push((key_at(full), v));
            lemma_mapping_prefix(page, next, more);
            assert(pairs.take(more.len() as int).take(done.len() as int) =~= pairs.take(
                done.len() as int,
            ));
            assert(more.take(done.len() as int) =~= done);
        } else {
            assert(pairs.take(done.len() as int) =~= done);
        }
    } else {
        assert(pairs.take(done.len() as int) =~= done);
    }
}

/// Idle lines are passed over.
pub proof fn lemma_idle_passed(
    raw: Seq<Seq<char>>,
    i: int,
    e: int,
    wanted: TargetModel,
    full: bool,
    t: TbdModel,
)
    requires
        0 <= i <= e <= raw.len(),
        idle(raw, i, e),
    ensures
        direct::document_from(raw, i, wanted, full, t) == direct::document_from(
            raw,
            e,
            wanted,
            full,
            t,
        ),
    decreases e - i,
{
    if i < e {
        assert(direct::busy(raw[i]) is None);
        lemma_idle_passed(raw, i + 1, e, wanted, full, t);
    }
}

/// An indented line behind idle lines is refused.
proof fn lemma_stuck_refused(page: Page, i: int, wanted: TargetModel, full: bool, t: TbdModel)
    requires
        page.usual(),
        page.stuck(i),
    ensures
        direct::document_from(page.raw, i, wanted, full, t) is Err,
        !page.smooth(),
{
    reveal(Page::stuck);
    reveal(Page::smooth);
    let k = choose|k: int|
        0 < k < page.lines.len() && (#[trigger] page.lines[k]).indent > 0 && i == page.ends[k - 1]
            && i < page.rows[k];
    assert(page.top(k - 1) || page.entry(k - 1) || page.nested(k - 1));
    assert(page.top(k) || page.entry(k) || page.nested(k));
    lemma_idle_passed(page.raw, i, page.rows[k], wanted, full, t);
}

/// One key more on the quick side.
proof fn lemma_key_step(page: Page, c: int, wanted: TargetModel, full: bool, t: TbdModel)
    requires
        page.usual(),
        page.top(c),
    ensures
        direct::document_from(page.raw, page.rows[c], wanted, full, t) == match direct::with_key(
            page.raw,
            page.rows[c],
            wanted,
            full,
            t,
            key_at(page.lines[c].content),
            rest_of(page.busy(c)),
        ) {
            Err(e) => Err(e),
            Ok((u, next)) => if direct::leads_on(page.raw, page.rows[c], next) {
                direct::document_from(page.raw, next, wanted, full, u)
            } else {
                Ok((u, page.rows[c]))
            },
        },
{
}

/// A key that is read, with what is idle behind its value.
proof fn lemma_key_passed(
    page: Page,
    c: int,
    next: int,
    wanted: TargetModel,
    full: bool,
    t: TbdModel,
    u: TbdModel,
)
    requires
        page.usual(),
        page.top(c),
        c < next <= page.lines.len(),
        ({
            let r = direct::with_key(
                page.raw,
                page.rows[c],
                wanted,
                full,
                t,
                key_at(page.lines[c].content),
                rest_of(page.busy(c)),
            );
            &&& page.smooth() ==> r is Ok
            &&& r is Ok ==> page.rows[c] < r->Ok_0.1 <= page.raw.len()
            &&& r is Ok ==> page.stuck(r->Ok_0.1) || r->Ok_0.0 == u && (r->Ok_0.1 == page.ends[next
                - 1] || r->Ok_0.1 == page.rows[next])
        }),
    ensures
        ({
            let r = direct::document_from(page.raw, page.rows[c], wanted, full, t);
            let rest = direct::document_from(page.raw, page.rows[next], wanted, full, u);
            r == rest || r is Err && !page.smooth()
        }),
{
    let r = direct::with_key(
        page.raw,
        page.rows[c],
        wanted,
        full,
        t,
        key_at(page.lines[c].content),
        rest_of(page.busy(c)),
    );
    lemma_key_step(page, c, wanted, full, t);
    if r is Ok {
        let (w, at) = r->Ok_0;
        if page.stuck(at) {
            lemma_stuck_refused(page, at, wanted, full, w);
        } else {
            lemma_rows(page, c, next);
            assert(page.top(next - 1) || page.entry(next - 1) || page.nested(next - 1));
            lemma_idle_passed(page.raw, at, page.rows[next], wanted, full, u);
        }
    }
}

/// The end of a document on the quick side.
proof fn lemma_document_ends(page: Page, wanted: TargetModel, full: bool, u: TbdModel)
    requires
        page.usual(),
        decode::complete(u) is Ok,
    ensures
        direct::document_from(page.raw, page.end(), wanted, full, tbd::seen(u, wanted, full))
            == Ok::<(TbdModel, int), TbdFault>((tbd::seen(u, wanted, full), page.end())),
{
}

/// A document on both sides.
pub proof fn lemma_keys(
    page: Page,
    c: int,
    done: Seq<(Seq<char>, Node)>,
    wanted: TargetModel,
    full: bool,
    t: TbdModel,
)
    requires
        page.usual(),
        0 <= c <= page.lines.len(),
        c < page.lines.len() ==> page.top(c),
        block::mapping_from(page.lines, c, 0, done) matches Ok((Node::Mapping(pairs), m)) && (m
            == page.lines.len()) && decode::keys_from(pairs, done.len() as int, t) is Ok
            && decode::complete(decode::keys_from(pairs, done.len() as int, t)->Ok_0) is Ok,
    ensures
        ({
            let pairs = (block::mapping_from(page.lines, c, 0, done)->Ok_0).0->Mapping_0;
            let u = decode::keys_from(pairs, done.len() as int, t)->Ok_0;
            same_or_refused(
                direct::document_from(
                    page.raw,
                    page.rows[c],
                    wanted,
                    full,
                    tbd::seen(t, wanted, full),
                ),
                (tbd::seen(u, wanted, full), page.end()),
                page.smooth(),
            )
        }),
    decreases page.lines.len() - c,
{
    let n = page.lines.len() as int;
    let pairs = (block::mapping_from(page.lines, c, 0, done)->Ok_0).0->Mapping_0;
    let u = decode::keys_from(pairs, done.len() as int, t)->Ok_0;
    lemma_rows(page, c, c);
    if c < n {
        let held = page.lines[c].content;
        let key = key_at(held);
        let line = page.lines[c].line_no;
        let col = block::value_col(0, key);
        let value = value_at(held);
        if value.len() > 0 {
            lemma_child_on_line(page.lines, c + 1, 0, value, line, col);
        } else {
            lemma_child_below(page, c, line, col);
        }
        let (v, next) = block::child(page.lines, c + 1, 0, value, line, col)->Ok_0;
        assert(block::leads_on(page.lines, c, next));
        let more = done.push((key, v));
        lemma_mapping_prefix(page, next, more);
        assert(pairs[done.len() as int] == (key, v)) by {
            assert(pairs.take(more.len() as int)[done.len() as int] == more[done.len() as int]);
        }
        let w = decode::with_key(t, key, v)->Ok_0;
        if value.len() > 0 {
            lemma_plain_key(page, c, wanted, full, t, line, col);
            if c + 1 < n {
                assert(page.top(c + 1) || page.entry(c + 1) || page.nested(c + 1));
                assert(page.top(c + 1));
            }
            lemma_passed(page, c, c + 1, page.rows[c] + 1);
        } else {
            lemma_scoped_key(page, c, wanted, full, t);
        }
        if page.smooth() {
            lemma_taken(page, c);
        }
        lemma_rows(page, c, next);
        lemma_key_passed(
            page,
            c,
            next,
            wanted,
            full,
            tbd::seen(t, wanted, full),
            tbd::seen(w, wanted, full),
        );
        lemma_keys(page, next, more, wanted, full, w);
    } else {
        lemma_document_ends(page, wanted, full, u);
    }
}

proof fn lemma_sequence_goes_on(page: Page, c: int, done: Seq<Node>)
    requires
        page.usual(),
        0 <= c <= page.lines.len(),
        c < page.lines.len() ==> !page.nested(c),
        block::sequence_from(page.lines, c, 2, done) is Ok,
    ensures
        c <= (block::sequence_from(page.lines, c, 2, done)->Ok_0).1 <= page.lines.len(),
        page.indented(c, (block::sequence_from(page.lines, c, 2, done)->Ok_0).1),
        ({
            let m = (block::sequence_from(page.lines, c, 2, done)->Ok_0).1;
            m < page.lines.len() ==> page.top(m)
        }),
    decreases page.lines.len() - c,
{
    if c < page.lines.len() {
        assert(page.top(c) || page.entry(c) || page.nested(c));
        if page.entry(c) {
            let after = page.lines[c].content.skip("- "@.len() as int);
            lemma_item_leads_on(page, c, after);
            let (v, next) = block::item(page.lines, c, 2, after)->Ok_0;
            lemma_sequence_goes_on(page, next, done.push(v));
        }
    }
}

/// A document is a mapping, and ends within its lines.
pub proof fn lemma_mapping_goes_on(page: Page, c: int, done: Seq<(Seq<char>, Node)>)
    requires
        page.usual(),
        0 <= c <= page.lines.len(),
        block::mapping_from(page.lines, c, 0, done) is Ok,
    ensures
        c <= (block::mapping_from(page.lines, c, 0, done)->Ok_0).1 <= page.lines.len(),
        (block::mapping_from(page.lines, c, 0, done)->Ok_0).0 is Mapping,
    decreases page.lines.len() - c,
{
    if c < page.lines.len() {
        assert(page.top(c) || page.entry(c) || page.nested(c));
        if page.top(c) {
            let full = page.lines[c].content;
            let line = page.lines[c].line_no;
            let col = block::value_col(0, key_at(full));
            if value_at(full).len() > 0 {
                lemma_child_on_line(page.lines, c + 1, 0, value_at(full), line, col);
            } else {
                lemma_child_below(page, c, line, col);
                if block::sequence_from(page.lines, c + 1, 2, seq![]) is Ok {
                    lemma_sequence_goes_on(page, c + 1, seq![]);
                }
            }
            let (v, next) = block::child(page.lines, c + 1, 0, value_at(full), line, col)->Ok_0;
            lemma_mapping_goes_on(page, next, done.push((key_at(full), v)));
        }
    }
}

} // verus!
