//! Entries that hold for some targets only, before they are told apart.

use vstd::prelude::*;
use crate::macho::tbd;
use crate::macho::tbd::{
    reversed, ListsModel, Scoped, ScopedModel, SymbolLists, Target, TargetModel,
};
use crate::text;
use crate::text::same_text;

verus! {

/// What the entries under some key of a stub hold besides their targets.
pub struct EntryShape {
    /// What is wrong if there is no sequence of entries.
    pub not_sequence: &'static str,
    /// What is wrong if an entry is no mapping.
    pub not_mapping: &'static str,
    /// The key of a text.
    pub scalar_key: Option<&'static str>,
    /// The keys of lists.
    pub list_keys: Vec<&'static str>,
}

/// An `EntryShape` with its texts as character sequences.
#[verifier::ext_equal]
pub struct Shape {
    pub not_sequence: Seq<char>,
    pub not_mapping: Seq<char>,
    pub scalar_key: Option<Seq<char>>,
    pub list_keys: Seq<Seq<char>>,
}

pub open spec fn names(s: Seq<&'static str>) -> Seq<Seq<char>> {
    s.map_values(|n: &'static str| n@)
}

impl View for EntryShape {
    type V = Shape;

    open spec fn view(&self) -> Shape {
        Shape {
            not_sequence: self.not_sequence@,
            not_mapping: self.not_mapping@,
            scalar_key: match self.scalar_key {
                Some(k) => Some(k@),
                None => None,
            },
            list_keys: names(self.list_keys@),
        }
    }
}

/// The umbrella that a library belongs under.
pub open spec fn umbrella_shape() -> Shape {
    Shape {
        not_sequence: "'parent-umbrella' must be a sequence of scoped mappings"@,
        not_mapping: "parent-umbrella entry must be a mapping"@,
        scalar_key: Some("umbrella"@),
        list_keys: seq![],
    }
}

/// One list under a key.
pub open spec fn list_shape(key: Seq<char>) -> Shape {
    Shape {
        not_sequence: "expected a sequence of scoped mappings"@,
        not_mapping: "scoped entry must be a mapping"@,
        scalar_key: None,
        list_keys: seq![key],
    }
}

/// The lists of symbols.
pub open spec fn symbols_shape() -> Shape {
    Shape {
        not_sequence: "'exports'/'reexports' must be a sequence"@,
        not_mapping: "exports entry must be a mapping"@,
        scalar_key: None,
        list_keys: seq![
            "symbols"@,
            "weak-symbols"@,
            "thread-local-symbols"@,
            "objc-classes"@,
            "objc-eh-types"@,
            "objc-ivars"@,
        ],
    }
}

pub(crate) fn make_umbrella_shape() -> (r: EntryShape)
    ensures
        r@ == umbrella_shape(),
{
    let r = EntryShape {
        not_sequence: "'parent-umbrella' must be a sequence of scoped mappings",
        not_mapping: "parent-umbrella entry must be a mapping",
        scalar_key: Some("umbrella"),
        list_keys: Vec::new(),
    };
    assert(r@ =~= umbrella_shape());
    r
}

pub(crate) fn make_list_shape(key: &'static str) -> (r: EntryShape)
    ensures
        r@ == list_shape(key@),
{
    let mut list_keys: Vec<&'static str> = Vec::new();
    list_keys.push(key);
    let r = EntryShape {
        not_sequence: "expected a sequence of scoped mappings",
        not_mapping: "scoped entry must be a mapping",
        scalar_key: None,
        list_keys,
    };
    assert(r@ =~= list_shape(key@));
    r
}

pub(crate) fn make_symbols_shape() -> (r: EntryShape)
    ensures
        r@ == symbols_shape(),
{
    let mut list_keys: Vec<&'static str> = Vec::new();
    list_keys.push("symbols");
    list_keys.push("weak-symbols");
    list_keys.push("thread-local-symbols");
    list_keys.push("objc-classes");
    list_keys.push("objc-eh-types");
    list_keys.push("objc-ivars");
    let r = EntryShape {
        not_sequence: "'exports'/'reexports' must be a sequence",
        not_mapping: "exports entry must be a mapping",
        scalar_key: None,
        list_keys,
    };
    assert(r@ =~= symbols_shape());
    r
}

/// Which of the keys this is.
pub open spec fn key_index(keys: Seq<Seq<char>>, key: Seq<char>) -> Option<int>
    decreases keys.len(),
{
    if keys.len() == 0 {
        None
    } else {
        match key_index(keys.drop_last(), key) {
            Some(i) => Some(i),
            None => if keys.last() == key {
                Some(keys.len() - 1)
            } else {
                None
            },
        }
    }
}

pub(crate) fn find_key(keys: &Vec<&'static str>, key: &str) -> (r: Option<usize>)
    ensures
        match r {
            Some(i) => key_index(names(keys@), key@) == Some(i as int) && i < keys@.len(),
            None => key_index(names(keys@), key@) is None,
        },
{
    let ghost all = names(keys@);
    let mut i: usize = 0;
    while i < keys.len()
        invariant
            i <= keys@.len(),
            all == names(keys@),
            key_index(all.take(i as int), key@) is None,
        decreases keys@.len() - i,
    {
        assert(all.take(i + 1).drop_last() =~= all.take(i as int));
        assert(all[i as int] == keys@[i as int]@);
        if same_text(keys[i], key) {
            proof {
                lemma_key_index(all, key@, i + 1);
            }
            return Some(i);
        }
        i += 1;
    }
    assert(all.take(i as int) =~= all);
    None
}

proof fn lemma_key_index(keys: Seq<Seq<char>>, key: Seq<char>, n: int)
    requires
        0 <= n <= keys.len(),
        key_index(keys.take(n), key) is Some,
    ensures
        key_index(keys, key) == key_index(keys.take(n), key),
    decreases keys.len() - n,
{
    if n < keys.len() {
        assert(keys.take(n + 1).drop_last() =~= keys.take(n));
        lemma_key_index(keys, key, n + 1);
    } else {
        assert(keys.take(n) =~= keys);
    }
}

/// An entry: its targets, its text and its lists.
pub struct Entry {
    pub targets: Vec<Target>,
    pub scalar: String,
    pub lists: Vec<Vec<String>>,
}

/// An `Entry` with its texts as character sequences.
#[verifier::ext_equal]
pub struct EntryModel {
    pub targets: Seq<TargetModel>,
    pub scalar: Seq<char>,
    pub lists: Seq<Seq<Seq<char>>>,
}

pub open spec fn lists_view(v: Seq<Vec<String>>) -> Seq<Seq<Seq<char>>> {
    v.map_values(|l: Vec<String>| text::texts(l@))
}

impl View for Entry {
    type V = EntryModel;

    open spec fn view(&self) -> EntryModel {
        EntryModel {
            targets: tbd::targets_view(self.targets@),
            scalar: self.scalar@,
            lists: lists_view(self.lists@),
        }
    }
}

pub open spec fn entries_view(s: Seq<Entry>) -> Seq<EntryModel> {
    s.map_values(|e: Entry| e@)
}

pub(crate) fn push_entry(out: &mut Vec<Entry>, e: Entry)
    ensures
        entries_view(final(out)@) == entries_view(old(out)@).push(e@),
{
    let ghost before = out@;
    out.push(e);
    assert(entries_view(out@) =~= entries_view(before).push(e@));
}

pub(crate) fn empty_lists(n: usize) -> (r: Vec<Vec<String>>)
    ensures
        lists_view(r@) == Seq::new(n as nat, |i: int| Seq::<Seq<char>>::empty()),
{
    let mut out: Vec<Vec<String>> = Vec::new();
    let mut i: usize = 0;
    while i < n
        invariant
            i <= n,
            out@.len() == i,
            forall|k: int| 0 <= k < i ==> (#[trigger] out@[k])@.len() == 0,
        decreases n - i,
    {
        out.push(Vec::new());
        i += 1;
    }
    proof {
        let want = Seq::new(n as nat, |i: int| Seq::<Seq<char>>::empty());
        assert forall|k: int| 0 <= k < n implies lists_view(out@)[k] == want[k] by {
            assert(out@[k]@.len() == 0);
            assert(text::texts(out@[k]@) =~= Seq::<Seq<char>>::empty());
        }
        assert(lists_view(out@) =~= want);
    }
    out
}

pub(crate) fn set_list(lists: &mut Vec<Vec<String>>, i: usize, list: Vec<String>)
    requires
        i < old(lists)@.len(),
    ensures
        lists_view(final(lists)@) == lists_view(old(lists)@).update(i as int, text::texts(list@)),
        final(lists)@.len() == old(lists)@.len(),
{
    let ghost before = lists@;
    let ghost t = text::texts(list@);
    lists.set(i, list);
    assert(lists_view(lists@) =~= lists_view(before).update(i as int, t));
}

/// Entries with texts.
pub open spec fn scalars_of(s: Seq<EntryModel>) -> Seq<ScopedModel<Seq<char>>> {
    s.map_values(|e: EntryModel| ScopedModel { targets: e.targets, value: e.scalar })
}

/// Entries with one list each.
pub open spec fn texts_of(s: Seq<EntryModel>) -> Seq<ScopedModel<Seq<Seq<char>>>> {
    s.map_values(|e: EntryModel| ScopedModel { targets: e.targets, value: e.lists[0] })
}

/// Entries with lists of symbols.
pub open spec fn symbols_of(s: Seq<EntryModel>) -> Seq<ScopedModel<ListsModel>> {
    s.map_values(
        |e: EntryModel|
            ScopedModel {
                targets: e.targets,
                value: ListsModel {
                    symbols: e.lists[0],
                    weak_symbols: e.lists[1],
                    thread_local_symbols: e.lists[2],
                    objc_classes: e.lists[3],
                    objc_eh_types: e.lists[4],
                    objc_ivars: e.lists[5],
                },
            },
    )
}

/// Every entry has `n` lists.
pub open spec fn have_lists(s: Seq<EntryModel>, n: nat) -> bool {
    forall|i: int| 0 <= i < s.len() ==> (#[trigger] s[i]).lists.len() == n
}

pub(crate) fn into_scalars(entries: Vec<Entry>) -> (r: Vec<Scoped<String>>)
    ensures
        tbd::scoped_view(r@, tbd::as_text()) == scalars_of(entries_view(entries@)),
{
    let ghost all = entries@;
    let ghost models = entries_view(all);
    let mut v = reversed(entries);
    let mut out: Vec<Scoped<String>> = Vec::new();
    assert(v@ =~= all.skip(0).reverse());
    assert(tbd::scoped_view(out@, tbd::as_text()) =~= scalars_of(models.take(0)));
    let ghost mut i: int = 0;
    loop
        invariant
            0 <= i <= all.len(),
            models == entries_view(all),
            v@ == all.skip(i).reverse(),
            tbd::scoped_view(out@, tbd::as_text()) == scalars_of(models.take(i)),
        ensures
            i == all.len(),
            tbd::scoped_view(out@, tbd::as_text()) == scalars_of(models.take(i)),
        decreases v@.len(),
    {
        match v.pop() {
            Some(e) => {
                let x = Scoped { targets: e.targets, value: e.scalar };
                let ghost was = tbd::scoped_view(out@, tbd::as_text());
                out.push(x);
                proof {
                    assert(e == all[i]);
                    assert(v@ =~= all.skip(i + 1).reverse());
                    assert(models[i] == e@);
                    let m = ScopedModel { targets: e@.targets, value: e@.scalar };
                    assert(tbd::scoped_view(out@, tbd::as_text()) =~= was.push(m));
                    assert(scalars_of(models.take(i + 1)) =~= scalars_of(models.take(i)).push(m));
                    i = i + 1;
                }
            },
            None => {
                break;
            },
        }
    }
    assert(models.take(i) =~= models);
    out
}

fn pop_list(lists: &mut Vec<Vec<String>>) -> (r: Vec<String>)
    requires
        old(lists)@.len() > 0,
    ensures
        text::texts(r@) == lists_view(old(lists)@).last(),
        lists_view(final(lists)@) == lists_view(old(lists)@).drop_last(),
        final(lists)@.len() == old(lists)@.len() - 1,
{
    let ghost before = lists@;
    match lists.pop() {
        Some(list) => {
            assert(lists_view(lists@) =~= lists_view(before).drop_last());
            list
        },
        None => Vec::new(),
    }
}

pub(crate) fn into_texts(entries: Vec<Entry>) -> (r: Vec<Scoped<Vec<String>>>)
    requires
        have_lists(entries_view(entries@), 1),
    ensures
        tbd::scoped_view(r@, tbd::as_texts()) == texts_of(entries_view(entries@)),
{
    let ghost all = entries@;
    let ghost models = entries_view(all);
    let mut v = reversed(entries);
    let mut out: Vec<Scoped<Vec<String>>> = Vec::new();
    assert(v@ =~= all.skip(0).reverse());
    assert(tbd::scoped_view(out@, tbd::as_texts()) =~= texts_of(models.take(0)));
    let ghost mut i: int = 0;
    loop
        invariant
            0 <= i <= all.len(),
            models == entries_view(all),
            have_lists(models, 1),
            v@ == all.skip(i).reverse(),
            tbd::scoped_view(out@, tbd::as_texts()) == texts_of(models.take(i)),
        ensures
            i == all.len(),
            tbd::scoped_view(out@, tbd::as_texts()) == texts_of(models.take(i)),
        decreases v@.len(),
    {
        match v.pop() {
            Some(e) => {
                proof {
                    assert(e == all[i]);
                    assert(models[i] == e@);
                }
                let mut lists = e.lists;
                let list = pop_list(&mut lists);
                let x = Scoped { targets: e.targets, value: list };
                let ghost was = tbd::scoped_view(out@, tbd::as_texts());
                out.push(x);
                proof {
                    assert(v@ =~= all.skip(i + 1).reverse());
                    let m = ScopedModel { targets: models[i].targets, value: models[i].lists[0] };
                    assert(tbd::scoped_view(out@, tbd::as_texts()) =~= was.push(m));
                    assert(texts_of(models.take(i + 1)) =~= texts_of(models.take(i)).push(m));
                    i = i + 1;
                }
            },
            None => {
                break;
            },
        }
    }
    assert(models.take(i) =~= models);
    out
}

pub(crate) fn into_symbols(entries: Vec<Entry>) -> (r: Vec<Scoped<SymbolLists>>)
    requires
        have_lists(entries_view(entries@), 6),
    ensures
        tbd::scoped_view(r@, tbd::as_lists()) == symbols_of(entries_view(entries@)),
{
    let ghost all = entries@;
    let ghost models = entries_view(all);
    let mut v = reversed(entries);
    let mut out: Vec<Scoped<SymbolLists>> = Vec::new();
    assert(v@ =~= all.skip(0).reverse());
    assert(tbd::scoped_view(out@, tbd::as_lists()) =~= symbols_of(models.take(0)));
    let ghost mut i: int = 0;
    loop
        invariant
            0 <= i <= all.len(),
            models == entries_view(all),
            have_lists(models, 6),
            v@ == all.skip(i).reverse(),
            tbd::scoped_view(out@, tbd::as_lists()) == symbols_of(models.take(i)),
        ensures
            i == all.len(),
            tbd::scoped_view(out@, tbd::as_lists()) == symbols_of(models.take(i)),
        decreases v@.len(),
    {
        match v.pop() {
            Some(e) => {
                proof {
                    assert(e == all[i]);
                    assert(models[i] == e@);
                }
                let mut lists = e.lists;
                let objc_ivars = pop_list(&mut lists);
                let objc_eh_types = pop_list(&mut lists);
                let objc_classes = pop_list(&mut lists);
                let thread_local_symbols = pop_list(&mut lists);
                let weak_symbols = pop_list(&mut lists);
                let symbols = pop_list(&mut lists);
                let value = SymbolLists {
                    symbols,
                    weak_symbols,
                    thread_local_symbols,
                    objc_classes,
                    objc_eh_types,
                    objc_ivars,
                };
                let x = Scoped { targets: e.targets, value };
                let ghost was = tbd::scoped_view(out@, tbd::as_lists());
                out.push(x);
                proof {
                    assert(v@ =~= all.skip(i + 1).reverse());
                    let m = symbols_of(models)[i];
                    assert(value@ =~= m.value);
                    assert(tbd::scoped_view(out@, tbd::as_lists()) =~= was.push(m));
                    assert(symbols_of(models.take(i + 1)) =~= symbols_of(models.take(i)).push(m));
                    i = i + 1;
                }
            },
            None => {
                break;
            },
        }
    }
    assert(models.take(i) =~= models);
    out
}

} // verus!
