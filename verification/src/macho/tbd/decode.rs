//! Stubs from the values of their documents.

use vstd::prelude::*;
use crate::macho::tbd;
use crate::macho::tbd::entry;
use crate::macho::tbd::entry::{
    empty_lists, find_key, into_scalars, into_symbols, into_texts, make_list_shape,
    make_symbols_shape, make_umbrella_shape, push_entry, set_list, Entry, EntryModel, EntryShape,
    Shape,
};
use crate::macho::tbd::{
    parse_number, parse_target, parse_version_field, push_doc, schema, Target, TargetModel,
    Tbd, TbdError, TbdFault, TbdModel,
};
use crate::macho::tbd_yaml;
use crate::macho::tbd_yaml::{parse_documents, Document, DocumentModel, Node, Value};
use crate::text;
use crate::text::{quote, same_text};

verus! {

pub open spec fn schema_fault<T>(msg: Seq<char>) -> Result<T, TbdFault> {
    Err(TbdFault::Schema(msg))
}

/// The text of a scalar.
pub open spec fn scalar(n: Node, context: Seq<char>) -> Result<Seq<char>, TbdFault> {
    match n {
        Node::Scalar(s) => Ok(s),
        _ => schema_fault(context + " must be a scalar"@),
    }
}

fn scalar_string(v: &Value, context: &str) -> (r: Result<String, TbdError>)
    ensures
        match (r, scalar(tbd_yaml::node(*v), context@)) {
            (Ok(s), Ok(m)) => s@ == m,
            (Err(e), Err(f)) => e@ == f,
            _ => false,
        },
{
    match v {
        Value::Scalar(s) => Ok(s.clone()),
        _ => {
            let mut msg = context.to_owned();
            msg.append(" must be a scalar");
            Err(TbdError::Schema { msg })
        },
    }
}

/// The number that a scalar stands for.
pub open spec fn scalar_number(n: Node, context: Seq<char>) -> Result<u32, TbdFault> {
    match scalar(n, context) {
        Err(e) => Err(e),
        Ok(s) => match tbd::number(s) {
            Some(v) => Ok(v),
            None => schema_fault(context + " must parse as a u32: "@ + text::quoted(s)),
        },
    }
}

fn scalar_u32(v: &Value, context: &str) -> (r: Result<u32, TbdError>)
    ensures
        match (r, scalar_number(tbd_yaml::node(*v), context@)) {
            (Ok(a), Ok(b)) => a == b,
            (Err(e), Err(f)) => e@ == f,
            _ => false,
        },
{
    let s = match scalar_string(v, context) {
        Ok(s) => s,
        Err(e) => {
            return Err(e);
        },
    };
    match parse_number(s.as_str()) {
        Some(n) => Ok(n),
        None => {
            let mut msg = context.to_owned();
            msg.append(" must parse as a u32: ");
            msg.append(quote(s.as_str()).as_str());
            Err(TbdError::Schema { msg })
        },
    }
}

/// The version that a scalar stands for.
pub open spec fn scalar_version(n: Node, context: Seq<char>) -> Result<u32, TbdFault> {
    match scalar(n, context) {
        Err(e) => Err(e),
        Ok(s) => tbd::version_of(s, context),
    }
}

fn scalar_packed_version(v: &Value, context: &str) -> (r: Result<u32, TbdError>)
    ensures
        match (r, scalar_version(tbd_yaml::node(*v), context@)) {
            (Ok(a), Ok(b)) => a == b,
            (Err(e), Err(f)) => e@ == f,
            _ => false,
        },
{
    match scalar_string(v, context) {
        Ok(s) => parse_version_field(s.as_str(), context),
        Err(e) => Err(e),
    }
}

/// The targets of a list, from item `i` on.
pub open spec fn targets_from(items: Seq<Node>, i: int, done: Seq<TargetModel>) -> Result<
    Seq<TargetModel>,
    TbdFault,
>
    decreases items.len() - i,
{
    if i >= items.len() {
        Ok(done)
    } else {
        match scalar(items[i], "target"@) {
            Err(e) => Err(e),
            Ok(s) => match tbd::target_of(s) {
                Err(e) => Err(e),
                Ok(t) => targets_from(items, i + 1, done.push(t)),
            },
        }
    }
}

pub open spec fn target_list(n: Node) -> Result<Seq<TargetModel>, TbdFault> {
    match n {
        Node::Sequence(items) => targets_from(items, 0, seq![]),
        _ => schema_fault("'targets' must be a sequence"@),
    }
}

fn decode_target_list(v: &Value) -> (r: Result<Vec<Target>, TbdError>)
    ensures
        match (r, target_list(tbd_yaml::node(*v))) {
            (Ok(t), Ok(m)) => tbd::targets_view(t@) == m,
            (Err(e), Err(f)) => e@ == f,
            _ => false,
        },
{
    let items = match v.as_sequence() {
        Some(items) => items,
        None => {
            return Err(schema("'targets' must be a sequence"));
        },
    };
    let ghost all = tbd_yaml::nodes(items@);
    let mut out: Vec<Target> = Vec::new();
    let mut i: usize = 0;
    assert(tbd::targets_view(out@) =~= seq![]);
    while i < items.len()
        invariant
            i <= items@.len(),
            all == tbd_yaml::nodes(items@),
            tbd_yaml::node(*v) == Node::Sequence(all),
            targets_from(all, 0, seq![]) == targets_from(
                all,
                i as int,
                tbd::targets_view(out@),
            ),
        decreases items@.len() - i,
    {
        assert(all[i as int] == tbd_yaml::node(items@[i as int]));
        let s = match scalar_string(&items[i], "target") {
            Ok(s) => s,
            Err(e) => {
                return Err(e);
            },
        };
        match parse_target(s.as_str()) {
            Ok(t) => {
                let ghost before = tbd::targets_view(out@);
                out.push(t);
                assert(tbd::targets_view(out@) =~= before.push(t@));
            },
            Err(e) => {
                return Err(e);
            },
        }
        i += 1;
    }
    Ok(out)
}

/// The texts of a list, from item `i` on.
pub open spec fn strings_from(
    items: Seq<Node>,
    i: int,
    context: Seq<char>,
    done: Seq<Seq<char>>,
) -> Result<Seq<Seq<char>>, TbdFault>
    decreases items.len() - i,
{
    if i >= items.len() {
        Ok(done)
    } else {
        match scalar(items[i], context) {
            Err(e) => Err(e),
            Ok(s) => strings_from(items, i + 1, context, done.push(s)),
        }
    }
}

pub open spec fn string_list(n: Node, context: Seq<char>) -> Result<Seq<Seq<char>>, TbdFault> {
    match n {
        Node::Sequence(items) => strings_from(items, 0, context, seq![]),
        Node::Null => Ok(seq![]),
        _ => schema_fault(context + " must be a sequence of scalars"@),
    }
}

fn decode_string_list(v: &Value, context: &str) -> (r: Result<Vec<String>, TbdError>)
    ensures
        match (r, string_list(tbd_yaml::node(*v), context@)) {
            (Ok(t), Ok(m)) => text::texts(t@) == m,
            (Err(e), Err(f)) => e@ == f,
            _ => false,
        },
{
    let mut out: Vec<String> = Vec::new();
    assert(text::texts(out@) =~= seq![]);
    if let Value::Null = v {
        return Ok(out);
    }
    let items = match v.as_sequence() {
        Some(items) => items,
        None => {
            let mut msg = context.to_owned();
            msg.append(" must be a sequence of scalars");
            return Err(TbdError::Schema { msg });
        },
    };
    let ghost all = tbd_yaml::nodes(items@);
    let mut i: usize = 0;
    while i < items.len()
        invariant
            i <= items@.len(),
            all == tbd_yaml::nodes(items@),
            tbd_yaml::node(*v) == Node::Sequence(all),
            strings_from(all, 0, context@, seq![]) == strings_from(
                all,
                i as int,
                context@,
                text::texts(out@),
            ),
        decreases items@.len() - i,
    {
        assert(all[i as int] == tbd_yaml::node(items@[i as int]));
        match scalar_string(&items[i], context) {
            Ok(s) => {
                let ghost before = text::texts(out@);
                out.push(s);
                assert(text::texts(out@) =~= before.push(s@));
            },
            Err(e) => {
                return Err(e);
            },
        }
        i += 1;
    }
    Ok(out)
}

/// An entry under way.
#[verifier::ext_equal]
pub struct Partial {
    pub targets: Option<Seq<TargetModel>>,
    pub scalar: Option<Seq<char>>,
    pub lists: Seq<Seq<Seq<char>>>,
}

pub open spec fn nothing_yet(shape: Shape) -> Partial {
    Partial {
        targets: None,
        scalar: None,
        lists: Seq::new(shape.list_keys.len(), |i: int| Seq::<Seq<char>>::empty()),
    }
}

/// An entry with what a further key says. Keys that are not known do not count.
pub open spec fn with_pair(shape: Shape, p: Partial, key: Seq<char>, n: Node) -> Result<
    Partial,
    TbdFault,
> {
    if key == "targets"@ {
        match target_list(n) {
            Ok(t) => Ok(Partial { targets: Some(t), ..p }),
            Err(e) => Err(e),
        }
    } else if shape.scalar_key == Some(key) {
        match scalar(n, key) {
            Ok(s) => Ok(Partial { scalar: Some(s), ..p }),
            Err(e) => Err(e),
        }
    } else {
        match entry::key_index(shape.list_keys, key) {
            Some(i) => match string_list(n, key) {
                Ok(list) => Ok(Partial { lists: p.lists.update(i, list), ..p }),
                Err(e) => Err(e),
            },
            None => Ok(p),
        }
    }
}

pub open spec fn pairs_from(shape: Shape, pairs: Seq<(Seq<char>, Node)>, i: int, p: Partial) -> Result<
    Partial,
    TbdFault,
>
    decreases pairs.len() - i,
{
    if i >= pairs.len() {
        Ok(p)
    } else {
        match with_pair(shape, p, pairs[i].0, pairs[i].1) {
            Err(e) => Err(e),
            Ok(q) => pairs_from(shape, pairs, i + 1, q),
        }
    }
}

pub open spec fn missing<T>(key: Seq<char>) -> Result<T, TbdFault> {
    schema_fault("missing required key \""@ + key + "\""@)
}

/// One entry. It has to name its targets, and its text where it is to have one.
pub open spec fn entry_of(shape: Shape, n: Node) -> Result<EntryModel, TbdFault> {
    match n {
        Node::Mapping(pairs) => match pairs_from(shape, pairs, 0, nothing_yet(shape)) {
            Err(e) => Err(e),
            Ok(p) => match p.targets {
                None => missing("targets"@),
                Some(targets) => match (shape.scalar_key, p.scalar) {
                    (Some(key), None) => missing(key),
                    (Some(_), Some(s)) => Ok(EntryModel { targets, scalar: s, lists: p.lists }),
                    (None, _) => Ok(EntryModel { targets, scalar: ""@, lists: p.lists }),
                },
            },
        },
        _ => schema_fault(shape.not_mapping),
    }
}

pub open spec fn entries_from(shape: Shape, items: Seq<Node>, i: int, done: Seq<EntryModel>) -> Result<
    Seq<EntryModel>,
    TbdFault,
>
    decreases items.len() - i,
{
    if i >= items.len() {
        Ok(done)
    } else {
        match entry_of(shape, items[i]) {
            Err(e) => Err(e),
            Ok(x) => entries_from(shape, items, i + 1, done.push(x)),
        }
    }
}

/// The entries under a key.
pub open spec fn entries(shape: Shape, n: Node) -> Result<Seq<EntryModel>, TbdFault> {
    match n {
        Node::Sequence(items) => entries_from(shape, items, 0, seq![]),
        _ => schema_fault(shape.not_sequence),
    }
}

struct Draft {
    targets: Option<Vec<Target>>,
    scalar: Option<String>,
    lists: Vec<Vec<String>>,
}

impl Draft {
    spec fn model(self) -> Partial {
        Partial {
            targets: match self.targets {
                Some(t) => Some(tbd::targets_view(t@)),
                None => None,
            },
            scalar: match self.scalar {
                Some(s) => Some(s@),
                None => None,
            },
            lists: entry::lists_view(self.lists@),
        }
    }
}

fn apply_pair(shape: &EntryShape, draft: Draft, key: &String, v: &Value) -> (r: Result<
    Draft,
    TbdError,
>)
    requires
        draft.lists@.len() == shape.list_keys@.len(),
    ensures
        match (r, with_pair(shape@, draft.model(), key@, tbd_yaml::node(*v))) {
            (Ok(d), Ok(p)) => d.model() == p && d.lists@.len() == shape.list_keys@.len(),
            (Err(e), Err(f)) => e@ == f,
            _ => false,
        },
{
    if same_text(key.as_str(), "targets") {
        return match decode_target_list(v) {
            Ok(t) => Ok(Draft { targets: Some(t), ..draft }),
            Err(e) => Err(e),
        };
    }
    if let Some(k) = shape.scalar_key {
        if same_text(key.as_str(), k) {
            return match scalar_string(v, key.as_str()) {
                Ok(s) => Ok(Draft { scalar: Some(s), ..draft }),
                Err(e) => Err(e),
            };
        }
    }
    match find_key(&shape.list_keys, key.as_str()) {
        Some(i) => match decode_string_list(v, key.as_str()) {
            Ok(list) => {
                let mut lists = draft.lists;
                set_list(&mut lists, i, list);
                Ok(Draft { targets: draft.targets, scalar: draft.scalar, lists })
            },
            Err(e) => Err(e),
        },
        None => Ok(draft),
    }
}

fn missing_key(key: &str) -> (r: TbdError)
    ensures
        r@ == TbdFault::Schema("missing required key \""@ + key@ + "\""@),
{
    let mut msg = "missing required key \"".to_owned();
    msg.append(key);
    msg.append("\"");
    TbdError::Schema { msg }
}

fn decode_entry(shape: &EntryShape, v: &Value) -> (r: Result<Entry, TbdError>)
    ensures
        match (r, entry_of(shape@, tbd_yaml::node(*v))) {
            (Ok(e), Ok(m)) => e@ == m && m.lists.len() == shape.list_keys@.len(),
            (Err(e), Err(f)) => e@ == f,
            _ => false,
        },
{
    let pairs = match v.as_mapping() {
        Some(pairs) => pairs,
        None => {
            return Err(schema(shape.not_mapping));
        },
    };
    let ghost all = tbd_yaml::pairs(pairs@);
    let mut draft = Draft {
        targets: None,
        scalar: None,
        lists: empty_lists(shape.list_keys.len()),
    };
    assert(entry::lists_view(draft.lists@).len() == draft.lists@.len());
    let mut i: usize = 0;
    assert(draft.model() =~= nothing_yet(shape@));
    while i < pairs.len()
        invariant
            i <= pairs@.len(),
            all == tbd_yaml::pairs(pairs@),
            tbd_yaml::node(*v) == Node::Mapping(all),
            draft.lists@.len() == shape.list_keys@.len(),
            pairs_from(shape@, all, 0, nothing_yet(shape@)) == pairs_from(
                shape@,
                all,
                i as int,
                draft.model(),
            ),
        decreases pairs@.len() - i,
    {
        assert(all[i as int] == (pairs@[i as int].0@, tbd_yaml::node(pairs@[i as int].1)));
        match apply_pair(shape, draft, &pairs[i].0, &pairs[i].1) {
            Ok(next) => {
                draft = next;
            },
            Err(e) => {
                return Err(e);
            },
        }
        i += 1;
    }
    let targets = match draft.targets {
        Some(t) => t,
        None => {
            return Err(missing_key("targets"));
        },
    };
    let scalar = match shape.scalar_key {
        Some(k) => match draft.scalar {
            Some(s) => s,
            None => {
                return Err(missing_key(k));
            },
        },
        None => "".to_owned(),
    };
    Ok(Entry { targets, scalar, lists: draft.lists })
}

fn decode_entries(shape: &EntryShape, v: &Value) -> (r: Result<Vec<Entry>, TbdError>)
    ensures
        match (r, entries(shape@, tbd_yaml::node(*v))) {
            (Ok(e), Ok(m)) => entry::entries_view(e@) == m && entry::have_lists(
                m,
                shape.list_keys@.len(),
            ),
            (Err(e), Err(f)) => e@ == f,
            _ => false,
        },
{
    let items = match v.as_sequence() {
        Some(items) => items,
        None => {
            return Err(schema(shape.not_sequence));
        },
    };
    let ghost all = tbd_yaml::nodes(items@);
    let mut out: Vec<Entry> = Vec::new();
    let mut i: usize = 0;
    assert(entry::entries_view(out@) =~= seq![]);
    while i < items.len()
        invariant
            i <= items@.len(),
            all == tbd_yaml::nodes(items@),
            tbd_yaml::node(*v) == Node::Sequence(all),
            entry::have_lists(entry::entries_view(out@), shape.list_keys@.len()),
            entries_from(shape@, all, 0, seq![]) == entries_from(
                shape@,
                all,
                i as int,
                entry::entries_view(out@),
            ),
        decreases items@.len() - i,
    {
        assert(all[i as int] == tbd_yaml::node(items@[i as int]));
        match decode_entry(shape, &items[i]) {
            Ok(x) => push_entry(&mut out, x),
            Err(e) => {
                return Err(e);
            },
        }
        i += 1;
    }
    Ok(out)
}

/// A stub with what a further key says. Keys that are not known do not count.
pub open spec fn with_key(t: TbdModel, key: Seq<char>, n: Node) -> Result<TbdModel, TbdFault> {
    if key == "tbd-version"@ {
        match scalar_number(n, key) {
            Ok(v) => Ok(TbdModel { version: v, ..t }),
            Err(e) => Err(e),
        }
    } else if key == "targets"@ {
        match target_list(n) {
            Ok(v) => Ok(TbdModel { targets: v, ..t }),
            Err(e) => Err(e),
        }
    } else if key == "install-name"@ {
        match scalar(n, key) {
            Ok(v) => Ok(TbdModel { install_name: v, ..t }),
            Err(e) => Err(e),
        }
    } else if key == "current-version"@ {
        match scalar_version(n, key) {
            Ok(v) => Ok(TbdModel { current_version: Some(v), ..t }),
            Err(e) => Err(e),
        }
    } else if key == "compatibility-version"@ {
        match scalar_version(n, key) {
            Ok(v) => Ok(TbdModel { compatibility_version: Some(v), ..t }),
            Err(e) => Err(e),
        }
    } else if key == "parent-umbrella"@ {
        match entries(entry::umbrella_shape(), n) {
            Ok(v) => Ok(TbdModel { parent_umbrella: entry::scalars_of(v), ..t }),
            Err(e) => Err(e),
        }
    } else if key == "allowable-clients"@ {
        match entries(entry::list_shape("clients"@), n) {
            Ok(v) => Ok(TbdModel { allowable_clients: entry::texts_of(v), ..t }),
            Err(e) => Err(e),
        }
    } else if key == "reexported-libraries"@ {
        match entries(entry::list_shape("libraries"@), n) {
            Ok(v) => Ok(TbdModel { reexported_libraries: entry::texts_of(v), ..t }),
            Err(e) => Err(e),
        }
    } else if key == "exports"@ {
        match entries(entry::symbols_shape(), n) {
            Ok(v) => Ok(TbdModel { exports: entry::symbols_of(v), ..t }),
            Err(e) => Err(e),
        }
    } else if key == "reexports"@ {
        match entries(entry::symbols_shape(), n) {
            Ok(v) => Ok(TbdModel { reexports: entry::symbols_of(v), ..t }),
            Err(e) => Err(e),
        }
    } else {
        Ok(t)
    }
}

pub open spec fn keys_from(pairs: Seq<(Seq<char>, Node)>, i: int, t: TbdModel) -> Result<
    TbdModel,
    TbdFault,
>
    decreases pairs.len() - i,
{
    if i >= pairs.len() {
        Ok(t)
    } else {
        match with_key(t, pairs[i].0, pairs[i].1) {
            Err(e) => Err(e),
            Ok(u) => keys_from(pairs, i + 1, u),
        }
    }
}

/// A stub has a name and a target.
pub open spec fn complete(t: TbdModel) -> Result<TbdModel, TbdFault> {
    if t.install_name.len() == 0 {
        schema_fault("TBD document missing required 'install-name'"@)
    } else if t.targets.len() == 0 {
        schema_fault("TBD document missing required 'targets'"@)
    } else {
        Ok(t)
    }
}

/// The stub of a document.
pub open spec fn document(d: DocumentModel) -> Result<TbdModel, TbdFault> {
    match d.root {
        Node::Mapping(pairs) => match keys_from(pairs, 0, TbdModel::blank()) {
            Err(e) => Err(e),
            Ok(t) => complete(t),
        },
        _ => schema_fault("top level of a TBD document must be a mapping"@),
    }
}

pub open spec fn documents_from(docs: Seq<DocumentModel>, i: int, done: Seq<TbdModel>) -> Result<
    Seq<TbdModel>,
    TbdFault,
>
    decreases docs.len() - i,
{
    if i >= docs.len() {
        Ok(done)
    } else {
        match document(docs[i]) {
            Err(e) => Err(e),
            Ok(t) => documents_from(docs, i + 1, done.push(t)),
        }
    }
}

/// The stubs of a text.
pub open spec fn stubs(input: Seq<char>) -> Result<Seq<TbdModel>, TbdFault> {
    match tbd_yaml::documents(input) {
        Err(e) => Err(TbdFault::Yaml(e)),
        Ok(docs) => documents_from(docs, 0, seq![]),
    }
}

fn apply_scalar_key(tbd: Tbd, key: &String, v: &Value) -> (r: Result<Tbd, TbdError>)
    requires
        key@ == "tbd-version"@ || key@ == "targets"@ || key@ == "install-name"@ || key@
            == "current-version"@ || key@ == "compatibility-version"@,
    ensures
        match (r, with_key(tbd@, key@, tbd_yaml::node(*v))) {
            (Ok(t), Ok(m)) => t@ == m,
            (Err(e), Err(f)) => e@ == f,
            _ => false,
        },
{
    if same_text(key.as_str(), "tbd-version") {
        match scalar_u32(v, "tbd-version") {
            Ok(version) => Ok(Tbd { version, ..tbd }),
            Err(e) => Err(e),
        }
    } else if same_text(key.as_str(), "targets") {
        match decode_target_list(v) {
            Ok(targets) => Ok(Tbd { targets, ..tbd }),
            Err(e) => Err(e),
        }
    } else if same_text(key.as_str(), "install-name") {
        match scalar_string(v, "install-name") {
            Ok(install_name) => Ok(Tbd { install_name, ..tbd }),
            Err(e) => Err(e),
        }
    } else if same_text(key.as_str(), "current-version") {
        match scalar_packed_version(v, "current-version") {
            Ok(version) => Ok(Tbd { current_version: Some(version), ..tbd }),
            Err(e) => Err(e),
        }
    } else {
        match scalar_packed_version(v, "compatibility-version") {
            Ok(version) => Ok(Tbd { compatibility_version: Some(version), ..tbd }),
            Err(e) => Err(e),
        }
    }
}

fn apply_key(tbd: Tbd, key: &String, v: &Value) -> (r: Result<Tbd, TbdError>)
    ensures
        match (r, with_key(tbd@, key@, tbd_yaml::node(*v))) {
            (Ok(t), Ok(m)) => t@ == m,
            (Err(e), Err(f)) => e@ == f,
            _ => false,
        },
{
    let k = key.as_str();
    if same_text(k, "tbd-version") || same_text(k, "targets") || same_text(k, "install-name")
        || same_text(k, "current-version") || same_text(k, "compatibility-version") {
        apply_scalar_key(tbd, key, v)
    } else if same_text(k, "parent-umbrella") {
        match decode_entries(&make_umbrella_shape(), v) {
            Ok(entries) => Ok(Tbd { parent_umbrella: into_scalars(entries), ..tbd }),
            Err(e) => Err(e),
        }
    } else if same_text(k, "allowable-clients") {
        let shape = make_list_shape("clients");
        assert(shape.list_keys@.len() == shape@.list_keys.len());
        match decode_entries(&shape, v) {
            Ok(entries) => Ok(Tbd { allowable_clients: into_texts(entries), ..tbd }),
            Err(e) => Err(e),
        }
    } else if same_text(k, "reexported-libraries") {
        let shape = make_list_shape("libraries");
        assert(shape.list_keys@.len() == shape@.list_keys.len());
        match decode_entries(&shape, v) {
            Ok(entries) => Ok(Tbd { reexported_libraries: into_texts(entries), ..tbd }),
            Err(e) => Err(e),
        }
    } else if same_text(k, "exports") {
        let shape = make_symbols_shape();
        assert(shape.list_keys@.len() == shape@.list_keys.len());
        match decode_entries(&shape, v) {
            Ok(entries) => Ok(Tbd { exports: into_symbols(entries), ..tbd }),
            Err(e) => Err(e),
        }
    } else if same_text(k, "reexports") {
        let shape = make_symbols_shape();
        assert(shape.list_keys@.len() == shape@.list_keys.len());
        match decode_entries(&shape, v) {
            Ok(entries) => Ok(Tbd { reexports: into_symbols(entries), ..tbd }),
            Err(e) => Err(e),
        }
    } else {
        Ok(tbd)
    }
}

fn decode_document(doc: &Document) -> (r: Result<Tbd, TbdError>)
    ensures
        match (r, document(doc@)) {
            (Ok(t), Ok(m)) => t@ == m,
            (Err(e), Err(f)) => e@ == f,
            _ => false,
        },
{
    let pairs = match doc.root.as_mapping() {
        Some(pairs) => pairs,
        None => {
            return Err(schema("top level of a TBD document must be a mapping"));
        },
    };
    let ghost all = tbd_yaml::pairs(pairs@);
    let mut tbd = Tbd::default();
    let mut i: usize = 0;
    while i < pairs.len()
        invariant
            i <= pairs@.len(),
            all == tbd_yaml::pairs(pairs@),
            doc@.root == Node::Mapping(all),
            keys_from(all, 0, TbdModel::blank()) == keys_from(all, i as int, tbd@),
        decreases pairs@.len() - i,
    {
        assert(all[i as int] == (pairs@[i as int].0@, tbd_yaml::node(pairs@[i as int].1)));
        match apply_key(tbd, &pairs[i].0, &pairs[i].1) {
            Ok(next) => {
                tbd = next;
            },
            Err(e) => {
                return Err(e);
            },
        }
        i += 1;
    }
    check_complete(tbd)
}

pub(crate) fn check_complete(t: Tbd) -> (r: Result<Tbd, TbdError>)
    ensures
        match (r, complete(t@)) {
            (Ok(t), Ok(m)) => t@ == m,
            (Err(e), Err(f)) => e@ == f,
            _ => false,
        },
{
    proof {
        reveal_strlit("");
    }
    if same_text(t.install_name.as_str(), "") {
        assert(t.install_name@.len() == 0);
        return Err(schema("TBD document missing required 'install-name'"));
    }
    assert(t.install_name@.len() == 0 ==> t.install_name@ =~= ""@);
    if t.targets.len() == 0 {
        return Err(schema("TBD document missing required 'targets'"));
    }
    Ok(t)
}

/// Parses every stub of a text.
pub fn parse_tbd(input: &str) -> (r: Result<Vec<Tbd>, TbdError>)
    ensures
        tbd::same_docs(r, stubs(input@)),
{
    let docs = match parse_documents(input) {
        Ok(docs) => docs,
        Err(e) => {
            return Err(TbdError::Yaml(e));
        },
    };
    let ghost all = tbd_yaml::documents_view(docs@);
    let mut out: Vec<Tbd> = Vec::new();
    let mut i: usize = 0;
    assert(tbd::docs_view(out@) =~= seq![]);
    while i < docs.len()
        invariant
            i <= docs@.len(),
            all == tbd_yaml::documents_view(docs@),
            stubs(input@) == documents_from(all, 0, seq![]),
            documents_from(all, 0, seq![]) == documents_from(all, i as int, tbd::docs_view(out@)),
        decreases docs@.len() - i,
    {
        assert(all[i as int] == docs@[i as int]@);
        match decode_document(&docs[i]) {
            Ok(t) => push_doc(&mut out, t),
            Err(e) => {
                return Err(e);
            },
        }
        i += 1;
    }
    Ok(out)
}

} // verus!
