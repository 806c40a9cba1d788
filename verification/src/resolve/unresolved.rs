//! What becomes of names that nothing defines, and how the user is told.

use vstd::prelude::*;
use crate::resolve::inputs::{Inputs, ObjectModel};
use crate::resolve::names::{DylibId, InputId, Istr, SymbolId};
use crate::resolve::seed::ReferrerLog;
use crate::resolve::suggest;
use crate::resolve::suggest::did_you_mean;
use crate::resolve::table::{InsertError, Symbol, SymbolTable, TableState, TransitionCause};
use crate::text;
use crate::text::quote;

verus! {

/// What to do with names that are still undefined in the end.
#[derive(Debug, Clone, Copy, PartialEq, Eq, Structural)]
pub enum UndefinedTreatment {
    /// They are errors.
    Error,
    /// They give warnings and are looked up when the image is loaded.
    Warning,
    /// They are looked up when the image is loaded, and nothing is said.
    Suppress,
    /// They are looked up when the image is loaded, as was asked for.
    DynamicLookup,
}

impl Default for UndefinedTreatment {
    fn default() -> (r: UndefinedTreatment)
        ensures
            r == UndefinedTreatment::Error,
    {
        UndefinedTreatment::Error
    }
}

/// The ordinal that has a name looked up in every loaded dylib.
pub const FLAT_LOOKUP_ORDINAL: u16 = 0xFFFE;

impl DylibId {
    pub open spec fn spec_invalid() -> DylibId {
        DylibId(u32::MAX)
    }

    /// The handle of no dylib in particular.
    pub fn invalid() -> (r: DylibId)
        ensures
            r == DylibId::spec_invalid(),
    {
        DylibId(u32::MAX)
    }
}

/// A name that nothing defines.
#[derive(Debug, Clone, Copy, PartialEq, Eq, Structural)]
pub struct Unresolved {
    pub name: Istr,
    pub id: SymbolId,
}

/// The names that nothing defines, by what became of them.
#[derive(Debug)]
pub struct ClassificationReport {
    pub errors: Vec<Unresolved>,
    pub warnings: Vec<Unresolved>,
    pub suppressed: Vec<Unresolved>,
    /// Those that are looked up when the image is loaded.
    pub promoted_to_dynamic: Vec<SymbolId>,
    /// Those that may stay undefined.
    pub weak: Vec<Unresolved>,
}

/// A `ClassificationReport` by its contents.
#[verifier::ext_equal]
pub struct ClassModel {
    pub errors: Seq<Unresolved>,
    pub warnings: Seq<Unresolved>,
    pub suppressed: Seq<Unresolved>,
    pub promoted: Seq<SymbolId>,
    pub weak: Seq<Unresolved>,
}

impl View for ClassificationReport {
    type V = ClassModel;

    open spec fn view(&self) -> ClassModel {
        ClassModel {
            errors: self.errors@,
            warnings: self.warnings@,
            suppressed: self.suppressed@,
            promoted: self.promoted_to_dynamic@,
            weak: self.weak@,
        }
    }
}

impl ClassModel {
    pub open spec fn empty() -> ClassModel {
        ClassModel {
            errors: seq![],
            warnings: seq![],
            suppressed: seq![],
            promoted: seq![],
            weak: seq![],
        }
    }
}

impl Default for ClassificationReport {
    fn default() -> (r: ClassificationReport)
        ensures
            r@ == ClassModel::empty(),
    {
        let r = ClassificationReport {
            errors: Vec::new(),
            warnings: Vec::new(),
            suppressed: Vec::new(),
            promoted_to_dynamic: Vec::new(),
            weak: Vec::new(),
        };
        assert(r@ =~= ClassModel::empty());
        r
    }
}

/// A name that every loaded dylib is searched for.
pub open spec fn looked_up(name: Istr) -> Symbol {
    Symbol::DylibImport {
        name,
        dylib: DylibId::spec_invalid(),
        ordinal: FLAT_LOOKUP_ORDINAL,
        weak_import: true,
    }
}

/// What became of the symbols so far.
#[verifier::ext_equal]
pub struct Classified {
    pub table: TableState,
    pub report: ClassModel,
}

/// After the symbol in slot `i`.
pub open spec fn classified_one(c: Classified, i: nat, treatment: UndefinedTreatment) -> Classified {
    match c.table.symbols[i as int] {
        Symbol::Undefined { name, weak_ref, .. } => {
            let id = SymbolId(i as u32);
            let u = Unresolved { name, id };
            if weak_ref {
                Classified {
                    report: ClassModel { weak: c.report.weak.push(u), ..c.report },
                    ..c
                }
            } else if treatment == UndefinedTreatment::Error {
                Classified {
                    report: ClassModel { errors: c.report.errors.push(u), ..c.report },
                    ..c
                }
            } else {
                Classified {
                    table: c.table.with(id, looked_up(name), TransitionCause::Replaced),
                    report: ClassModel {
                        warnings: if treatment == UndefinedTreatment::Warning {
                            c.report.warnings.push(u)
                        } else {
                            c.report.warnings
                        },
                        suppressed: if treatment == UndefinedTreatment::Suppress {
                            c.report.suppressed.push(u)
                        } else {
                            c.report.suppressed
                        },
                        promoted: c.report.promoted.push(id),
                        ..c.report
                    },
                }
            }
        },
        _ => c,
    }
}

/// After the symbols in the first `n` slots.
pub open spec fn classified(table: TableState, n: nat, treatment: UndefinedTreatment) -> Classified
    decreases n,
{
    if n == 0 {
        Classified { table, report: ClassModel::empty() }
    } else {
        classified_one(classified(table, (n - 1) as nat, treatment), (n - 1) as nat, treatment)
    }
}

proof fn lemma_classified(table: TableState, n: nat, treatment: UndefinedTreatment)
    requires
        n <= table.symbols.len() <= 0x1_0000_0000,
    ensures
        ({
            let c = classified(table, n, treatment);
            &&& c.table.symbols.len() == table.symbols.len()
            &&& forall|i: int|
                n <= i < table.symbols.len() ==> #[trigger] c.table.symbols[i] == table.symbols[i]
            &&& treatment == UndefinedTreatment::Error ==> c.table == table
            &&& forall|i: int|
                0 <= i < n ==> (#[trigger] c.table.symbols[i]) == if table.symbols[i] is Undefined
                    && !table.symbols[i]->Undefined_weak_ref && treatment
                    != UndefinedTreatment::Error {
                    looked_up(table.symbols[i].spec_name())
                } else {
                    table.symbols[i]
                }
        }),
    decreases n,
{
    if n > 0 {
        lemma_classified(table, (n - 1) as nat, treatment);
        let c = classified(table, (n - 1) as nat, treatment);
        assert(c.table.symbols[n - 1] == table.symbols[n - 1]);
    }
}

/// Classifying gives no name another slot.
pub proof fn lemma_classified_keeps_names(
    table: TableState,
    n: nat,
    treatment: UndefinedTreatment,
)
    requires
        n <= table.symbols.len() <= 0x1_0000_0000,
    ensures
        classified(table, n, treatment).table.by_name == table.by_name,
    decreases n,
{
    if n > 0 {
        lemma_classified_keeps_names(table, (n - 1) as nat, treatment);
    }
}

/// Classifying touches nothing but strong undefined names, and those only where they
/// are no errors: each of them is then looked up when the image is loaded.
pub proof fn law_only_strong_undefined_change(table: TableState, treatment: UndefinedTreatment)
    requires
        table.symbols.len() <= 0x1_0000_0000,
    ensures
        ({
            let after = classified(table, table.symbols.len(), treatment).table;
            &&& after.symbols.len() == table.symbols.len()
            &&& treatment == UndefinedTreatment::Error ==> after == table
            &&& forall|i: int|
                0 <= i < table.symbols.len() ==> #[trigger] after.symbols[i]
                    == if table.symbols[i] is Undefined && !table.symbols[i]->Undefined_weak_ref
                    && treatment != UndefinedTreatment::Error {
                    looked_up(table.symbols[i].spec_name())
                } else {
                    table.symbols[i]
                }
        }),
{
    lemma_classified(table, table.symbols.len(), treatment);
}

/// A strong undefined name that is no error becomes an import of that name from no dylib
/// of its own: all of them are searched for it, and it may be missing.
pub proof fn law_undefined_is_looked_up(table: TableState, treatment: UndefinedTreatment, i: int)
    requires
        table.symbols.len() <= 0x1_0000_0000,
        treatment != UndefinedTreatment::Error,
        0 <= i < table.symbols.len(),
        table.symbols[i] is Undefined,
        !table.symbols[i]->Undefined_weak_ref,
    ensures
        ({
            let after = classified(table, table.symbols.len(), treatment).table.symbols[i];
            &&& after is DylibImport
            &&& after->DylibImport_name == table.symbols[i]->Undefined_name
            &&& after->DylibImport_ordinal == 0xfffe
            &&& after->DylibImport_weak_import
        }),
{
    lemma_classified(table, table.symbols.len(), treatment);
}

/// Unless they are errors, no strong undefined name is left.
pub proof fn law_no_strong_undefined_left(table: TableState, treatment: UndefinedTreatment, i: int)
    requires
        table.symbols.len() <= 0x1_0000_0000,
        treatment != UndefinedTreatment::Error,
        0 <= i < table.symbols.len(),
    ensures
        ({
            let after = classified(table, table.symbols.len(), treatment).table.symbols[i];
            after is Undefined ==> after->Undefined_weak_ref
        }),
{
    lemma_classified(table, table.symbols.len(), treatment);
}

/// Every name that is still undefined is an error, promoted or weak: the report lists
/// as many as there are.
pub proof fn law_every_undefined_is_reported(
    table: TableState,
    n: nat,
    treatment: UndefinedTreatment,
    i: int,
)
    requires
        table.symbols.len() <= 0x1_0000_0000,
        0 <= i < n <= table.symbols.len(),
        table.symbols[i] is Undefined,
    ensures
        ({
            let r = classified(table, n, treatment).report;
            let u = Unresolved { name: table.symbols[i].spec_name(), id: SymbolId(i as u32) };
            if table.symbols[i]->Undefined_weak_ref {
                r.weak.contains(u)
            } else {
                match treatment {
                    UndefinedTreatment::Error => r.errors.contains(u),
                    UndefinedTreatment::Warning => r.warnings.contains(u) && r.promoted.contains(
                        u.id,
                    ),
                    UndefinedTreatment::Suppress => r.suppressed.contains(u)
                        && r.promoted.contains(u.id),
                    UndefinedTreatment::DynamicLookup => r.promoted.contains(u.id),
                }
            }
        }),
    decreases n,
{
    let before = classified(table, (n - 1) as nat, treatment).report;
    let after = classified(table, n, treatment).report;
    lemma_classified(table, (n - 1) as nat, treatment);
    let u = Unresolved { name: table.symbols[i].spec_name(), id: SymbolId(i as u32) };
    if i == n - 1 {
        lemma_pushed(before.weak, u, u);
        lemma_pushed(before.errors, u, u);
        lemma_pushed(before.warnings, u, u);
        lemma_pushed(before.suppressed, u, u);
        lemma_pushed(before.promoted, u.id, u.id);
    } else {
        law_every_undefined_is_reported(table, (n - 1) as nat, treatment, i);
        let id = SymbolId((n - 1) as u32);
        let v = Unresolved { name: table.symbols[n - 1].spec_name(), id };
        lemma_pushed(before.weak, v, u);
        lemma_pushed(before.errors, v, u);
        lemma_pushed(before.warnings, v, u);
        lemma_pushed(before.suppressed, v, u);
        lemma_pushed(before.promoted, id, u.id);
    }
}

proof fn lemma_pushed<T>(s: Seq<T>, x: T, y: T)
    ensures
        s.push(x).contains(x),
        s.contains(y) ==> s.push(x).contains(y),
{
    assert(s.push(x)[s.len() as int] == x);
    if s.contains(y) {
        let i = choose|i: int| 0 <= i < s.len() && s[i] == y;
        assert(s.push(x)[i] == y);
    }
}

/// Sorts out what is still undefined. Weak references may stay.
pub fn classify_unresolved(
    table: &mut SymbolTable,
    treatment: UndefinedTreatment,
) -> (r: ClassificationReport)
    requires
        old(table).wf(),
        old(table)@.symbols.len() <= 0x1_0000_0000,
    ensures
        final(table).wf(),
        (Classified { table: final(table)@, report: r@ }) == classified(
            old(table)@,
            old(table)@.symbols.len(),
            treatment,
        ),
{
    let ghost start = table@;
    let count: usize = table.len();
    let mut report = ClassificationReport::default();
    let mut i: usize = 0;
    while i < count
        invariant
            i <= count <= 0x1_0000_0000,
            count == start.symbols.len(),
            table@.symbols.len() == count,
            table.wf(),
            (Classified { table: table@, report: report@ }) == classified(
                start,
                i as nat,
                treatment,
            ),
        decreases count - i,
    {
        let id = SymbolId(i as u32);
        let ghost before = Classified { table: table@, report: report@ };
        if let Symbol::Undefined { name, weak_ref, .. } = *table.get(id) {
            let u = Unresolved { name, id };
            if weak_ref {
                report.weak.push(u);
            } else if treatment == UndefinedTreatment::Error {
                report.errors.push(u);
            } else {
                if treatment == UndefinedTreatment::Warning {
                    report.warnings.push(u);
                }
                if treatment == UndefinedTreatment::Suppress {
                    report.suppressed.push(u);
                }
                table.replace(
                    id,
                    Symbol::DylibImport {
                        name,
                        dylib: DylibId::invalid(),
                        ordinal: FLAT_LOOKUP_ORDINAL,
                        weak_import: true,
                    },
                    TransitionCause::Replaced,
                );
                report.promoted_to_dynamic.push(id);
            }
        }
        proof {
            let after = Classified { table: table@, report: report@ };
            assert(after =~= classified_one(before, i as nat, treatment));
        }
        i += 1;
    }
    report
}

/// A line for every input that refers to a name and is known.
pub open spec fn referrer_lines(objects: Seq<ObjectModel>, origins: Seq<InputId>) -> Seq<char>
    decreases origins.len(),
{
    if origins.len() == 0 {
        seq![]
    } else {
        let rest = referrer_lines(objects, origins.drop_last());
        let o = origins.last();
        if o.0 < objects.len() {
            rest + "      referenced by "@ + objects[o.0 as int].path + "\n"@
        } else {
            rest
        }
    }
}

/// Texts between quotes, with `or` between them.
pub open spec fn alternatives(names: Seq<Seq<char>>) -> Seq<char>
    decreases names.len(),
{
    if names.len() == 0 {
        seq![]
    } else if names.len() == 1 {
        text::quoted(names[0])
    } else {
        alternatives(names.drop_last()) + " or "@ + text::quoted(names.last())
    }
}

/// What the user may have meant.
pub open spec fn hint(names: Seq<Seq<char>>) -> Seq<char> {
    if names.len() == 0 {
        seq![]
    } else {
        "  Hint: did you mean "@ + alternatives(names) + "?\n"@
    }
}

/// What is said about one name that nothing defines.
pub open spec fn undefined_entry(
    table: TableState,
    objects: Seq<ObjectModel>,
    log: Map<u32, Seq<InputId>>,
    u: Unresolved,
    level: Seq<char>,
) -> Seq<char> {
    let name = table.names[u.name.0 as int];
    "afs-ld: "@ + level + ": undefined symbol: "@ + name + "\n"@ + referrer_lines(
        objects,
        log[u.name.0],
    ) + hint(suggest::suggestions(table, name, 3, 3))
}

/// What is said about names that nothing defines.
pub open spec fn undefined_text(
    table: TableState,
    objects: Seq<ObjectModel>,
    log: Map<u32, Seq<InputId>>,
    unresolved: Seq<Unresolved>,
    level: Seq<char>,
) -> Seq<char>
    decreases unresolved.len(),
{
    if unresolved.len() == 0 {
        seq![]
    } else {
        undefined_text(table, objects, log, unresolved.drop_last(), level) + undefined_entry(
            table,
            objects,
            log,
            unresolved.last(),
            level,
        )
    }
}

/// The names that are spoken of are interned.
pub open spec fn all_interned(table: TableState, unresolved: Seq<Unresolved>) -> bool {
    forall|i: int|
        0 <= i < unresolved.len() ==> (#[trigger] unresolved[i]).name.0 < table.names.len()
}

fn append_referrers(inputs: &Inputs, origins: &Vec<InputId>, out: &mut String)
    ensures
        final(out)@ == old(out)@ + referrer_lines(inputs@.objects, origins@),
{
    let ghost start = out@;
    let ghost objects = inputs@.objects;
    let mut i: usize = 0;
    assert(start =~= start + referrer_lines(objects, origins@.take(0)));
    while i < origins.len()
        invariant
            i <= origins@.len(),
            objects == inputs@.objects,
            out@ == start + referrer_lines(objects, origins@.take(i as int)),
        decreases origins@.len() - i,
    {
        assert(origins@.take(i + 1).drop_last() =~= origins@.take(i as int));
        let at: usize = origins[i].0 as usize;
        if at < inputs.objects.len() {
            assert(objects[at as int] == inputs.objects@[at as int]@);
            out.append("      referenced by ");
            out.append(inputs.objects[at].path.as_str());
            out.append("\n");
        }
        assert(out@ =~= start + referrer_lines(objects, origins@.take(i + 1)));
        i += 1;
    }
    assert(origins@.take(i as int) =~= origins@);
}

fn append_hint(names: &Vec<String>, out: &mut String)
    ensures
        final(out)@ == old(out)@ + hint(text::texts(names@)),
{
    let ghost start = out@;
    let ghost all = text::texts(names@);
    if names.len() == 0 {
        assert(start =~= start + hint(all));
        return;
    }
    let mut said = quote(names[0].as_str());
    let mut i: usize = 1;
    assert(all.take(1).len() == 1 && all.take(1)[0] == all[0]);
    assert(all[0] == names@[0]@);
    while i < names.len()
        invariant
            1 <= i <= names@.len(),
            all == text::texts(names@),
            said@ == alternatives(all.take(i as int)),
        decreases names@.len() - i,
    {
        assert(all.take(i + 1).drop_last() =~= all.take(i as int));
        assert(all[i as int] == names@[i as int]@);
        said.append(" or ");
        said.append(quote(names[i].as_str()).as_str());
        i += 1;
    }
    assert(all.take(i as int) =~= all);
    out.append("  Hint: did you mean ");
    out.append(said.as_str());
    out.append("?\n");
    assert(out@ =~= start + hint(all));
}

fn format_undefined_diagnostic_with_level(
    table: &SymbolTable,
    inputs: &Inputs,
    referrers: &ReferrerLog,
    unresolved: &[Unresolved],
    level: &str,
) -> (r: String)
    requires
        suggest::names_known(table@),
        all_interned(table@, unresolved@),
    ensures
        r@ == undefined_text(table@, inputs@.objects, referrers@, unresolved@, level@),
{
    let mut out = String::new();
    let mut i: usize = 0;
    assert(unresolved@.take(0).len() == 0);
    assert(out@ =~= seq![]);
    while i < unresolved.len()
        invariant
            i <= unresolved@.len(),
            suggest::names_known(table@),
            all_interned(table@, unresolved@),
            out@ == undefined_text(
                table@,
                inputs@.objects,
                referrers@,
                unresolved@.take(i as int),
                level@,
            ),
        decreases unresolved@.len() - i,
    {
        assert(unresolved@.take(i + 1).drop_last() =~= unresolved@.take(i as int));
        let u = unresolved[i];
        assert(u == unresolved@[i as int]);
        let ghost start = out@;
        let name = table.name_str(u.name);
        let mut entry = "afs-ld: ".to_owned();
        entry.append(level);
        entry.append(": undefined symbol: ");
        entry.append(name);
        entry.append("\n");
        let origins = referrers.get(u.name);
        append_referrers(inputs, &origins, &mut entry);
        let names = did_you_mean(table, name, 3, 3);
        append_hint(&names, &mut entry);
        assert(entry@ =~= undefined_entry(table@, inputs@.objects, referrers@, u, level@));
        out.append(entry.as_str());
        i += 1;
    }
    assert(unresolved@.take(i as int) =~= unresolved@);
    out
}

/// The errors for names that nothing defines: who refers to each, and what may have
/// been meant.
pub fn format_undefined_diagnostic(
    table: &SymbolTable,
    inputs: &Inputs,
    referrers: &ReferrerLog,
    unresolved: &[Unresolved],
) -> (r: String)
    requires
        suggest::names_known(table@),
        all_interned(table@, unresolved@),
    ensures
        r@ == undefined_text(table@, inputs@.objects, referrers@, unresolved@, "error"@),
{
    format_undefined_diagnostic_with_level(table, inputs, referrers, unresolved, "error")
}

/// The same, as warnings.
pub fn format_undefined_warning_diagnostic(
    table: &SymbolTable,
    inputs: &Inputs,
    referrers: &ReferrerLog,
    unresolved: &[Unresolved],
) -> (r: String)
    requires
        suggest::names_known(table@),
        all_interned(table@, unresolved@),
    ensures
        r@ == undefined_text(table@, inputs@.objects, referrers@, unresolved@, "warning"@),
{
    format_undefined_diagnostic_with_level(table, inputs, referrers, unresolved, "warning")
}

/// A line that says where a definition stands, if that is known.
pub open spec fn defined_line(objects: Seq<ObjectModel>, sym: Symbol, words: Seq<char>) -> Seq<
    char,
> {
    match sym {
        Symbol::Defined { origin, .. } => if origin.0 < objects.len() {
            words + objects[origin.0 as int].path + "\n"@
        } else {
            seq![]
        },
        _ => seq![],
    }
}

/// What is said about two definitions of one name.
pub open spec fn duplicate_text(
    table: TableState,
    objects: Seq<ObjectModel>,
    err: InsertError,
) -> Seq<char> {
    match err {
        InsertError::DuplicateStrong { name, first, second } => "afs-ld: error: duplicate symbol "@
            + table.names[name.0 as int] + "\n"@ + defined_line(
            objects,
            table.at(first),
            "  defined in "@,
        ) + defined_line(objects, *second, "  also in "@),
        InsertError::AliasCycle { .. } => seq![],
    }
}

fn append_defined(inputs: &Inputs, sym: &Symbol, words: &str, out: &mut String)
    ensures
        final(out)@ == old(out)@ + defined_line(inputs@.objects, *sym, words@),
{
    let ghost start = out@;
    if let Symbol::Defined { origin, .. } = *sym {
        let at: usize = origin.0 as usize;
        if at < inputs.objects.len() {
            assert(inputs@.objects[at as int] == inputs.objects@[at as int]@);
            out.append(words);
            out.append(inputs.objects[at].path.as_str());
            out.append("\n");
        }
    }
    assert(out@ =~= start + defined_line(inputs@.objects, *sym, words@));
}

/// The error for two definitions of one name. There is nothing to say about another
/// refusal.
pub fn format_duplicate_diagnostic(
    table: &SymbolTable,
    inputs: &Inputs,
    err: &InsertError,
) -> (r: String)
    requires
        err matches InsertError::DuplicateStrong { name, first, .. } ==> name.0
            < table@.names.len() && first.0 < table@.symbols.len(),
    ensures
        r@ == duplicate_text(table@, inputs@.objects, *err),
{
    match err {
        InsertError::DuplicateStrong { name, first, second } => {
            let mut out = "afs-ld: error: duplicate symbol ".to_owned();
            out.append(table.name_str(*name));
            out.append("\n");
            append_defined(inputs, table.get(*first), "  defined in ", &mut out);
            append_defined(inputs, &**second, "  also in ", &mut out);
            out
        },
        InsertError::AliasCycle { .. } => {
            let out = String::new();
            assert(out@ =~= seq![]);
            out
        },
    }
}

} // verus!
