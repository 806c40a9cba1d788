//! Symbol resolution: names, the symbol table, the registry of inputs, and the
//! passes that fill the table from them.

pub mod fetch;
pub mod history;
pub mod inputs;
pub mod laws;
pub mod names;
pub mod rank_laws;
pub mod seed;
pub mod suggest;
pub mod table;
pub mod unresolved;

pub use fetch::{drain_fetches, force_load_all, force_load_archive, DrainReport, FetchError};
pub use inputs::{
    find_archive_by_path, ArchiveInput, ArchiveMember, DylibInput, DylibLoadMeta, IndexEntry,
    InputAddError, Inputs, MemberContent, ObjectInput,
};
pub use names::{ArchiveId, AtomId, DylibId, InputId, Istr, MemberId, StringInterner, SymbolId};
pub use seed::{
    seed_all, seed_archives, seed_dylib, seed_object, PendingFetch, ReferrerLog, SeedError,
    SeedReport,
};
pub use suggest::{did_you_mean, levenshtein};
pub use table::{
    InsertError, InsertOutcome, ResolveError, Symbol, SymbolKindTag, SymbolTable, Transition,
    TransitionCause, MAX_ALIAS_DEPTH,
};
pub use unresolved::{
    classify_unresolved, format_duplicate_diagnostic, format_undefined_diagnostic,
    format_undefined_warning_diagnostic, ClassificationReport, UndefinedTreatment, Unresolved,
    FLAT_LOOKUP_ORDINAL,
};
