//! The command line of an ELF link.

use vstd::prelude::*;
use crate::chars;
use crate::chars::{starts_with, strip_prefix};
use crate::elf;
use crate::elf::{push_input, InputModel, LibrarySearchMode, LinkInput};
use crate::text;
use crate::text::{chars_of, same_text, string_of};

verus! {

/// What is wrong with the arguments.
#[derive(Debug, Clone, PartialEq, Eq)]
pub enum ArgsError {
    MissingValue(String),
    InvalidValue { flag: String, value: String, expected: String },
}

/// An `ArgsError` with its texts as sequences.
#[verifier::ext_equal]
pub enum ArgsFault {
    MissingValue(Seq<char>),
    InvalidValue { flag: Seq<char>, value: Seq<char>, expected: Seq<char> },
}

impl View for ArgsError {
    type V = ArgsFault;

    open spec fn view(&self) -> ArgsFault {
        match self {
            ArgsError::MissingValue(flag) => ArgsFault::MissingValue(flag@),
            ArgsError::InvalidValue { flag, value, expected } => ArgsFault::InvalidValue {
                flag: flag@,
                value: value@,
                expected: expected@,
            },
        }
    }
}

/// What `-z` asks for.
#[derive(Debug, Clone, Copy, PartialEq, Eq, Structural)]
pub struct ElfLinkPolicy {
    pub executable_stack: Option<bool>,
    pub bind_now: bool,
}

impl ElfLinkPolicy {
    pub open spec fn spec_default() -> ElfLinkPolicy {
        ElfLinkPolicy { executable_stack: None, bind_now: false }
    }
}

impl Default for ElfLinkPolicy {
    fn default() -> (r: ElfLinkPolicy)
        ensures
            r == ElfLinkPolicy::spec_default(),
    {
        ElfLinkPolicy { executable_stack: None, bind_now: false }
    }
}

/// The fault of a keyword that `-z` does not know.
pub open spec fn keyword_fault(keyword: Seq<char>) -> ArgsFault {
    ArgsFault::InvalidValue {
        flag: "-z"@,
        value: keyword,
        expected: "`execstack`, `noexecstack`, `lazy`, or `now`"@,
    }
}

/// The policy with a keyword of `-z`.
pub open spec fn with_keyword(keyword: Seq<char>, policy: ElfLinkPolicy) -> Option<ElfLinkPolicy> {
    if keyword == "execstack"@ {
        Some(ElfLinkPolicy { executable_stack: Some(true), ..policy })
    } else if keyword == "noexecstack"@ {
        Some(ElfLinkPolicy { executable_stack: Some(false), ..policy })
    } else if keyword == "lazy"@ {
        Some(ElfLinkPolicy { bind_now: false, ..policy })
    } else if keyword == "now"@ {
        Some(ElfLinkPolicy { bind_now: true, ..policy })
    } else {
        None
    }
}

/// Applies a keyword of `-z`.
pub fn apply_elf_z_policy(keyword: &str, policy: &mut ElfLinkPolicy) -> (r: Result<(), ArgsError>)
    ensures
        match with_keyword(keyword@, *old(policy)) {
            Some(p) => r is Ok && *final(policy) == p,
            None => r is Err && r->Err_0@ == keyword_fault(keyword@) && *final(policy) == *old(
                policy,
            ),
        },
{
    if same_text(keyword, "execstack") {
        policy.executable_stack = Some(true);
    } else if same_text(keyword, "noexecstack") {
        policy.executable_stack = Some(false);
    } else if same_text(keyword, "lazy") {
        policy.bind_now = false;
    } else if same_text(keyword, "now") {
        policy.bind_now = true;
    } else {
        return Err(
            ArgsError::InvalidValue {
                flag: "-z".to_owned(),
                value: keyword.to_owned(),
                expected: "`execstack`, `noexecstack`, `lazy`, or `now`".to_owned(),
            },
        );
    }
    Ok(())
}

/// The arguments of an ELF link, and what else stands behind them in force.
#[derive(Debug)]
pub struct ElfArgs {
    pub output: Option<String>,
    pub inputs: Vec<LinkInput>,
    pub lib_dirs: Vec<String>,
    pub unsupported: Vec<String>,
    pub error: Option<ArgsError>,
    pub dynamic_linker: Option<String>,
    pub eh_frame_hdr: bool,
    pub gc_sections: bool,
    pub policy: ElfLinkPolicy,
    pub as_needed: bool,
    pub library_search: LibrarySearchMode,
    pub elf_emulation: bool,
    pub entry: String,
}

/// `ElfArgs` by their contents.
#[verifier::ext_equal]
pub struct ElfModel {
    pub output: Option<Seq<char>>,
    pub inputs: Seq<InputModel>,
    pub lib_dirs: Seq<Seq<char>>,
    pub unsupported: Seq<Seq<char>>,
    pub error: Option<ArgsFault>,
    pub dynamic_linker: Option<Seq<char>>,
    pub eh_frame_hdr: bool,
    pub gc_sections: bool,
    pub policy: ElfLinkPolicy,
    pub as_needed: bool,
    pub library_search: LibrarySearchMode,
    pub elf_emulation: bool,
    pub entry: Seq<char>,
}

/// A text that may be missing.
pub open spec fn text_view(s: Option<String>) -> Option<Seq<char>> {
    match s {
        Some(s) => Some(s@),
        None => None,
    }
}

impl View for ElfArgs {
    type V = ElfModel;

    open spec fn view(&self) -> ElfModel {
        ElfModel {
            output: text_view(self.output),
            inputs: elf::inputs_view(self.inputs@),
            lib_dirs: text::texts(self.lib_dirs@),
            unsupported: text::texts(self.unsupported@),
            error: match self.error {
                Some(e) => Some(e@),
                None => None,
            },
            dynamic_linker: text_view(self.dynamic_linker),
            eh_frame_hdr: self.eh_frame_hdr,
            gc_sections: self.gc_sections,
            policy: self.policy,
            as_needed: self.as_needed,
            library_search: self.library_search,
            elf_emulation: self.elf_emulation,
            entry: self.entry@,
        }
    }
}

impl ElfModel {
    /// Before any argument.
    pub open spec fn start() -> ElfModel {
        ElfModel {
            output: None,
            inputs: seq![],
            lib_dirs: seq![],
            unsupported: seq![],
            error: None,
            dynamic_linker: None,
            eh_frame_hdr: false,
            gc_sections: false,
            policy: ElfLinkPolicy::spec_default(),
            as_needed: false,
            library_search: LibrarySearchMode::DynamicPreferred,
            elf_emulation: false,
            entry: "_start"@,
        }
    }

    pub open spec fn with_input(self, input: InputModel) -> ElfModel {
        ElfModel { inputs: self.inputs.push(input), ..self }
    }

    /// With a library wanted under the policies in force.
    pub open spec fn with_lib(self, name: Seq<char>) -> ElfModel {
        self.with_input(
            InputModel::Lib {
                name,
                as_needed: self.as_needed,
                library_search: self.library_search,
            },
        )
    }

    pub open spec fn with_file(self, path: Seq<char>) -> ElfModel {
        self.with_input(
            InputModel::File {
                path,
                as_needed: self.as_needed,
                library_search: self.library_search,
            },
        )
    }

    pub open spec fn with_unsupported(self, what: Seq<char>) -> ElfModel {
        ElfModel { unsupported: self.unsupported.push(what), ..self }
    }

    /// With a fault, unless there is one already.
    pub open spec fn with_first_fault(self, fault: ArgsFault) -> ElfModel {
        ElfModel {
            error: if self.error is Some {
                self.error
            } else {
                Some(fault)
            },
            ..self
        }
    }

    /// With a keyword of `-z`.
    pub open spec fn with_z(self, keyword: Seq<char>) -> ElfModel {
        match with_keyword(keyword, self.policy) {
            Some(policy) => ElfModel { policy, ..self },
            None => self.with_first_fault(keyword_fault(keyword)),
        }
    }
}

/// After an argument that takes the next one as its value. `None` for any other.
pub open spec fn value_read(s: ElfModel, a: Seq<char>, value: Option<Seq<char>>) -> Option<
    ElfModel,
> {
    if a == "-o"@ {
        Some(ElfModel { output: value, ..s })
    } else if a == "-L"@ {
        Some(
            match value {
                Some(dir) => ElfModel { lib_dirs: s.lib_dirs.push(dir), ..s },
                None => s,
            },
        )
    } else if a == "-l"@ {
        Some(
            match value {
                Some(name) => s.with_lib(name),
                None => s,
            },
        )
    } else if a == "--dynamic-linker"@ || a == "-dynamic-linker"@ {
        Some(
            match value {
                Some(path) => ElfModel { dynamic_linker: Some(path), ..s },
                None => ElfModel { error: Some(ArgsFault::MissingValue(a)), ..s },
            },
        )
    } else if a == "-e"@ {
        Some(
            match value {
                Some(symbol) => ElfModel { entry: symbol, ..s },
                None => s.with_unsupported("-e (missing symbol)"@),
            },
        )
    } else if a == "-m"@ {
        Some(
            match value {
                Some(emulation) => if emulation == "elf_x86_64"@ {
                    ElfModel { elf_emulation: true, ..s }
                } else {
                    s.with_unsupported("-m "@ + emulation)
                },
                None => s.with_unsupported("-m (missing emulation)"@),
            },
        )
    } else if a == "-z"@ {
        Some(
            match value {
                Some(keyword) => s.with_z(keyword),
                None => s.with_first_fault(ArgsFault::MissingValue(a)),
            },
        )
    } else {
        None
    }
}

/// After an argument that stands for itself. `None` for any other.
pub open spec fn switch_read(s: ElfModel, a: Seq<char>) -> Option<ElfModel> {
    if a == "--eh-frame-hdr"@ {
        Some(ElfModel { eh_frame_hdr: true, ..s })
    } else if a == "--no-eh-frame-hdr"@ {
        Some(ElfModel { eh_frame_hdr: false, ..s })
    } else if a == "--gc-sections"@ {
        Some(ElfModel { gc_sections: true, ..s })
    } else if a == "--no-gc-sections"@ {
        Some(ElfModel { gc_sections: false, ..s })
    } else if a == "--start-group"@ || a == "-("@ {
        Some(s.with_input(InputModel::GroupStart))
    } else if a == "--end-group"@ || a == "-)"@ {
        Some(s.with_input(InputModel::GroupEnd))
    } else if a == "--as-needed"@ {
        Some(ElfModel { as_needed: true, ..s })
    } else if a == "--no-as-needed"@ {
        Some(ElfModel { as_needed: false, ..s })
    } else if a == "-melf_x86_64"@ {
        Some(ElfModel { elf_emulation: true, ..s })
    } else if a == "-static"@ || a == "-Bstatic"@ || a == "-dn"@ || a == "-non_shared"@ {
        Some(ElfModel { library_search: LibrarySearchMode::StaticOnly, ..s })
    } else if a == "-Bdynamic"@ || a == "-dy"@ || a == "-call_shared"@ {
        Some(ElfModel { library_search: LibrarySearchMode::DynamicPreferred, ..s })
    } else {
        None
    }
}

/// After any other argument: a flag with its value behind it, a flag that is not
/// supported, or a file.
pub open spec fn rest_read(s: ElfModel, a: Seq<char>) -> ElfModel {
    if chars::prefixed(a, "-L"@) {
        ElfModel { lib_dirs: s.lib_dirs.push(a.skip(2)), ..s }
    } else if chars::prefixed(a, "-l"@) {
        s.with_lib(a.skip(2))
    } else if chars::prefixed(a, "-z"@) {
        s.with_z(a.skip(2))
    } else if chars::prefixed(a, "-"@) {
        s.with_unsupported(a)
    } else {
        s.with_file(a)
    }
}

/// After the arguments from `i` on.
pub open spec fn read_from(s: ElfModel, args: Seq<Seq<char>>, i: nat) -> ElfModel
    decreases args.len() + 1 - i,
{
    if i >= args.len() {
        s
    } else {
        let a = args[i as int];
        let value = if i + 1 < args.len() {
            Some(args[(i + 1) as int])
        } else {
            None
        };
        match value_read(s, a, value) {
            Some(next) => read_from(next, args, i + 2),
            None => match switch_read(s, a) {
                Some(next) => read_from(next, args, i + 1),
                None => read_from(rest_read(s, a), args, i + 1),
            },
        }
    }
}

/// What the arguments say to an ELF link.
pub open spec fn read(args: Seq<Seq<char>>) -> ElfModel {
    read_from(ElfModel::start(), args, 0)
}

impl ElfArgs {
    fn add_input(&mut self, input: LinkInput)
        ensures
            final(self)@ == old(self)@.with_input(input@),
    {
        push_input(&mut self.inputs, input);
    }

    fn add_lib(&mut self, name: String)
        ensures
            final(self)@ == old(self)@.with_lib(name@),
    {
        let as_needed = self.as_needed;
        let library_search = self.library_search;
        self.add_input(LinkInput::Lib { name, as_needed, library_search });
    }

    fn add_dir(&mut self, dir: String)
        ensures
            final(self)@ == (ElfModel { lib_dirs: old(self)@.lib_dirs.push(dir@), ..old(self)@ }),
    {
        let ghost before = self@;
        self.lib_dirs.push(dir);
        assert(text::texts(self.lib_dirs@) =~= before.lib_dirs.push(dir@));
    }

    fn add_unsupported(&mut self, what: String)
        ensures
            final(self)@ == old(self)@.with_unsupported(what@),
    {
        let ghost before = self@;
        self.unsupported.push(what);
        assert(text::texts(self.unsupported@) =~= before.unsupported.push(what@));
    }

    fn note_fault(&mut self, fault: ArgsError)
        ensures
            final(self)@ == old(self)@.with_first_fault(fault@),
    {
        if self.error.is_none() {
            self.error = Some(fault);
        }
    }

    fn apply_z(&mut self, keyword: &str)
        ensures
            final(self)@ == old(self)@.with_z(keyword@),
    {
        match apply_elf_z_policy(keyword, &mut self.policy) {
            Ok(_) => {},
            Err(e) => {
                self.note_fault(e);
            },
        }
    }

    fn read_value(&mut self, a: &str, value: Option<&String>) -> (r: bool)
        ensures
            match value_read(
                old(self)@,
                a@,
                match value {
                    Some(v) => Some(v@),
                    None => None,
                },
            ) {
                Some(s) => r && final(self)@ == s,
                None => !r && final(self)@ == old(self)@,
            },
    {
        if same_text(a, "-o") {
            self.output = match value {
                Some(v) => Some(v.clone()),
                None => None,
            };
            true
        } else if same_text(a, "-L") {
            if let Some(v) = value {
                self.add_dir(v.clone());
            }
            true
        } else if same_text(a, "-l") {
            if let Some(v) = value {
                self.add_lib(v.clone());
            }
            true
        } else if same_text(a, "--dynamic-linker") || same_text(a, "-dynamic-linker") {
            match value {
                Some(v) => {
                    self.dynamic_linker = Some(v.clone());
                },
                None => {
                    self.error = Some(ArgsError::MissingValue(a.to_owned()));
                },
            }
            true
        } else if same_text(a, "-e") {
            match value {
                Some(v) => {
                    self.entry = v.clone();
                },
                None => {
                    self.add_unsupported("-e (missing symbol)".to_owned());
                },
            }
            true
        } else if same_text(a, "-m") {
            match value {
                Some(v) => {
                    if same_text(v.as_str(), "elf_x86_64") {
                        self.elf_emulation = true;
                    } else {
                        let mut what = "-m ".to_owned();
                        what.append(v.as_str());
                        self.add_unsupported(what);
                    }
                },
                None => {
                    self.add_unsupported("-m (missing emulation)".to_owned());
                },
            }
            true
        } else if same_text(a, "-z") {
            match value {
                Some(v) => {
                    self.apply_z(v.as_str());
                },
                None => {
                    self.note_fault(ArgsError::MissingValue(a.to_owned()));
                },
            }
            true
        } else {
            false
        }
    }

    fn read_switch(&mut self, a: &str) -> (r: bool)
        ensures
            match switch_read(old(self)@, a@) {
                Some(s) => r && final(self)@ == s,
                None => !r && final(self)@ == old(self)@,
            },
    {
        if same_text(a, "--eh-frame-hdr") {
            self.eh_frame_hdr = true;
        } else if same_text(a, "--no-eh-frame-hdr") {
            self.eh_frame_hdr = false;
        } else if same_text(a, "--gc-sections") {
            self.gc_sections = true;
        } else if same_text(a, "--no-gc-sections") {
            self.gc_sections = false;
        } else if same_text(a, "--start-group") || same_text(a, "-(") {
            self.add_input(LinkInput::GroupStart);
        } else if same_text(a, "--end-group") || same_text(a, "-)") {
            self.add_input(LinkInput::GroupEnd);
        } else if same_text(a, "--as-needed") {
            self.as_needed = true;
        } else if same_text(a, "--no-as-needed") {
            self.as_needed = false;
        } else if same_text(a, "-melf_x86_64") {
            self.elf_emulation = true;
        } else if same_text(a, "-static") || same_text(a, "-Bstatic") || same_text(a, "-dn")
            || same_text(a, "-non_shared") {
            self.library_search = LibrarySearchMode::StaticOnly;
        } else if same_text(a, "-Bdynamic") || same_text(a, "-dy") || same_text(a, "-call_shared") {
            self.library_search = LibrarySearchMode::DynamicPreferred;
        } else {
            return false;
        }
        true
    }

    fn read_rest(&mut self, a: &str)
        ensures
            final(self)@ == rest_read(old(self)@, a@),
    {
        let c = chars_of(a);
        proof {
            reveal_strlit("-L");
            reveal_strlit("-l");
            reveal_strlit("-z");
        }
        if let Some(dir) = strip_prefix(&c, "-L") {
            self.add_dir(string_of(&dir));
        } else if let Some(name) = strip_prefix(&c, "-l") {
            self.add_lib(string_of(&name));
        } else if let Some(keyword) = strip_prefix(&c, "-z") {
            self.apply_z(string_of(&keyword).as_str());
        } else if starts_with(&c, "-") {
            self.add_unsupported(a.to_owned());
        } else {
            let as_needed = self.as_needed;
            let library_search = self.library_search;
            self.add_input(LinkInput::File { path: a.to_owned(), as_needed, library_search });
        }
    }
}

/// Reads the arguments of an ELF link.
pub fn read_elf_args(args: &[String]) -> (r: ElfArgs)
    ensures
        r@ == read(text::texts(args@)),
{
    let mut s = ElfArgs {
        output: None,
        inputs: Vec::new(),
        lib_dirs: Vec::new(),
        unsupported: Vec::new(),
        error: None,
        dynamic_linker: None,
        eh_frame_hdr: false,
        gc_sections: false,
        policy: ElfLinkPolicy::default(),
        as_needed: false,
        library_search: LibrarySearchMode::default(),
        elf_emulation: false,
        entry: "_start".to_owned(),
    };
    let ghost all = text::texts(args@);
    assert(s@ =~= ElfModel::start());
    let mut i: usize = 0;
    while i < args.len()
        invariant
            i <= args@.len(),
            all == text::texts(args@),
            read_from(s@, all, i as nat) == read(all),
        decreases args@.len() - i,
    {
        assert(all[i as int] == args@[i as int]@);
        let value: Option<&String> = if i + 1 < args.len() {
            assert(all[i + 1] == args@[i + 1]@);
            Some(&args[i + 1])
        } else {
            None
        };
        if s.read_value(args[i].as_str(), value) {
            if i + 1 < args.len() {
                i += 2;
            } else {
                assert(read_from(s@, all, (i + 2) as nat) == s@);
                i += 1;
            }
        } else {
            if !s.read_switch(args[i].as_str()) {
                s.read_rest(args[i].as_str());
            }
            i += 1;
        }
    }
    s
}

/// What comes of the arguments.
#[derive(Debug)]
pub enum ElfMode {
    /// They are wrong.
    BadArguments(ArgsError),
    /// This is no ELF link.
    NotElf,
    /// They ask for what there is not, as the message says.
    Unsupported(String),
    /// Nothing says where the image goes.
    NoOutput,
    /// A link into this file.
    Link { output: String, dynamic: bool },
}

/// `ElfMode` with its texts as sequences.
#[verifier::ext_equal]
pub enum ModeModel {
    BadArguments(ArgsFault),
    NotElf,
    Unsupported(Seq<char>),
    NoOutput,
    Link { output: Seq<char>, dynamic: bool },
}

impl View for ElfMode {
    type V = ModeModel;

    open spec fn view(&self) -> ModeModel {
        match self {
            ElfMode::BadArguments(e) => ModeModel::BadArguments(e@),
            ElfMode::NotElf => ModeModel::NotElf,
            ElfMode::Unsupported(msg) => ModeModel::Unsupported(msg@),
            ElfMode::NoOutput => ModeModel::NoOutput,
            ElfMode::Link { output, dynamic } => ModeModel::Link {
                output: output@,
                dynamic: *dynamic,
            },
        }
    }
}

/// Texts with a space between them.
pub open spec fn spaced(words: Seq<Seq<char>>) -> Seq<char>
    decreases words.len(),
{
    if words.len() == 0 {
        seq![]
    } else if words.len() == 1 {
        words[0]
    } else {
        spaced(words.drop_last()) + " "@ + words.last()
    }
}

pub open spec fn unsupported_message(words: Seq<Seq<char>>) -> Seq<char> {
    "ELF mode does not support: "@ + spaced(words)
        + " — PIE and shared-object output land in a later rung"@
}

/// What comes of the arguments. Whether an input is an ELF file counts only where no
/// emulation was asked for.
pub open spec fn mode_of(s: ElfModel, selected: bool) -> ModeModel {
    match s.error {
        Some(e) => ModeModel::BadArguments(e),
        None => if !s.elf_emulation && !selected {
            ModeModel::NotElf
        } else if s.unsupported.len() > 0 {
            ModeModel::Unsupported(unsupported_message(s.unsupported))
        } else {
            match s.output {
                None => ModeModel::NoOutput,
                Some(output) => ModeModel::Link { output, dynamic: s.dynamic_linker is Some },
            }
        },
    }
}

fn join_spaced(words: &Vec<String>) -> (r: String)
    ensures
        r@ == spaced(text::texts(words@)),
{
    let ghost all = text::texts(words@);
    if words.len() == 0 {
        let none = String::new();
        assert(none@ =~= seq![]);
        return none;
    }
    let mut out = words[0].clone();
    assert(all[0] == words@[0]@);
    assert(all.take(1).len() == 1 && all.take(1)[0] == all[0]);
    let mut i: usize = 1;
    while i < words.len()
        invariant
            1 <= i <= words@.len(),
            all == text::texts(words@),
            out@ == spaced(all.take(i as int)),
        decreases words@.len() - i,
    {
        assert(all.take(i + 1).drop_last() =~= all.take(i as int));
        assert(all[i as int] == words@[i as int]@);
        out.append(" ");
        out.append(words[i].as_str());
        i += 1;
    }
    assert(all.take(i as int) =~= all);
    out
}

/// Decides what comes of the arguments, given whether an input is an ELF file.
pub fn elf_mode(args: &ElfArgs, selected: bool) -> (r: ElfMode)
    ensures
        r@ == mode_of(args@, selected),
{
    if let Some(e) = &args.error {
        let e = match e {
            ArgsError::MissingValue(flag) => ArgsError::MissingValue(flag.clone()),
            ArgsError::InvalidValue { flag, value, expected } => ArgsError::InvalidValue {
                flag: flag.clone(),
                value: value.clone(),
                expected: expected.clone(),
            },
        };
        return ElfMode::BadArguments(e);
    }
    if !args.elf_emulation && !selected {
        return ElfMode::NotElf;
    }
    if args.unsupported.len() > 0 {
        let mut msg = "ELF mode does not support: ".to_owned();
        msg.append(join_spaced(&args.unsupported).as_str());
        msg.append(" — PIE and shared-object output land in a later rung");
        return ElfMode::Unsupported(msg);
    }
    match &args.output {
        None => ElfMode::NoOutput,
        Some(output) => ElfMode::Link {
            output: output.clone(),
            dynamic: args.dynamic_linker.is_some(),
        },
    }
}

/// The policies in force hold for the inputs behind them and change none before them:
/// what was read stays.
pub proof fn law_inputs_stay(s: ElfModel, args: Seq<Seq<char>>, i: nat)
    ensures
        s.inputs.is_prefix_of(read_from(s, args, i).inputs),
        s.lib_dirs.is_prefix_of(read_from(s, args, i).lib_dirs),
    decreases args.len() + 1 - i,
{
    if i < args.len() {
        let a = args[i as int];
        let value = if i + 1 < args.len() {
            Some(args[(i + 1) as int])
        } else {
            None
        };
        match value_read(s, a, value) {
            Some(next) => {
                law_inputs_stay(next, args, i + 2);
                lemma_prefixes(s, next, read_from(next, args, i + 2));
            },
            None => match switch_read(s, a) {
                Some(next) => {
                    law_inputs_stay(next, args, i + 1);
                    lemma_prefixes(s, next, read_from(next, args, i + 1));
                },
                None => {
                    let next = rest_read(s, a);
                    law_inputs_stay(next, args, i + 1);
                    lemma_prefixes(s, next, read_from(next, args, i + 1));
                },
            },
        }
    }
}

proof fn lemma_prefixes(a: ElfModel, b: ElfModel, c: ElfModel)
    requires
        a.inputs.is_prefix_of(b.inputs),
        b.inputs.is_prefix_of(c.inputs),
        a.lib_dirs.is_prefix_of(b.lib_dirs),
        b.lib_dirs.is_prefix_of(c.lib_dirs),
    ensures
        a.inputs.is_prefix_of(c.inputs),
        a.lib_dirs.is_prefix_of(c.lib_dirs),
{
    assert(a.inputs =~= c.inputs.take(a.inputs.len() as int));
    assert(a.lib_dirs =~= c.lib_dirs.take(a.lib_dirs.len() as int));
}

} // verus!
