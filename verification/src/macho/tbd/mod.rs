//! Text-based stubs: dylibs described by their names and exports.

use vstd::prelude::*;
use crate::chars;
use crate::chars::{is_text, part, split_on};
use crate::macho::tbd_yaml::{YamlError, YamlFault};
use crate::text;
use crate::text::{chars_of, quote, same_text, string_of};

pub mod agree;
pub mod decode;
pub mod direct;
pub mod entry;
pub mod laws;
pub mod lockstep;
pub mod usual;

verus! {

/// A text that is no stub.
#[derive(Debug, Clone, PartialEq, Eq)]
pub enum TbdError {
    Yaml(YamlError),
    Schema { msg: String },
}

/// A `TbdError` with its text as a character sequence.
#[verifier::ext_equal]
pub enum TbdFault {
    Yaml(YamlFault),
    Schema(Seq<char>),
}

impl View for TbdError {
    type V = TbdFault;

    open spec fn view(&self) -> TbdFault {
        match self {
            TbdError::Yaml(e) => TbdFault::Yaml(e@),
            TbdError::Schema { msg } => TbdFault::Schema(msg@),
        }
    }
}

impl TbdFault {
    /// The message that a user sees.
    pub open spec fn message(self) -> Seq<char> {
        match self {
            TbdFault::Yaml(e) => e.message(),
            TbdFault::Schema(msg) => "TBD schema error: "@ + msg,
        }
    }
}

impl TbdError {
    pub fn to_string(&self) -> (r: String)
        ensures
            r@ == self@.message(),
    {
        match self {
            TbdError::Yaml(e) => e.to_string(),
            TbdError::Schema { msg } => {
                let mut s = "TBD schema error: ".to_owned();
                s.append(msg.as_str());
                s
            },
        }
    }
}

pub(crate) fn schema(msg: &str) -> (r: TbdError)
    ensures
        r@ == TbdFault::Schema(msg@),
{
    TbdError::Schema { msg: msg.to_owned() }
}

/// A processor.
#[derive(Debug, Clone, PartialEq, Eq)]
pub enum Arch {
    Arm64,
    Arm64e,
    X86_64,
    Other(String),
}

/// An operating system.
#[derive(Debug, Clone, PartialEq, Eq)]
pub enum Platform {
    MacOs,
    Ios,
    WatchOs,
    TvOs,
    DriverKit,
    MacCatalyst,
    Other(String),
}

/// What a stub is for.
#[derive(Debug, Clone, PartialEq, Eq)]
pub struct Target {
    pub arch: Arch,
    pub platform: Platform,
}

/// The name of a processor.
pub open spec fn arch_name(a: Arch) -> Seq<char> {
    match a {
        Arch::Arm64 => "arm64"@,
        Arch::Arm64e => "arm64e"@,
        Arch::X86_64 => "x86_64"@,
        Arch::Other(s) => s@,
    }
}

/// The name of an operating system.
pub open spec fn platform_name(p: Platform) -> Seq<char> {
    match p {
        Platform::MacOs => "macos"@,
        Platform::Ios => "ios"@,
        Platform::WatchOs => "watchos"@,
        Platform::TvOs => "tvos"@,
        Platform::DriverKit => "driverkit"@,
        Platform::MacCatalyst => "maccatalyst"@,
        Platform::Other(s) => s@,
    }
}

/// An `Arch` with its text as a character sequence.
#[verifier::ext_equal]
pub enum ArchModel {
    Arm64,
    Arm64e,
    X86_64,
    Other(Seq<char>),
}

/// A `Platform` with its text as a character sequence.
#[verifier::ext_equal]
pub enum PlatformModel {
    MacOs,
    Ios,
    WatchOs,
    TvOs,
    DriverKit,
    MacCatalyst,
    Other(Seq<char>),
}

/// A `Target` with its texts as character sequences.
#[verifier::ext_equal]
pub struct TargetModel {
    pub arch: ArchModel,
    pub platform: PlatformModel,
}

impl View for Arch {
    type V = ArchModel;

    open spec fn view(&self) -> ArchModel {
        match self {
            Arch::Arm64 => ArchModel::Arm64,
            Arch::Arm64e => ArchModel::Arm64e,
            Arch::X86_64 => ArchModel::X86_64,
            Arch::Other(s) => ArchModel::Other(s@),
        }
    }
}

impl View for Platform {
    type V = PlatformModel;

    open spec fn view(&self) -> PlatformModel {
        match self {
            Platform::MacOs => PlatformModel::MacOs,
            Platform::Ios => PlatformModel::Ios,
            Platform::WatchOs => PlatformModel::WatchOs,
            Platform::TvOs => PlatformModel::TvOs,
            Platform::DriverKit => PlatformModel::DriverKit,
            Platform::MacCatalyst => PlatformModel::MacCatalyst,
            Platform::Other(s) => PlatformModel::Other(s@),
        }
    }
}

impl View for Target {
    type V = TargetModel;

    open spec fn view(&self) -> TargetModel {
        TargetModel { arch: self.arch@, platform: self.platform@ }
    }
}

pub open spec fn targets_view(s: Seq<Target>) -> Seq<TargetModel> {
    s.map_values(|t: Target| t@)
}

impl TargetModel {
    /// What is for this target serves the wanted one too: they are the same, but
    /// arm64e serves arm64.
    pub open spec fn serves(self, wanted: TargetModel) -> bool {
        &&& self.platform == wanted.platform
        &&& self.arch == wanted.arch || self.arch is Arm64e && wanted.arch is Arm64
    }
}

fn same_arch(a: &Arch, b: &Arch) -> (r: bool)
    ensures
        r == (a@ == b@),
{
    match (a, b) {
        (Arch::Arm64, Arch::Arm64) => true,
        (Arch::Arm64e, Arch::Arm64e) => true,
        (Arch::X86_64, Arch::X86_64) => true,
        (Arch::Other(s), Arch::Other(t)) => same_text(s.as_str(), t.as_str()),
        _ => false,
    }
}

fn same_platform(a: &Platform, b: &Platform) -> (r: bool)
    ensures
        r == (a@ == b@),
{
    match (a, b) {
        (Platform::MacOs, Platform::MacOs) => true,
        (Platform::Ios, Platform::Ios) => true,
        (Platform::WatchOs, Platform::WatchOs) => true,
        (Platform::TvOs, Platform::TvOs) => true,
        (Platform::DriverKit, Platform::DriverKit) => true,
        (Platform::MacCatalyst, Platform::MacCatalyst) => true,
        (Platform::Other(s), Platform::Other(t)) => same_text(s.as_str(), t.as_str()),
        _ => false,
    }
}

impl Target {
    /// The target as stubs write it: processor and system, with a hyphen between.
    pub fn as_string(&self) -> (r: String)
        ensures
            r@ == arch_name(self.arch) + "-"@ + platform_name(self.platform),
    {
        let mut s = match &self.arch {
            Arch::Arm64 => "arm64".to_owned(),
            Arch::Arm64e => "arm64e".to_owned(),
            Arch::X86_64 => "x86_64".to_owned(),
            Arch::Other(s) => s.clone(),
        };
        s.append("-");
        match &self.platform {
            Platform::MacOs => s.append("macos"),
            Platform::Ios => s.append("ios"),
            Platform::WatchOs => s.append("watchos"),
            Platform::TvOs => s.append("tvos"),
            Platform::DriverKit => s.append("driverkit"),
            Platform::MacCatalyst => s.append("maccatalyst"),
            Platform::Other(p) => s.append(p.as_str()),
        }
        s
    }

    /// What is for this target serves the wanted one.
    pub fn matches_requested(&self, wanted: &Target) -> (r: bool)
        ensures
            r == self@.serves(wanted@),
    {
        if !same_platform(&self.platform, &wanted.platform) {
            return false;
        }
        same_arch(&self.arch, &wanted.arch) || matches!(
            (&self.arch, &wanted.arch),
            (Arch::Arm64e, Arch::Arm64)
        )
    }
}

/// One of the targets serves the wanted one.
pub open spec fn any_serves(targets: Seq<TargetModel>, wanted: TargetModel) -> bool {
    exists|i: int| 0 <= i < targets.len() && (#[trigger] targets[i]).serves(wanted)
}

pub fn targets_match(targets: &Vec<Target>, target: &Target) -> (r: bool)
    ensures
        r == any_serves(targets_view(targets@), target@),
{
    let ghost all = targets_view(targets@);
    let mut i: usize = 0;
    while i < targets.len()
        invariant
            i <= targets@.len(),
            all == targets_view(targets@),
            forall|k: int| 0 <= k < i ==> !(#[trigger] all[k]).serves(target@),
        decreases targets@.len() - i,
    {
        assert(all[i as int] == targets@[i as int]@);
        if targets[i].matches_requested(target) {
            return true;
        }
        i += 1;
    }
    false
}

/// Where the last hyphen stands.
pub open spec fn last_hyphen(s: Seq<char>) -> Option<int>
    decreases s.len(),
{
    if s.len() == 0 {
        None
    } else if s.last() == '-' {
        Some(s.len() - 1)
    } else {
        last_hyphen(s.drop_last())
    }
}

proof fn lemma_last_hyphen(s: Seq<char>)
    ensures
        match last_hyphen(s) {
            Some(i) => 0 <= i < s.len() && s[i] == '-',
            None => true,
        },
    decreases s.len(),
{
    if s.len() > 0 && s.last() != '-' {
        lemma_last_hyphen(s.drop_last());
    }
}

pub open spec fn arch_of(s: Seq<char>) -> ArchModel {
    if s == "arm64"@ {
        ArchModel::Arm64
    } else if s == "arm64e"@ {
        ArchModel::Arm64e
    } else if s == "x86_64"@ {
        ArchModel::X86_64
    } else {
        ArchModel::Other(s)
    }
}

pub open spec fn platform_of(s: Seq<char>) -> PlatformModel {
    if s == "macos"@ {
        PlatformModel::MacOs
    } else if s == "ios"@ {
        PlatformModel::Ios
    } else if s == "watchos"@ {
        PlatformModel::WatchOs
    } else if s == "tvos"@ {
        PlatformModel::TvOs
    } else if s == "driverkit"@ {
        PlatformModel::DriverKit
    } else if s == "maccatalyst"@ {
        PlatformModel::MacCatalyst
    } else {
        PlatformModel::Other(s)
    }
}

/// The target that a text names: what stands before its last hyphen is the
/// processor, what stands behind it the system.
pub open spec fn target_of(s: Seq<char>) -> Result<TargetModel, TbdFault> {
    match last_hyphen(s) {
        None => Err(TbdFault::Schema("target "@ + text::quoted(s) + " is not `arch-platform`"@)),
        Some(i) => Ok(
            TargetModel { arch: arch_of(s.take(i)), platform: platform_of(s.skip(i + 1)) },
        ),
    }
}

pub fn parse_target(s: &str) -> (r: Result<Target, TbdError>)
    ensures
        match (r, target_of(s@)) {
            (Ok(t), Ok(m)) => t@ == m,
            (Err(e), Err(f)) => e@ == f,
            _ => false,
        },
{
    let c = chars_of(s);
    proof {
        lemma_last_hyphen(s@);
    }
    let mut at: usize = c.len();
    assert(c@.take(at as int) =~= s@);
    while at > 0 && c[at - 1] != '-'
        invariant
            at <= c@.len(),
            c@ == s@,
            last_hyphen(s@) == last_hyphen(c@.take(at as int)),
        decreases at,
    {
        assert(c@.take(at as int).drop_last() =~= c@.take(at - 1));
        at -= 1;
    }
    if at == 0 {
        let mut msg = "target ".to_owned();
        msg.append(quote(s).as_str());
        msg.append(" is not `arch-platform`");
        return Err(TbdError::Schema { msg });
    }
    let head = part(&c, 0, at - 1);
    let tail = part(&c, at, c.len());
    assert(head@ =~= s@.take(at - 1));
    assert(tail@ =~= s@.skip(at as int));
    let arch = if is_text(&head, "arm64") {
        Arch::Arm64
    } else if is_text(&head, "arm64e") {
        Arch::Arm64e
    } else if is_text(&head, "x86_64") {
        Arch::X86_64
    } else {
        Arch::Other(string_of(&head))
    };
    let platform = if is_text(&tail, "macos") {
        Platform::MacOs
    } else if is_text(&tail, "ios") {
        Platform::Ios
    } else if is_text(&tail, "watchos") {
        Platform::WatchOs
    } else if is_text(&tail, "tvos") {
        Platform::TvOs
    } else if is_text(&tail, "driverkit") {
        Platform::DriverKit
    } else if is_text(&tail, "maccatalyst") {
        Platform::MacCatalyst
    } else {
        Platform::Other(string_of(&tail))
    };
    Ok(Target { arch, platform })
}

/// Something that holds for some targets only.
#[derive(Debug, Clone, PartialEq, Eq)]
pub struct Scoped<T> {
    pub targets: Vec<Target>,
    pub value: T,
}

/// A `Scoped` value by its contents.
#[verifier::ext_equal]
pub struct ScopedModel<M> {
    pub targets: Seq<TargetModel>,
    pub value: M,
}

/// The names of symbols, by what they are.
#[derive(Debug, Clone, PartialEq, Eq)]
pub struct SymbolLists {
    pub symbols: Vec<String>,
    pub weak_symbols: Vec<String>,
    pub thread_local_symbols: Vec<String>,
    pub objc_classes: Vec<String>,
    pub objc_eh_types: Vec<String>,
    pub objc_ivars: Vec<String>,
}

/// `SymbolLists` with their texts as character sequences.
#[verifier::ext_equal]
pub struct ListsModel {
    pub symbols: Seq<Seq<char>>,
    pub weak_symbols: Seq<Seq<char>>,
    pub thread_local_symbols: Seq<Seq<char>>,
    pub objc_classes: Seq<Seq<char>>,
    pub objc_eh_types: Seq<Seq<char>>,
    pub objc_ivars: Seq<Seq<char>>,
}

impl View for SymbolLists {
    type V = ListsModel;

    open spec fn view(&self) -> ListsModel {
        ListsModel {
            symbols: text::texts(self.symbols@),
            weak_symbols: text::texts(self.weak_symbols@),
            thread_local_symbols: text::texts(self.thread_local_symbols@),
            objc_classes: text::texts(self.objc_classes@),
            objc_eh_types: text::texts(self.objc_eh_types@),
            objc_ivars: text::texts(self.objc_ivars@),
        }
    }
}

impl ListsModel {
    pub open spec fn none() -> ListsModel {
        ListsModel {
            symbols: seq![],
            weak_symbols: seq![],
            thread_local_symbols: seq![],
            objc_classes: seq![],
            objc_eh_types: seq![],
            objc_ivars: seq![],
        }
    }

    /// How many names the lists hold together.
    pub open spec fn count(self) -> nat {
        self.symbols.len() + self.weak_symbols.len() + self.thread_local_symbols.len()
            + self.objc_classes.len() + self.objc_eh_types.len() + self.objc_ivars.len()
    }
}

impl Default for SymbolLists {
    fn default() -> (r: SymbolLists)
        ensures
            r@ == ListsModel::none(),
    {
        let r = SymbolLists {
            symbols: Vec::new(),
            weak_symbols: Vec::new(),
            thread_local_symbols: Vec::new(),
            objc_classes: Vec::new(),
            objc_eh_types: Vec::new(),
            objc_ivars: Vec::new(),
        };
        assert(r@ =~= ListsModel::none());
        r
    }
}

impl SymbolLists {
    pub fn is_empty(&self) -> (r: bool)
        ensures
            r == (self@.count() == 0),
    {
        self.symbols.len() == 0 && self.weak_symbols.len() == 0 && self.thread_local_symbols.len()
            == 0 && self.objc_classes.len() == 0 && self.objc_eh_types.len() == 0
            && self.objc_ivars.len() == 0
    }

    /// How many names the lists hold together.
    pub fn total(&self) -> (r: usize)
        requires
            self@.count() <= usize::MAX,
        ensures
            r == self@.count(),
    {
        self.symbols.len() + self.weak_symbols.len() + self.thread_local_symbols.len()
            + self.objc_classes.len() + self.objc_eh_types.len() + self.objc_ivars.len()
    }
}

/// One stub.
#[derive(Debug, Clone, PartialEq, Eq)]
pub struct Tbd {
    pub version: u32,
    pub targets: Vec<Target>,
    pub install_name: String,
    /// Versions as one number each: sixteen bits, eight bits and eight bits.
    pub current_version: Option<u32>,
    pub compatibility_version: Option<u32>,
    pub parent_umbrella: Vec<Scoped<String>>,
    pub allowable_clients: Vec<Scoped<Vec<String>>>,
    pub reexported_libraries: Vec<Scoped<Vec<String>>>,
    pub exports: Vec<Scoped<SymbolLists>>,
    pub reexports: Vec<Scoped<SymbolLists>>,
}

/// A `Tbd` with its texts as character sequences.
#[verifier::ext_equal]
pub struct TbdModel {
    pub version: u32,
    pub targets: Seq<TargetModel>,
    pub install_name: Seq<char>,
    pub current_version: Option<u32>,
    pub compatibility_version: Option<u32>,
    pub parent_umbrella: Seq<ScopedModel<Seq<char>>>,
    pub allowable_clients: Seq<ScopedModel<Seq<Seq<char>>>>,
    pub reexported_libraries: Seq<ScopedModel<Seq<Seq<char>>>>,
    pub exports: Seq<ScopedModel<ListsModel>>,
    pub reexports: Seq<ScopedModel<ListsModel>>,
}

/// Scoped values by their contents, each value by `f`.
pub open spec fn scoped_view<T, M>(s: Seq<Scoped<T>>, f: spec_fn(T) -> M) -> Seq<ScopedModel<M>> {
    s.map_values(
        |x: Scoped<T>| ScopedModel { targets: targets_view(x.targets@), value: f(x.value) },
    )
}

pub open spec fn as_text() -> spec_fn(String) -> Seq<char> {
    |s: String| s@
}

pub open spec fn as_texts() -> spec_fn(Vec<String>) -> Seq<Seq<char>> {
    |v: Vec<String>| text::texts(v@)
}

pub open spec fn as_lists() -> spec_fn(SymbolLists) -> ListsModel {
    |l: SymbolLists| l@
}

impl View for Tbd {
    type V = TbdModel;

    open spec fn view(&self) -> TbdModel {
        TbdModel {
            version: self.version,
            targets: targets_view(self.targets@),
            install_name: self.install_name@,
            current_version: self.current_version,
            compatibility_version: self.compatibility_version,
            parent_umbrella: scoped_view(self.parent_umbrella@, as_text()),
            allowable_clients: scoped_view(self.allowable_clients@, as_texts()),
            reexported_libraries: scoped_view(self.reexported_libraries@, as_texts()),
            exports: scoped_view(self.exports@, as_lists()),
            reexports: scoped_view(self.reexports@, as_lists()),
        }
    }
}

impl TbdModel {
    pub open spec fn blank() -> TbdModel {
        TbdModel {
            version: 0,
            targets: seq![],
            install_name: ""@,
            current_version: None,
            compatibility_version: None,
            parent_umbrella: seq![],
            allowable_clients: seq![],
            reexported_libraries: seq![],
            exports: seq![],
            reexports: seq![],
        }
    }
}

impl Default for Tbd {
    fn default() -> (r: Tbd)
        ensures
            r@ == TbdModel::blank(),
    {
        let r = Tbd {
            version: 0,
            targets: Vec::new(),
            install_name: "".to_owned(),
            current_version: None,
            compatibility_version: None,
            parent_umbrella: Vec::new(),
            allowable_clients: Vec::new(),
            reexported_libraries: Vec::new(),
            exports: Vec::new(),
            reexports: Vec::new(),
        };
        assert(r@ =~= TbdModel::blank());
        r
    }
}

pub open spec fn docs_view(s: Seq<Tbd>) -> Seq<TbdModel> {
    s.map_values(|t: Tbd| t@)
}

pub(crate) fn push_doc(out: &mut Vec<Tbd>, doc: Tbd)
    ensures
        docs_view(final(out)@) == docs_view(old(out)@).push(doc@),
{
    let ghost before = out@;
    out.push(doc);
    assert(docs_view(out@) =~= docs_view(before).push(doc@));
}

/// Same stubs, same fault.
pub open spec fn same_docs(r: Result<Vec<Tbd>, TbdError>, s: Result<Seq<TbdModel>, TbdFault>) -> bool {
    match (r, s) {
        (Ok(docs), Ok(m)) => docs_view(docs@) == m,
        (Err(e), Err(f)) => e@ == f,
        _ => false,
    }
}

/// A decimal digit.
pub open spec fn is_digit(c: char) -> bool {
    '0' <= c <= '9'
}

/// The number that digits stand for; nothing if there is another character.
pub open spec fn digits_value(s: Seq<char>) -> Option<nat>
    decreases s.len(),
{
    if s.len() == 0 {
        Some(0)
    } else {
        match digits_value(s.drop_last()) {
            Some(n) => if is_digit(s.last()) {
                Some(n * 10 + (s.last() as u32 - '0' as u32) as nat)
            } else {
                None
            },
            None => None,
        }
    }
}

/// The number that a text stands for, if it fits.
pub open spec fn decimal(s: Seq<char>, max: nat) -> Option<u32> {
    match digits_value(s) {
        Some(n) => if s.len() > 0 && n <= max && max <= u32::MAX {
            Some(n as u32)
        } else {
            None
        },
        None => None,
    }
}

proof fn lemma_digits_prefix(s: Seq<char>, n: int)
    requires
        0 <= n <= s.len(),
        digits_value(s) is Some,
    ensures
        digits_value(s.take(n)) is Some,
        digits_value(s.take(n))->0 <= digits_value(s)->0,
    decreases s.len() - n,
{
    if n < s.len() {
        lemma_digits_prefix(s.drop_last(), n);
        assert(s.drop_last().take(n) =~= s.take(n));
    } else {
        assert(s.take(n) =~= s);
    }
}

pub(crate) fn parse_decimal(s: &Vec<char>, max: u32) -> (r: Option<u32>)
    ensures
        r == decimal(s@, max as nat),
{
    if s.len() == 0 {
        return None;
    }
    let mut n: u64 = 0;
    let mut i: usize = 0;
    assert(s@.take(0) =~= seq![]);
    while i < s.len()
        invariant
            i <= s@.len(),
            n <= max,
            digits_value(s@.take(i as int)) == Some(n as nat),
        decreases s@.len() - i,
    {
        let c: char = s[i];
        proof {
            assert(s@.take(i + 1).drop_last() =~= s@.take(i as int));
            assert(s@.take(i + 1).last() == c);
            if digits_value(s@) is Some {
                lemma_digits_prefix(s@, i + 1);
            }
        }
        if c < '0' || c > '9' {
            return None;
        }
        n = n * 10 + (c as u32 - '0' as u32) as u64;
        if n > max as u64 {
            return None;
        }
        i += 1;
    }
    assert(s@.take(i as int) =~= s@);
    Some(n as u32)
}

/// The number that `str::parse` reads: digits, with a plus sign in front or not.
pub open spec fn number(s: Seq<char>) -> Option<u32> {
    if s.len() > 1 && s.first() == '+' {
        decimal(s.skip(1), u32::MAX as nat)
    } else {
        decimal(s, u32::MAX as nat)
    }
}

pub(crate) fn parse_number(s: &str) -> (r: Option<u32>)
    ensures
        r == number(s@),
{
    let c = chars_of(s);
    if c.len() > 1 && c[0] == '+' {
        let rest = part(&c, 1, c.len());
        assert(rest@ =~= s@.skip(1));
        parse_decimal(&rest, u32::MAX)
    } else {
        parse_decimal(&c, u32::MAX)
    }
}

/// A version as one number, of one to three parts.
pub open spec fn packed_version(parts: Seq<Seq<char>>) -> Option<u32> {
    if !(1 <= parts.len() <= 3) {
        None
    } else {
        let major = decimal(parts[0], u16::MAX as nat);
        let minor = if parts.len() > 1 {
            decimal(parts[1], u8::MAX as nat)
        } else {
            Some(0)
        };
        let patch = if parts.len() > 2 {
            decimal(parts[2], u8::MAX as nat)
        } else {
            Some(0)
        };
        match (major, minor, patch) {
            (Some(a), Some(b), Some(c)) => Some((a << 16) | (b << 8) | c),
            _ => None,
        }
    }
}

/// The version that a text stands for.
pub open spec fn version_of(s: Seq<char>, context: Seq<char>) -> Result<u32, TbdFault> {
    match packed_version(text::split(s, '.')) {
        Some(v) => Ok(v),
        None => Err(
            TbdFault::Schema(
                context
                    + " must be 1 to 3 decimal components with major <= 65535 and minor/patch <= 255: "@
                    + text::quoted(s),
            ),
        ),
    }
}

fn parse_version_parts(parts: &Vec<Vec<char>>) -> (r: Option<u32>)
    ensures
        r == packed_version(chars::rows(parts@)),
{
    let ghost all = chars::rows(parts@);
    if parts.len() < 1 || parts.len() > 3 {
        return None;
    }
    assert(all[0] == parts@[0]@);
    let major: u32 = match parse_decimal(&parts[0], 65535) {
        Some(n) => n,
        None => {
            return None;
        },
    };
    let minor: u32 = if parts.len() > 1 {
        assert(all[1] == parts@[1]@);
        match parse_decimal(&parts[1], 255) {
            Some(n) => n,
            None => {
                return None;
            },
        }
    } else {
        0
    };
    let patch: u32 = if parts.len() > 2 {
        assert(all[2] == parts@[2]@);
        match parse_decimal(&parts[2], 255) {
            Some(n) => n,
            None => {
                return None;
            },
        }
    } else {
        0
    };
    Some((major << 16) | (minor << 8) | patch)
}

pub(crate) fn parse_version_field(s: &str, context: &str) -> (r: Result<u32, TbdError>)
    ensures
        match (r, version_of(s@, context@)) {
            (Ok(a), Ok(b)) => a == b,
            (Err(e), Err(f)) => e@ == f,
            _ => false,
        },
{
    match parse_version_parts(&split_on(&chars_of(s), '.')) {
        Some(v) => Ok(v),
        None => {
            let mut msg = context.to_owned();
            msg.append(
                " must be 1 to 3 decimal components with major <= 65535 and minor/patch <= 255: ",
            );
            msg.append(quote(s).as_str());
            Err(TbdError::Schema { msg })
        },
    }
}

/// Reads a version of one to three decimal parts as one number: sixteen bits,
/// eight bits and eight bits.
pub fn parse_version(s: &str) -> (r: Result<u32, TbdError>)
    ensures
        match (r, version_of(s@, "version"@)) {
            (Ok(a), Ok(b)) => a == b,
            (Err(e), Err(f)) => e@ == f,
            _ => false,
        },
{
    parse_version_field(s, "version")
}

/// Those of the scoped values that serve the target.
pub open spec fn kept<M>(s: Seq<ScopedModel<M>>, target: TargetModel) -> Seq<ScopedModel<M>>
    decreases s.len(),
{
    if s.len() == 0 {
        seq![]
    } else {
        let rest = kept(s.drop_last(), target);
        if any_serves(s.last().targets, target) {
            rest.push(s.last())
        } else {
            rest
        }
    }
}

/// A stub with only what serves the target.
pub open spec fn narrowed(t: TbdModel, target: TargetModel) -> TbdModel {
    TbdModel {
        parent_umbrella: kept(t.parent_umbrella, target),
        allowable_clients: kept(t.allowable_clients, target),
        reexported_libraries: kept(t.reexported_libraries, target),
        exports: kept(t.exports, target),
        reexports: kept(t.reexports, target),
        ..t
    }
}

/// Those of the stubs that serve the target, with only what serves it.
pub open spec fn narrowed_docs(s: Seq<TbdModel>, target: TargetModel) -> Seq<TbdModel>
    decreases s.len(),
{
    if s.len() == 0 {
        seq![]
    } else {
        let rest = narrowed_docs(s.drop_last(), target);
        if any_serves(s.last().targets, target) {
            rest.push(narrowed(s.last(), target))
        } else {
            rest
        }
    }
}

pub(crate) fn reversed<T>(v: Vec<T>) -> (r: Vec<T>)
    ensures
        r@ == v@.reverse(),
{
    let ghost all = v@;
    let mut v = v;
    let mut out: Vec<T> = Vec::new();
    assert(out@ =~= all.skip(all.len() as int).reverse());
    assert(all.take(all.len() as int) =~= all);
    loop
        invariant
            v@.len() <= all.len(),
            v@ == all.take(v@.len() as int),
            out@ == all.skip(v@.len() as int).reverse(),
        ensures
            v@.len() == 0,
            out@ == all.skip(0).reverse(),
        decreases v@.len(),
    {
        let ghost n = v@.len();
        match v.pop() {
            Some(x) => {
                out.push(x);
                assert(x == all[n - 1]);
                assert(v@ =~= all.take(n - 1));
                assert(out@ =~= all.skip(n - 1).reverse());
            },
            None => {
                break;
            },
        }
    }
    assert(all.skip(0) =~= all);
    out
}

fn keep_scoped<T>(v: Vec<Scoped<T>>, target: &Target) -> (r: Vec<Scoped<T>>)
    ensures
        r@ == kept_items(v@, target@),
{
    let ghost all = v@;
    let mut v = reversed(v);
    let mut out: Vec<Scoped<T>> = Vec::new();
    assert(v@ =~= all.skip(0).reverse());
    assert(all.take(0) =~= seq![]);
    let ghost mut i: int = 0;
    loop
        invariant
            0 <= i <= all.len(),
            v@ == all.skip(i).reverse(),
            out@ == kept_items(all.take(i), target@),
        ensures
            i == all.len(),
            out@ == kept_items(all.take(i), target@),
        decreases v@.len(),
    {
        match v.pop() {
            Some(x) => {
                proof {
                    assert(x == all[i]);
                    assert(v@ =~= all.skip(i + 1).reverse());
                    assert(all.take(i + 1).drop_last() =~= all.take(i));
                    i = i + 1;
                }
                if targets_match(&x.targets, target) {
                    out.push(x);
                }
            },
            None => {
                break;
            },
        }
    }
    assert(all.take(i) =~= all);
    out
}

/// `kept` of values that are not yet seen by their contents.
spec fn kept_items<T>(s: Seq<Scoped<T>>, target: TargetModel) -> Seq<Scoped<T>>
    decreases s.len(),
{
    if s.len() == 0 {
        seq![]
    } else {
        let rest = kept_items(s.drop_last(), target);
        if any_serves(targets_view(s.last().targets@), target) {
            rest.push(s.last())
        } else {
            rest
        }
    }
}

proof fn lemma_kept<T, M>(s: Seq<Scoped<T>>, f: spec_fn(T) -> M, target: TargetModel)
    ensures
        scoped_view(kept_items(s, target), f) == kept(scoped_view(s, f), target),
    decreases s.len(),
{
    let m = scoped_view(s, f);
    if s.len() == 0 {
        assert(scoped_view(kept_items(s, target), f) =~= kept(m, target));
    } else {
        lemma_kept(s.drop_last(), f, target);
        assert(m.drop_last() =~= scoped_view(s.drop_last(), f));
        let rest = kept_items(s.drop_last(), target);
        assert(scoped_view(rest.push(s.last()), f) =~= scoped_view(rest, f).push(m.last()));
    }
}

fn narrow(doc: Tbd, target: &Target) -> (r: Tbd)
    ensures
        r@ == narrowed(doc@, target@),
{
    proof {
        lemma_kept(doc.parent_umbrella@, as_text(), target@);
        lemma_kept(doc.allowable_clients@, as_texts(), target@);
        lemma_kept(doc.reexported_libraries@, as_texts(), target@);
        lemma_kept(doc.exports@, as_lists(), target@);
        lemma_kept(doc.reexports@, as_lists(), target@);
    }
    Tbd {
        parent_umbrella: keep_scoped(doc.parent_umbrella, target),
        allowable_clients: keep_scoped(doc.allowable_clients, target),
        reexported_libraries: keep_scoped(doc.reexported_libraries, target),
        exports: keep_scoped(doc.exports, target),
        reexports: keep_scoped(doc.reexports, target),
        ..doc
    }
}

pub fn filter_docs_for_target(docs: Vec<Tbd>, target: &Target) -> (r: Vec<Tbd>)
    ensures
        docs_view(r@) == narrowed_docs(docs_view(docs@), target@),
{
    let ghost all = docs@;
    let ghost models = docs_view(all);
    let mut v = reversed(docs);
    let mut out: Vec<Tbd> = Vec::new();
    assert(v@ =~= all.skip(0).reverse());
    assert(models.take(0) =~= seq![]);
    assert(docs_view(out@) =~= seq![]);
    let ghost mut i: int = 0;
    loop
        invariant
            0 <= i <= all.len(),
            models == docs_view(all),
            v@ == all.skip(i).reverse(),
            docs_view(out@) == narrowed_docs(models.take(i), target@),
        ensures
            i == all.len(),
            docs_view(out@) == narrowed_docs(models.take(i), target@),
        decreases v@.len(),
    {
        match v.pop() {
            Some(doc) => {
                proof {
                    assert(doc == all[i]);
                    assert(v@ =~= all.skip(i + 1).reverse());
                    assert(models.take(i + 1).drop_last() =~= models.take(i));
                    i = i + 1;
                }
                if targets_match(&doc.targets, target) {
                    push_doc(&mut out, narrow(doc, target));
                }
            },
            None => {
                break;
            },
        }
    }
    assert(models.take(i) =~= models);
    out
}

/// A stub without what it exports.
pub open spec fn stripped(t: TbdModel) -> TbdModel {
    TbdModel { reexported_libraries: seq![], exports: seq![], reexports: seq![], ..t }
}

/// Stubs without what they export.
pub open spec fn without_exports(s: Seq<TbdModel>) -> Seq<TbdModel> {
    s.map_values(|t: TbdModel| stripped(t))
}

/// What a target sees of a stub: with `full` false, not what the stub exports.
pub open spec fn seen(t: TbdModel, target: TargetModel, full: bool) -> TbdModel {
    if full {
        narrowed(t, target)
    } else {
        stripped(narrowed(t, target))
    }
}

/// What a target sees of the stubs that serve it.
#[verifier::opaque]
pub open spec fn seen_docs(s: Seq<TbdModel>, target: TargetModel, full: bool) -> Seq<TbdModel> {
    if full {
        narrowed_docs(s, target)
    } else {
        without_exports(narrowed_docs(s, target))
    }
}

pub fn filter_docs_for_target_metadata(docs: Vec<Tbd>, target: &Target) -> (r: Vec<Tbd>)
    ensures
        docs_view(r@) == without_exports(narrowed_docs(docs_view(docs@), target@)),
{
    let mut out = filter_docs_for_target(docs, target);
    let ghost before = out@;
    let ghost models = docs_view(before);
    let n: usize = out.len();
    let mut i: usize = 0;
    while i < n
        invariant
            i <= n,
            n == before.len(),
            out@.len() == n,
            models == docs_view(before),
            forall|k: int|
                0 <= k < i ==> (#[trigger] out@[k])@ == (TbdModel {
                    reexported_libraries: seq![],
                    exports: seq![],
                    reexports: seq![],
                    ..models[k]
                }),
            forall|k: int| i <= k < n ==> #[trigger] out@[k] == before[k],
        decreases n - i,
    {
        out[i].reexported_libraries = Vec::new();
        out[i].exports = Vec::new();
        out[i].reexports = Vec::new();
        assert(out@[i as int]@ =~= (TbdModel {
            reexported_libraries: seq![],
            exports: seq![],
            reexports: seq![],
            ..models[i as int]
        }));
        i += 1;
    }
    assert(docs_view(out@) =~= without_exports(models));
    out
}

/// What serves a target is kept as it is, and kept again.
pub proof fn law_narrowing_twice(t: TbdModel, target: TargetModel)
    ensures
        narrowed(narrowed(t, target), target) == narrowed(t, target),
{
    lemma_kept_twice(t.parent_umbrella, target);
    lemma_kept_twice(t.allowable_clients, target);
    lemma_kept_twice(t.reexported_libraries, target);
    lemma_kept_twice(t.exports, target);
    lemma_kept_twice(t.reexports, target);
}

proof fn lemma_kept_twice<M>(s: Seq<ScopedModel<M>>, target: TargetModel)
    ensures
        kept(kept(s, target), target) == kept(s, target),
    decreases s.len(),
{
    if s.len() > 0 {
        let rest = kept(s.drop_last(), target);
        lemma_kept_twice(s.drop_last(), target);
        assert(rest.push(s.last()).drop_last() =~= rest);
    }
}

/// A target's text names that target, as long as the system's name holds no
/// hyphen and no name that is not built in hides behind one that is.
pub proof fn law_target_roundtrip(t: Target)
    requires
        last_hyphen(platform_name(t.platform)) is None,
        arch_of(arch_name(t.arch)) == t.arch@,
        platform_of(platform_name(t.platform)) == t.platform@,
    ensures
        target_of(arch_name(t.arch) + "-"@ + platform_name(t.platform)) == Ok::<_, TbdFault>(t@),
{
    let a = arch_name(t.arch);
    let p = platform_name(t.platform);
    reveal_strlit("-");
    let s = a + "-"@ + p;
    lemma_hyphen_before(a + "-"@, p);
    assert((a + "-"@).last() == '-');
    assert(s.take(a.len() as int) =~= a);
    assert(s.skip(a.len() as int + 1) =~= p);
}

proof fn lemma_hyphen_before(s: Seq<char>, tail: Seq<char>)
    requires
        last_hyphen(tail) is None,
    ensures
        last_hyphen(s + tail) == last_hyphen(s),
    decreases tail.len(),
{
    if tail.len() == 0 {
        assert(s + tail =~= s);
    } else {
        assert((s + tail).drop_last() =~= s + tail.drop_last());
        lemma_hyphen_before(s, tail.drop_last());
    }
}

} // verus!
