//! Configuration files: what they may say, and which paths they leave out.
use crate::bitbake;
use crate::collections;
use crate::formatter;
use crate::inputs;
use crate::orders;
use crate::paths;
use crate::rules;
use crate::runs;
use crate::semantic;
use crate::bitbake::BitBakeExecutionLimits;
use crate::checks::long_phrase;
use crate::checks::phrase;
use crate::collections::TextMap;
use crate::collections::has_text;
use crate::collections::join;
use crate::collections::push_text;
use crate::formatter::FormatOptions;
use crate::formatter::MetadataListLayout;
use crate::inputs::SafetyOptions;
use crate::inputs::effective_safety;
use crate::orders::TextOrder;
use crate::orders::sort_distinct;
use crate::paths::is_absolute;
use crate::paths::parent_path;
use crate::paths::path_ancestors;
use crate::paths::push_path;
use crate::paths::strip_root;
use crate::rules::LintFailurePolicy;
use crate::rules::LintOptions;
use crate::rules::LintSeverity;
use crate::rules::OptionsView;
use crate::rules::RULE_COUNT;
use crate::runs::BitBakeLimitArgs;
use crate::runs::effective_bitbake_limits;
use crate::semantic::SemanticAnalysisOptions;
use crate::text::append_chars;
use crate::text::chars_of;
use crate::text::string_of;
use crate::workspace::PathTable;
use crate::workspace::TableView;
use vstd::prelude::*;

verus! {

/// The name of a configuration file.
pub const CONFIG_FILE_NAME: &'static str = ".bbtidy.toml";

// ---------------------------------------------------------------------------
// Path patterns
// ---------------------------------------------------------------------------
/// A parsed path pattern.
#[verifier::external_type_specification]
#[verifier::external_body]
pub struct ExGlob(globset::Glob);

/// Path patterns that are being collected.
#[verifier::external_type_specification]
#[verifier::external_body]
pub struct ExGlobSetBuilder(globset::GlobSetBuilder);

/// Path patterns that are matched together.
#[verifier::external_type_specification]
#[verifier::external_body]
pub struct ExGlobSet(globset::GlobSet);

/// The text that a pattern was parsed from.
pub uninterp spec fn glob_source(glob: globset::Glob) -> Seq<char>;

/// The texts of the patterns that were collected.
pub uninterp spec fn builder_globs(builder: globset::GlobSetBuilder) -> Seq<Seq<char>>;

/// The texts of the patterns in a set.
pub uninterp spec fn set_globs(set: globset::GlobSet) -> Seq<Seq<char>>;

/// Why a text is no pattern.
pub uninterp spec fn glob_fault(pattern: Seq<char>) -> Option<Seq<char>>;

/// A pattern matches a path.
pub uninterp spec fn glob_matches(pattern: Seq<char>, path: Seq<char>) -> bool;

/// A pattern or a path that means the same on all platforms: a backslash
/// separates directories on some, and takes the meaning from the next character
/// of a pattern on others.
pub open spec fn portable(text: Seq<char>) -> bool {
    !text.contains('\\')
}

/// All the patterns mean the same on all platforms.
pub open spec fn all_portable(patterns: Seq<Seq<char>>) -> bool {
    forall|k: int| 0 <= k < patterns.len() ==> portable(#[trigger] patterns[k])
}

/// One of some patterns matches a path.
pub open spec fn one_matches(patterns: Seq<Seq<char>>, path: Seq<char>) -> bool {
    exists|k: int| 0 <= k < patterns.len() && glob_matches(#[trigger] patterns[k], path)
}

/// `globset::Glob::new`: a pattern keeps its text. Whether a text without a
/// backslash is a pattern, and the message where it is not, depends on the text
/// alone. Nothing more is said of other texts.
#[verifier::external_body]
fn parse_glob(pattern: &str) -> (r: Result<globset::Glob, String>)
    ensures
        match r {
            Ok(glob) => glob_source(glob) == pattern@ && (portable(pattern@) ==> glob_fault(
                pattern@,
            ) is None),
            Err(message) => portable(pattern@) ==> glob_fault(pattern@) == Some(message@),
        },
{
    globset::Glob::new(pattern).map_err(|error| error.to_string())
}

/// `globset::GlobSetBuilder::new`: nothing is collected yet.
#[verifier::external_body]
fn new_glob_builder() -> (r: globset::GlobSetBuilder)
    ensures
        builder_globs(r) == Seq::<Seq<char>>::empty(),
{
    globset::GlobSetBuilder::new()
}

/// `globset::GlobSetBuilder::add`: the pattern comes behind those collected
/// before.
#[verifier::external_body]
fn add_glob(builder: &mut globset::GlobSetBuilder, glob: globset::Glob)
    ensures
        builder_globs(*final(builder)) == builder_globs(*old(builder)).push(glob_source(glob)),
{
    builder.add(glob);
}

/// `globset::GlobSetBuilder::build`: the set holds the collected patterns, and
/// a set without patterns is always built. Which patterns are too large to be
/// matched together, and the message where they are, depends on the machine, so
/// nothing is said of either.
#[verifier::external_body]
fn build_globs(builder: &globset::GlobSetBuilder) -> (r: Result<globset::GlobSet, String>)
    ensures
        r matches Ok(set) ==> set_globs(set) == builder_globs(*builder),
        builder_globs(*builder).len() == 0 ==> r is Ok,
{
    builder.build().map_err(|error| error.to_string())
}

/// `globset::GlobSet::empty`: a set without patterns.
#[verifier::external_body]
fn empty_glob_set() -> (r: globset::GlobSet)
    ensures
        set_globs(r) == Seq::<Seq<char>>::empty(),
{
    globset::GlobSet::empty()
}

/// `globset::GlobSet::is_empty`: whether the set is without patterns.
#[verifier::external_body]
fn globs_are_empty(set: &globset::GlobSet) -> (r: bool)
    ensures
        r == (set_globs(*set).len() == 0),
{
    set.is_empty()
}

/// `globset::GlobSet::is_match`: whether one of the patterns matches the path.
/// Which paths without a backslash a pattern without one matches depends on the
/// two texts alone. Nothing is said of others.
#[verifier::external_body]
fn globs_match(set: &globset::GlobSet, path: &str) -> (r: bool)
    ensures
        all_portable(set_globs(*set)) && portable(path@) ==> r == (exists|k: int|
            (0 <= k < set_globs(*set).len() && glob_matches(#[trigger] set_globs(*set)[k], path@))),
{
    set.is_match(path)
}

// ---------------------------------------------------------------------------
// Errors
// ---------------------------------------------------------------------------
/// Why there is no configuration.
#[derive(Debug, Clone, Eq, PartialEq)]
pub struct ConfigError {
    message: String,
}

impl ConfigError {
    pub closed spec fn view(&self) -> Seq<char> {
        self.message@
    }

    /// A failure with a message.
    pub fn new(message: &str) -> (r: ConfigError)
        ensures
            r@ == message@,
    {
        ConfigError { message: message.to_owned() }
    }

    /// A configuration file that could not be located, read or parsed:
    /// `action` says which.
    pub fn unusable(action: &str, path: &str, error: &str) -> (r: ConfigError)
        ensures
            r@ == "could not "@ + action@ + " config "@ + path@ + ": "@ + error@,
    {
        let mut text = long_phrase(
            "could not ",
            chars_of(action).as_slice(),
            " config ",
            chars_of(path).as_slice(),
            ": ",
        );
        append_chars(&mut text, chars_of(error).as_slice());
        ConfigError { message: string_of(text.as_slice()) }
    }

    /// The message.
    pub fn to_string(&self) -> (r: String)
        ensures
            r@ == self@,
    {
        self.message.clone()
    }
}

// ---------------------------------------------------------------------------
// Settings
// ---------------------------------------------------------------------------
/// What a configuration file says.
#[derive(Clone, Debug)]
pub struct FileConfig {
    pub max_top_level_blank_lines: Option<usize>,
    pub metadata_list_layout: Option<MetadataListLayout>,
    /// The rules that are not reported.
    pub disable: Vec<String>,
    /// The severities of rules, by rule.
    pub severity: TextMap,
    /// Which findings fail a run.
    pub fail_on: Option<String>,
    /// The patterns of paths that are left out.
    pub exclude: Vec<String>,
    /// How many files one invocation may read.
    pub max_files: Option<usize>,
    /// How many bytes one invocation may read.
    pub max_bytes: Option<u64>,
    /// Where BitBake runs, and which executable it is.
    pub semantic: SemanticConfig,
    /// The limits on BitBake.
    pub limits: BitBakeLimitArgs,
}

/// How BitBake is asked.
#[derive(Clone, Debug, Eq, PartialEq)]
pub struct SemanticConfig {
    /// The build directory.
    pub build_dir: Option<String>,
    /// The executable.
    pub bitbake: Option<String>,
    /// The analyses that are made of every target.
    pub analysis: SemanticAnalysisOptions,
}

#[verifier::ext_equal]
pub struct SemanticConfigView {
    pub build_dir: Option<Seq<char>>,
    pub bitbake: Option<Seq<char>>,
    pub analysis: SemanticAnalysisOptions,
}

impl SemanticConfig {
    pub open spec fn view(&self) -> SemanticConfigView {
        SemanticConfigView {
            build_dir: collections::optional_text(self.build_dir),
            bitbake: collections::optional_text(self.bitbake),
            analysis: self.analysis,
        }
    }
}

/// The settings where there are none.
pub open spec fn default_semantic() -> SemanticConfigView {
    SemanticConfigView {
        build_dir: None,
        bitbake: None,
        analysis: semantic::no_analysis(),
    }
}

impl Default for SemanticConfig {
    fn default() -> (r: SemanticConfig)
        ensures
            r@ == default_semantic(),
    {
        SemanticConfig {
            build_dir: None,
            bitbake: None,
            analysis: SemanticAnalysisOptions::default(),
        }
    }
}

/// The executable that a file in `base_dir` names: one that is written as a
/// path is relative to the file, a bare name is looked up.
pub open spec fn placed_executable(name: Seq<char>, base_dir: Seq<char>) -> Seq<char> {
    if name.contains('/') {
        paths::pushed_path(base_dir, name)
    } else {
        name
    }
}

/// The settings of a file in `base_dir`.
pub open spec fn placed_semantic(
    given: SemanticConfigView,
    base_dir: Seq<char>,
) -> SemanticConfigView {
    SemanticConfigView {
        build_dir: match given.build_dir {
            Some(path) => Some(paths::pushed_path(base_dir, path)),
            None => None,
        },
        bitbake: match given.bitbake {
            Some(name) => Some(placed_executable(name, base_dir)),
            None => None,
        },
        analysis: given.analysis,
    }
}

fn place_executable(name: &str, base_dir: &str) -> (r: String)
    ensures
        r@ == placed_executable(name@, base_dir@),
{
    let text = chars_of(name);
    let mut k: usize = 0;
    while k < text.len()
        invariant
            k <= text@.len(),
            text@ == name@,
            !name@.take(k as int).contains('/'),
        decreases text@.len() - k,
    {
        if text[k] == '/' {
            assert(name@.contains('/')) by {
                assert(name@[k as int] == '/');
            }
            return push_path(base_dir, name);
        }
        assert(!name@.take(k + 1).contains('/')) by {
            assert(name@.take(k + 1) =~= name@.take(k as int).push(name@[k as int]));
            let next = name@.take(k + 1);
            if next.contains('/') {
                let j = choose|j: int| 0 <= j < next.len() && #[trigger] next[j] == '/';
                assert(name@.take(k as int)[j] == '/');
            }
        }
        k += 1;
    }
    assert(name@.take(k as int) =~= name@);
    name.to_owned()
}

fn place_semantic(given: &SemanticConfig, base_dir: &str) -> (r: SemanticConfig)
    ensures
        r@ == placed_semantic(given@, base_dir@),
{
    SemanticConfig {
        build_dir: match &given.build_dir {
            Some(path) => Some(push_path(base_dir, path.as_str())),
            None => None,
        },
        bitbake: match &given.bitbake {
            Some(name) => Some(place_executable(name.as_str(), base_dir)),
            None => None,
        },
        analysis: given.analysis,
    }
}

#[verifier::ext_equal]
pub struct FileConfigView {
    pub max_top_level_blank_lines: Option<usize>,
    pub metadata_list_layout: Option<MetadataListLayout>,
    pub disable: Seq<Seq<char>>,
    pub severity: Seq<(Seq<char>, Seq<char>)>,
    pub fail_on: Option<Seq<char>>,
    pub exclude: Seq<Seq<char>>,
    pub max_files: Option<usize>,
    pub max_bytes: Option<u64>,
    pub semantic: SemanticConfigView,
    pub limits: BitBakeLimitArgs,
}

impl FileConfig {
    pub open spec fn view(&self) -> FileConfigView {
        FileConfigView {
            max_top_level_blank_lines: self.max_top_level_blank_lines,
            metadata_list_layout: self.metadata_list_layout,
            disable: collections::string_texts(self.disable@),
            severity: self.severity.pairs(),
            fail_on: collections::optional_text(self.fail_on),
            exclude: collections::string_texts(self.exclude@),
            max_files: self.max_files,
            max_bytes: self.max_bytes,
            semantic: self.semantic@,
            limits: self.limits,
        }
    }

    pub open spec fn wf(&self) -> bool {
        self.severity.wf()
    }
}

/// The identifiers of all rules.
pub open spec fn rule_ids() -> Seq<Seq<char>> {
    Seq::new(RULE_COUNT as nat, |k: int| rules::rule_view(k as nat).id)
}

/// What is said of an unknown rule.
pub open spec fn unknown_rule(id: Seq<char>) -> Seq<char> {
    "unknown lint rule '"@ + id + "'; use one of "@ + collections::joined(
        orders::sorted_distinct(TextOrder::Plain, rule_ids()),
        ", "@,
    ) + ""@
}

/// What is wrong with a rule identifier.
pub open spec fn id_fault(id: Seq<char>) -> Option<Seq<char>> {
    if rule_ids().contains(id) {
        None
    } else {
        Some(unknown_rule(id))
    }
}

/// What is wrong with the first wrong one of the rule identifiers `ids[k..]`.
pub open spec fn disable_fault(ids: Seq<Seq<char>>, k: int) -> Option<Seq<char>>
    decreases ids.len() - k,
{
    if k < 0 || k >= ids.len() {
        None
    } else {
        match id_fault(ids[k]) {
            Some(fault) => Some(fault),
            None => disable_fault(ids, k + 1),
        }
    }
}

/// What is wrong with the first wrong one of the severities `items[k..]`.
pub open spec fn severity_fault(items: Seq<(Seq<char>, Seq<char>)>, k: int) -> Option<Seq<char>>
    decreases items.len() - k,
{
    if k < 0 || k >= items.len() {
        None
    } else {
        match id_fault(items[k].0) {
            Some(fault) => Some(fault),
            None => match rules::severity_named(items[k].1) {
                Some(severity) => severity_fault(items, k + 1),
                None => Some(
                    "invalid lint severity '"@ + items[k].1
                        + "'; expected info, warning, or error"@,
                ),
            },
        }
    }
}

/// What is wrong with a pattern, where `fault` is why it is none.
pub open spec fn pattern_fault(pattern: Seq<char>, fault: Option<Seq<char>>) -> Option<Seq<char>> {
    if pattern.len() == 0 {
        Some("path exclusion patterns must not be empty"@)
    } else {
        match fault {
            Some(error) => Some("invalid path exclusion '"@ + pattern + "': "@ + error + ""@),
            None => None,
        }
    }
}

/// What is wrong with patterns that cannot be matched together.
pub open spec fn build_fault(fault: Option<Seq<char>>) -> Option<Seq<char>> {
    match fault {
        Some(error) => Some("could not build path exclusions: "@ + error + ""@),
        None => None,
    }
}

/// What is wrong with the first wrong one of the patterns `patterns[k..]`.
pub open spec fn exclude_fault(patterns: Seq<Seq<char>>, k: int) -> Option<Seq<char>>
    decreases patterns.len() - k,
{
    if k < 0 || k >= patterns.len() {
        None
    } else {
        match pattern_fault(patterns[k], glob_fault(patterns[k])) {
            Some(fault) => Some(fault),
            None => exclude_fault(patterns, k + 1),
        }
    }
}

/// What is wrong with a word for the findings that fail a run.
pub open spec fn policy_fault(word: Option<Seq<char>>) -> Option<Seq<char>> {
    match word {
        Some(word) => match rules::policy_named(word) {
            Some(policy) => None,
            None => Some(
                "invalid lint failure policy '"@ + word
                    + "'; expected info, warning, error, or never"@,
            ),
        },
        None => None,
    }
}

/// The first of two faults.
pub open spec fn first_fault(a: Option<Seq<char>>, b: Option<Seq<char>>) -> Option<Seq<char>> {
    match a {
        Some(fault) => Some(fault),
        None => b,
    }
}

/// What is wrong with the lint settings of a configuration file.
pub open spec fn early_fault(file: FileConfigView) -> Option<Seq<char>> {
    first_fault(
        disable_fault(file.disable, 0),
        first_fault(severity_fault(file.severity, 0), policy_fault(file.fail_on)),
    )
}

/// What is wrong with the limits of a configuration file.
pub open spec fn late_fault(file: FileConfigView) -> Option<Seq<char>> {
    bitbake::limits_fault(runs::limits_of(bitbake::default_limits(), file.limits))
}

/// What is wrong with a configuration file, where `built` is why its patterns
/// cannot be matched together.
pub open spec fn file_fault(file: FileConfigView, built: Option<Seq<char>>) -> Option<Seq<char>> {
    first_fault(
        early_fault(file),
        first_fault(
            exclude_fault(file.exclude, 0),
            first_fault(build_fault(built), late_fault(file)),
        ),
    )
}

/// Why patterns could not be matched together.
pub open spec fn built_fault(built: Result<globset::GlobSet, String>) -> Option<Seq<char>> {
    match built {
        Ok(_) => None,
        Err(message) => Some(message@),
    }
}

/// A configuration is refused with the given fault, and with it alone.
pub open spec fn is_outcome(r: Result<Config, ConfigError>, fault: Option<Seq<char>>) -> bool {
    match fault {
        Some(fault) => r matches Err(error) && error@ == fault,
        None => r is Ok,
    }
}

/// Resolved bbtidy configuration for one CLI invocation.
#[derive(Debug)]
pub struct Config {
    pub format: FormatOptions,
    pub lint: LintOptions,
    /// How much one invocation may read.
    pub safety: SafetyOptions,
    /// How BitBake is asked.
    pub semantic: SemanticConfig,
    /// The limits on BitBake.
    pub bitbake: BitBakeExecutionLimits,
    /// The directory that the patterns are relative to.
    pub base_dir: String,
    /// The patterns of paths that are left out.
    pub excludes: globset::GlobSet,
}

#[verifier::ext_equal]
pub struct ConfigView {
    pub format: FormatOptions,
    pub lint: OptionsView,
    pub safety: SafetyOptions,
    pub semantic: SemanticConfigView,
    pub bitbake: BitBakeExecutionLimits,
    pub base_dir: Seq<char>,
    pub excludes: Seq<Seq<char>>,
}

/// The configuration where there is no file.
pub open spec fn default_config(base_dir: Seq<char>) -> ConfigView {
    ConfigView {
        format: formatter::default_format_options(),
        lint: rules::default_options(),
        safety: inputs::default_safety(),
        semantic: default_semantic(),
        bitbake: bitbake::default_limits(),
        base_dir,
        excludes: Seq::empty(),
    }
}

/// The formatting options of a configuration file.
pub open spec fn file_format(file: FileConfigView) -> FormatOptions {
    FormatOptions {
        max_top_level_blank_lines: match file.max_top_level_blank_lines {
            Some(count) => count,
            None => formatter::default_format_options().max_top_level_blank_lines,
        },
        metadata_list_layout: match file.metadata_list_layout {
            Some(layout) => layout,
            None => formatter::default_format_options().metadata_list_layout,
        },
    }
}

/// The severities that pairs of rules and words give.
pub open spec fn given_severities(items: Seq<(Seq<char>, Seq<char>)>) -> Map<
    Seq<char>,
    LintSeverity,
> {
    collections::pairs_map(items).map_values(|word: Seq<char>| rules::severity_named(word)->0)
}

/// The lint options of a configuration file.
pub open spec fn file_lint(file: FileConfigView) -> OptionsView {
    OptionsView {
        disabled: file.disable.to_set(),
        overrides: given_severities(file.severity),
        policy: match file.fail_on {
            Some(word) => rules::policy_named(word)->0,
            None => LintFailurePolicy::Warning,
        },
    }
}

/// The configuration of a file without faults.
pub open spec fn config_of(file: FileConfigView, base_dir: Seq<char>) -> ConfigView {
    ConfigView {
        format: file_format(file),
        lint: file_lint(file),
        safety: inputs::safety_of(inputs::default_safety(), file.max_files, file.max_bytes),
        semantic: placed_semantic(file.semantic, base_dir),
        bitbake: runs::limits_of(bitbake::default_limits(), file.limits),
        base_dir,
        excludes: file.exclude,
    }
}

/// The path that patterns are matched with: absolute, and canonical where it
/// is known.
pub open spec fn lookup_path(path: Seq<char>, current: Option<Seq<char>>, table: TableView) -> Option<
    Seq<char>,
> {
    let absolute = if paths::is_rooted(path) {
        Some(path)
    } else {
        match current {
            Some(directory) => Some(paths::pushed_path(directory, path)),
            None => None,
        }
    };
    match absolute {
        Some(absolute) => if table.resolved.dom().contains(absolute) {
            Some(table.resolved[absolute])
        } else {
            Some(absolute)
        },
        None => None,
    }
}

/// A path as the patterns see it: relative to the directory of the
/// configuration.
pub open spec fn path_below(
    c: ConfigView,
    path: Seq<char>,
    current: Option<Seq<char>>,
    table: TableView,
) -> Option<Seq<char>> {
    match lookup_path(path, current, table) {
        Some(absolute) => paths::relative_path(absolute, c.base_dir),
        None => None,
    }
}

/// A path is left out.
pub open spec fn excluded(
    c: ConfigView,
    path: Seq<char>,
    current: Option<Seq<char>>,
    table: TableView,
) -> bool {
    match path_below(c, path, current, table) {
        Some(relative) => one_matches(c.excludes, relative),
        None => false,
    }
}

/// The identifiers of all rules.
fn known_rules() -> (r: Vec<String>)
    ensures
        collections::string_texts(r@) == rule_ids(),
{
    let mut out: Vec<String> = Vec::new();
    let mut k: usize = 0;
    while k < RULE_COUNT
        invariant
            k <= RULE_COUNT,
            collections::string_texts(out@) == rule_ids().take(k as int),
        decreases RULE_COUNT - k,
    {
        push_text(&mut out, crate::rules::rule(k).id().to_owned());
        assert(rule_ids().take(k + 1) =~= rule_ids().take(k as int).push(rule_ids()[k as int]));
        k += 1;
    }
    assert(rule_ids().take(k as int) =~= rule_ids());
    out
}

/// Checks that a rule is known.
pub fn validate_rule_id(rule_id: &str) -> (r: Result<(), ConfigError>)
    ensures
        match id_fault(rule_id@) {
            Some(fault) => r matches Err(error) && error@ == fault,
            None => r is Ok,
        },
{
    let known = known_rules();
    if has_text(&known, rule_id) {
        return Ok(());
    }
    let names = join(&sort_distinct(TextOrder::Plain, &known), ", ");
    let text = long_phrase(
        "unknown lint rule '",
        chars_of(rule_id).as_slice(),
        "'; use one of ",
        chars_of(names.as_str()).as_slice(),
        "",
    );
    Err(ConfigError { message: string_of(text.as_slice()) })
}

fn read_disabled(options: &mut LintOptions, ids: &Vec<String>) -> (r: Result<(), ConfigError>)
    requires
        old(options).wf(),
    ensures
        final(options).wf(),
        match disable_fault(collections::string_texts(ids@), 0) {
            Some(fault) => r matches Err(error) && error@ == fault,
            None => r is Ok && final(options)@ == (OptionsView {
                disabled: old(options)@.disabled.union(collections::string_texts(ids@).to_set()),
                ..old(options)@
            }),
        },
{
    let ghost all = collections::string_texts(ids@);
    let ghost before = options@;
    let mut k: usize = 0;
    assert(options@ =~= (OptionsView {
        disabled: before.disabled.union(all.take(0).to_set()),
        ..before
    }));
    while k < ids.len()
        invariant
            k <= ids@.len(),
            all == collections::string_texts(ids@),
            options.wf(),
            disable_fault(all, k as int) == disable_fault(all, 0),
            options@ == (OptionsView {
                disabled: before.disabled.union(all.take(k as int).to_set()),
                ..before
            }),
        decreases ids@.len() - k,
    {
        assert(all[k as int] == ids@[k as int]@);
        if let Err(error) = validate_rule_id(ids[k].as_str()) {
            return Err(error);
        }
        options.disable_rule(ids[k].as_str());
        proof {
            let x = all[k as int];
            let next = all.take(k + 1);
            assert(next =~= all.take(k as int).push(x));
            assert forall|id: Seq<char>| #[trigger]
                before.disabled.union(all.take(k as int).to_set()).insert(x).contains(id)
                == before.disabled.union(next.to_set()).contains(id) by {
                if id == x {
                    assert(next[k as int] == x);
                } else if all.take(k as int).contains(id) {
                    let j = choose|j: int|
                        0 <= j < all.take(k as int).len() && all.take(k as int)[j] == id;
                    assert(next[j] == id);
                } else if next.contains(id) {
                    let j = choose|j: int| 0 <= j < next.len() && next[j] == id;
                    assert(all.take(k as int)[j] == id);
                }
            }
            assert(before.disabled.union(all.take(k as int).to_set()).insert(x)
                =~= before.disabled.union(next.to_set()));
        }
        k += 1;
    }
    assert(all.take(k as int) =~= all);
    Ok(())
}

fn read_severities(options: &mut LintOptions, severity: &TextMap) -> (r: Result<(), ConfigError>)
    requires
        old(options).wf(),
        old(options)@.overrides == Map::<Seq<char>, LintSeverity>::empty(),
    ensures
        final(options).wf(),
        match severity_fault(severity.pairs(), 0) {
            Some(fault) => r matches Err(error) && error@ == fault,
            None => r is Ok && final(options)@ == (OptionsView {
                overrides: given_severities(severity.pairs()),
                ..old(options)@
            }),
        },
{
    let entries = severity.entries();
    let ghost all = severity.pairs();
    let ghost before = options@;
    let mut k: usize = 0;
    assert(given_severities(all.take(0)) =~= Map::empty());
    while k < entries.len()
        invariant
            k <= entries@.len(),
            all == collections::pair_texts(entries@),
            options.wf(),
            all == severity.pairs(),
            severity_fault(all, k as int) == severity_fault(all, 0),
            options@ == (OptionsView { overrides: given_severities(all.take(k as int)), ..before }),
        decreases entries@.len() - k,
    {
        assert(all[k as int] == (entries@[k as int].0@, entries@[k as int].1@));
        if let Err(error) = validate_rule_id(entries[k].0.as_str()) {
            return Err(error);
        }
        match LintSeverity::from_str(entries[k].1.as_str()) {
            Ok(chosen) => {
                options.set_severity(entries[k].0.as_str(), chosen);
                proof {
                    let next = all.take(k + 1);
                    assert(next.drop_last() =~= all.take(k as int));
                    assert(next.last() == all[k as int]);
                    assert(given_severities(next) =~= given_severities(all.take(k as int)).insert(
                        all[k as int].0,
                        chosen,
                    ));
                }
            },
            Err(message) => {
                return Err(ConfigError { message });
            },
        }
        k += 1;
    }
    assert(all.take(k as int) =~= all);
    Ok(())
}

fn read_policy(options: &mut LintOptions, word: &Option<String>) -> (r: Result<(), ConfigError>)
    requires
        old(options).wf(),
    ensures
        final(options).wf(),
        match policy_fault(collections::optional_text(*word)) {
            Some(fault) => r matches Err(error) && error@ == fault,
            None => r is Ok && final(options)@ == (OptionsView {
                policy: match word {
                    Some(word) => rules::policy_named(word@)->0,
                    None => old(options)@.policy,
                },
                ..old(options)@
            }),
        },
{
    if let Some(word) = word {
        match LintFailurePolicy::from_str(word.as_str()) {
            Ok(policy) => {
                options.set_fail_on(policy);
            },
            Err(message) => {
                return Err(ConfigError { message });
            },
        }
    }
    Ok(())
}

/// What is wrong with a pattern, where `fault` is why it is none.
pub fn check_pattern(pattern: &str, fault: &Option<String>) -> (r: Result<(), ConfigError>)
    ensures
        match pattern_fault(pattern@, collections::optional_text(*fault)) {
            Some(message) => r matches Err(error) && error@ == message,
            None => r is Ok,
        },
{
    let text = chars_of(pattern);
    if text.len() == 0 {
        return Err(ConfigError::new("path exclusion patterns must not be empty"));
    }
    match fault {
        Some(error) => {
            let message = long_phrase(
                "invalid path exclusion '",
                text.as_slice(),
                "': ",
                chars_of(error.as_str()).as_slice(),
                "",
            );
            Err(ConfigError { message: string_of(message.as_slice()) })
        },
        None => Ok(()),
    }
}

/// The error on patterns that cannot be matched together.
pub fn unbuildable(fault: &str) -> (r: ConfigError)
    ensures
        build_fault(Some(fault@)) == Some(r@),
{
    let message = phrase(
        "could not build path exclusions: ",
        chars_of(fault).as_slice(),
        "",
    );
    ConfigError { message: string_of(message.as_slice()) }
}

/// Collects the patterns.
fn read_excludes(patterns: &Vec<String>) -> (r: Result<globset::GlobSetBuilder, ConfigError>)
    ensures
        all_portable(collections::string_texts(patterns@)) ==> match exclude_fault(
            collections::string_texts(patterns@),
            0,
        ) {
            Some(fault) => r matches Err(error) && error@ == fault,
            None => r is Ok,
        },
        r matches Ok(builder) ==> builder_globs(builder) == collections::string_texts(patterns@),
        r is Ok ==> !collections::string_texts(patterns@).contains(Seq::empty()),
{
    let ghost all = collections::string_texts(patterns@);
    let mut builder = new_glob_builder();
    let mut k: usize = 0;
    assert(all.take(0) =~= Seq::empty());
    while k < patterns.len()
        invariant
            k <= patterns@.len(),
            all == collections::string_texts(patterns@),
            all_portable(all) ==> exclude_fault(all, k as int) == exclude_fault(all, 0),
            builder_globs(builder) == all.take(k as int),
            forall|j: int| 0 <= j < k ==> (#[trigger] all[j]).len() > 0,
        decreases patterns@.len() - k,
    {
        assert(all[k as int] == patterns@[k as int]@);
        match parse_glob(patterns[k].as_str()) {
            Ok(glob) => {
                if let Err(error) = check_pattern(patterns[k].as_str(), &None) {
                    return Err(error);
                }
                add_glob(&mut builder, glob);
                assert(all.take(k + 1) =~= all.take(k as int).push(all[k as int]));
            },
            Err(fault) => {
                if let Err(error) = check_pattern(patterns[k].as_str(), &Some(fault)) {
                    return Err(error);
                }
            },
        }
        k += 1;
    }
    assert(all.take(k as int) =~= all);
    Ok(builder)
}

/// The lint settings of a configuration file.
fn read_lint(file: &FileConfig) -> (r: Result<LintOptions, ConfigError>)
    requires
        file.wf(),
    ensures
        match early_fault(file@) {
            Some(fault) => r matches Err(error) && error@ == fault,
            None => r matches Ok(lint) && lint.wf() && lint@ == file_lint(file@),
        },
{
    let mut lint = LintOptions::default();
    if let Err(error) = read_disabled(&mut lint, &file.disable) {
        return Err(error);
    }
    if let Err(error) = read_severities(&mut lint, &file.severity) {
        return Err(error);
    }
    if let Err(error) = read_policy(&mut lint, &file.fail_on) {
        return Err(error);
    }
    assert(Set::<Seq<char>>::empty().union(file@.disable.to_set()) =~= file@.disable.to_set());
    assert(lint@ =~= file_lint(file@));
    Ok(lint)
}

impl Config {
    pub open spec fn view(&self) -> ConfigView {
        ConfigView {
            format: self.format,
            lint: self.lint@,
            safety: self.safety,
            semantic: self.semantic@,
            bitbake: self.bitbake,
            base_dir: self.base_dir@,
            excludes: set_globs(self.excludes),
        }
    }

    pub open spec fn wf(&self) -> bool {
        self.lint.wf()
    }

    /// The configuration where there is no file.
    pub fn default_for(base_dir: &str) -> (r: Config)
        ensures
            r.wf(),
            r@ == default_config(base_dir@),
    {
        Config {
            format: FormatOptions::default(),
            lint: LintOptions::default(),
            safety: SafetyOptions::default(),
            semantic: SemanticConfig::default(),
            bitbake: BitBakeExecutionLimits::default(),
            base_dir: base_dir.to_owned(),
            excludes: empty_glob_set(),
        }
    }

    /// The configuration that a file in `base_dir` gives. Whether its patterns
    /// can be matched together is left to the machine; what follows from it is
    /// what [`Config::assemble`] makes of it.
    pub fn from_file_config(file: &FileConfig, base_dir: &str) -> (r: Result<Config, ConfigError>)
        requires
            file.wf(),
        ensures
            all_portable(file@.exclude) || early_fault(file@) is Some ==> exists|
                built: Option<Seq<char>>,
            |
                (file@.exclude.len() == 0 ==> built is None) && is_outcome(
                    r,
                    #[trigger] file_fault(file@, built),
                ),
            r is Ok ==> early_fault(file@) is None && !file@.exclude.contains(Seq::empty())
                && late_fault(file@) is None,
            r matches Ok(config) ==> config.wf() && config@ == config_of(file@, base_dir@),
    {
        let lint = match read_lint(file) {
            Ok(lint) => lint,
            Err(error) => {
                assert(is_outcome(Err(error), file_fault(file@, None)));
                return Err(error);
            },
        };
        let builder = match read_excludes(&file.exclude) {
            Ok(builder) => builder,
            Err(error) => {
                assert(all_portable(file@.exclude) ==> is_outcome(
                    Err(error),
                    file_fault(file@, None),
                ));
                return Err(error);
            },
        };
        let built = build_globs(&builder);
        let ghost fault = built_fault(built);
        let r = Config::assemble(file, lint, base_dir, built);
        assert(all_portable(file@.exclude) ==> is_outcome(r, file_fault(file@, fault)));
        r
    }

    /// The configuration of a file in `base_dir` whose lint settings and
    /// patterns were read: `excludes` is the set of the patterns, or why they
    /// cannot be matched together.
    pub fn assemble(
        file: &FileConfig,
        lint: LintOptions,
        base_dir: &str,
        excludes: Result<globset::GlobSet, String>,
    ) -> (r: Result<Config, ConfigError>)
        requires
            lint.wf(),
        ensures
            match excludes {
                Ok(set) => is_outcome(r, late_fault(file@)) && (r matches Ok(config) ==> config.wf()
                    && config@ == (ConfigView {
                    lint: lint@,
                    excludes: set_globs(set),
                    ..config_of(file@, base_dir@)
                })),
                Err(message) => is_outcome(r, build_fault(Some(message@))),
            },
    {
        let excludes = match excludes {
            Ok(set) => set,
            Err(fault) => {
                return Err(unbuildable(fault.as_str()));
            },
        };
        let bitbake = match effective_bitbake_limits(
            &BitBakeExecutionLimits::default(),
            &file.limits,
        ).validate() {
            Ok(limits) => limits,
            Err(message) => {
                return Err(ConfigError { message });
            },
        };
        let defaults = FormatOptions::default();
        let config = Config {
            format: FormatOptions {
                max_top_level_blank_lines: match file.max_top_level_blank_lines {
                    Some(count) => count,
                    None => defaults.max_top_level_blank_lines,
                },
                metadata_list_layout: match file.metadata_list_layout {
                    Some(layout) => layout,
                    None => defaults.metadata_list_layout,
                },
            },
            lint,
            safety: effective_safety(&SafetyOptions::default(), file.max_files, file.max_bytes),
            semantic: place_semantic(&file.semantic, base_dir),
            bitbake,
            base_dir: base_dir.to_owned(),
            excludes,
        };
        Ok(config)
    }

    /// Whether a path matches one of the exclusion patterns. `current_dir` is
    /// the current directory, where it is known, and `table` holds the
    /// canonical forms of absolute paths.
    pub fn is_excluded(
        &self,
        path: &str,
        current_dir: &Option<String>,
        table: &PathTable,
    ) -> (r: bool)
        requires
            table.wf(),
        ensures
            ({
                let current = collections::optional_text(*current_dir);
                let below = path_below(self@, path@, current, table@);
                &&& r ==> self@.excludes.len() > 0 && below is Some
                &&& (below matches Some(relative) ==> portable(relative)) && all_portable(
                    self@.excludes,
                ) ==> r == excluded(self@, path@, current, table@)
            }),
    {
        if globs_are_empty(&self.excludes) {
            return false;
        }
        let absolute = if is_absolute(path) {
            path.to_owned()
        } else {
            match current_dir {
                Some(directory) => push_path(directory.as_str(), path),
                None => {
                    return false;
                },
            }
        };
        let settled = match table.resolved(absolute.as_str()) {
            Some(found) => found,
            None => absolute,
        };
        match strip_root(settled.as_str(), self.base_dir.as_str()) {
            Some(relative) => globs_match(&self.excludes, relative.as_str()),
            None => false,
        }
    }
}

// ---------------------------------------------------------------------------
// Discovery
// ---------------------------------------------------------------------------
/// Where a configuration file is looked for, nearest first.
pub open spec fn candidates(start: Seq<char>, is_directory: bool) -> Seq<Seq<char>> {
    let directory = if is_directory {
        Some(start)
    } else {
        paths::lexical_parent(start)
    };
    match directory {
        Some(directory) => paths::ancestors(directory).map_values(
            |above: Seq<char>| paths::pushed_path(above, CONFIG_FILE_NAME@),
        ),
        None => Seq::empty(),
    }
}

/// The first of `items[k..]` that is in `files`.
pub open spec fn first_present(items: Seq<Seq<char>>, files: Seq<Seq<char>>, k: int) -> Option<
    Seq<char>,
>
    decreases items.len() - k,
{
    if k < 0 || k >= items.len() {
        None
    } else if files.contains(items[k]) {
        Some(items[k])
    } else {
        first_present(items, files, k + 1)
    }
}

/// Where a configuration file is looked for, nearest first.
pub fn config_candidates(start: &str, is_directory: bool) -> (r: Vec<String>)
    ensures
        collections::string_texts(r@) == candidates(start@, is_directory),
{
    let directory = if is_directory {
        start.to_owned()
    } else {
        match parent_path(start) {
            Some(above) => above,
            None => {
                let none: Vec<String> = Vec::new();
                assert(collections::string_texts(none@) =~= Seq::empty());
                return none;
            },
        }
    };
    let above = path_ancestors(directory.as_str());
    let ghost all = collections::string_texts(above@);
    let ghost goal = candidates(start@, is_directory);
    let mut out: Vec<String> = Vec::new();
    let mut k: usize = 0;
    assert(goal.take(0) =~= collections::string_texts(out@));
    while k < above.len()
        invariant
            k <= above@.len(),
            all == collections::string_texts(above@),
            goal == all.map_values(|above: Seq<char>| paths::pushed_path(above, CONFIG_FILE_NAME@)),
            collections::string_texts(out@) == goal.take(k as int),
        decreases above@.len() - k,
    {
        assert(all[k as int] == above@[k as int]@);
        push_text(&mut out, push_path(above[k].as_str(), CONFIG_FILE_NAME));
        assert(goal.take(k + 1) =~= goal.take(k as int).push(goal[k as int]));
        k += 1;
    }
    assert(goal.take(k as int) =~= goal);
    out
}

/// Finds the nearest `.bbtidy.toml` at or above a path; `files` are those of
/// the candidates that are files.
pub fn discover_config(start: &str, is_directory: bool, files: &Vec<String>) -> (r: Option<String>)
    ensures
        collections::optional_text(r) == first_present(
            candidates(start@, is_directory),
            collections::string_texts(files@),
            0,
        ),
{
    let items = config_candidates(start, is_directory);
    let ghost all = collections::string_texts(items@);
    let mut k: usize = 0;
    while k < items.len()
        invariant
            k <= items@.len(),
            all == collections::string_texts(items@),
            all == candidates(start@, is_directory),
            first_present(all, collections::string_texts(files@), k as int) == first_present(
                all,
                collections::string_texts(files@),
                0,
            ),
        decreases items@.len() - k,
    {
        assert(all[k as int] == items@[k as int]@);
        if has_text(files, items[k].as_str()) {
            return Some(items[k].clone());
        }
        k += 1;
    }
    None
}

/// The configuration file that is loaded: none with `no_config`, else the
/// explicit one, else the one that was discovered.
pub fn choose_config(
    explicit: Option<String>,
    no_config: bool,
    discovered: Option<String>,
) -> (r: Option<String>)
    ensures
        collections::optional_text(r) == (if no_config {
            None
        } else if explicit is Some {
            collections::optional_text(explicit)
        } else {
            collections::optional_text(discovered)
        }),
{
    if no_config {
        None
    } else if explicit.is_some() {
        explicit
    } else {
        discovered
    }
}

} // verus!
