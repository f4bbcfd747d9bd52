//! A lint command: what it may be asked, what it finds in each input, and what
//! it prints.
use crate::checks;
use crate::collections;
use crate::findings;
use crate::fixes;
use crate::inputs;
use crate::lint;
use crate::numbers;
use crate::rules;
use crate::syntax;
use crate::text;
use crate::transaction;
use crate::bitbake::BitBakeExecutionLimits;
use crate::bitbake::NANOS_PER_SECOND;
use crate::checks::BodyDiagnostic;
use crate::checks::long_phrase;
use crate::checks::phrase;
use crate::collections::push_distinct;
use crate::collections::push_text;
use crate::dependencies::IndexView;
use crate::dependencies::WorkspaceIndex;
use crate::findings::DiagnosticView;
use crate::findings::FindingView;
use crate::findings::FixView;
use crate::findings::LintDiagnostic;
use crate::inputs::EXIT_DIFFERENCES;
use crate::inputs::ReadInput;
use crate::inputs::SafetyOptions;
use crate::inputs::describe_unusable;
use crate::lint::ExternalLintDiagnostic;
use crate::lint::LabeledView;
use crate::lint::LintFixErrorView;
use crate::lint::apply_lint_fixes;
use crate::lint::arrange;
use crate::lint::lint_with_options;
use crate::lint::lint_with_workspace;
use crate::numbers::decimal_chars;
use crate::output::copy_optional;
use crate::rules::LintOptions;
use crate::rules::LintSeverity;
use crate::rules::OptionsView;
use crate::semantic::SemanticAnalysisOptions;
use crate::text::append_chars;
use crate::text::chars_of;
use crate::text::string_of;
use crate::text::text_length;
use crate::transaction::RequestView;
use crate::transaction::WriteRequest;
use crate::tree::FormatError;
use vstd::prelude::*;

verus! {

// ---------------------------------------------------------------------------
// Arguments
// ---------------------------------------------------------------------------
/// What a lint command was asked to do.
#[derive(Clone, Copy, Debug, Eq, PartialEq, Structural)]
pub struct LintRequest {
    /// A whole build workspace is linted.
    pub workspace: bool,
    /// Files or directories are given.
    pub paths: bool,
    pub semantic: bool,
    pub build_dir: bool,
    pub project_dir: bool,
    pub targets: bool,
    pub variables: bool,
    pub full: bool,
    pub graph: bool,
    pub dry_run: bool,
    pub inventory: bool,
    pub packages: bool,
    /// Limits on BitBake are given.
    pub limits: bool,
    pub bitbake: bool,
    pub fix: bool,
    /// An input is standard input.
    pub stdin: bool,
}

/// An option is given that only a semantic analysis uses.
pub open spec fn needs_semantic(a: LintRequest) -> bool {
    a.build_dir || a.project_dir || a.targets || a.variables || a.full || a.graph || a.dry_run
        || a.inventory || a.packages || a.limits || (a.bitbake && !a.workspace)
}

/// Why a lint command cannot run.
pub open spec fn lint_misuse(a: LintRequest) -> Option<Seq<char>> {
    if a.workspace && a.paths {
        Some("--workspace cannot be combined with file or directory inputs"@)
    } else if !a.semantic && needs_semantic(a) {
        Some(
            "--build-dir, --project-dir, --target, --variable, --full, --graph, --dry-run, --inventory, and --packages require --semantic; --bitbake requires --semantic unless used with --workspace"@,
        )
    } else if a.semantic && a.stdin {
        Some("--semantic cannot be used with standard input"@)
    } else if a.fix && a.stdin {
        Some("--fix cannot be used with standard input"@)
    } else {
        None
    }
}

/// Checks that a lint command can run.
pub fn check_lint_request(a: &LintRequest) -> (r: Result<(), String>)
    ensures
        match lint_misuse(*a) {
            Some(fault) => r matches Err(message) && message@ == fault,
            None => r is Ok,
        },
{
    if a.workspace && a.paths {
        return Err("--workspace cannot be combined with file or directory inputs".to_owned());
    }
    if !a.semantic && (a.build_dir || a.project_dir || a.targets || a.variables || a.full
        || a.graph || a.dry_run || a.inventory || a.packages || a.limits || (a.bitbake
        && !a.workspace)) {
        return Err(
            "--build-dir, --project-dir, --target, --variable, --full, --graph, --dry-run, --inventory, and --packages require --semantic; --bitbake requires --semantic unless used with --workspace".to_owned(),
        );
    }
    if a.semantic && a.stdin {
        return Err("--semantic cannot be used with standard input".to_owned());
    }
    if a.fix && a.stdin {
        return Err("--fix cannot be used with standard input".to_owned());
    }
    Ok(())
}

/// The analyses of a command: all with `full`, else the configured ones and
/// those that it asks for.
pub fn semantic_analysis_options(
    full: bool,
    graph: bool,
    dry_run: bool,
    inventory: bool,
    packages: bool,
    configured: &SemanticAnalysisOptions,
) -> (r: SemanticAnalysisOptions)
    ensures
        r.dependency_graph == (full || configured.dependency_graph || graph),
        r.dry_run == (full || configured.dry_run || dry_run),
        r.inventory == (full || configured.inventory || inventory),
        r.packages == (full || configured.packages || packages),
{
    if full {
        SemanticAnalysisOptions::full()
    } else {
        SemanticAnalysisOptions {
            dependency_graph: configured.dependency_graph || graph,
            dry_run: configured.dry_run || dry_run,
            inventory: configured.inventory || inventory,
            packages: configured.packages || packages,
        }
    }
}

/// Limits on BitBake that a command gives.
#[derive(Clone, Copy, Debug, Eq, PartialEq, Structural)]
pub struct BitBakeLimitArgs {
    pub command_timeout_seconds: Option<u64>,
    pub total_timeout_seconds: Option<u64>,
    pub max_stdout_bytes: Option<u64>,
    pub max_stderr_bytes: Option<u64>,
    pub max_commands: Option<usize>,
    pub max_recipe_queries: Option<usize>,
}

impl BitBakeLimitArgs {
    /// Whether a limit is given.
    pub fn is_set(&self) -> (r: bool)
        ensures
            r == (self.command_timeout_seconds is Some || self.total_timeout_seconds is Some
                || self.max_stdout_bytes is Some || self.max_stderr_bytes is Some
                || self.max_commands is Some || self.max_recipe_queries is Some),
    {
        self.command_timeout_seconds.is_some() || self.total_timeout_seconds.is_some()
            || self.max_stdout_bytes.is_some() || self.max_stderr_bytes.is_some()
            || self.max_commands.is_some() || self.max_recipe_queries.is_some()
    }
}

/// A time limit: the given seconds, else the whole seconds of the configured
/// time.
pub open spec fn time_limit(configured: u128, given: Option<u64>) -> nat {
    match given {
        Some(seconds) => (seconds * NANOS_PER_SECOND) as nat,
        None => ((configured / NANOS_PER_SECOND) * NANOS_PER_SECOND) as nat,
    }
}

fn choose_time(configured: u128, given: Option<u64>) -> (r: u128)
    ensures
        r == time_limit(configured, given),
{
    match given {
        Some(seconds) => {
            assert(seconds * 1_000_000_000 <= u128::MAX);
            seconds as u128 * NANOS_PER_SECOND
        },
        None => {
            let seconds = configured / NANOS_PER_SECOND;
            assert(seconds * 1_000_000_000 <= configured) by (nonlinear_arith)
                requires
                    seconds == configured / 1_000_000_000,
            ;
            seconds * NANOS_PER_SECOND
        },
    }
}

/// The limits on BitBake: the given ones, else the configured ones.
pub open spec fn limits_of(
    configured: BitBakeExecutionLimits,
    given: BitBakeLimitArgs,
) -> BitBakeExecutionLimits {
    BitBakeExecutionLimits {
        command_timeout: time_limit(
            configured.command_timeout,
            given.command_timeout_seconds,
        ) as u128,
        total_timeout: time_limit(configured.total_timeout, given.total_timeout_seconds) as u128,
        max_stdout_bytes: match given.max_stdout_bytes {
            Some(count) => count,
            None => configured.max_stdout_bytes,
        },
        max_stderr_bytes: match given.max_stderr_bytes {
            Some(count) => count,
            None => configured.max_stderr_bytes,
        },
        max_commands: match given.max_commands {
            Some(count) => count,
            None => configured.max_commands,
        },
        max_recipe_queries: match given.max_recipe_queries {
            Some(count) => count,
            None => configured.max_recipe_queries,
        },
    }
}

/// The limits on BitBake of a command: those that it gives, else the
/// configured ones.
pub fn effective_bitbake_limits(configured: &BitBakeExecutionLimits, given: &BitBakeLimitArgs) -> (r:
    BitBakeExecutionLimits)
    ensures
        r == limits_of(*configured, *given),
{
    BitBakeExecutionLimits {
        command_timeout: choose_time(configured.command_timeout, given.command_timeout_seconds),
        total_timeout: choose_time(configured.total_timeout, given.total_timeout_seconds),
        max_stdout_bytes: match given.max_stdout_bytes {
            Some(count) => count,
            None => configured.max_stdout_bytes,
        },
        max_stderr_bytes: match given.max_stderr_bytes {
            Some(count) => count,
            None => configured.max_stderr_bytes,
        },
        max_commands: match given.max_commands {
            Some(count) => count,
            None => configured.max_commands,
        },
        max_recipe_queries: match given.max_recipe_queries {
            Some(count) => count,
            None => configured.max_recipe_queries,
        },
    }
}

/// The variables that the checks on resolved environments read.
pub open spec fn checked_variables() -> Seq<Seq<char>> {
    seq![
        "SUMMARY"@,
        "DESCRIPTION"@,
        "LICENSE"@,
        "LIC_FILES_CHKSUM"@,
        "SRCREV"@,
        "SRCPV"@,
        "SRC_URI"@,
    ]
}

/// `known` with those of `more[k..]` that it does not hold yet.
pub open spec fn with_variables(known: Seq<Seq<char>>, more: Seq<Seq<char>>, k: int) -> Seq<
    Seq<char>,
>
    decreases more.len() - k,
{
    if k < 0 || k >= more.len() {
        known
    } else if known.contains(more[k]) {
        with_variables(known, more, k + 1)
    } else {
        with_variables(known.push(more[k]), more, k + 1)
    }
}

/// The variables that a lint command asks BitBake for.
pub fn semantic_lint_variables(more: &Vec<String>) -> (r: Vec<String>)
    ensures
        collections::string_texts(r@) == with_variables(checked_variables(), collections::string_texts(more@), 0),
{
    let mut out: Vec<String> = Vec::new();
    out.push("SUMMARY".to_owned());
    out.push("DESCRIPTION".to_owned());
    out.push("LICENSE".to_owned());
    out.push("LIC_FILES_CHKSUM".to_owned());
    out.push("SRCREV".to_owned());
    out.push("SRCPV".to_owned());
    out.push("SRC_URI".to_owned());
    assert(collections::string_texts(out@) =~= checked_variables());
    let ghost all = collections::string_texts(more@);
    let mut k: usize = 0;
    while k < more.len()
        invariant
            k <= more@.len(),
            all == collections::string_texts(more@),
            with_variables(collections::string_texts(out@), all, k as int) == with_variables(
                checked_variables(),
                all,
                0,
            ),
        decreases more@.len() - k,
    {
        assert(all[k as int] == more@[k as int]@);
        push_distinct(&mut out, more[k].clone());
        k += 1;
    }
    out
}

/// Checks that what was read from standard input is not too much.
pub fn check_stdin_size(bytes: u64, limits: SafetyOptions) -> (r: Result<(), String>)
    ensures
        if bytes > limits.max_bytes {
            r matches Err(message) && message@ == inputs::over_limit_message(
                bytes as nat,
                " bytes read, maximum is "@,
                limits.max_bytes as nat,
            )
        } else {
            r is Ok
        },
{
    if bytes > limits.max_bytes {
        let text = long_phrase(
            "safety limit exceeded: ",
            decimal_chars(bytes).as_slice(),
            " bytes read, maximum is ",
            decimal_chars(limits.max_bytes).as_slice(),
            "",
        );
        return Err(string_of(text.as_slice()));
    }
    Ok(())
}

// ---------------------------------------------------------------------------
// Findings in one input
// ---------------------------------------------------------------------------
/// An input with what was found in it.
pub struct AnalyzedLintInput {
    pub label: String,
    /// The path of the file; standard input has none.
    pub path: Option<String>,
    pub original: String,
    /// The text with its safe edits, where they are asked for.
    pub fixed: String,
    pub diagnostics: Vec<LintDiagnostic>,
    pub fixes_applied: usize,
}

/// What is found in a text: rules on the workspace hold of files only.
pub open spec fn input_diagnostics(
    text: Seq<char>,
    path: Option<Seq<char>>,
    index: IndexView,
    options: OptionsView,
) -> Seq<DiagnosticView> {
    match path {
        Some(path) => lint::workspace_diagnostics(text, Seq::empty(), path, index, options),
        None => lint::file_diagnostics(text, Seq::empty(), options),
    }
}

/// How many edits the diagnostics before `k` have.
pub open spec fn count_fixes(items: Seq<DiagnosticView>, k: int) -> nat
    decreases k,
{
    if k <= 0 {
        0
    } else {
        count_fixes(items, k - 1) + items[k - 1].fixes.len()
    }
}

/// No diagnostic has more than one edit.
pub open spec fn single_fixes(items: Seq<DiagnosticView>) -> bool {
    forall|k: int| 0 <= k < items.len() ==> (#[trigger] items[k]).fixes.len() <= 1
}

proof fn lemma_arranged_fixes(items: Seq<LabeledView>, options: OptionsView, k: int)
    requires
        0 <= k <= items.len(),
        forall|j: int| 0 <= j < items.len() ==> (#[trigger] items[j]).diagnostic.fixes.len() <= 1,
    ensures
        forall|j: int|
            0 <= j < lint::arranged_from(items, options, k).len() ==> (#[trigger] lint::arranged_from(
                items,
                options,
                k,
            )[j]).diagnostic.fixes.len() <= 1,
    decreases items.len() - k,
{
    if k < items.len() {
        lemma_arranged_fixes(items, options, k + 1);
        let rest = lint::arranged_from(items, options, k + 1);
        if !options.disabled.contains(items[k].diagnostic.rule_id) {
            let x = lint::adjusted_view(options, items[k]);
            let at = lint::report_place(rest, x, 0);
            lemma_report_place(rest, x, 0);
            assert forall|j: int| 0 <= j < lint::arranged_from(items, options, k).len() implies (
            #[trigger] lint::arranged_from(items, options, k)[j]).diagnostic.fixes.len() <= 1 by {
                assert(lint::arranged_from(items, options, k) == rest.insert(at, x));
                if j < at {
                    assert(rest.insert(at, x)[j] == rest[j]);
                } else if j > at {
                    assert(rest.insert(at, x)[j] == rest[j - 1]);
                }
            }
        }
    }
}

proof fn lemma_report_place(items: Seq<LabeledView>, x: LabeledView, k: int)
    requires
        0 <= k <= items.len(),
    ensures
        k <= lint::report_place(items, x, k) <= items.len(),
    decreases items.len() - k,
{
    if k < items.len() {
        lemma_report_place(items, x, k + 1);
    }
}

proof fn lemma_single_fixes(source: Seq<char>, found: Seq<FindingView>, options: OptionsView)
    ensures
        single_fixes(lint::final_diagnostics(findings::all_diagnosed(source, found), options)),
{
    let items = lint::unlabeled(findings::all_diagnosed(source, found));
    assert forall|j: int| 0 <= j < items.len() implies (
    #[trigger] items[j]).diagnostic.fixes.len() <= 1 by {
        assert(items[j].diagnostic == findings::diagnosed(source, found[j]));
    }
    lemma_arranged_fixes(items, options, 0);
    let out = lint::final_diagnostics(findings::all_diagnosed(source, found), options);
    assert forall|k: int| 0 <= k < out.len() implies (#[trigger] out[k]).fixes.len() <= 1 by {
        assert(out[k] == lint::arranged_from(items, options, 0)[k].diagnostic);
    }
}

proof fn lemma_input_fixes(
    text: Seq<char>,
    path: Option<Seq<char>>,
    index: IndexView,
    options: OptionsView,
)
    ensures
        single_fixes(input_diagnostics(text, path, index, options)),
{
    match path {
        Some(path) => lemma_single_fixes(text, lint::workspace_findings(text, Seq::empty(), path, index), options),
        None => lemma_single_fixes(text, checks::file_findings(text, Seq::empty()), options),
    }
}

proof fn lemma_count_fixes(items: Seq<DiagnosticView>, k: int)
    requires
        single_fixes(items),
        0 <= k <= items.len(),
    ensures
        count_fixes(items, k) <= k,
    decreases k,
{
    if k > 0 {
        lemma_count_fixes(items, k - 1);
    }
}

fn add_fixes(items: &Vec<LintDiagnostic>) -> (r: usize)
    requires
        single_fixes(findings::diagnostic_views(items@)),
    ensures
        r == count_fixes(findings::diagnostic_views(items@), items@.len() as int),
{
    let ghost all = findings::diagnostic_views(items@);
    let mut total: usize = 0;
    let mut k: usize = 0;
    while k < items.len()
        invariant
            k <= items@.len(),
            all == findings::diagnostic_views(items@),
            single_fixes(all),
            total == count_fixes(all, k as int),
            total <= k,
        decreases items@.len() - k,
    {
        assert(all[k as int] == items@[k as int]@);
        let fixes = items[k].fixes();
        assert(findings::fix_views(fixes@).len() == fixes@.len());
        proof {
            lemma_count_fixes(all, k + 1);
        }
        total = total + fixes.len();
        k += 1;
    }
    total
}

/// What is said of edits that cannot be applied.
pub open spec fn fix_fault_text(v: LintFixErrorView) -> Seq<char> {
    match v {
        LintFixErrorView::InvalidRange(start, end) => "lint fix has invalid source range "@
            + numbers::decimal(start as nat) + ".."@ + numbers::decimal(end as nat) + ""@,
        LintFixErrorView::OverlappingRanges(a, b, c, d) => "lint fixes overlap at "@ + numbers::decimal(
            a as nat,
        ) + ".."@ + numbers::decimal(b as nat) + " and "@ + numbers::decimal(c as nat) + ".."@ + numbers::decimal(d as nat),
    }
}

fn lint_text(
    text: &str,
    path: &Option<String>,
    workspace: &WorkspaceIndex,
    options: &LintOptions,
) -> (r: Result<Vec<LintDiagnostic>, FormatError>)
    requires
        text::byte_len(text@) < usize::MAX,
        workspace.wf(),
        options.wf(),
    ensures
        match syntax::nodes_of(text@) {
            Ok(_) => r matches Ok(found) && findings::diagnostic_views(found@) == input_diagnostics(
                text@,
                collections::optional_text(*path),
                workspace@,
                options@,
            ),
            Err((at, fault)) => r matches Err(error) && error.reports(text@, at, fault),
        },
{
    match path {
        Some(path) => lint_with_workspace(text, path.as_str(), workspace, options),
        None => lint_with_options(text, options),
    }
}

/// What an analysis of a text with its diagnostics `found` gives.
pub open spec fn is_analysis(
    r: Result<AnalyzedLintInput, String>,
    label: Seq<char>,
    path: Option<String>,
    text: Seq<char>,
    found: Seq<DiagnosticView>,
    fix: bool,
) -> bool {
    if fix {
        match lint::applied(text, found) {
            Err(error) => r matches Err(message) && message@ == "could not apply fixes to "@
                + label + ": "@ + fix_fault_text(error) + ""@,
            Ok(fixed) => r matches Ok(input) && analysis_holds(
                input,
                label,
                path,
                text,
                fixed,
                found,
                count_fixes(found, found.len() as int),
            ),
        }
    } else {
        r matches Ok(input) && analysis_holds(input, label, path, text, text, found, 0)
    }
}

pub open spec fn analysis_holds(
    input: AnalyzedLintInput,
    label: Seq<char>,
    path: Option<String>,
    text: Seq<char>,
    fixed: Seq<char>,
    found: Seq<DiagnosticView>,
    fixes: nat,
) -> bool {
    &&& input.label@ == label
    &&& input.path == path
    &&& input.original@ == text
    &&& input.fixed@ == fixed
    &&& findings::diagnostic_views(input.diagnostics@) == found
    &&& input.fixes_applied == fixes
}

/// Lints a text that was read from `label`, and with `fix` applies its safe
/// edits.
pub fn analyze_lint_input(
    label: &str,
    path: Option<String>,
    text: String,
    workspace: &WorkspaceIndex,
    options: &LintOptions,
    fix: bool,
) -> (r: Result<AnalyzedLintInput, String>)
    requires
        text::byte_len(text@) < usize::MAX,
        workspace.wf(),
        options.wf(),
    ensures
        match syntax::nodes_of(text@) {
            Ok(_) => is_analysis(
                r,
                label@,
                path,
                text@,
                input_diagnostics(text@, collections::optional_text(path), workspace@, options@),
                fix,
            ),
            Err((at, fault)) => r matches Err(message) && message@ == inputs::unusable_text(
                "lint"@,
                label@,
                text@,
                at,
                fault,
            ),
        },
{
    let diagnostics = match lint_text(text.as_str(), &path, workspace, options) {
        Ok(diagnostics) => diagnostics,
        Err(error) => {
            return Err(describe_unusable("lint", label, &error));
        },
    };
    proof {
        lemma_input_fixes(text@, collections::optional_text(path), workspace@, options@);
        assert(findings::diagnostic_views(diagnostics@).len() == diagnostics@.len());
    }
    if !fix {
        let fixed = text.clone();
        return Ok(
            AnalyzedLintInput {
                label: label.to_owned(),
                path,
                original: text,
                fixed,
                diagnostics,
                fixes_applied: 0,
            },
        );
    }
    match apply_lint_fixes(text.as_str(), &diagnostics) {
        Ok(fixed) => {
            let fixes_applied = add_fixes(&diagnostics);
            Ok(
                AnalyzedLintInput {
                    label: label.to_owned(),
                    path,
                    original: text,
                    fixed,
                    diagnostics,
                    fixes_applied,
                },
            )
        },
        Err(error) => {
            let message = long_phrase(
                "could not apply fixes to ",
                chars_of(label).as_slice(),
                ": ",
                chars_of(error.to_string().as_str()).as_slice(),
                "",
            );
            Err(string_of(message.as_slice()))
        },
    }
}

/// Why an input cannot be linted.
pub open spec fn lint_fault(input: ReadInput, limits: SafetyOptions) -> Option<Seq<char>> {
    match input.text {
        Ok(text) => if input.path is None && text::byte_len(text@) > limits.max_bytes {
            Some(
                inputs::over_limit_message(
                    text::byte_len(text@),
                    " bytes read, maximum is "@,
                    limits.max_bytes as nat,
                ),
            )
        } else {
            match syntax::nodes_of(text@) {
                Ok(_) => None,
                Err((at, fault)) => Some(
                    inputs::unusable_text("lint"@, input.label@, text@, at, fault),
                ),
            }
        },
        Err(message) => Some(message@),
    }
}

/// Why those of `inputs[k..]` cannot be linted that cannot.
pub open spec fn lint_faults(inputs: Seq<ReadInput>, limits: SafetyOptions, k: int) -> Seq<Seq<char>>
    decreases inputs.len() - k,
{
    if k < 0 || k >= inputs.len() {
        Seq::empty()
    } else {
        match lint_fault(inputs[k], limits) {
            Some(fault) => seq![fault] + lint_faults(inputs, limits, k + 1),
            None => lint_faults(inputs, limits, k + 1),
        }
    }
}

/// What linting makes of an input.
pub open spec fn is_linted(
    done: AnalyzedLintInput,
    input: ReadInput,
    index: IndexView,
    options: OptionsView,
    fix: bool,
) -> bool {
    let path = collections::optional_text(input.path);
    match input.text {
        Ok(text) => {
            let found = input_diagnostics(text@, path, index, options);
            &&& done.label@ == input.label@
            &&& collections::optional_text(done.path) == path
            &&& done.original@ == text@
            &&& done.fixed@ == if fix {
                fixes::tidied(text@, options)
            } else {
                text@
            }
            &&& findings::diagnostic_views(done.diagnostics@) == found
            &&& done.fixes_applied == if fix {
                count_fixes(found, found.len() as int)
            } else {
                0
            }
        },
        Err(_) => false,
    }
}

/// Lints one input, and with `fix` applies its safe edits.
fn lint_input(
    input: &ReadInput,
    limits: SafetyOptions,
    workspace: &WorkspaceIndex,
    options: &LintOptions,
    fix: bool,
) -> (r: Result<AnalyzedLintInput, String>)
    requires
        input.text matches Ok(text) ==> text::byte_len(text@) < usize::MAX,
        workspace.wf(),
        options.wf(),
    ensures
        match r {
            Ok(done) => lint_fault(*input, limits) is None && is_linted(
                done,
                *input,
                workspace@,
                options@,
                fix,
            ),
            Err(message) => lint_fault(*input, limits) == Some(message@),
        },
{
    let text = match &input.text {
        Ok(text) => text,
        Err(message) => {
            return Err(message.clone());
        },
    };
    if input.path.is_none() {
        match check_stdin_size(text_length(text.as_str()) as u64, limits) {
            Ok(()) => {},
            Err(message) => {
                return Err(message);
            },
        }
    }
    let path = copy_optional(&input.path);
    proof {
        let none = Seq::<Vec<BodyDiagnostic>>::empty();
        let place = match collections::optional_text(input.path) {
            Some(path) => path,
            None => Seq::empty(),
        };
        fixes::law_fixes_tidy_lines(text@, none, place, workspace@, options@);
    }
    analyze_lint_input(input.label.as_str(), path, text.clone(), workspace, options, fix)
}

/// Lints all inputs, or says of each that cannot be linted why: one input that
/// cannot keeps the others from being reported and fixed.
pub fn lint_inputs(
    inputs: &Vec<ReadInput>,
    limits: SafetyOptions,
    workspace: &WorkspaceIndex,
    options: &LintOptions,
    fix: bool,
) -> (r: Result<Vec<AnalyzedLintInput>, Vec<String>>)
    requires
        inputs::inputs_fit(inputs@),
        workspace.wf(),
        options.wf(),
    ensures
        match r {
            Ok(done) => lint_faults(inputs@, limits, 0).len() == 0 && done@.len() == inputs@.len()
                && (forall|k: int|
                0 <= k < done@.len() ==> is_linted(
                    #[trigger] done@[k],
                    inputs@[k],
                    workspace@,
                    options@,
                    fix,
                )),
            Err(messages) => messages@.len() > 0 && collections::string_texts(messages@)
                == lint_faults(inputs@, limits, 0),
        },
{
    let ghost goal = lint_faults(inputs@, limits, 0);
    let mut done: Vec<AnalyzedLintInput> = Vec::new();
    let mut messages: Vec<String> = Vec::new();
    let mut k: usize = 0;
    assert(collections::string_texts(messages@) + goal =~= goal);
    while k < inputs.len()
        invariant
            k <= inputs@.len(),
            inputs::inputs_fit(inputs@),
            workspace.wf(),
            options.wf(),
            collections::string_texts(messages@) + lint_faults(inputs@, limits, k as int) == goal,
            messages@.len() == 0 ==> done@.len() == k,
            messages@.len() == 0 ==> forall|j: int|
                0 <= j < done@.len() ==> is_linted(
                    #[trigger] done@[j],
                    inputs@[j],
                    workspace@,
                    options@,
                    fix,
                ),
        decreases inputs@.len() - k,
    {
        let ghost before = collections::string_texts(messages@);
        let ghost rest = lint_faults(inputs@, limits, k + 1);
        match lint_input(&inputs[k], limits, workspace, options, fix) {
            Ok(next) => {
                done.push(next);
            },
            Err(message) => {
                let ghost x = message@;
                push_text(&mut messages, message);
                assert(before + (seq![x] + rest) =~= before.push(x) + rest);
            },
        }
        k += 1;
    }
    assert(collections::string_texts(messages@) =~= goal);
    if messages.len() > 0 {
        Err(messages)
    } else {
        Ok(done)
    }
}

/// The writes for the edited texts of those of `inputs[k..]` that have a path.
pub open spec fn fix_writes_from(inputs: Seq<AnalyzedLintInput>, k: int) -> Seq<RequestView>
    decreases inputs.len() - k,
{
    if k < 0 || k >= inputs.len() {
        Seq::empty()
    } else {
        match inputs[k].path {
            Some(path) => seq![
                RequestView {
                    path: path@,
                    original: inputs[k].original@,
                    replacement: inputs[k].fixed@,
                },
            ] + fix_writes_from(inputs, k + 1),
            None => fix_writes_from(inputs, k + 1),
        }
    }
}

/// The writes that put the edited texts in place.
pub fn plan_fixes(inputs: &Vec<AnalyzedLintInput>) -> (r: Vec<WriteRequest>)
    ensures
        transaction::request_views(r@) == fix_writes_from(inputs@, 0),
{
    let ghost goal = fix_writes_from(inputs@, 0);
    let mut out: Vec<WriteRequest> = Vec::new();
    let mut k: usize = 0;
    assert(transaction::request_views(out@) + goal =~= goal);
    while k < inputs.len()
        invariant
            k <= inputs@.len(),
            transaction::request_views(out@) + fix_writes_from(inputs@, k as int) == goal,
        decreases inputs@.len() - k,
    {
        if let Some(path) = &inputs[k].path {
            let ghost before = transaction::request_views(out@);
            let request = WriteRequest {
                path: path.clone(),
                original: inputs[k].original.clone(),
                replacement: inputs[k].fixed.clone(),
            };
            let ghost added = request@;
            out.push(request);
            proof {
                let rest = fix_writes_from(inputs@, k + 1);
                assert(transaction::request_views(out@) =~= before.push(added));
                assert(before + (seq![added] + rest) =~= before.push(added) + rest);
            }
        }
        k += 1;
    }
    assert(transaction::request_views(out@) + Seq::<RequestView>::empty()
        =~= transaction::request_views(out@));
    out
}

/// Lints the text of an input again, with its edits, where it has some.
pub fn relint_input(input: &mut AnalyzedLintInput, workspace: &WorkspaceIndex, options: &LintOptions) -> (r:
    Result<(), String>)
    requires
        text::byte_len(old(input).fixed@) < usize::MAX,
        workspace.wf(),
        options.wf(),
    ensures
        final(input).label == old(input).label,
        final(input).path == old(input).path,
        final(input).original == old(input).original,
        final(input).fixed == old(input).fixed,
        final(input).fixes_applied == old(input).fixes_applied,
        if old(input).fixes_applied == 0 {
            r is Ok && final(input).diagnostics == old(input).diagnostics
        } else {
            match syntax::nodes_of(old(input).fixed@) {
                Ok(_) => r is Ok && findings::diagnostic_views(final(input).diagnostics@)
                    == input_diagnostics(
                    old(input).fixed@,
                    collections::optional_text(old(input).path),
                    workspace@,
                    options@,
                ),
                Err((at, fault)) => r matches Err(message) && message@ == inputs::unusable_text(
                    "re-lint"@,
                    old(input).label@,
                    old(input).fixed@,
                    at,
                    fault,
                ) && final(input).diagnostics == old(input).diagnostics,
            }
        },
{
    if input.fixes_applied == 0 {
        return Ok(());
    }
    match lint_text(input.fixed.as_str(), &input.path, workspace, options) {
        Ok(diagnostics) => {
            input.diagnostics = diagnostics;
            Ok(())
        },
        Err(error) => Err(describe_unusable("re-lint", input.label.as_str(), &error)),
    }
}

// ---------------------------------------------------------------------------
// Reports
// ---------------------------------------------------------------------------
/// The findings of an input under its label.
pub open spec fn labeled_findings(label: Seq<char>, items: Seq<DiagnosticView>) -> Seq<LabeledView> {
    items.map_values(|d: DiagnosticView| LabeledView { label, diagnostic: d })
}

/// The findings of some inputs, in their order.
pub open spec fn all_findings(inputs: Seq<AnalyzedLintInput>) -> Seq<LabeledView>
    decreases inputs.len(),
{
    if inputs.len() == 0 {
        Seq::empty()
    } else {
        all_findings(inputs.drop_last()) + labeled_findings(
            inputs.last().label@,
            findings::diagnostic_views(inputs.last().diagnostics@),
        )
    }
}

fn move_findings(
    back: &mut Vec<ExternalLintDiagnostic>,
    label: &str,
    diagnostics: Vec<LintDiagnostic>,
)
    ensures
        lint::labeled_views(final(back)@).reverse() == labeled_findings(
            label@,
            findings::diagnostic_views(diagnostics@),
        ) + lint::labeled_views(old(back)@).reverse(),
{
    let ghost all = labeled_findings(label@, findings::diagnostic_views(diagnostics@));
    let ghost first = lint::labeled_views(back@).reverse();
    let mut items = diagnostics;
    assert(all.take(items@.len() as int) =~= all);
    assert(all.skip(items@.len() as int) + first =~= first);
    while items.len() > 0
        invariant
            items@.len() <= all.len(),
            labeled_findings(label@, findings::diagnostic_views(items@)) == all.take(items@.len() as int),
            lint::labeled_views(back@).reverse() == all.skip(items@.len() as int) + first,
        decreases items@.len(),
    {
        let ghost before = items@;
        let ghost done = lint::labeled_views(back@);
        if let Some(diagnostic) = items.pop() {
            let ghost k = items@.len() as int;
            let ghost x = LabeledView { label: label@, diagnostic: diagnostic@ };
            proof {
                assert(labeled_findings(label@, findings::diagnostic_views(before))[k] == x);
                assert(all[k] == all.take(k + 1)[k]);
                assert(labeled_findings(label@, findings::diagnostic_views(items@)) =~= all.take(k));
            }
            back.push(ExternalLintDiagnostic { label: label.to_owned(), diagnostic });
            proof {
                assert(lint::labeled_views(back@) =~= done.push(x));
                assert(done.push(x).reverse() =~= seq![x] + done.reverse());
                assert(all.skip(k) =~= seq![x] + all.skip(k + 1));
                assert(seq![x] + (all.skip(k + 1) + first) =~= all.skip(k) + first);
            }
        }
    }
    assert(all.skip(0) =~= all);
}

fn turn_round(items: Vec<ExternalLintDiagnostic>) -> (r: Vec<ExternalLintDiagnostic>)
    ensures
        lint::labeled_views(r@) == lint::labeled_views(items@).reverse(),
{
    let mut back = items;
    let mut forward: Vec<ExternalLintDiagnostic> = Vec::new();
    let ghost turned = lint::labeled_views(back@);
    assert(turned.take(back@.len() as int) =~= turned);
    while back.len() > 0
        invariant
            back@.len() + forward@.len() == turned.len(),
            lint::labeled_views(back@) == turned.take(back@.len() as int),
            forall|j: int|
                0 <= j < forward@.len() ==> (#[trigger] forward@[j])@ == turned[turned.len() - 1
                    - j],
        decreases back@.len(),
    {
        let ghost before = back@;
        if let Some(x) = back.pop() {
            let ghost k = back@.len() as int;
            assert(lint::labeled_views(before)[k] == x@);
            assert(turned[k] == turned.take(k + 1)[k]);
            assert(lint::labeled_views(back@) =~= turned.take(k));
            forward.push(x);
        }
    }
    assert(lint::labeled_views(forward@) =~= turned.reverse());
    forward
}

/// All findings of a run in the order in which they are reported: by label,
/// place and rule.
pub fn collect_reports(
    inputs: Vec<AnalyzedLintInput>,
    findings: Vec<ExternalLintDiagnostic>,
) -> (r: Vec<ExternalLintDiagnostic>)
    ensures
        lint::labeled_views(r@) == lint::arranged_from(
            all_findings(inputs@) + lint::labeled_views(findings@),
            rules::default_options(),
            0,
        ),
{
    let ghost goal = all_findings(inputs@) + lint::labeled_views(findings@);
    let ghost last = lint::labeled_views(findings@);
    // The list is collected from its end, and turned round below.
    let mut back: Vec<ExternalLintDiagnostic> = Vec::new();
    let mut rest = findings;
    assert(last.take(rest@.len() as int) =~= last);
    assert(lint::labeled_views(back@).reverse() =~= last.skip(rest@.len() as int));
    while rest.len() > 0
        invariant
            rest@.len() <= last.len(),
            lint::labeled_views(rest@) == last.take(rest@.len() as int),
            lint::labeled_views(back@).reverse() == last.skip(rest@.len() as int),
        decreases rest@.len(),
    {
        let ghost before = rest@;
        let ghost done = lint::labeled_views(back@);
        if let Some(x) = rest.pop() {
            let ghost k = rest@.len() as int;
            let ghost v = x@;
            assert(lint::labeled_views(before)[k] == v);
            assert(last[k] == last.take(k + 1)[k]);
            assert(lint::labeled_views(rest@) =~= last.take(k));
            back.push(x);
            assert(lint::labeled_views(back@) =~= done.push(v));
            assert(done.push(v).reverse() =~= seq![v] + done.reverse());
            assert(last.skip(k) =~= seq![v] + last.skip(k + 1));
        }
    }
    assert(last.skip(0) =~= last);
    let mut left = inputs;
    while left.len() > 0
        invariant
            all_findings(left@) + lint::labeled_views(back@).reverse() == goal,
        decreases left@.len(),
    {
        let ghost before = left@;
        let ghost done = lint::labeled_views(back@).reverse();
        if let Some(input) = left.pop() {
            assert(before.drop_last() =~= left@);
            assert(before.last() == input);
            let ghost f = labeled_findings(input.label@, findings::diagnostic_views(input.diagnostics@));
            move_findings(&mut back, input.label.as_str(), input.diagnostics);
            assert((all_findings(left@) + f) + done =~= all_findings(left@) + (f + done));
        }
    }
    assert(lint::labeled_views(back@).reverse() =~= goal);
    let forward = turn_round(back);
    arrange(forward, &LintOptions::default())
}

/// The findings without their labels.
pub open spec fn report_findings(items: Seq<LabeledView>) -> Seq<DiagnosticView> {
    items.map_values(|d: LabeledView| d.diagnostic)
}

/// The exit code of a lint command that reports `items`.
pub fn lint_exit_code(items: &Vec<ExternalLintDiagnostic>, options: &LintOptions) -> (r: i32)
    ensures
        r == (if lint::any_blocks(report_findings(lint::labeled_views(items@)), options@.policy) {
            EXIT_DIFFERENCES
        } else {
            0
        }),
{
    let ghost all = report_findings(lint::labeled_views(items@));
    let policy = options.fail_on();
    let mut k: usize = 0;
    while k < items.len()
        invariant
            k <= items@.len(),
            policy == options@.policy,
            all == report_findings(lint::labeled_views(items@)),
            forall|j: int| 0 <= j < k ==> !rules::blocks(policy, (#[trigger] all[j]).severity),
        decreases items@.len() - k,
    {
        assert(all[k as int] == items@[k as int]@.diagnostic);
        if policy.is_blocking(items[k].diagnostic.severity()) {
            assert(rules::blocks(policy, all[k as int].severity));
            return EXIT_DIFFERENCES;
        }
        k += 1;
    }
    0
}

/// The lines on the edits `fixes[k..]`.
pub open spec fn fix_lines(fixes: Seq<FixView>, k: int) -> Seq<Seq<char>>
    decreases fixes.len() - k,
{
    if k < 0 || k >= fixes.len() {
        Seq::empty()
    } else {
        seq![
            "  fix: "@ + fixes[k].message + " (bytes "@ + numbers::decimal(fixes[k].start as nat) + ".."@
                + numbers::decimal(fixes[k].end as nat) + ")"@,
        ] + fix_lines(fixes, k + 1)
    }
}

/// The lines that report a diagnostic; with `details`, its help and its edits.
pub open spec fn diagnostic_lines(label: Seq<char>, d: DiagnosticView, details: bool) -> Seq<
    Seq<char>,
> {
    let first = label + ":"@ + numbers::decimal(d.line as nat) + ":"@ + numbers::decimal(d.column as nat) + ": "@
        + rules::severity_word(d.severity) + "["@ + d.rule_id + "]: "@ + d.message;
    if details {
        seq![first] + (match d.help {
            Some(help) => seq!["  help: "@ + help + ""@],
            None => Seq::empty(),
        }) + fix_lines(d.fixes, 0)
    } else {
        seq![first]
    }
}

/// The lines that report a diagnostic; with `details`, its help and its edits.
pub fn text_diagnostic(label: &str, diagnostic: &LintDiagnostic, details: bool) -> (r: Vec<String>)
    ensures
        collections::string_texts(r@) == diagnostic_lines(label@, diagnostic@, details),
{
    let mut text = chars_of(label);
    append_chars(&mut text, chars_of(":").as_slice());
    append_chars(&mut text, decimal_chars(diagnostic.line() as u64).as_slice());
    append_chars(&mut text, chars_of(":").as_slice());
    append_chars(&mut text, decimal_chars(diagnostic.column() as u64).as_slice());
    append_chars(&mut text, chars_of(": ").as_slice());
    append_chars(&mut text, chars_of(diagnostic.severity().as_str()).as_slice());
    append_chars(&mut text, chars_of("[").as_slice());
    append_chars(&mut text, chars_of(diagnostic.rule_id()).as_slice());
    append_chars(&mut text, chars_of("]: ").as_slice());
    append_chars(&mut text, chars_of(diagnostic.message()).as_slice());
    let ghost first = text@;
    let mut out: Vec<String> = Vec::new();
    push_text(&mut out, string_of(text.as_slice()));
    assert(collections::string_texts(out@) =~= seq![first]);
    if !details {
        return out;
    }
    if let Some(help) = diagnostic.help() {
        let line = phrase("  help: ", chars_of(help).as_slice(), "");
        push_text(&mut out, string_of(line.as_slice()));
        assert(collections::string_texts(out@) =~= seq![first] + seq!["  help: "@ + help@ + ""@]);
    } else {
        assert(collections::string_texts(out@) =~= seq![first] + Seq::<Seq<char>>::empty());
    }
    let fixes = diagnostic.fixes();
    let ghost all = findings::fix_views(fixes@);
    let ghost goal = diagnostic_lines(label@, diagnostic@, details);
    let mut k: usize = 0;
    while k < fixes.len()
        invariant
            k <= fixes@.len(),
            all == findings::fix_views(fixes@),
            collections::string_texts(out@) + fix_lines(all, k as int) == goal,
        decreases fixes@.len() - k,
    {
        assert(all[k as int] == fixes@[k as int]@);
        let range = fixes[k].range();
        let mut line = long_phrase(
            "  fix: ",
            chars_of(fixes[k].message()).as_slice(),
            " (bytes ",
            decimal_chars(range.start() as u64).as_slice(),
            "..",
        );
        append_chars(&mut line, decimal_chars(range.end() as u64).as_slice());
        append_chars(&mut line, chars_of(")").as_slice());
        let ghost before = collections::string_texts(out@);
        let ghost added = line@;
        push_text(&mut out, string_of(line.as_slice()));
        proof {
            let rest = fix_lines(all, k + 1);
            assert(before + (seq![added] + rest) =~= before.push(added) + rest);
        }
        k += 1;
    }
    assert(collections::string_texts(out@) + Seq::<Seq<char>>::empty() =~= collections::string_texts(out@));
    out
}

/// The line on the edits that were made to an input.
pub fn fixed_line(label: &str, count: usize) -> (r: String)
    ensures
        r@ == "fixed: "@ + label@ + " ("@ + numbers::decimal(count as nat) + " edit"@ + (if count == 1 {
            ""@
        } else {
            "s"@
        }) + ")"@,
{
    let mut text = long_phrase(
        "fixed: ",
        chars_of(label).as_slice(),
        " (",
        decimal_chars(count as u64).as_slice(),
        " edit",
    );
    append_chars(
        &mut text,
        chars_of(
            if count == 1 {
                ""
            } else {
                "s"
            },
        ).as_slice(),
    );
    append_chars(&mut text, chars_of(")").as_slice());
    string_of(text.as_slice())
}

/// The level of a severity in SARIF.
pub fn sarif_level(severity: LintSeverity) -> (r: &'static str)
    ensures
        r@ == (match severity {
            LintSeverity::Info => "note"@,
            LintSeverity::Warning => "warning"@,
            LintSeverity::Error => "error"@,
        }),
{
    match severity {
        LintSeverity::Info => "note",
        LintSeverity::Warning => "warning",
        LintSeverity::Error => "error",
    }
}

} // verus!
