use bbtidy::config::check_pattern;
use bbtidy::inputs::{
    FormatMode, InputKind, InputSize, InputStep, ReadInput, accept_entry, accept_input, check_format_mode,
    check_formatted_inputs, diff_input, effective_safety, format_input, format_inputs, list_changes, plan_writes,
    reads_stdin, validate_formatted_limits, validate_input_limits,
};
use bbtidy::report_text::SyntaxStats;
use bbtidy::runs::{
    BitBakeLimitArgs, LintRequest, analyze_lint_input, check_lint_request, check_stdin_size,
    collect_reports, effective_bitbake_limits, fixed_line, lint_exit_code, lint_inputs, plan_fixes, relint_input,
    sarif_level, semantic_analysis_options, semantic_lint_variables, text_diagnostic,
};
use bbtidy::{
    BitBakeExecutionLimits, BitBakeTranscript, CommandOutput, Config, ExternalLintDiagnostic,
    FileConfig, FormatOptions, FormattedInput, Input, InputEntry, InputProbe, LintFailurePolicy, LintOptions, LintSeverity,
    MetadataListLayout, PathTable, SafetyOptions, SemanticAnalysisOptions, SemanticConfig, SemanticOptions, TextMap, Token,
    WorkspaceFile, WorkspaceIndex, format_with_options, lint_with_bitbake, parse,
    resolve_inputs,
};

const UNFORMATTED: &str = "SUMMARY=\"demo\"\n";
const FORMATTED: &str = "SUMMARY = \"demo\"\n";

const LAYER: &str = "BBPATH .= \":${LAYERDIR}\"\nBBFILE_COLLECTIONS += \"test\"\nBBFILE_PATTERN_test = \"^${LAYERDIR}/\"\nBBFILE_PRIORITY_test = \"1\"\nLAYERSERIES_COMPAT_test = \"test\"\n";

fn formatted(label: &str, text: &str, options: &FormatOptions) -> Result<FormattedInput, String> {
    format_input(label, Some(label.to_owned()), text.to_owned(), options)
}

/// Lints files as one run; `fix` applies the safe edits.
struct Run {
    lines: Vec<String>,
    code: i32,
    fixed: Vec<(String, String)>,
    reports: Vec<ExternalLintDiagnostic>,
}

fn lint_files(files: &[(&str, &str)], options: &LintOptions, fix: bool, details: bool) -> Result<Run, String> {
    let sources: Vec<WorkspaceFile> = files
        .iter()
        .map(|(path, text)| WorkspaceFile { path: path.to_string(), source: Some(text.to_string()) })
        .collect();
    let mut workspace = WorkspaceIndex::from_paths(&sources, PathTable::new(None));
    let mut inputs = Vec::new();
    for (path, text) in files {
        inputs.push(analyze_lint_input(
            path,
            Some(path.to_string()),
            text.to_string(),
            &workspace,
            options,
            fix,
        )?);
    }
    let mut lines = Vec::new();
    let mut fixed = Vec::new();
    if fix {
        let sources: Vec<WorkspaceFile> = inputs
            .iter()
            .map(|input| WorkspaceFile { path: input.label.clone(), source: Some(input.fixed.clone()) })
            .collect();
        workspace = WorkspaceIndex::from_paths(&sources, PathTable::new(None));
        for input in inputs.iter_mut() {
            relint_input(input, &workspace, options)?;
            if input.fixes_applied > 0 {
                lines.push(fixed_line(&input.label, input.fixes_applied));
            }
            fixed.push((input.label.clone(), input.fixed.clone()));
        }
    }
    let reports = collect_reports(inputs, vec![]);
    for report in &reports {
        lines.extend(text_diagnostic(&report.label, &report.diagnostic, details));
    }
    let code = lint_exit_code(&reports, options);
    Ok(Run { lines, code, fixed, reports })
}

fn linted(files: &[(&str, &str)]) -> Run {
    match lint_files(files, &LintOptions::default(), false, false) {
        Ok(run) => run,
        Err(message) => panic!("{message}"),
    }
}

fn failed(result: Result<Run, String>) -> String {
    match result {
        Ok(_) => panic!("the run succeeded"),
        Err(message) => message,
    }
}

#[test]
fn syntax_stats_reports_machine_readable_cst_coverage() {
    let tree = parse("SUMMARY=\"demo\"\n# note\n\nunsupported statement\n").unwrap();
    let stats = SyntaxStats::of(&tree);
    assert_eq!(stats.total_nodes, 4);
    assert_eq!(stats.structured_nodes, 1);
    assert_eq!(stats.trivia_nodes, 2);
    assert_eq!(stats.unknown_nodes, 1);
    assert_eq!(stats.unknown_bytes, 22);
    let twice = stats.plus(&stats).unwrap();
    assert_eq!(twice.total_nodes, 8);
}

#[test]
fn format_prints_to_stdout_without_modifying_the_file() {
    let input = formatted("example.bb", UNFORMATTED, &FormatOptions::default()).unwrap();
    assert!(check_format_mode(FormatMode::Print, 1, false).is_ok());
    assert_eq!(input.formatted, FORMATTED);
    assert_eq!(input.original, UNFORMATTED);
}

#[test]
fn format_reads_from_standard_input() {
    assert_eq!(reads_stdin(&vec!["-".to_owned()]), Ok(true));
    let input =
        format_input("<stdin>", None, UNFORMATTED.to_owned(), &FormatOptions::default()).unwrap();
    assert_eq!(input.formatted, FORMATTED);
}

#[test]
fn format_diff_emits_a_unified_diff_without_modifying_the_file() {
    let input = formatted("work/example.bb", UNFORMATTED, &FormatOptions::default()).unwrap();
    let diff = diff_input(&input).unwrap();
    assert!(diff.contains("--- a/work/example.bb"));
    assert!(diff.contains("+++ b/work/example.bb"));
    assert!(diff.contains("-SUMMARY=\"demo\""));
    assert!(diff.contains("+SUMMARY = \"demo\""));
    let same = formatted("work/example.bb", FORMATTED, &FormatOptions::default()).unwrap();
    assert_eq!(diff_input(&same), None);
}

#[test]
fn a_diff_shows_each_changed_line() {
    let input = formatted("a.bb", "A=\"a\"\nB = \"b\"\n", &FormatOptions::default()).unwrap();
    assert_eq!(
        diff_input(&input),
        Some(
            "--- a/a.bb\n+++ b/a.bb\n@@ -1,2 +1,2 @@\n-A=\"a\"\n+A = \"a\"\n B = \"b\"\n".to_owned()
        )
    );
}

#[test]
fn check_and_write_have_stable_exit_codes() {
    let before = vec![formatted("example.bb", UNFORMATTED, &FormatOptions::default()).unwrap()];
    let (lines, code) = check_formatted_inputs(&before);
    assert_eq!(code, 1);
    assert_eq!(lines, ["would reformat: example.bb"]);

    let writes = plan_writes(&before);
    assert_eq!(writes.len(), 1);
    assert_eq!(writes[0].replacement, FORMATTED);

    let after = vec![formatted("example.bb", FORMATTED, &FormatOptions::default()).unwrap()];
    let (lines, code) = check_formatted_inputs(&after);
    assert_eq!(code, 0);
    assert!(lines.is_empty());
    assert_eq!(plan_writes(&after)[0].original, plan_writes(&after)[0].replacement);
}

#[test]
fn config_controls_formatter_blank_lines() {
    let mut options = FormatOptions::default();
    options.max_top_level_blank_lines = 0;
    let input = formatted("example.bb", "A=\"a\"\n\n\nB=\"b\"\n", &options).unwrap();
    assert_eq!(input.formatted, "A = \"a\"\nB = \"b\"\n");
}

#[test]
fn config_enables_conservative_metadata_list_layout() {
    let mut options = FormatOptions::default();
    options.metadata_list_layout = MetadataListLayout::OnePerLine;
    let source = "SRC_URI= \" \\\n\tfile://one.patch \\\n file://two.patch \\\n\"\n";
    assert_eq!(
        format_with_options(source, &options).unwrap(),
        "SRC_URI = \" \\\n    file://one.patch \\\n    file://two.patch \\\n    \"\n"
    );
}

#[test]
fn config_filters_lint_rules_and_overrides_severity() {
    let mut options = LintOptions::default();
    options.disable_rule("BBT001");
    options.disable_rule("BBT004");
    options.set_severity("BBT005", LintSeverity::Error);
    let source = "SUMMARY = \"demo\"  \nSRCREV = \"${AUTOREV}\"\ninherit cmake\ninherit cmake\n";
    let run = lint_files(&[("example.bb", source)], &options, false, false).ok().unwrap();
    assert_eq!(run.code, 1);
    assert_eq!(
        run.lines,
        ["example.bb:4:9: error[BBT005]: class 'cmake' is inherited more than once"]
    );
}

#[test]
fn lint_failure_threshold_controls_status_without_filtering_findings() {
    let files = [("example.bb", "SRCREV = \"${AUTOREV}\"\n")];
    assert_eq!(linted(&files).code, 1);
    for (policy, code) in [
        (LintFailurePolicy::Error, 0),
        (LintFailurePolicy::Info, 1),
        (LintFailurePolicy::Never, 0),
    ] {
        let mut options = LintOptions::default();
        options.set_fail_on(policy);
        let run = lint_files(&files, &options, false, false).ok().unwrap();
        assert_eq!(run.code, code);
        assert_eq!(run.reports.len(), 1);
        assert!(run.lines[0].contains("warning[BBT004]"));
    }
}

#[test]
fn format_write_enforces_repository_file_limit_before_rewriting() {
    let limits = effective_safety(&SafetyOptions::default(), Some(1), None);
    let sizes = vec![
        InputSize { path: "first.bb".to_owned(), size: Ok(15) },
        InputSize { path: "second.bb".to_owned(), size: Ok(15) },
    ];
    let error = validate_input_limits(2, &sizes, limits).unwrap_err();
    assert!(error.contains("safety limit exceeded"));
    assert!(validate_input_limits(1, &vec![], limits).is_ok());
}

#[test]
fn format_write_enforces_repository_byte_limit_before_rewriting() {
    let limits = effective_safety(&SafetyOptions::default(), None, Some(4));
    let sizes = vec![InputSize { path: "example.bb".to_owned(), size: Ok(15) }];
    let error = validate_input_limits(1, &sizes, limits).unwrap_err();
    assert!(error.contains("safety limit exceeded"));
    let input = formatted("example.bb", UNFORMATTED, &FormatOptions::default()).unwrap();
    assert!(validate_formatted_limits(&vec![input], limits).is_err());
    assert!(check_stdin_size(5, limits).is_err());
    assert!(check_stdin_size(4, limits).is_ok());
}

#[test]
fn a_size_that_cannot_be_read_is_an_error() {
    let sizes = vec![InputSize { path: "a.bb".to_owned(), size: Err("denied".to_owned()) }];
    assert!(validate_input_limits(1, &sizes, SafetyOptions::default()).is_err());
}

#[test]
fn format_write_rejects_symlinks_before_changing_any_file() {
    let error = accept_input("z.bb", false, InputKind::SymbolicLink).unwrap_err();
    assert!(error.contains("symbolic link"));
    assert_eq!(accept_input("a.bb", false, InputKind::File), Ok(InputStep::Take));
    assert_eq!(accept_input("a", false, InputKind::Directory), Ok(InputStep::Walk));
}

#[test]
fn config_excludes_paths_from_directory_processing() {
    let none = vec![];
    assert_eq!(
        accept_entry("/work/kept.bb", "/work", false, InputKind::File, &none),
        InputStep::Take
    );
    assert_eq!(
        accept_entry("/work/ignored/example.bb", "/work", true, InputKind::File, &none),
        InputStep::Skip
    );
}

#[test]
fn directories_are_recursive_filtered_and_deterministic() {
    let none = vec![];
    let entry = |path: &str, kind: InputKind| accept_entry(path, "/work", false, kind, &none);
    assert_eq!(entry("/work/nested", InputKind::Directory), InputStep::Walk);
    assert_eq!(entry("/work/nested/a.bb", InputKind::File), InputStep::Take);
    assert_eq!(entry("/work/notes.txt", InputKind::File), InputStep::Skip);
    let probe = probe(vec![
        file("/work/z.bb"),
        directory(
            "/work",
            vec![
                file("/work/a.bb"),
                directory("/work/nested", vec![file("/work/nested/a.bb"), file("/work/nested/b.txt")]),
                file("/work/notes.txt"),
                file("/work/z.bb"),
            ],
        ),
    ]);
    assert_eq!(
        resolve_inputs(&texts(&["/work/z.bb", "/work"]), &Config::default_for("/work"), &probe).unwrap(),
        ["/work/a.bb", "/work/nested/a.bb", "/work/z.bb"].map(|path| Input::File(path.to_owned()))
    );
    assert!(resolve_inputs(&vec![], &Config::default_for("/work"), &probe).is_err());
}

fn texts(items: &[&str]) -> Vec<String> {
    items.iter().map(|item| item.to_string()).collect()
}

fn file(path: &str) -> InputEntry {
    InputEntry {
        path: path.to_owned(),
        kind: Ok(InputKind::File),
        configured: vec![],
        entries: Ok(vec![]),
    }
}

fn directory(path: &str, entries: Vec<InputEntry>) -> InputEntry {
    InputEntry {
        path: path.to_owned(),
        kind: Ok(InputKind::Directory),
        configured: vec![],
        entries: Ok(entries),
    }
}

fn probe(found: Vec<InputEntry>) -> InputProbe {
    InputProbe { current_dir: None, table: PathTable::new(None), found }
}

#[test]
fn a_lone_dash_is_standard_input() {
    let config = Config::default_for("/work");
    let nothing = probe(vec![]);
    let found = resolve_inputs(&texts(&["-"]), &config, &nothing).unwrap();
    assert_eq!(found, [Input::Stdin]);
    assert!(found[0].is_stdin());
    assert_eq!(found[0].path(), None);
    let known = probe(vec![file("/a.bb")]);
    for paths in [["-", "-"], ["-", "/a.bb"], ["/a.bb", "-"]] {
        let error = resolve_inputs(&texts(&paths), &config, &known).unwrap_err();
        assert!(error.contains("standard input ('-')"));
    }
}

#[test]
fn inputs_that_are_left_out_or_cannot_be_read() {
    let settings = FileConfig {
        max_top_level_blank_lines: None,
        metadata_list_layout: None,
        disable: vec![],
        severity: TextMap::new(),
        fail_on: None,
        exclude: texts(&["ignored/**", "ignored", "x.bb"]),
        max_files: None,
        max_bytes: None,
        semantic: SemanticConfig::default(),
        limits: BitBakeLimitArgs {
            command_timeout_seconds: None,
            total_timeout_seconds: None,
            max_stdout_bytes: None,
            max_stderr_bytes: None,
            max_commands: None,
            max_recipe_queries: None,
        },
    };
    let config = match Config::from_file_config(&settings, "/work") {
        Ok(config) => config,
        Err(error) => panic!("{}", error.to_string()),
    };
    let mut broken = file("/work/ignored/c.bb");
    broken.kind = Err("denied".to_owned());
    let known = probe(vec![
        directory(
            "/work",
            vec![
                file("/work/a.bb"),
                directory("/work/ignored", vec![broken]),
                file("/work/x.bb"),
            ],
        ),
        file("/work/x.bb"),
    ]);
    assert_eq!(
        resolve_inputs(&texts(&["/work", "/work/x.bb"]), &config, &known).unwrap(),
        [Input::File("/work/a.bb".to_owned())]
    );
    assert_eq!(
        resolve_inputs(&texts(&["/work"]), &Config::default_for("/work"), &known).unwrap_err(),
        "could not inspect /work/ignored/c.bb: denied"
    );
    assert_eq!(
        resolve_inputs(&texts(&["/work/x.bb"]), &config, &known).unwrap_err(),
        "no BitBake files found in the supplied directories"
    );
    assert_eq!(
        resolve_inputs(&texts(&["/gone.bb"]), &config, &known).unwrap_err(),
        "could not inspect /gone.bb: entity not found"
    );
    let mut closed = directory("/work/closed", vec![]);
    closed.entries = Err("denied".to_owned());
    let mut link = file("/work/l.bb");
    link.kind = Ok(InputKind::SymbolicLink);
    let known = probe(vec![closed, link]);
    assert_eq!(
        resolve_inputs(&texts(&["/work/closed"]), &config, &known).unwrap_err(),
        "could not read directory /work/closed: denied"
    );
    assert!(
        resolve_inputs(&texts(&["/work/l.bb"]), &config, &known)
            .unwrap_err()
            .contains("symbolic link")
    );
}

#[test]
fn directory_discovery_skips_recipe_payload_files() {
    let configured = vec!["/work/conf".to_owned()];
    let entry = |path: &str, kind: InputKind| accept_entry(path, "/work", false, kind, &configured);
    assert_eq!(entry("/work/conf/layer.conf", InputKind::File), InputStep::Take);
    assert_eq!(
        entry("/work/recipes-example/example/example.inc", InputKind::File),
        InputStep::Take
    );
    assert_eq!(
        entry("/work/recipes-example/example/example/runtime.conf", InputKind::File),
        InputStep::Skip
    );
    assert_eq!(
        entry("/work/recipes-example/example/files/template.inc", InputKind::File),
        InputStep::Skip
    );
}

#[test]
fn a_batch_format_error_prevents_all_writes() {
    let error =
        formatted("malformed.bb", "BROKEN = \"value\n", &FormatOptions::default()).unwrap_err();
    assert!(error.contains("malformed.bb"));
    assert!(error.contains("top-level assignment contains an unclosed quote"));
}

#[test]
fn format_stdout_rejects_multiple_inputs() {
    let error = check_format_mode(FormatMode::Print, 2, false).unwrap_err();
    assert!(error.contains("requires exactly one input"));
    assert!(check_format_mode(FormatMode::Write, 2, false).is_ok());
    assert!(check_format_mode(FormatMode::Write, 1, true).is_err());
    assert!(reads_stdin(&vec!["-".to_owned(), "a.bb".to_owned()]).is_err());
}

#[test]
fn lex_accepts_standard_input_and_reports_lexer_errors() {
    let mut valid = Token::lexer(FORMATTED);
    assert_eq!(valid.next(), Some(Ok(Token::Ident)));
    let mut invalid = Token::lexer("@");
    assert_eq!(invalid.next(), Some(Err(())));
}

#[test]
fn lint_reports_source_ordered_findings_and_stable_exit_codes() {
    let source = "SUMMARY = \"demo\"  \nSRCREV = \"${AUTOREV}\"\ninherit cmake\ninherit cmake\n";
    let run = linted(&[("example.bb", source)]);
    assert_eq!(run.code, 1);
    assert_eq!(run.lines.len(), 3);
    assert!(run.lines[0].contains(":1:17: warning[BBT001]:"));
    assert!(run.lines[1].contains(":2:11: warning[BBT004]:"));
    assert!(run.lines[2].contains(":4:9: warning[BBT005]:"));

    let clean = linted(&[("example.bb", "SUMMARY = \"demo\"\n")]);
    assert_eq!(clean.code, 0);
    assert!(clean.lines.is_empty());
}

#[test]
fn lint_show_fixes_explains_safe_edits_without_changing_default_text() {
    let files = [("example.bb", "SUMMARY = \"demo\"  \n")];
    let run = lint_files(&files, &LintOptions::default(), false, true).ok().unwrap();
    assert_eq!(run.code, 1);
    let text = run.lines.join("\n");
    assert!(text.contains("warning[BBT001]: line ends with whitespace"));
    assert!(text.contains("help: Remove the trailing spaces or tabs from this line."));
    assert!(text.contains("fix: remove trailing whitespace (bytes 16..18)"));
    assert_eq!(linted(&files).lines.len(), 1);
}

#[test]
fn lint_fix_applies_safe_edits_and_reports_remaining_findings() {
    let files = [("example.bb", "SUMMARY = \"demo\"  \nSRCREV = \"${AUTOREV}\"")];
    let run = lint_files(&files, &LintOptions::default(), true, false).ok().unwrap();
    assert_eq!(run.code, 1);
    let text = run.lines.join("\n");
    assert!(text.contains("fixed: example.bb (2 edits)"));
    assert!(text.contains("warning[BBT004]:"));
    assert!(!text.contains("BBT001"));
    assert!(!text.contains("BBT002"));
    assert_eq!(run.fixed[0].1, "SUMMARY = \"demo\"\nSRCREV = \"${AUTOREV}\"\n");

    let again = [("example.bb", run.fixed[0].1.as_str())];
    let second = lint_files(&again, &LintOptions::default(), true, false).ok().unwrap();
    assert_eq!(second.code, 1);
    assert!(!second.lines.join("\n").contains("fixed:"));
}

#[test]
fn lint_fix_json_reports_applied_edits_and_empty_post_fix_findings() {
    let files = [("example.bb", "SUMMARY = \"demo\"  ")];
    let run = lint_files(&files, &LintOptions::default(), true, false).ok().unwrap();
    assert_eq!(run.code, 0);
    assert!(run.reports.is_empty());
    assert_eq!(run.lines, ["fixed: example.bb (2 edits)"]);
    assert_eq!(run.fixed[0].1, "SUMMARY = \"demo\"\n");
}

fn request() -> LintRequest {
    LintRequest {
        workspace: false,
        paths: true,
        semantic: false,
        build_dir: false,
        project_dir: false,
        targets: false,
        variables: false,
        full: false,
        graph: false,
        dry_run: false,
        inventory: false,
        packages: false,
        limits: false,
        bitbake: false,
        fix: false,
        stdin: false,
    }
}

#[test]
fn lint_fix_rejects_standard_input_before_reading_or_writing() {
    let mut fix = request();
    fix.fix = true;
    fix.stdin = true;
    let error = check_lint_request(&fix).unwrap_err();
    assert!(error.contains("--fix cannot be used with standard input"));
    assert!(check_lint_request(&request()).is_ok());
}

#[test]
fn semantic_lint_requires_the_semantic_flag_for_bitbake_options() {
    let mut bare = request();
    bare.build_dir = true;
    assert!(check_lint_request(&bare).unwrap_err().contains("require --semantic"));
    bare.semantic = true;
    assert!(check_lint_request(&bare).is_ok());
}

#[test]
fn lint_fix_is_transactional_when_another_input_fails_analysis() {
    let files = [("a.bb", "SUMMARY = \"demo\"  "), ("b.bb", "BROKEN = \"unterminated\n")];
    let error = failed(lint_files(&files, &LintOptions::default(), true, false));
    assert!(error.contains("could not lint"));
}

#[test]
fn workspace_cycles_are_reported_in_json_and_sarif() {
    let run = linted(&[
        ("/work/conf/layer.conf", LAYER),
        (
            "/work/recipes-example/example/example.bb",
            "require helper.inc\nSUMMARY = \"example\"\nDESCRIPTION = \"example\"\nLICENSE = \"CLOSED\"\n",
        ),
        ("/work/recipes-example/example/helper.inc", "require example.bb\n"),
    ]);
    assert_eq!(run.code, 1);
    assert_eq!(run.reports.len(), 2);
    assert!(run.reports.iter().all(|report| report.diagnostic.rule_id() == "BBT010"));
    assert!(
        run.reports
            .iter()
            .any(|report| report.label == "/work/recipes-example/example/example.bb")
    );
}

#[test]
fn machine_lint_output_is_not_partial_when_analysis_fails() {
    let files = [("malformed.bb", "SUMMARY = \"unterminated\n")];
    let error = failed(lint_files(&files, &LintOptions::default(), false, false));
    assert!(error.contains("top-level assignment contains an unclosed quote"));
}

#[test]
fn lint_directories_report_unresolved_static_layer_references() {
    let run = linted(&[
        ("/work/classes/base.bbclass", "BASE = \"1\"\n"),
        ("/work/conf/layer.conf", LAYER),
        ("/work/recipes-example/common.inc", "COMMON = \"1\"\n"),
        (
            "/work/recipes-example/example.bb",
            "inherit base missing\nrequire common.inc\nrequire missing.inc\ninherit ${DYNAMIC}\nrequire ${DYNAMIC}\nSUMMARY = \"example\"\nDESCRIPTION = \"example\"\nLICENSE = \"CLOSED\"\n",
        ),
    ]);
    assert_eq!(run.code, 1);
    assert_eq!(run.lines.len(), 2);
    assert!(run.lines[0].contains(":1:14: warning[BBT007]:"));
    assert!(run.lines[0].contains("inherited class 'missing'"));
    assert!(run.lines[1].contains(":3:9: warning[BBT006]:"));
    assert!(run.lines[1].contains("required file 'missing.inc'"));
    assert!(run.lines[0].contains("/work/recipes-example/example.bb"));
}

#[test]
fn lint_reports_broader_recipe_metadata_rules_in_machine_output() {
    let recipe = "/work/recipes-example/example.bb";
    let run = linted(&[(recipe, "SUMMARY = \"example\"\n"), ("/work/conf/layer.conf", LAYER)]);
    assert_eq!(run.code, 1);
    assert_eq!(
        run.reports.iter().map(|report| report.diagnostic.rule_id()).collect::<Vec<_>>(),
        ["BBT012", "BBT013"]
    );
    assert!(run.reports.iter().all(|report| report.label == recipe));
}

#[test]
fn lint_accepts_standard_input() {
    let workspace = WorkspaceIndex::from_paths(&vec![], PathTable::new(None));
    let input = analyze_lint_input(
        "<stdin>",
        None,
        "SUMMARY = \"demo\"".to_owned(),
        &workspace,
        &LintOptions::default(),
        false,
    )
    .ok()
    .unwrap();
    let reports = collect_reports(vec![input], vec![]);
    assert_eq!(lint_exit_code(&reports, &LintOptions::default()), 1);
    assert_eq!(
        text_diagnostic(&reports[0].label, &reports[0].diagnostic, false),
        ["<stdin>:1:17: warning[BBT002]: file does not end with a newline"]
    );
}

#[test]
fn lint_directories_are_deterministic_and_malformed_input_is_an_error() {
    let run = linted(&[("/work/z.bb", "Z = \"z\""), ("/work/nested/a.bb", "A = \"a\"")]);
    assert_eq!(run.code, 1);
    assert!(run.lines[0].contains("/work/nested/a.bb"));
    assert!(run.lines[1].contains("/work/z.bb"));

    let malformed = [("/work/nested/a.bb", "BROKEN = \"value\n"), ("/work/z.bb", "Z = \"z\"")];
    let error = failed(lint_files(&malformed, &LintOptions::default(), false, false));
    assert!(error.contains("top-level assignment contains an unclosed quote"));
}

fn said(success: bool, stdout: &str) -> CommandOutput {
    CommandOutput { success, stdout: stdout.to_owned(), stderr: String::new() }
}

fn semantic_findings(parse: CommandOutput, environment: CommandOutput) -> Vec<ExternalLintDiagnostic> {
    let mut options = SemanticOptions::for_build_dir("/work/build").target("demo");
    options.variables = semantic_lint_variables(&vec![]);
    let transcript = BitBakeTranscript {
        version: said(true, "BitBake Build Tool Core version 2.8.1\n"),
        parse,
        environments: vec![environment],
        graphs: vec![],
        dry_run: None,
        inventory: None,
    };
    match lint_with_bitbake(&options, &transcript, &LintOptions::default()) {
        Ok((report, findings)) => {
            assert!(report.parse_succeeded());
            findings
        }
        Err(error) => panic!("{}", error.to_string()),
    }
}

#[test]
fn semantic_lint_integrates_bitbake_diagnostics_and_resolved_metadata() {
    let findings = semantic_findings(
        said(true, "WARNING: Parse warning at /layer/recipes-demo/demo.bb:7: dynamic provider\n"),
        said(
            true,
            "SUMMARY=\"demo\"\nDESCRIPTION=\"\"\nLICENSE=\"CLOSED\"\nSRCREV=\"AUTOINC+deadbeef\"\nSRC_URI=\"git://example.invalid/demo.git;branch=main\"\n",
        ),
    );
    let reports = collect_reports(vec![], findings);
    let bitbake =
        reports.iter().find(|report| report.diagnostic.rule_id() == "BBT019").unwrap();
    assert_eq!(bitbake.label, "/layer/recipes-demo/demo.bb");
    assert_eq!(bitbake.diagnostic.line(), 7);
    assert!(bitbake.diagnostic.message().contains("dynamic provider"));
    let has = |rule: &str, part: &str| {
        reports.iter().any(|report| {
            report.diagnostic.rule_id() == rule && report.diagnostic.message().contains(part)
        })
    };
    assert!(has("BBT012", "DESCRIPTION"));
    assert!(has("BBT004", "AUTOREV"));
    assert!(has("BBT015", "transport protocol"));
    assert_eq!(lint_exit_code(&reports, &LintOptions::default()), 1);
}

#[test]
fn semantic_lint_turns_silent_bitbake_failures_into_blocking_findings() {
    let findings = semantic_findings(said(true, ""), said(false, ""));
    assert!(findings.iter().any(|finding| {
        finding.diagnostic.rule_id() == "BBT019"
            && finding.diagnostic.message().contains("target query failed")
    }));
    assert_eq!(lint_exit_code(&findings, &LintOptions::default()), 1);
}

#[test]
fn cli_bitbake_overrides_take_precedence_over_configured_limits() {
    let configured = BitBakeExecutionLimits::default();
    let overrides = BitBakeLimitArgs {
        command_timeout_seconds: Some(1),
        total_timeout_seconds: Some(2),
        max_stdout_bytes: Some(3),
        max_stderr_bytes: Some(4),
        max_commands: Some(5),
        max_recipe_queries: Some(6),
    };
    let effective = effective_bitbake_limits(&configured, &overrides);
    assert_eq!(effective.command_timeout / 1_000_000_000, 1);
    assert_eq!(effective.total_timeout / 1_000_000_000, 2);
    assert_eq!(effective.max_stdout_bytes, 3);
    assert_eq!(effective.max_stderr_bytes, 4);
    assert_eq!(effective.max_commands, 5);
    assert_eq!(effective.max_recipe_queries, 6);
}

#[test]
fn requested_analyses_add_to_the_configured_ones() {
    let none = SemanticAnalysisOptions::default();
    let graph = semantic_analysis_options(false, true, false, false, false, &none);
    assert!(graph.dependency_graph && !graph.dry_run);
    let all = semantic_analysis_options(true, false, false, false, false, &none);
    assert_eq!(all, SemanticAnalysisOptions::full());
}

#[test]
fn changes_are_listed_by_label() {
    let inputs = vec![
        formatted("a.bb", UNFORMATTED, &FormatOptions::default()).unwrap(),
        formatted("b.bb", FORMATTED, &FormatOptions::default()).unwrap(),
    ];
    assert_eq!(list_changes("reformatted: ", &inputs), ["reformatted: a.bb"]);
}

#[test]
fn severities_have_report_levels() {
    assert_eq!(sarif_level(LintSeverity::Info), "note");
    assert_eq!(sarif_level(LintSeverity::Warning), "warning");
    assert_eq!(sarif_level(LintSeverity::Error), "error");
}

#[test]
fn unusable_patterns_are_named() {
    assert!(check_pattern("a/**", &None).is_ok());
    assert_eq!(
        check_pattern("[", &Some("unclosed".to_owned())).unwrap_err().to_string(),
        "invalid path exclusion '[': unclosed"
    );
}

fn read(label: &str, text: &str) -> ReadInput {
    ReadInput {
        label: label.to_owned(),
        path: Some(label.to_owned()),
        text: Ok(text.to_owned()),
    }
}

#[test]
fn one_malformed_input_keeps_all_from_being_formatted() {
    let options = FormatOptions::default();
    let good = vec![read("a.bb", UNFORMATTED), read("b.bb", FORMATTED)];
    let done = format_inputs(&good, &options).unwrap();
    assert_eq!(done.len(), 2);
    assert_eq!(done[0].formatted, FORMATTED);
    assert_eq!(done[1].formatted, FORMATTED);
    assert_eq!(plan_writes(&done).len(), 2);
    let unread = ReadInput {
        label: "c.bb".to_owned(),
        path: Some("c.bb".to_owned()),
        text: Err("could not read c.bb: gone".to_owned()),
    };
    let bad = vec![read("a.bb", UNFORMATTED), read("b.bb", "do_x() {\n"), unread];
    match format_inputs(&bad, &options) {
        Err(messages) => {
            assert_eq!(messages.len(), 2);
            assert!(messages[0].starts_with("could not format b.bb: line 1: "));
            assert_eq!(messages[1], "could not read c.bb: gone");
        }
        Ok(_) => panic!("expected the malformed input to be refused"),
    }
}

#[test]
fn one_malformed_input_keeps_all_from_being_fixed() {
    let workspace = WorkspaceIndex::from_paths(&vec![], PathTable::new(None));
    let options = LintOptions::default();
    let limits = SafetyOptions { max_files: 10, max_bytes: 20 };
    let good = vec![read("a.bb", "A = \"a\"  \n"), read("b.bb", "B = \"b\"")];
    let done = lint_inputs(&good, limits, &workspace, &options, true).unwrap();
    assert_eq!(done[0].fixed, "A = \"a\"\n");
    assert_eq!(done[0].fixes_applied, 1);
    assert_eq!(done[1].fixed, "B = \"b\"\n");
    let writes = plan_fixes(&done);
    assert_eq!(writes.len(), 2);
    assert_eq!(writes[1].path, "b.bb");
    assert_eq!(writes[1].original, "B = \"b\"");
    assert_eq!(writes[1].replacement, "B = \"b\"\n");
    let unfixed = lint_inputs(&good, limits, &workspace, &options, false).unwrap();
    assert_eq!(unfixed[0].fixed, unfixed[0].original);
    assert_eq!(unfixed[0].fixes_applied, 0);
    let long = ReadInput {
        label: "<stdin>".to_owned(),
        path: None,
        text: Ok("# a comment that is long\n".to_owned()),
    };
    let bad = vec![long, read("a.bb", "A = \"a\"  \n"), read("b.bb", "do_x() {\n")];
    match lint_inputs(&bad, limits, &workspace, &options, true) {
        Err(messages) => {
            assert_eq!(
                messages[0],
                "safety limit exceeded: 25 bytes read, maximum is 20"
            );
            assert!(messages[1].starts_with("could not lint b.bb: line 1: "));
            assert_eq!(messages.len(), 2);
        }
        Ok(_) => panic!("expected the inputs to be refused"),
    }
}
