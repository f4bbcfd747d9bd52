use bbtidy::report_text::{semantic_exit_code, semantic_report_lines};
use bbtidy::semantic::{
    RestoreAction, dry_run_arguments, environment_arguments, graph_arguments, graph_artifact_names,
    parse_arguments, restore_action, validate_build_dir,
};
use bbtidy::project::{BuildPath, ProjectProbe};
use bbtidy::session::BitBakeSession;
use bbtidy::{
    BitBakeTranscript, BuildContext, BuildDirFacts, CommandOutput, GraphOutput, LintOptions,
    SemanticAnalysisOptions, SemanticDiagnosticPhase, SemanticDiagnosticStream, SemanticError,
    SemanticOptions, SemanticReport, SemanticSeverity, TextMap, analyze_bitbake, lint_with_bitbake,
};

fn said(success: bool, stdout: &str, stderr: &str) -> CommandOutput {
    CommandOutput { success, stdout: stdout.to_owned(), stderr: stderr.to_owned() }
}

fn version() -> CommandOutput {
    said(true, "BitBake Build Tool Core version 2.8.1\n", "")
}

fn texts(items: &[&str]) -> Vec<String> {
    items.iter().map(|item| item.to_string()).collect()
}

fn transcript(parse: CommandOutput, environments: Vec<CommandOutput>) -> BitBakeTranscript {
    BitBakeTranscript {
        version: version(),
        parse,
        environments,
        graphs: vec![],
        dry_run: None,
        inventory: None,
    }
}

fn working() -> BitBakeTranscript {
    let environment = said(
        true,
        "# resolved by fake BitBake\nPN=\"demo\"\nOVERRIDES=\"machine:class-native\"\nMULTI=\"one \\\ntwo\"\n",
        "",
    );
    transcript(said(true, "NOTE: Parsing recipes\n", ""), vec![environment])
}

fn unparsable() -> BitBakeTranscript {
    transcript(
        said(
            false,
            "",
            "ERROR: ParseError at /layer/recipes-demo/demo.bb:12:7: invalid override\n",
        ),
        vec![],
    )
}

fn options(targets: &[&str], variables: &[&str]) -> SemanticOptions {
    SemanticOptions {
        bitbake: "bitbake".to_owned(),
        build_dir: "/work/build".to_owned(),
        targets: texts(targets),
        variables: texts(variables),
        analysis: SemanticAnalysisOptions::default(),
    }
}

fn analyzed(options: &SemanticOptions, transcript: &BitBakeTranscript) -> SemanticReport {
    match analyze_bitbake(options, transcript) {
        Ok(report) => report,
        Err(error) => panic!("{}", error.to_string()),
    }
}

#[test]
fn authoritative_analysis_returns_resolved_environment_and_diagnostics() {
    let options = options(&["demo"], &["PN", "OVERRIDES", "MULTI", "MISSING"]);

    let report = analyzed(&options, &working());

    assert_eq!(
        report.bitbake_version(),
        "BitBake Build Tool Core version 2.8.1"
    );
    assert!(report.parse_succeeded());
    assert_eq!(report.requested_targets(), &[String::from("demo")]);
    assert_eq!(
        report.requested_variables(),
        &[
            String::from("PN"),
            String::from("OVERRIDES"),
            String::from("MULTI"),
            String::from("MISSING"),
        ]
    );
    assert_eq!(report.environments().len(), 1);
    assert_eq!(report.target_results().len(), 1);
    assert!(report.target_results()[0].queried());
    assert!(report.target_results()[0].succeeded());
    let environment = &report.environments()[0];
    assert_eq!(environment.target(), "demo");
    assert_eq!(environment.get("PN"), Some("demo"));
    assert_eq!(environment.get("OVERRIDES"), Some("machine:class-native"));
    assert_eq!(environment.get("MULTI"), Some("one two"));
    assert_eq!(environment.get("MISSING"), None);
    assert!(
        report
            .diagnostics()
            .iter()
            .any(|diagnostic| diagnostic.severity() == SemanticSeverity::Note)
    );
    let parse_note = report
        .diagnostics()
        .iter()
        .find(|diagnostic| diagnostic.severity() == SemanticSeverity::Note)
        .unwrap();
    assert_eq!(parse_note.phase(), SemanticDiagnosticPhase::Parse);
    assert_eq!(parse_note.target(), None);
    assert_eq!(parse_note.stream(), SemanticDiagnosticStream::Stdout);
}

#[test]
fn empty_variable_selection_keeps_raw_environment_without_materializing_values() {
    let options = options(&["demo"], &[]);

    let report = analyzed(&options, &working());
    let environment = &report.environments()[0];

    assert_eq!(environment.variables().len(), 0);
    assert!(environment.raw().contains("PN=\"demo\""));
}

#[test]
fn semantic_lint_api_converts_bitbake_results_into_rule_diagnostics() {
    let options = options(
        &["demo"],
        &["SUMMARY", "DESCRIPTION", "LICENSE", "SRCREV", "SRCPV", "SRC_URI"],
    );

    let (report, findings) =
        match lint_with_bitbake(&options, &working(), &LintOptions::default()) {
            Ok(found) => found,
            Err(error) => panic!("{}", error.to_string()),
        };

    assert!(report.analysis_succeeded());
    assert!(
        findings
            .iter()
            .any(|finding| finding.diagnostic.rule_id() == "BBT019")
    );
    assert!(
        findings
            .iter()
            .any(|finding| finding.diagnostic.rule_id() == "BBT011")
    );
    assert!(
        findings
            .iter()
            .any(|finding| finding.diagnostic.rule_id() == "BBT012")
    );
    assert!(
        findings
            .iter()
            .any(|finding| finding.diagnostic.rule_id() == "BBT013")
    );
}

#[test]
fn parse_failures_include_bitbake_source_locations() {
    let options = options(&[], &[]);

    let report = analyzed(&options, &unparsable());

    assert!(!report.parse_succeeded());
    let diagnostic = report
        .diagnostics()
        .iter()
        .find(|diagnostic| diagnostic.severity() == SemanticSeverity::Error)
        .unwrap();
    assert_eq!(diagnostic.path(), Some("/layer/recipes-demo/demo.bb"));
    assert_eq!(diagnostic.line(), Some(12));
    assert_eq!(diagnostic.column(), Some(7));
    assert!(diagnostic.message().contains("invalid override"));
    assert_eq!(semantic_exit_code(&report), 1);
}

#[test]
fn target_query_failures_are_reported_separately_from_parse_failures() {
    let options = options(&["missing-target"], &[]);
    let failed = said(false, "", "ERROR: Nothing PROVIDES missing-target\n");

    let report = analyzed(
        &options,
        &transcript(said(true, "NOTE: Parsing recipes\n", ""), vec![failed]),
    );

    assert!(report.parse_succeeded());
    assert!(!report.target_queries_succeeded());
    assert!(!report.analysis_succeeded());
    assert!(report.environments().is_empty());
    assert_eq!(report.target_results().len(), 1);
    assert!(report.target_results()[0].queried());
    assert!(!report.target_results()[0].succeeded());
    assert_eq!(report.target_results()[0].target(), "missing-target");
    let target_error = &report.target_results()[0].diagnostics()[0];
    assert_eq!(target_error.phase(), SemanticDiagnosticPhase::TargetQuery);
    assert_eq!(target_error.target(), Some("missing-target"));
    assert_eq!(target_error.stream(), SemanticDiagnosticStream::Stderr);
    assert!(report.has_errors());
}

#[test]
fn invalid_build_context_is_reported_before_invocation() {
    let options = SemanticOptions::for_build_dir("/does/not/exist");
    let facts = BuildDirFacts {
        failure: Some("No such file or directory".to_owned()),
        is_directory: false,
        has_local_conf: false,
        has_bblayers_conf: false,
    };
    let error = validate_build_dir(&options.build_dir, &facts).unwrap_err();
    assert!(matches!(error, SemanticError::InvalidBuildDirectory { .. }));
    match BitBakeSession::begin_checked(options, &facts) {
        Err(SemanticError::InvalidBuildDirectory { path, reason }) => {
            assert_eq!(path, "/does/not/exist");
            assert_eq!(reason, "No such file or directory");
        }
        _ => panic!("expected the directory to be refused"),
    }
}

#[test]
fn build_directories_need_both_configuration_files() {
    let mut facts = BuildDirFacts {
        failure: None,
        is_directory: true,
        has_local_conf: true,
        has_bblayers_conf: true,
    };
    assert!(validate_build_dir("/work/build", &facts).is_ok());
    facts.has_bblayers_conf = false;
    assert_eq!(
        validate_build_dir("/work/build", &facts).unwrap_err().to_string(),
        "invalid BitBake build directory /work/build: missing conf/bblayers.conf"
    );
    facts.is_directory = false;
    assert!(validate_build_dir("/work/build", &facts).is_err());
}

#[test]
fn an_unknown_version_is_an_error() {
    let mut transcript = working();
    transcript.version = said(false, "", "bitbake: not found\n");
    let error = match analyze_bitbake(&options(&["demo"], &[]), &transcript) {
        Ok(_) => panic!("the version was accepted"),
        Err(error) => error,
    };
    assert!(matches!(error, SemanticError::BitBakeVersion(_)));
}

#[test]
fn build_analysis_needs_targets() {
    let mut wanted = options(&[], &[]);
    wanted.analysis.dependency_graph = true;
    let error = match analyze_bitbake(&wanted, &unparsable()) {
        Ok(_) => panic!("an analysis without targets was accepted"),
        Err(error) => error,
    };
    assert!(matches!(error, SemanticError::AnalysisTargetsRequired { .. }));
}

#[test]
fn full_analysis_reads_every_section() {
    let wanted = SemanticOptions::for_build_dir("/work/build").target("demo").full_analysis();
    let mut transcript = working();
    let mut artifacts = TextMap::new();
    artifacts.insert("pn-buildlist".to_owned(), "demo\nbase\n".to_owned());
    artifacts.insert(
        "task-depends.dot".to_owned(),
        "digraph depends {\n\"demo.do_build\" -> \"base.do_build\"\n}\n".to_owned(),
    );
    transcript.graphs = vec![GraphOutput { output: said(true, "", ""), artifacts }];
    transcript.dry_run =
        Some(said(true, "NOTE: recipe demo-1.0-r0: task do_build: Started\n", ""));
    transcript.inventory = Some(said(
        true,
        "Recipe Name  Latest Version  Preferred Version  Required Version\n===========  ==============  =================  ================\ndemo  :1.0-r0\n",
        "",
    ));
    let report = analyzed(&wanted, &transcript);
    let analysis = report.build_analysis().unwrap();
    let graph = &analysis.graphs()[0];
    assert_eq!(graph.target(), "demo");
    assert_eq!(graph.build_list(), &["demo", "base"]);
    assert_eq!(graph.task_edges().len(), 1);
    assert_eq!(graph.task_edges()[0].from(), "demo.do_build");
    assert_eq!(graph.task_edges()[0].to(), "base.do_build");
    assert!(analysis.dry_run().unwrap().succeeded());
    assert!(analysis.inventory().unwrap().succeeded());
    assert_eq!(analysis.packages().len(), 1);
}

#[test]
fn arguments_name_the_targets() {
    assert_eq!(parse_arguments(&texts(&["demo"])), ["--parse-only", "demo"]);
    assert_eq!(environment_arguments("demo"), ["--environment", "demo"]);
    assert_eq!(graph_arguments("demo"), ["--graphviz", "demo"]);
    assert!(dry_run_arguments(&texts(&["demo"])).contains(&"--dry-run".to_owned()));
    assert!(graph_artifact_names().contains(&"task-depends.dot".to_owned()));
}

#[test]
fn graph_files_are_put_back() {
    assert_eq!(
        restore_action(&Some("old".to_owned()), true),
        RestoreAction::Write("old".to_owned())
    );
    assert_eq!(restore_action(&None, true), RestoreAction::Remove);
    assert_eq!(restore_action(&None, false), RestoreAction::Keep);
}

#[test]
fn the_report_is_written_line_by_line() {
    let report = analyzed(&options(&["demo"], &["PN"]), &working());
    let probe = ProjectProbe {
        build_paths: vec![BuildPath {
            path: "/work/build".to_owned(),
            canonical: Some("/work/build".to_owned()),
            facts: BuildDirFacts {
                failure: None,
                is_directory: true,
                has_local_conf: true,
                has_bblayers_conf: true,
            },
        }],
        directories: vec![],
    };
    let context = BuildContext::from_build_dir("/work/build", &None, &probe).unwrap();
    let lines = semantic_report_lines(&report, &context, 3, 1);
    assert!(lines.iter().any(|line| line.contains("BitBake Build Tool Core version 2.8.1")));
    assert!(lines.iter().any(|line| line.contains("PN")));
    assert_eq!(semantic_exit_code(&report), 0);
}
