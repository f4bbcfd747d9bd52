use bbtidy::session::{BitBakeSession, Query};
use bbtidy::{
    BitBakePhase, BuildDirFacts, CommandOutput, SemanticAnalysisOptions, SemanticError, SemanticOptions, TextMap,
    analyze_bitbake,
};

fn output(success: bool, stdout: &str) -> CommandOutput {
    CommandOutput { success, stdout: stdout.to_owned(), stderr: String::new() }
}

const VERSION: &str = "BitBake Build Tool Core version 2.8.0\n";

fn session(analysis: SemanticAnalysisOptions) -> BitBakeSession {
    let mut options = SemanticOptions::for_build_dir("/work/build").target("one").target("two");
    options.analysis = analysis;
    match BitBakeSession::begin(options) {
        Ok(session) => session,
        Err(error) => panic!("{}", error.to_string()),
    }
}

#[test]
fn every_command_of_a_full_analysis_is_asked_once() {
    let mut session = session(SemanticAnalysisOptions::full());
    let mut seen = Vec::new();
    while let Some(invocation) = session.invocation() {
        assert_eq!(invocation.executable, "bitbake");
        assert_eq!(invocation.current_dir, "/work/build");
        seen.push((invocation.phase, invocation.arguments.join(" "), invocation.target.clone()));
        let text = if session.next() == Query::Version { VERSION } else { "" };
        session.answer(output(true, text), TextMap::new());
    }
    assert_eq!(
        seen,
        vec![
            (BitBakePhase::Version, "--version".to_owned(), None),
            (BitBakePhase::Parse, "--parse-only one two".to_owned(), None),
            (BitBakePhase::TargetEnvironment, "--environment one".to_owned(), Some("one".to_owned())),
            (BitBakePhase::TargetEnvironment, "--environment two".to_owned(), Some("two".to_owned())),
            (BitBakePhase::DependencyGraph, "--graphviz one".to_owned(), Some("one".to_owned())),
            (BitBakePhase::DependencyGraph, "--graphviz two".to_owned(), Some("two".to_owned())),
            (BitBakePhase::DryRun, "--dry-run one two".to_owned(), None),
            (BitBakePhase::RecipeInventory, "--show-versions".to_owned(), None),
        ]
    );
    let options = session.options().clone();
    let report = analyze_bitbake(&options, &session.transcript()).unwrap();
    assert_eq!(report.bitbake_version(), VERSION.trim());
    assert_eq!(report.target_results().len(), 2);
}

#[test]
fn commands_stop_where_metadata_does_not_parse() {
    let mut session = session(SemanticAnalysisOptions::full());
    session.answer(output(true, VERSION), TextMap::new());
    assert_eq!(session.next(), Query::Parse);
    session.answer(output(false, "ERROR: broken\n"), TextMap::new());
    assert_eq!(session.next(), Query::Finished);
    assert!(session.invocation().is_none());
    let options = session.options().clone();
    let report = analyze_bitbake(&options, &session.transcript()).unwrap();
    assert!(!report.parse_succeeded());
    assert!(report.target_results().iter().all(|result| !result.queried()));
}

#[test]
fn commands_stop_without_a_version() {
    for answer in [output(false, VERSION), output(true, "something else\n")] {
        let mut session = session(SemanticAnalysisOptions::default());
        assert_eq!(session.next(), Query::Version);
        session.answer(answer, TextMap::new());
        assert_eq!(session.next(), Query::Finished);
        let options = session.options().clone();
        match analyze_bitbake(&options, &session.transcript()) {
            Err(SemanticError::BitBakeVersion(_)) => {}
            _ => panic!("expected the version to be missed"),
        }
    }
}

#[test]
fn a_build_directory_is_checked_before_the_first_command() {
    let facts = |has_local_conf: bool| BuildDirFacts {
        failure: None,
        is_directory: true,
        has_local_conf,
        has_bblayers_conf: true,
    };
    let options = || SemanticOptions::for_build_dir("/work/build");
    match BitBakeSession::begin_checked(options(), &facts(false)) {
        Err(SemanticError::InvalidBuildDirectory { path, reason }) => {
            assert_eq!(path, "/work/build");
            assert_eq!(reason, "missing conf/local.conf");
        }
        _ => panic!("expected the directory to be refused"),
    }
    match BitBakeSession::begin_checked(options(), &facts(true)) {
        Ok(session) => assert_eq!(session.next(), Query::Version),
        Err(error) => panic!("{}", error.to_string()),
    }
}

#[test]
fn analyses_of_targets_need_targets() {
    let mut options = SemanticOptions::for_build_dir("/work/build");
    options.analysis.dry_run = true;
    match BitBakeSession::begin(options) {
        Err(SemanticError::AnalysisTargetsRequired { mode }) => assert_eq!(mode, "dry-run"),
        _ => panic!("expected targets to be required"),
    }
}
