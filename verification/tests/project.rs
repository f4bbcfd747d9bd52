use bbtidy::project::{BuildPath, ProjectProbe, SourceDirectory, StartFacts, build_candidates};
use bbtidy::{
    BuildContext, BuildContextDiscoveryOptions, BuildContextError, BuildContextSource,
    BuildDirFacts, discover_build_context, discover_build_context_with_options,
};

const ROOT: &str = "/work";

fn facts(complete: bool) -> BuildDirFacts {
    BuildDirFacts {
        failure: None,
        is_directory: true,
        has_local_conf: complete,
        has_bblayers_conf: complete,
    }
}

/// A project directory at `/work`, as a probe of the disk would find it.
struct Fixture {
    probe: ProjectProbe,
}

impl Fixture {
    fn new() -> Self {
        Fixture {
            probe: ProjectProbe {
                build_paths: vec![],
                directories: vec![SourceDirectory { path: ROOT.to_owned(), names: vec![] }],
            },
        }
    }

    fn directory(&mut self, relative: &str, complete: bool) -> String {
        let path = format!("{ROOT}/{relative}");
        self.probe.build_paths.push(BuildPath {
            path: path.clone(),
            canonical: Some(path.clone()),
            facts: facts(complete),
        });
        self.probe.directories[0].names.push(relative.to_owned());
        path
    }

    fn build(&mut self, relative: &str) -> String {
        self.directory(relative, true)
    }
}

fn start(path: &str, is_directory: bool) -> StartFacts {
    StartFacts { failure: None, is_directory, canonical: Ok(path.to_owned()) }
}

fn discover(
    fixture: &Fixture,
    options: &BuildContextDiscoveryOptions,
) -> Result<BuildContext, BuildContextError> {
    discover_build_context_with_options(ROOT, &start(ROOT, true), options, &fixture.probe)
}

#[test]
fn discovers_conventional_build_from_nested_project_path() {
    let mut fixture = Fixture::new();
    let build_dir = fixture.build("build");
    let source_file = "/work/meta-layer/recipes/demo.bb";

    let context = discover_build_context_with_options(
        source_file,
        &start("/work/meta-layer/recipes", false),
        &BuildContextDiscoveryOptions::default(),
        &fixture.probe,
    )
    .unwrap();

    assert_eq!(context.build_dir(), build_dir);
    assert_eq!(context.project_dir(), ROOT);
    assert_eq!(context.source(), BuildContextSource::Discovered);
}

#[test]
fn explicit_context_validates_and_infers_project_parent() {
    let mut fixture = Fixture::new();
    let build_dir = fixture.build("custom-build");

    let context = BuildContext::from_build_dir(&build_dir, &None, &fixture.probe).unwrap();

    assert_eq!(context.build_dir(), build_dir);
    assert_eq!(context.project_dir(), ROOT);
    assert_eq!(context.source(), BuildContextSource::Explicit);
}

#[test]
fn configured_context_has_precedence_over_environment_candidates() {
    let mut fixture = Fixture::new();
    let configured = fixture.build("configured");
    let bbtidy_environment = fixture.build("bbtidy-environment");
    let builddir_environment = fixture.build("builddir-environment");
    let options = BuildContextDiscoveryOptions {
        configured_build_dir: Some(configured.clone()),
        bbtidy_build_dir: Some(bbtidy_environment),
        build_dir_environment: Some(builddir_environment),
    };

    let context = discover(&fixture, &options).unwrap();

    assert_eq!(context.build_dir(), configured);
    assert_eq!(context.source(), BuildContextSource::Configured);
}

#[test]
fn environment_precedence_prefers_bbtidy_override_over_builddir() {
    let mut fixture = Fixture::new();
    let bbtidy_environment = fixture.build("bbtidy-environment");
    let builddir_environment = fixture.build("builddir-environment");
    let options = BuildContextDiscoveryOptions {
        configured_build_dir: None,
        bbtidy_build_dir: Some(bbtidy_environment.clone()),
        build_dir_environment: Some(builddir_environment),
    };

    let context = discover(&fixture, &options).unwrap();

    assert_eq!(context.build_dir(), bbtidy_environment);
    assert_eq!(context.source(), BuildContextSource::BbtidyEnvironment);
}

#[test]
fn relative_environment_path_is_resolved_from_discovery_start() {
    let mut fixture = Fixture::new();
    let build_dir = fixture.build("build");
    let options = BuildContextDiscoveryOptions {
        build_dir_environment: Some("build".to_owned()),
        ..BuildContextDiscoveryOptions::default()
    };

    let context = discover(&fixture, &options).unwrap();

    assert_eq!(context.build_dir(), build_dir);
    assert_eq!(context.source(), BuildContextSource::BuildDirEnvironment);
}

#[test]
fn multiple_build_variants_require_explicit_selection() {
    let mut fixture = Fixture::new();
    fixture.build("build-debug");
    fixture.build("build-release");

    let error = discover(&fixture, &BuildContextDiscoveryOptions::default()).unwrap_err();

    assert!(matches!(error, BuildContextError::Ambiguous { .. }));
    assert!(error.to_string().contains("--build-dir"));
}

#[test]
fn missing_context_is_reported_instead_of_guessed() {
    let fixture = Fixture::new();

    let error = discover(&fixture, &BuildContextDiscoveryOptions::default()).unwrap_err();

    assert!(matches!(error, BuildContextError::NotFound { .. }));
}

#[test]
fn invalid_configured_context_reports_missing_configuration() {
    let mut fixture = Fixture::new();
    let invalid = fixture.directory("not-a-build", false);
    let options = BuildContextDiscoveryOptions {
        configured_build_dir: Some(invalid),
        ..BuildContextDiscoveryOptions::default()
    };

    let error = discover(&fixture, &options).unwrap_err();

    assert!(matches!(
        error,
        BuildContextError::InvalidBuildDirectory { source: BuildContextSource::Configured, .. }
    ));
}

#[test]
fn a_start_that_cannot_be_read_is_reported() {
    let facts = StartFacts {
        failure: Some("denied".to_owned()),
        is_directory: false,
        canonical: Err("denied".to_owned()),
    };
    let fixture = Fixture::new();
    let error = discover_build_context(ROOT, &facts, None, None, &fixture.probe).unwrap_err();
    assert_eq!(
        error,
        BuildContextError::InvalidStart { path: ROOT.to_owned(), reason: "denied".to_owned() }
    );
}

#[test]
fn the_conventional_name_does_not_win_over_variants() {
    let mut fixture = Fixture::new();
    fixture.build("build-debug");
    fixture.build("build");
    let error =
        discover_build_context(ROOT, &start(ROOT, true), None, None, &fixture.probe).unwrap_err();
    assert_eq!(
        error,
        BuildContextError::Ambiguous {
            start: ROOT.to_owned(),
            candidates: vec!["/work/build".to_owned(), "/work/build-debug".to_owned()],
        }
    );
}

#[test]
fn only_build_names_are_candidates() {
    let names = ["build-a", "src", "builder", "build"].map(str::to_owned).to_vec();
    let found = build_candidates(ROOT, &names);
    assert!(found.contains(&"/work/build-a".to_owned()));
    assert!(!found.contains(&"/work/src".to_owned()));
}
