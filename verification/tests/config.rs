use bbtidy::config::{choose_config, config_candidates};
use bbtidy::runs::BitBakeLimitArgs;
use bbtidy::{
    Config, ConfigError, FileConfig, FormatOptions, LintFailurePolicy, LintOptions, LintSeverity, MetadataListLayout,
    PathTable, SafetyOptions, SemanticConfig, TextMap, discover_config,
};

fn empty() -> FileConfig {
    FileConfig {
        max_top_level_blank_lines: None,
        metadata_list_layout: None,
        disable: vec![],
        severity: TextMap::new(),
        fail_on: None,
        exclude: vec![],
        max_files: None,
        max_bytes: None,
        semantic: SemanticConfig::default(),
        limits: BitBakeLimitArgs {
            command_timeout_seconds: None,
            total_timeout_seconds: None,
            max_stdout_bytes: None,
            max_stderr_bytes: None,
            max_commands: None,
            max_recipe_queries: None,
        },
    }
}

fn texts(items: &[&str]) -> Vec<String> {
    items.iter().map(|item| item.to_string()).collect()
}

fn config(file: &FileConfig) -> Config {
    match Config::from_file_config(file, "/project") {
        Ok(config) => config,
        Err(error) => panic!("{}", error.to_string()),
    }
}

fn fault(file: &FileConfig) -> ConfigError {
    match Config::from_file_config(file, "/project") {
        Ok(_) => panic!("the configuration was accepted"),
        Err(error) => error,
    }
}

fn excluded(config: &Config, path: &str) -> bool {
    config.is_excluded(path, &None, &PathTable::new(None))
}

#[test]
fn defaults_are_preserved_without_settings() {
    let config = config(&empty());

    assert_eq!(config.format, FormatOptions::default());
    assert_eq!(config.lint, LintOptions::default());
    assert!(!excluded(&config, "/project/recipes/example.bb"));
}

#[test]
fn parses_format_lint_and_path_settings() {
    let mut file = empty();
    file.max_top_level_blank_lines = Some(0);
    file.metadata_list_layout = Some(MetadataListLayout::OnePerLine);
    file.disable = texts(&["BBT003", "BBT010"]);
    file.severity.insert("BBT001".to_owned(), "error".to_owned());
    file.severity.insert("BBT010".to_owned(), "info".to_owned());
    file.exclude = texts(&["vendor/**", "**/files/**"]);
    let config = config(&file);

    assert_eq!(config.format.max_top_level_blank_lines, 0);
    assert_eq!(
        config.format.metadata_list_layout,
        MetadataListLayout::OnePerLine
    );
    assert!(excluded(&config, "/project/vendor/example.bb"));
    assert!(excluded(&config, "/project/recipes/example/files/data.inc"));
    assert!(!excluded(&config, "/project/recipes/example.bb"));
    assert!(!config.lint.is_enabled("BBT003"));
    assert!(config.lint.is_enabled("BBT001"));
    assert_eq!(config.lint.severity_for("BBT001", LintSeverity::Warning), LintSeverity::Error);
    assert_eq!(config.lint.severity_for("BBT002", LintSeverity::Warning), LintSeverity::Warning);
}

#[test]
fn rejects_unknown_rules_and_invalid_severities() {
    let mut unknown_rule = empty();
    unknown_rule.disable = texts(&["BBT999"]);
    assert!(fault(&unknown_rule).to_string().contains("unknown lint rule 'BBT999'"));

    let mut invalid_severity = empty();
    invalid_severity.severity.insert("BBT001".to_owned(), "fatal".to_owned());
    assert!(fault(&invalid_severity).to_string().contains("invalid lint severity 'fatal'"));

    let mut invalid_glob = empty();
    invalid_glob.exclude = texts(&["["]);
    assert!(fault(&invalid_glob).to_string().contains("invalid path exclusion '['"));
}

#[test]
fn reads_limits_thresholds_and_the_build_context() {
    let mut file = empty();
    file.fail_on = Some("never".to_owned());
    file.max_files = Some(1);
    file.semantic.build_dir = Some("build".to_owned());
    file.semantic.bitbake = Some("./fake-bitbake".to_owned());
    file.limits.max_commands = Some(5);
    let config = config(&file);
    assert_eq!(config.lint.fail_on(), LintFailurePolicy::Never);
    assert_eq!(config.safety, SafetyOptions { max_files: 1, max_bytes: 268_435_456 });
    assert_eq!(config.semantic.build_dir, Some("/project/build".to_owned()));
    assert_eq!(config.semantic.bitbake, Some("/project/./fake-bitbake".to_owned()));
    assert_eq!(config.bitbake.max_commands, 5);
    assert_eq!(config.bitbake.max_recipe_queries, 10_000);

    file.semantic.bitbake = Some("bitbake".to_owned());
    let bare = Config::from_file_config(&file, "/project").unwrap();
    assert_eq!(bare.semantic.bitbake, Some("bitbake".to_owned()));
}

#[test]
fn rejects_invalid_thresholds_limits_and_empty_patterns() {
    let mut threshold = empty();
    threshold.fail_on = Some("maybe".to_owned());
    assert_eq!(
        fault(&threshold).to_string(),
        "invalid lint failure policy 'maybe'; expected info, warning, error, or never"
    );
    let mut limit = empty();
    limit.limits.max_commands = Some(0);
    assert_eq!(
        fault(&limit).to_string(),
        "bitbake.max_commands must be greater than zero"
    );
    let mut pattern = empty();
    pattern.exclude = texts(&["vendor/**", ""]);
    assert_eq!(fault(&pattern).to_string(), "path exclusion patterns must not be empty");
}

#[test]
fn discovers_the_nearest_config() {
    let files = texts(&["/work/.bbtidy.toml"]);
    assert_eq!(
        discover_config("/work/nested", true, &files),
        Some("/work/.bbtidy.toml".to_owned())
    );
    let both = texts(&["/work/.bbtidy.toml", "/work/nested/.bbtidy.toml"]);
    assert_eq!(
        discover_config("/work/nested/a.bb", false, &both),
        Some("/work/nested/.bbtidy.toml".to_owned())
    );
    assert_eq!(discover_config("/elsewhere", true, &files), None);
}

#[test]
fn candidates_run_from_the_start_to_the_root() {
    assert_eq!(
        config_candidates("/work/nested", true),
        ["/work/nested/.bbtidy.toml", "/work/.bbtidy.toml", "/.bbtidy.toml"]
    );
    assert_eq!(
        config_candidates("/work/nested", false),
        ["/work/.bbtidy.toml", "/.bbtidy.toml"]
    );
}

#[test]
fn a_given_configuration_is_preferred() {
    let given = || Some("given.toml".to_owned());
    let found = || Some("found.toml".to_owned());
    assert_eq!(choose_config(given(), false, found()), given());
    assert_eq!(choose_config(None, false, found()), found());
    assert_eq!(choose_config(None, true, found()), None);
}

#[test]
fn a_configuration_without_exclusions_excludes_nothing() {
    let config = Config::default_for("/project");
    assert!(!excluded(&config, "/project/vendor/example.bb"));
    assert_eq!(config.base_dir, "/project");
}

#[test]
fn exclusions_are_held_against_the_path_below_the_base() {
    let mut file = empty();
    file.exclude = texts(&["recipes/*.bb", "?.inc"]);
    let config = config(&file);
    assert!(excluded(&config, "/project/recipes/a.bb"));
    assert!(excluded(&config, "/project/a.inc"));
    assert!(!excluded(&config, "/project/ab.inc"));
    assert!(!excluded(&config, "/other/recipes/a.bb"));
    let here = Some("/project".to_owned());
    assert!(config.is_excluded("recipes/a.bb", &here, &PathTable::new(None)));
}

#[test]
fn configuration_faults_name_the_file() {
    let error = ConfigError::unusable("read", "a.toml", "denied");
    assert_eq!(error.to_string(), "could not read config a.toml: denied");
    assert_eq!(ConfigError::new("bad").to_string(), "bad");
}

#[test]
fn patterns_that_cannot_be_matched_together_are_refused() {
    let built = Config::assemble(
        &empty(),
        LintOptions::default(),
        "/project",
        Err("too large".to_owned()),
    );
    match built {
        Ok(_) => panic!("it was not refused"),
        Err(error) => assert!(error.to_string().contains("too large")),
    }
}
