use bbtidy::{
    BodyDiagnostic, BodyDiagnosticKind, LintFailurePolicy, LintFixError, LintOptions, LintSeverity, PathTable, TextRange, WorkspaceFile,
    WorkspaceIndex, apply_lint_fixes, lint, lint_rules,
    lint_syntax_with_workspace, lint_syntax_with_workspace_and_bodies, lint_with_options,
    lint_with_workspace, parse,
};
use std::cell::RefCell;
use std::collections::BTreeMap;

struct Layer {
    root: String,
    files: RefCell<BTreeMap<String, String>>,
}

impl Layer {
    fn new(label: &str) -> Self {
        Self { root: format!("/work/{label}"), files: RefCell::new(BTreeMap::new()) }
    }

    fn write(&self, relative: &str, contents: &str) -> String {
        let path = format!("{}/{relative}", self.root);
        self.files.borrow_mut().insert(path.clone(), contents.to_owned());
        path
    }
}

fn index(layers: &[&Layer], paths: &[&String]) -> WorkspaceIndex {
    let files = paths
        .iter()
        .map(|path| WorkspaceFile {
            path: path.to_string(),
            source: layers.iter().find_map(|layer| layer.files.borrow().get(*path).cloned()),
        })
        .collect();
    WorkspaceIndex::from_paths(&files, PathTable::new(None))
}

#[test]
fn public_lint_api_exposes_rule_metadata_and_diagnostics() {
    let rules = lint_rules();
    assert_eq!(rules.len(), 36);
    assert_eq!(rules[0].id(), "BBT001");
    assert_eq!(rules[0].name(), "trailing-whitespace");
    assert_eq!(rules[0].severity(), LintSeverity::Warning);
    assert!(!rules[0].description().is_empty());
    assert!(rules[0].fixable());
    assert!(!rules[3].fixable());

    let diagnostics = lint("SRCREV = \"${AUTOREV}\"\n").unwrap();
    assert_eq!(diagnostics.len(), 1);
    assert_eq!(diagnostics[0].rule_id(), "BBT004");
    assert_eq!(diagnostics[0].severity(), LintSeverity::Warning);
    assert_eq!(diagnostics[0].line(), 1);
    assert_eq!(diagnostics[0].column(), 11);
}

#[test]
fn public_diagnostics_expose_ranges_help_and_safe_fixes() {
    let source = "SUMMARY = \"demo\"  \nLICENSE = \"MIT\"";
    let diagnostics = lint(source).unwrap();

    assert_eq!(diagnostics[0].range().start(), 16);
    assert_eq!(diagnostics[0].range().end(), 18);
    assert_eq!(diagnostics[0].end_line(), 1);
    assert_eq!(diagnostics[0].end_column(), 19);
    assert!(diagnostics[0].is_fixable());
    assert_eq!(diagnostics[0].fixes()[0].replacement(), "");
    assert!(diagnostics[0].help().is_some());

    assert!(diagnostics[1].is_fixable());
    let fixed = apply_lint_fixes(source, &diagnostics).unwrap();
    assert_eq!(fixed, "SUMMARY = \"demo\"\nLICENSE = \"MIT\"\n");
    assert!(lint(&fixed).unwrap().is_empty());

    let autorev = lint("SRCREV = \"${AUTOREV}\"\n").unwrap();
    assert!(!autorev[0].is_fixable());
}

#[test]
fn applying_a_duplicate_edit_plan_fails_without_partial_output() {
    let source = "SUMMARY = \"demo\"  \n";
    let diagnostic = lint(source).unwrap().remove(0);
    let error = apply_lint_fixes(source, &vec![diagnostic.clone(), diagnostic]).unwrap_err();

    assert!(matches!(error, LintFixError::OverlappingRanges { .. }));
    assert_eq!(source, "SUMMARY = \"demo\"  \n");
}

#[test]
fn public_lint_options_filter_rules_and_override_severity() {
    let mut options = LintOptions::default();
    options.disable_rule("BBT004");
    options.set_severity("BBT005", LintSeverity::Error);

    let diagnostics = lint_with_options(
        "SRCREV = \"${AUTOREV}\"\ninherit cmake\ninherit cmake\n",
        &options,
    )
    .unwrap();

    assert_eq!(diagnostics.len(), 1);
    assert_eq!(diagnostics[0].rule_id(), "BBT005");
    assert_eq!(diagnostics[0].severity(), LintSeverity::Error);
}

#[test]
fn broader_lint_rules_cover_common_source_mistakes() {
    let source: &str = &[
        "FILESEXTRAPATHS:prepend = \"${THISDIR}/files:\"\n",
        "SRC_URI = \"git://example.invalid/example.git;branch=main\"\n",
        "VALUE = \"one\"\n",
        "VALUE = \"two\"\n",
        "inherit\n",
        "do_build() {\n}\n",
        "do_build() {\n}\n",
    ].concat();
    let diagnostics = lint(source).unwrap();
    let ids = diagnostics
        .iter()
        .map(|diagnostic| diagnostic.rule_id())
        .collect::<Vec<_>>();

    assert_eq!(ids, ["BBT014", "BBT015", "BBT016", "BBT018", "BBT017"]);
    assert_eq!((diagnostics[0].line(), diagnostics[0].column()), (1, 25));
    assert!(diagnostics[0].message().contains("path expansion"));
    assert!(
        diagnostics[1]
            .message()
            .contains("does not declare a protocol")
    );
    assert!(
        diagnostics[2]
            .message()
            .contains("assigned directly more than once")
    );
    assert!(
        diagnostics[3]
            .message()
            .contains("inherit directive has no target")
    );
    assert!(diagnostics[4].message().contains("declared more than once"));
}

#[test]
fn broader_recipe_qa_rules_cover_identity_sources_packages_and_uri_parameters() {
    let layer = Layer::new("lint-recipe-qa");
    let configuration = layer.write(
        "conf/layer.conf",
        &[
            "BBPATH .= \":${LAYERDIR}\"\n",
            "BBFILE_COLLECTIONS += \"test\"\n",
            "BBFILE_PATTERN_test = \"^${LAYERDIR}/\"\n",
            "BBFILE_PRIORITY_test = \"1\"\n",
            "LAYERSERIES_COMPAT_test = \"test\"\n",
        ].concat(),
    );
    let source: &str = &[
        "PN = \"other\"\n",
        "PV = \"2.0\"\n",
        "LICENSE = \"MIT\"\n",
        "LIC_FILES_CHKSUM = \"file://LICENSE\"\n",
        "SRC_URI = \"https://example.invalid/source.tar.gz;branch=main git://example.invalid/source.git;protocol=https;protocol=https\"\n",
        "PACKAGECONFIG = \"defined missing\"\n",
        "PACKAGECONFIG[defined] = \"--enable-defined\"\n",
        "PACKAGES = \"${PN} pkg pkg\"\n",
        "FILES:missing = \"/missing\"\n",
    ].concat();
    let recipe = layer.write("recipes-example/wrong_1.0.bb", source);
    let index = index(&[&layer], &[&configuration, &recipe]);

    let diagnostics =
        lint_with_workspace(source, &recipe, &index, &LintOptions::default()).unwrap();
    let ids = diagnostics
        .iter()
        .map(|diagnostic| diagnostic.rule_id())
        .collect::<Vec<_>>();

    for expected in [
        "BBT020", "BBT021", "BBT022", "BBT023", "BBT024", "BBT025", "BBT026", "BBT027", "BBT028",
    ] {
        assert!(ids.contains(&expected), "missing {expected} in {ids:?}");
    }
}

#[test]
fn broader_recipe_qa_accepts_valid_checksums_packageconfig_and_package_scope() {
    let layer = Layer::new("lint-recipe-qa-clean");
    let configuration = layer.write(
        "conf/layer.conf",
        &[
            "BBPATH .= \":${LAYERDIR}\"\n",
            "BBFILE_COLLECTIONS += \"test\"\n",
            "BBFILE_PATTERN_test = \"^${LAYERDIR}/\"\n",
            "BBFILE_PRIORITY_test = \"1\"\n",
            "LAYERSERIES_COMPAT_test = \"test\"\n",
        ].concat(),
    );
    let source: &str = &[
        "SUMMARY = \"example\"\n",
        "DESCRIPTION = \"example\"\n",
        "LICENSE = \"MIT\"\n",
        "LIC_FILES_CHKSUM = \"file://LICENSE;md5=0123456789abcdef0123456789abcdef\"\n",
        "SRC_URI = \"https://example.invalid/source.tar.gz;sha256sum=0123456789abcdef0123456789abcdef0123456789abcdef0123456789abcdef\"\n",
        "PACKAGECONFIG = \"feature\"\n",
        "PACKAGECONFIG[feature] = \"--enable-feature,--disable-feature,feature-dependency\"\n",
        "PACKAGES = \"valid valid-dev\"\n",
        "FILES:valid-dev = \"/usr/include\"\n",
    ].concat();
    let recipe = layer.write("recipes-example/valid_1.0.bb", source);
    let index = index(&[&layer], &[&configuration, &recipe]);

    let diagnostics =
        lint_with_workspace(source, &recipe, &index, &LintOptions::default()).unwrap();
    assert!(
        diagnostics.is_empty(),
        "unexpected diagnostics for valid recipe QA metadata: {diagnostics:?}"
    );
}

#[test]
fn layer_qa_rules_validate_collections_patterns_priorities_dependencies_and_compatibility() {
    let layer = Layer::new("lint-layer-qa");
    let source: &str = &[
        "BBPATH .= \":${LAYERDIR}\"\n",
        "BBFILE_COLLECTIONS = \"test test\"\n",
        "BBFILE_PATTERN_test = \"\"\n",
        "BBFILE_PRIORITY_test = \"not-an-integer\"\n",
        "LAYERDEPENDS_test = \"missing\"\n",
    ].concat();
    let configuration = layer.write("conf/layer.conf", source);
    let index = index(&[&layer], &[&configuration]);

    let diagnostics =
        lint_with_workspace(source, &configuration, &index, &LintOptions::default()).unwrap();
    let ids = diagnostics
        .iter()
        .map(|diagnostic| diagnostic.rule_id())
        .collect::<Vec<_>>();

    assert!(ids.contains(&"BBT029"));
    assert!(ids.contains(&"BBT030"));
    assert!(ids.contains(&"BBT031"));
    assert!(ids.contains(&"BBT032"));
    assert!(ids.contains(&"BBT033"));
}

#[test]
fn broader_lint_rules_require_metadata_for_complete_recipe_workspaces() {
    let layer = Layer::new("lint-recipe-metadata");
    let configuration = layer.write("conf/layer.conf", "BBPATH .= \":${LAYERDIR}\"\n");
    let source = "SUMMARY = \"example\"\n";
    let recipe = layer.write("recipes-example/example.bb", source);
    let index = index(&[&layer], &[&configuration, &recipe]);

    let diagnostics =
        lint_with_workspace(source, &recipe, &index, &LintOptions::default()).unwrap();
    assert_eq!(
        diagnostics
            .iter()
            .map(|diagnostic| diagnostic.rule_id())
            .collect::<Vec<_>>(),
        ["BBT012", "BBT013"]
    );
    assert!(diagnostics[0].message().contains("DESCRIPTION"));
    assert!(diagnostics[1].message().contains("LICENSE"));

    let isolated = lint(source).unwrap();
    assert!(isolated.is_empty());
}

#[test]
fn lint_failure_policy_uses_effective_diagnostic_severity() {
    let warning_diagnostics = lint("SRCREV = \"${AUTOREV}\"\n").unwrap();
    let mut options = LintOptions::default();

    assert_eq!(options.fail_on(), LintFailurePolicy::Warning);
    assert!(options.has_blocking_findings(&warning_diagnostics));

    options.set_fail_on(LintFailurePolicy::Error);
    assert!(!options.has_blocking_findings(&warning_diagnostics));

    options.set_fail_on(LintFailurePolicy::Never);
    assert!(!options.has_blocking_findings(&warning_diagnostics));

    options.set_fail_on(LintFailurePolicy::Info);
    options.set_severity("BBT004", LintSeverity::Info);
    let info_diagnostics = lint_with_options("SRCREV = \"${AUTOREV}\"\n", &options).unwrap();
    assert_eq!(info_diagnostics[0].severity(), LintSeverity::Info);
    assert!(options.has_blocking_findings(&info_diagnostics));

    options.set_fail_on(LintFailurePolicy::Warning);
    assert!(!options.has_blocking_findings(&info_diagnostics));
}

#[test]
fn workspace_lint_reports_same_priority_ambiguities() {
    let first = Layer::new("lint-ambiguity-first");
    let second = Layer::new("lint-ambiguity-second");
    let consumer = Layer::new("lint-ambiguity-consumer");
    let first_conf = first.write("conf/layer.conf", "BBFILE_PRIORITY_first = \"5\"\n");
    let second_conf = second.write("conf/layer.conf", "BBFILE_PRIORITY_second = \"5\"\n");
    let consumer_conf = consumer.write("conf/layer.conf", "BBFILE_PRIORITY_consumer = \"1\"\n");
    let first_class = first.write("classes/base.bbclass", "BASE = \"first\"\n");
    let second_class = second.write("classes/base.bbclass", "BASE = \"second\"\n");
    let first_include = first.write("common.inc", "COMMON = \"first\"\n");
    let second_include = second.write("common.inc", "COMMON = \"second\"\n");
    let recipe = consumer.write(
        "recipes-example/example.bb",
        "include missing.inc\ninclude_all common.inc\nrequire common.inc\ninherit base\nSUMMARY = \"example\"\nDESCRIPTION = \"example\"\nLICENSE = \"CLOSED\"\n",
    );
    let index = index(
        &[&first, &second, &consumer],
        &[
            &first_conf,
            &second_conf,
            &consumer_conf,
            &first_class,
            &second_class,
            &first_include,
            &second_include,
            &recipe,
        ],
    );

    let diagnostics = lint_with_workspace(
        "include missing.inc\ninclude_all common.inc\nrequire common.inc\ninherit base\nSUMMARY = \"example\"\nDESCRIPTION = \"example\"\nLICENSE = \"CLOSED\"\n",
        &recipe,
        &index,
        &LintOptions::default(),
    )
    .unwrap();

    assert_eq!(
        diagnostics
            .iter()
            .map(|diagnostic| diagnostic.rule_id())
            .collect::<Vec<_>>(),
        ["BBT008", "BBT009"]
    );
    assert!(diagnostics[0].message().contains("priority 5"));
    assert!(diagnostics[1].message().contains("priority 5"));
    assert!(diagnostics[0].message().contains("resolves to"));
    assert!(diagnostics[0].message().contains("BBPATH"));
}

#[test]
fn workspace_lint_reports_static_cycles_and_skips_dynamic_references() {
    let layer = Layer::new("lint-dependency-cycle");
    let configuration = layer.write("conf/layer.conf", "BBPATH .= \":${LAYERDIR}\"\n");
    let class = layer.write(
        "classes/base.bbclass",
        "require recipes-example/example/example.bb\n",
    );
    let helper = layer.write("recipes-example/example/helper.inc", "require example.bb\n");
    let required = layer.write(
        "recipes-example/example/required.inc",
        "require example.bb\n",
    );
    let shared = layer.write("shared.inc", "require recipes-example/example/example.bb\n");
    let source: &str = &[
        "include helper.inc\n",
        "include_all shared.inc\n",
        "require required.inc\n",
        "inherit base\n",
        "include ${DYNAMIC}\n",
        "SUMMARY = \"example\"\n",
        "DESCRIPTION = \"example\"\n",
        "LICENSE = \"CLOSED\"\n",
    ].concat();
    let recipe = layer.write("recipes-example/example/example.bb", source);
    let index = index(&[&layer], &[&configuration, &class, &helper, &required, &shared, &recipe]);

    let diagnostics =
        lint_with_workspace(source, &recipe, &index, &LintOptions::default()).unwrap();

    assert_eq!(
        diagnostics
            .iter()
            .map(|diagnostic| diagnostic.rule_id())
            .collect::<Vec<_>>(),
        ["BBT010", "BBT010", "BBT010", "BBT010"]
    );
    assert_eq!(
        diagnostics
            .iter()
            .map(|diagnostic| (diagnostic.line(), diagnostic.column()))
            .collect::<Vec<_>>(),
        [(1, 9), (2, 13), (3, 9), (4, 9)]
    );
    assert!(diagnostics[0].message().contains("current file directory"));
    assert!(diagnostics[1].message().contains("BBPATH"));
    assert!(diagnostics[3].message().contains("classes on BBPATH"));
}

#[test]
fn workspace_lint_uses_global_and_recipe_class_namespaces() {
    let layer = Layer::new("lint-global-class-scope");
    let configuration_source: &str = &[
        "BBPATH .= \":${LAYERDIR}\"\n",
        "BBFILE_COLLECTIONS += \"test\"\n",
        "BBFILE_PATTERN_test = \"^${LAYERDIR}/\"\n",
        "BBFILE_PRIORITY_test = \"1\"\n",
        "LAYERSERIES_COMPAT_test = \"test\"\n",
        "INHERIT += \"global-base missing-global ${DYNAMIC}\"\n",
        "INHERIT:remove = \"missing-removed\"\n",
        "USER_CLASSES += \"metrics\"\n",
    ].concat();
    let configuration = layer.write("conf/layer.conf", configuration_source);
    let global_base = layer.write(
        "classes-global/global-base.bbclass",
        "inherit global-helper recipe-only\n",
    );
    let global_helper = layer.write(
        "classes-global/global-helper.bbclass",
        "ORIGIN = \"global\"\n",
    );
    let global_only = layer.write(
        "classes-global/global-only.bbclass",
        "ORIGIN = \"global\"\n",
    );
    let recipe_helper = layer.write(
        "classes-recipe/recipe-helper.bbclass",
        "ORIGIN = \"recipe\"\n",
    );
    let recipe_only = layer.write(
        "classes-recipe/recipe-only.bbclass",
        "ORIGIN = \"recipe\"\n",
    );
    let metrics = layer.write("classes/metrics.bbclass", "ORIGIN = \"shared\"\n");
    let recipe_source: &str = &[
        "inherit recipe-helper global-only\n",
        "SUMMARY = \"example\"\n",
        "DESCRIPTION = \"example\"\n",
        "LICENSE = \"CLOSED\"\n",
    ].concat();
    let recipe = layer.write("recipes-example/example.bb", recipe_source);
    let index = index(
        &[&layer],
        &[
            &configuration,
            &global_base,
            &global_helper,
            &global_only,
            &recipe_helper,
            &recipe_only,
            &metrics,
            &recipe,
        ],
    );

    let configuration_diagnostics = lint_with_workspace(
        configuration_source,
        &configuration,
        &index,
        &LintOptions::default(),
    )
    .unwrap();
    assert_eq!(configuration_diagnostics.len(), 1);
    assert_eq!(configuration_diagnostics[0].rule_id(), "BBT007");
    assert!(
        configuration_diagnostics[0]
            .message()
            .contains("missing-global")
    );

    let global_diagnostics = lint_with_workspace(
        "inherit global-helper recipe-only\n",
        &global_base,
        &index,
        &LintOptions::default(),
    )
    .unwrap();
    assert_eq!(global_diagnostics.len(), 1);
    assert_eq!(global_diagnostics[0].rule_id(), "BBT007");
    assert!(global_diagnostics[0].message().contains("recipe-only"));

    let recipe_diagnostics =
        lint_with_workspace(recipe_source, &recipe, &index, &LintOptions::default()).unwrap();
    assert_eq!(recipe_diagnostics.len(), 1);
    assert_eq!(recipe_diagnostics[0].rule_id(), "BBT007");
    assert!(recipe_diagnostics[0].message().contains("global-only"));
}

#[test]
fn workspace_lint_reports_global_inherit_cycles() {
    let layer = Layer::new("lint-global-inherit-cycle");
    let configuration_source: &str = &[
        "BBPATH .= \":${LAYERDIR}\"\n",
        "BBFILE_COLLECTIONS += \"test\"\n",
        "BBFILE_PATTERN_test = \"^${LAYERDIR}/\"\n",
        "BBFILE_PRIORITY_test = \"1\"\n",
        "LAYERSERIES_COMPAT_test = \"test\"\n",
        "INHERIT += \"global-base\"\n",
    ].concat();
    let configuration = layer.write("conf/layer.conf", configuration_source);
    let global_base = layer.write(
        "classes-global/global-base.bbclass",
        "require conf/layer.conf\n",
    );
    let index = index(&[&layer], &[&configuration, &global_base]);

    let diagnostics = lint_with_workspace(
        configuration_source,
        &configuration,
        &index,
        &LintOptions::default(),
    )
    .unwrap();

    assert_eq!(diagnostics.len(), 1);
    assert_eq!(diagnostics[0].rule_id(), "BBT010");
    assert_eq!((diagnostics[0].line(), diagnostics[0].column()), (6, 13));
    assert!(
        diagnostics[0]
            .message()
            .contains("static INHERIT dependency")
    );
    assert!(
        diagnostics[0]
            .message()
            .contains("classes-global on BBPATH")
    );
}

#[test]
fn files_outside_a_complete_layer_are_linted_alone() {
    let layer = Layer::new("incomplete");
    let recipe = layer.write("recipes/a/a_1.0.bb", "require missing.inc\ninherit missing\n");
    let other = layer.write("recipes/a/a.inc", "require missing.inc\ninherit missing missing\n");
    let index = index(&[&layer], &[&recipe, &other]);
    let options = LintOptions::default();
    assert!(!index.is_complete_for(&recipe));
    let searched = ["BBT006", "BBT007", "BBT008", "BBT009", "BBT010", "BBT011", "BBT012", "BBT013"];
    let found = lint_with_workspace("require missing.inc\ninherit missing\n", &recipe, &index, &options)
        .unwrap();
    assert!(found.iter().all(|d| !searched.contains(&d.rule_id())));
    let source = "require missing.inc\ninherit missing missing\n";
    assert_eq!(
        lint_with_workspace(source, &other, &index, &options).unwrap(),
        lint_with_options(source, &options).unwrap()
    );
}

#[test]
fn body_findings_are_reported_in_a_workspace() {
    let layer = Layer::new("bodies");
    let recipe = layer.write("recipes/a/a.inc", "do_x() {\n    echo a\n}\n");
    let index = index(&[&layer], &[&recipe]);
    let options = LintOptions::default();
    let tree = parse("do_x() {\n    echo a\n}\n").unwrap();
    assert!(lint_syntax_with_workspace(&tree, &recipe, &index, &options).is_empty());
    let finding = BodyDiagnostic::new(BodyDiagnosticKind::ShellSyntax, TextRange::new(4, 8), "odd");
    let bodies = vec![vec![finding]];
    let found =
        lint_syntax_with_workspace_and_bodies(&tree, &bodies, &recipe, &index, &options);
    assert_eq!(found.len(), 1);
    assert_eq!(found[0].rule_id(), "BBT034");
}
