use bbtidy::{LintRule, LintSeverity, lint, lint_rules};

#[test]
fn exposes_stable_rule_metadata() {
    assert_eq!(
        lint_rules().iter().map(LintRule::id).collect::<Vec<_>>(),
        [
            "BBT001", "BBT002", "BBT003", "BBT004", "BBT005", "BBT006", "BBT007", "BBT008",
            "BBT009", "BBT010", "BBT011", "BBT012", "BBT013", "BBT014", "BBT015", "BBT016",
            "BBT017", "BBT018", "BBT019", "BBT020", "BBT021", "BBT022", "BBT023", "BBT024",
            "BBT025", "BBT026", "BBT027", "BBT028", "BBT029", "BBT030", "BBT031", "BBT032",
            "BBT033", "BBT034", "BBT035", "BBT036",
        ]
    );
    assert!(
        lint_rules()[..18]
            .iter()
            .all(|rule| rule.severity() == LintSeverity::Warning)
    );
    assert_eq!(lint_rules()[18].severity(), LintSeverity::Error);
}

#[test]
fn reports_whitespace_and_final_newline_locations() {
    let diagnostics = lint("SUMMARY = \"demo\"  \nLICENSE = \"MIT\"").unwrap();

    assert_eq!(diagnostics.len(), 2);
    assert_eq!(
        (
            diagnostics[0].rule_id(),
            diagnostics[0].line(),
            diagnostics[0].column()
        ),
        ("BBT001", 1, 17)
    );
    assert_eq!(
        (
            diagnostics[1].rule_id(),
            diagnostics[1].line(),
            diagnostics[1].column()
        ),
        ("BBT002", 2, 16)
    );

    let utf8 = lint("# é  \n").unwrap();
    assert_eq!((utf8[0].line(), utf8[0].column()), (1, 4));
}

#[test]
fn reports_long_literal_summary_but_skips_dynamic_values() {
    let long_summary = "a".repeat(81);
    let input = format!(
        "SUMMARY = \"{long_summary}\"\nSUMMARY:class-native = \"${{SUMMARY}} extension\"\n"
    );
    let diagnostics = lint(&input).unwrap();

    assert_eq!(diagnostics.len(), 1);
    assert_eq!(diagnostics[0].rule_id(), "BBT003");
    assert_eq!(diagnostics[0].line(), 1);
    assert!(diagnostics[0].message().contains("81 characters"));
}

#[test]
fn reports_autorev_for_named_and_overridden_srcrev() {
    let input: &str = &[
        "SRCREV = \"${AUTOREV}\"\n",
        "SRCREV:machine ?= '${AUTOREV}'\n",
        "SRCREV_meta = \"fixed\"\n",
        "OTHER = \"${AUTOREV}\"\n",
        "SRCREV = \"fixed\" # ${AUTOREV}\n",
    ].concat();
    let diagnostics = lint(input).unwrap();

    let autorev = diagnostics
        .iter()
        .filter(|item| item.rule_id() == "BBT004")
        .collect::<Vec<_>>();
    assert_eq!(autorev.len(), 2);
    assert_eq!(autorev[0].line(), 1);
    assert_eq!(autorev[1].line(), 2);
    assert!(
        diagnostics
            .iter()
            .any(|item| item.rule_id() == "BBT016" && item.line() == 5)
    );
}

#[test]
fn reports_static_duplicate_inherits_outside_function_bodies() {
    let input: &str = &[
        "inherit autotools pkgconfig\n",
        "inherit_defer cmake autotools\n",
        "inherit ${VARNAME} ${VARNAME}\n",
        "inherit ${@bb.utils.contains('FEATURES', 'x', 'dynamic', '', d)}\n",
        "inherit ${@bb.utils.contains('FEATURES', 'x', 'dynamic', '', d)}\n",
        "do_example() {\n",
        "    inherit autotools\n",
        "}\n",
    ].concat();
    let diagnostics = lint(input).unwrap();

    assert_eq!(diagnostics.len(), 1);
    assert_eq!(diagnostics[0].rule_id(), "BBT005");
    assert_eq!(diagnostics[0].line(), 2);
    assert_eq!(diagnostics[0].column(), 21);
}

#[test]
fn malformed_input_returns_a_structural_error() {
    let error = lint("BROKEN = \"value\n").unwrap_err();

    assert_eq!(error.line(), 1);
    assert_eq!(
        error.message(),
        "top-level assignment contains an unclosed quote"
    );
}
