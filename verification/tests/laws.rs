use bbtidy::collections::push_distinct;
use bbtidy::orders::{TextOrder, sort_distinct};
use bbtidy::paths::{
    has_extension, is_layer_configuration, is_path_less, join_path, parent_path, path_ancestors,
    path_file_name, path_file_stem, push_path, strip_root, tidy_path,
};
use bbtidy::{
    AssignmentOperator, BodyDiagnostic, BodyDiagnosticKind, FormatOptions, LintFailurePolicy,
    LintFixError, LintOptions, LintSeverity, MetadataListLayout, SyntaxKind, TextRange, Token,
    apply_lint_fixes, format_syntax_with_options, format_with_options, get_line_col, lint,
    lint_with_options, parse, parse_override_key, parse_override_key_with_overrides,
    resolve_overrides, resolve_overrides_with_active,
};
use bbtidy::lint::lint_syntax_with_bodies;

fn texts(items: &[&str]) -> Vec<String> {
    items.iter().map(|item| item.to_string()).collect()
}

const SAMPLES: [&str; 6] = [
    "",
    "\n\n\nA=\"a\"\r\n\r\n\r\nB ?= 'b' # note\n",
    "inherit   base \\\n   extra\nunknown text here\n\n\n\n",
    "do_x() {\n\n\n  cat <<EOF\n}\nEOF\n}\nexport  FOO:append  =\"v\"\n",
    "python () {\n    x = \"}\"\n}\ndef f(d):\n    return 1\n\n\nC??=\"c\"",
    "\u{e9}t\u{e9} = \"\u{3b2}\"\n# \u{1f600}\n",
];

#[test]
fn trees_hold_the_whole_source() {
    for source in SAMPLES {
        let tree = parse(source).unwrap();
        let rebuilt: String = tree.nodes().iter().map(|node| node.text()).collect();
        assert_eq!(rebuilt, source);
    }
}

#[test]
fn formatting_twice_changes_nothing_more() {
    for source in SAMPLES {
        for limit in [0, 1, 3] {
            let mut options = FormatOptions::default();
            options.max_top_level_blank_lines = limit;
            let once = format_with_options(source, &options).unwrap();
            assert_eq!(format_with_options(&once, &options).unwrap(), once);
        }
    }
}

#[test]
fn list_layout_is_stable_too() {
    let mut options = FormatOptions::default();
    options.metadata_list_layout = MetadataListLayout::OnePerLine;
    let source = "DEPENDS=\"a \\\n  b \\\n c\" # why\nSRC_URI += 'x \\\n\ty \\\n'\n";
    let once = format_with_options(source, &options).unwrap();
    assert_eq!(
        once,
        "DEPENDS = \" \\\n    a \\\n    b \\\n    c \\\n    \" # why\nSRC_URI += ' \\\n    x \\\n    y \\\n    '\n"
    );
    assert_eq!(format_with_options(&once, &options).unwrap(), once);
}

#[test]
fn an_assignment_that_would_open_a_definition_keeps_its_line() {
    for source in [
        "def=foo:\n  do_x() {\nFOO = bar\n}\n",
        "def=foo:\n",
        "def=foo: # x\nB = 2",
    ] {
        let once = bbtidy::format(source).unwrap();
        assert_eq!(once, source);
        assert_eq!(bbtidy::format(&once).unwrap(), once);
    }
    assert_eq!(bbtidy::format("def=foo: \\\n  bar\n").unwrap(), "def = foo: \\\n  bar\n");
    assert_eq!(bbtidy::format("def=foo\n").unwrap(), "def = foo\n");
}

#[test]
fn formatting_keeps_what_statements_say() {
    for source in SAMPLES {
        let tree = parse(source).unwrap();
        let formatted = bbtidy::format(source).unwrap();
        let again = parse(&formatted).unwrap();
        let said = |tree: &bbtidy::SyntaxTree| -> Vec<String> {
            let mut out = vec![];
            for node in tree.nodes() {
                match node.kind() {
                    SyntaxKind::Blank => {}
                    SyntaxKind::Assignment(a) => out.push(format!(
                        "{} {} {} {} {}",
                        a.name(),
                        a.operator().lexeme(),
                        a.value().trim_start_matches([' ', '\t']),
                        a.is_exported(),
                        a.is_continued()
                    )),
                    SyntaxKind::Directive(d) => out.push(format!(
                        "{} {} {}",
                        d.keyword().lexeme(),
                        d.arguments(),
                        d.is_continued()
                    )),
                    _ => out.push(node.text().to_owned()),
                }
            }
            out
        };
        assert_eq!(said(&again), said(&tree));
    }
}

#[test]
fn options_choose_from_the_report_without_options() {
    let source = "A = \"x\"  \nA = \"y\"\ninherit a a\nSRCREV = \"${AUTOREV}\"";
    let all = lint(source).unwrap();
    let mut options = LintOptions::default();
    options.disable_rule("BBT001");
    options.set_severity("BBT005", LintSeverity::Error);
    let chosen = lint_with_options(source, &options).unwrap();
    let kept: Vec<_> = all.iter().filter(|d| d.rule_id() != "BBT001").collect();
    assert_eq!(chosen.len(), kept.len());
    assert_eq!(chosen.len() + 1, all.len());
    for (found, expected) in chosen.iter().zip(kept) {
        assert_eq!(found.rule_id(), expected.rule_id());
        assert_eq!(found.range(), expected.range());
        assert_eq!(found.message(), expected.message());
        assert_eq!(found.fixes(), expected.fixes());
        if found.rule_id() == "BBT005" {
            assert_eq!(found.severity(), LintSeverity::Error);
        } else {
            assert_eq!(found.severity(), expected.severity());
        }
    }
    assert_eq!(
        lint_with_options("A = \"a\n", &options).unwrap_err().to_string(),
        lint("A = \"a\n").unwrap_err().to_string()
    );
}

#[test]
fn only_findings_on_lines_can_be_fixed() {
    let source = "A = \"x\" \t\nA = \"y\"\ninherit a a\nSRCREV = \"${AUTOREV}\"";
    let found = lint(source).unwrap();
    assert!(found.len() > 2);
    for diagnostic in &found {
        assert_eq!(diagnostic.is_fixable(), ["BBT001", "BBT002"].contains(&diagnostic.rule_id()));
    }
    let fixed = apply_lint_fixes(source, &found).unwrap();
    assert_eq!(fixed, "A = \"x\"\nA = \"y\"\ninherit a a\nSRCREV = \"${AUTOREV}\"\n");
    assert!(lint(&fixed).unwrap().iter().all(|diagnostic| !diagnostic.is_fixable()));
}

#[test]
fn fixed_texts_can_be_linted_again() {
    for source in [
        "",
        " ",
        "A = \"x \\ \n  y\t\\\t\n z\" # c  \n",
        "def f(d):  \n    return 1 \n  \nB = 1",
        "A = 'a' \\ \n\nC ??= 2\t",
    ] {
        let fixed = apply_lint_fixes(source, &lint(source).unwrap()).unwrap();
        let left = lint(&fixed).unwrap();
        assert!(left.iter().all(|d| d.rule_id() != "BBT001" && d.rule_id() != "BBT002"));
        let lines: Vec<&str> = source.lines().map(|line| line.trim_end_matches([' ', '\t'])).collect();
        assert_eq!(fixed.lines().collect::<Vec<_>>(), lines);
        assert!(fixed.is_empty() || fixed.ends_with('\n'));
    }
}

#[test]
fn tokens_cover_the_text() {
    for source in SAMPLES {
        let mut lexer = Token::lexer(source);
        let mut end = 0;
        while lexer.next().is_some() {
            assert_eq!(lexer.span().start(), end);
            end = lexer.span().end();
        }
        assert_eq!(end, source.len());
    }
}

#[test]
fn operators_and_tokens_correspond() {
    let mut lexer = Token::lexer("??=");
    let token = lexer.next().unwrap().unwrap();
    assert_eq!(token.assignment_operator(), Some(AssignmentOperator::WeakDefault));
    assert_eq!(AssignmentOperator::WeakDefault.lexeme(), "??=");
}

#[test]
fn distinct_texts_are_kept_once_in_order() {
    let mut items = vec![];
    for item in ["b", "a", "b", "c", "a"] {
        push_distinct(&mut items, item.to_owned());
    }
    assert_eq!(items, ["b", "a", "c"]);
    assert_eq!(sort_distinct(TextOrder::Plain, &texts(&["b", "a", "b"])), ["a", "b"]);
}

#[test]
fn stricter_policies_block_whatever_laxer_ones_block() {
    for severity in [LintSeverity::Info, LintSeverity::Warning, LintSeverity::Error] {
        let blocked = [
            LintFailurePolicy::Never,
            LintFailurePolicy::Error,
            LintFailurePolicy::Warning,
            LintFailurePolicy::Info,
        ]
        .map(|policy| policy.is_blocking(severity));
        assert!(blocked.windows(2).all(|pair| !pair[0] || pair[1]));
        assert_eq!(LintSeverity::from_str(severity.as_str()), Ok(severity));
    }
    assert_eq!(LintFailurePolicy::from_str("never"), Ok(LintFailurePolicy::Never));
    assert_eq!(
        LintSeverity::from_str("fatal"),
        Err("invalid lint severity 'fatal'; expected info, warning, or error".to_owned())
    );
}

#[test]
fn body_findings_are_reported_at_their_place() {
    let tree = parse("do_x() {\n    echo a\n}\n").unwrap();
    let finding = BodyDiagnostic::new(BodyDiagnosticKind::ShellSyntax, TextRange::new(4, 8), "odd");
    let bodies = vec![vec![finding]];
    let found = lint_syntax_with_bodies(&tree, &bodies, &LintOptions::default());
    assert_eq!(found.len(), 1);
    assert_eq!(found[0].rule_id(), "BBT034");
    assert!(found[0].message().contains("odd"));
}

#[test]
fn malformed_sources_are_refused_with_their_line() {
    for (source, line, message) in [
        ("A = \"a\"\ndo_x() {\n  echo\n", 2, "function body has no closing brace"),
        ("A = \"a\n", 1, "top-level assignment contains an unclosed quote"),
        ("A = \"a\" \\\n", 1, "statement ends with an unterminated continuation"),
    ] {
        let error = bbtidy::format(source).unwrap_err();
        assert_eq!(error.line(), line);
        assert_eq!(error.message(), message);
        assert_eq!(error.to_string(), format!("line {line}: {message}"));
    }
}

#[test]
fn deep_inputs_stay_lossless() {
    for repetitions in [32, 64, 128, 256, 512] {
        let shell = format!(
            "do_install() {{\n{}\n}}\n",
            "    echo \"$(printf '%s' \"${D}/usr/bin\")\"".repeat(repetitions)
        );
        let python = format!(
            "def helper(\n    value: str = f\"{{value}}\",\n):\n    \"\"\"opaque {{value}}\n{}\n\"\"\"\n    return value\n",
            "    nested = {\"value\": value}".repeat(repetitions)
        );
        for source in [shell, python] {
            let tree = parse(&source).unwrap();
            let rebuilt: String = tree.nodes().iter().map(|node| node.text()).collect();
            assert_eq!(rebuilt, source);
            assert_eq!(
                format_syntax_with_options(&tree, &FormatOptions::default()),
                source
            );
        }
    }
}

#[test]
fn edits_of_another_text_are_refused() {
    let diagnostics = lint("SUMMARY = \"demo\"  \n").unwrap();
    let error = apply_lint_fixes("A\n", &diagnostics).unwrap_err();
    assert_eq!(error, LintFixError::InvalidRange { start: 16, end: 18 });
}

#[test]
fn modern_keys_do_not_depend_on_active_overrides() {
    let plain = parse_override_key("FILES:pkg:append").unwrap();
    let active = parse_override_key_with_overrides("FILES:pkg:append", &["pkg", "append"]).unwrap();
    assert_eq!(plain.base(), active.base());
    assert_eq!(plain.overrides(), active.overrides());
    assert_eq!(plain.operation(), active.operation());
}

#[test]
fn the_overrides_variable_lists_what_is_active() {
    let tree = parse("OVERRIDES = \"a:b\"\n").unwrap();
    assert_eq!(resolve_overrides(&tree).overrides(), &["a", "b"]);
    let given = resolve_overrides_with_active(&tree, &["x"]);
    assert!(given.overrides().contains(&"x".to_owned()));
}

#[test]
fn keys_that_cannot_be_read_are_refused() {
    for (key, message) in [
        ("FOO[doc", "override key has malformed variable flag"),
        ("FOO[]", "override key has an empty variable flag"),
        ("FOO:${BAR", "override key contains an unclosed variable expansion"),
        ("FOO::machine", "override key contains an empty component"),
        ("FOO:append:remove", "override key contains more than one override operation"),
        ("FOO_append_remove", "legacy override key contains more than one operation"),
    ] {
        let error = parse_override_key(key).unwrap_err();
        assert_eq!(error.message(), message);
        assert_eq!(error.to_string(), message);
    }
}

#[test]
fn places_are_counted_in_characters() {
    assert_eq!(get_line_col("", 0), (1, 1));
    assert_eq!(get_line_col("\u{3b2}\u{3b2}\nx", 4), (1, 3));
    assert_eq!(get_line_col("\u{3b2}\u{3b2}\nx", 5), (2, 1));
}

#[test]
fn paths_are_read_by_their_parts() {
    assert_eq!(tidy_path("/a//b/./c/"), "/a/b/c");
    assert_eq!(join_path("/a", "b/c"), "/a/b/c");
    assert_eq!(push_path("/a", "/b"), "/b");
    assert_eq!(parent_path("/a/b"), Some("/a".to_owned()));
    assert_eq!(parent_path("/"), None);
    assert_eq!(path_ancestors("/a/b"), ["/a/b", "/a", "/"]);
    assert_eq!(path_file_name("/a/b.bb"), Some("b.bb".to_owned()));
    assert_eq!(path_file_stem("/a/b_1.0.bb"), Some("b_1.0".to_owned()));
    assert_eq!(strip_root("/a/b/c", "/a"), Some("b/c".to_owned()));
    assert_eq!(strip_root("/ab/c", "/a"), None);
    assert!(has_extension("/a/b.bbappend", "bbappend"));
    assert!(is_layer_configuration("/a/conf/layer.conf"));
    assert!(is_path_less("/a/b", "/a-b"));
}

fn visible(text: &str, backslashes: bool) -> String {
    text.chars().filter(|c| !c.is_whitespace() && (backslashes || *c != '\\')).collect()
}

#[test]
fn formatting_changes_white_space_only() {
    for source in SAMPLES {
        let formatted = bbtidy::format(source).unwrap();
        assert_eq!(visible(&formatted, true), visible(source, true));
    }
}

#[test]
fn layouts_change_white_space_and_backslashes_only() {
    let mut options = FormatOptions::default();
    options.metadata_list_layout = MetadataListLayout::OnePerLine;
    let source = "DEPENDS=\"a \\\n  b \\\n c\"\nSRC_URI += 'x \\\n\ty'\n";
    let formatted = format_with_options(source, &options).unwrap();
    assert_ne!(visible(&formatted, true), visible(source, true));
    assert_eq!(visible(&formatted, false), visible(source, false));
}

#[test]
fn opaque_parts_are_kept_to_the_letter() {
    let function = "do_x() {\n\n\n  a=1   \n\t}\n}\n";
    let comment = "#  note   \n";
    let definition = "def f(d):\n    return  1\n";
    let source = ["A=\"a\"\n", function, comment, definition, "B=\"b\"\n"].concat();
    let formatted = bbtidy::format(&source).unwrap();
    assert!(formatted.starts_with("A = \"a\"\n"));
    assert!(formatted.contains(function));
    assert!(formatted.contains(comment));
    assert!(formatted.contains(definition));
    assert!(formatted.ends_with("B = \"b\"\n"));
}

#[test]
fn fixes_tidy_lines_and_nothing_else() {
    for (source, fixed) in [
        ("", ""),
        ("A = \"a\"  \nB = \"b\"\t\r\nA = \"c\"", "A = \"a\"\nB = \"b\"\r\nA = \"c\"\n"),
        ("   ", "\n"),
        ("# \u{3b2} \t \n\n \n", "# \u{3b2}\n\n\n"),
    ] {
        let found = lint(source).unwrap();
        assert_eq!(apply_lint_fixes(source, &found).unwrap(), fixed);
        let left = lint(fixed).unwrap();
        assert!(left.iter().all(|diagnostic| !diagnostic.is_fixable()));
        assert_eq!(apply_lint_fixes(fixed, &left).unwrap(), fixed);
    }
}

#[test]
fn fixes_of_disabled_rules_are_left_out() {
    let source = "A = \"a\" \nB = \"b\" ";
    let mut options = LintOptions::default();
    options.disable_rule("BBT001");
    let found = lint_with_options(source, &options).unwrap();
    assert_eq!(apply_lint_fixes(source, &found).unwrap(), "A = \"a\" \nB = \"b\" \n");
    options.disable_rule("BBT002");
    let found = lint_with_options(source, &options).unwrap();
    assert_eq!(apply_lint_fixes(source, &found).unwrap(), source);
}

#[test]
fn a_carriage_return_can_hide_blanks() {
    let source = "# x \r \n";
    let fixed = apply_lint_fixes(source, &lint(source).unwrap()).unwrap();
    assert_eq!(fixed, "# x \r\n");
    assert_eq!(apply_lint_fixes(&fixed, &lint(&fixed).unwrap()).unwrap(), "# x\r\n");
}

#[test]
fn continuation_tails_are_kept_to_the_letter() {
    let tail = "   b \\\n\tc   \\\n\"  # end \n";
    let source = ["SRC_URI=\"a \\\n", tail, "inherit   base \\\n", "    extra  \n"].concat();
    let formatted = bbtidy::format(&source).unwrap();
    assert_eq!(
        formatted,
        ["SRC_URI = \"a \\\n", tail, "inherit base \\\n", "    extra  \n"].concat()
    );
}

#[test]
fn the_most_specific_variant_is_preferred() {
    let tree = parse("A = \"own\"\nA:x:y = \"both\"\nA:x = \"x\"\nA:y = \"y\"\nB:x = \"1\"\nB:x = \"2\"\n").unwrap();
    let found = resolve_overrides_with_active(&tree, &["x", "y"]);
    assert_eq!(found.get("A"), Some("both"));
    assert_eq!(found.get("B"), Some("2"));
    assert_eq!(resolve_overrides_with_active(&tree, &["x"]).get("A"), Some("x"));
    assert_eq!(resolve_overrides_with_active(&tree, &["y"]).get("A"), Some("y"));
    assert_eq!(resolve_overrides_with_active(&tree, &["z"]).get("A"), Some("own"));
}

#[test]
fn inactive_assignments_are_ignored() {
    let with = parse("A = \"own\"\nA:x = \"x\"\nA:append:x = \" more\"\nB = \"b\"\n").unwrap();
    let without = parse("A = \"own\"\nB = \"b\"\n").unwrap();
    let active = ["y"];
    assert_eq!(
        resolve_overrides_with_active(&with, &active).values(),
        resolve_overrides_with_active(&without, &active).values()
    );
}

#[test]
fn lists_of_words_are_found_by_name() {
    let mut lists = bbtidy::environment::WordsMap::new();
    lists.insert("b".to_owned(), texts(&["1"]));
    lists.insert("a".to_owned(), texts(&["2", "3"]));
    lists.insert("b".to_owned(), texts(&["4"]));
    assert_eq!(lists.get("a"), Some(&texts(&["2", "3"])));
    assert_eq!(lists.get("b"), Some(&texts(&["4"])));
    assert_eq!(lists.get("c"), None);
    let names: Vec<&str> = lists.entries().iter().map(|(name, _)| name.as_str()).collect();
    assert_eq!(names, ["a", "b"]);
}
