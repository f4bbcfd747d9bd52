use bbtidy::{
    AssignmentOperator, DirectiveKeyword, FunctionKind, SyntaxKind, SyntaxNode, TextRange,
    format_syntax, lint_syntax, parse,
};

#[test]
fn tree_is_lossless_and_ranges_are_contiguous() {
    let source: &str = &[
        "# heading\r\n",
        "\r\n",
        "export FOO:append = \" value\"\n",
        "inherit base \\\n",
        "  extra\n",
        "python do_build() {\n",
        "    value = \"}\" # not the end\n",
        "}\n",
        "def helper(d):\n",
        "    return d.getVar(\"FOO\")\n",
        "opaque syntax\n",
    ].concat();
    let tree = parse(source).unwrap();

    let rebuilt: String = tree.nodes().iter().map(SyntaxNode::text).collect();
    assert_eq!(rebuilt, source);
    assert_eq!(tree.source(), source);

    let mut expected_start = 0;
    for node in tree.nodes() {
        assert_eq!(node.range().start(), expected_start);
        assert_eq!(
            node.text(),
            &source[node.range().start()..node.range().end()]
        );
        expected_start = node.range().end();
    }
    assert_eq!(expected_start, source.len());
}

#[test]
fn exposes_structured_top_level_nodes() {
    let source: &str = &[
        "export FOO:append = \" value\"\n",
        "inherit base \\\n",
        "  extra\n",
        "fakeroot python do_install() {\n",
        "}\n",
        "def helper(d):\n",
        "    pass\n",
    ].concat();
    let tree = parse(source).unwrap();

    let SyntaxKind::Assignment(assignment) = tree.nodes()[0].kind() else {
        panic!("expected assignment");
    };
    assert_eq!(assignment.name(), "FOO:append");
    assert_eq!(assignment.operator(), AssignmentOperator::Assign);
    assert_eq!(assignment.value(), " \" value\"");
    assert!(assignment.is_exported());
    assert_eq!(
        &source[assignment.name_range().start()..assignment.name_range().end()],
        assignment.name()
    );

    let SyntaxKind::Directive(directive) = tree.nodes()[1].kind() else {
        panic!("expected directive");
    };
    assert_eq!(directive.keyword(), DirectiveKeyword::Inherit);
    assert_eq!(directive.arguments(), "base \\\n  extra");
    assert!(directive.is_continued());

    let SyntaxKind::Function(function) = tree.nodes()[2].kind() else {
        panic!("expected function");
    };
    assert_eq!(function.function_kind(), FunctionKind::Python);
    assert_eq!(function.name(), Some("do_install"));
    assert!(function.is_fakeroot());

    let SyntaxKind::PythonDefinition(definition) = tree.nodes()[3].kind() else {
        panic!("expected Python definition");
    };
    assert_eq!(definition.name(), "helper");
}

#[test]
fn retains_blank_comments_and_unknown_syntax() {
    let tree = parse("\n  # comment\nopaque\n").unwrap();
    assert!(matches!(tree.nodes()[0].kind(), SyntaxKind::Blank));
    assert!(matches!(tree.nodes()[1].kind(), SyntaxKind::Comment));
    assert!(matches!(tree.nodes()[2].kind(), SyntaxKind::Unknown));
}

#[test]
fn directives_without_arguments_have_empty_ranges() {
    let tree = parse("include_all\n").unwrap();
    let SyntaxKind::Directive(directive) = tree.nodes()[0].kind() else {
        panic!("expected directive");
    };

    assert_eq!(directive.arguments(), "");
    assert_eq!(directive.arguments_range(), TextRange::new(11, 11));
}

#[test]
fn reports_incomplete_structures() {
    let error = parse("do_build() {\n").unwrap_err();
    assert_eq!(error.line(), 1);
    assert_eq!(error.message(), "function body has no closing brace");

    let error = parse("\nFOO = \"unterminated\n").unwrap_err();
    assert_eq!(error.line(), 2);
    assert_eq!(
        error.message(),
        "top-level assignment contains an unclosed quote"
    );
}

#[test]
fn public_tree_is_lossless_and_exposes_source_ranges() {
    let source: &str = &[
        "# recipe metadata\n",
        "export SUMMARY = \"Example\"\n",
        "inherit base \\\n",
        "  features\n",
        "fakeroot python do_install() {\n",
        "    value = \"}\" # body stays opaque\n",
        "}\n",
    ].concat();

    let tree = parse(source).unwrap();
    let rebuilt: String = tree.nodes().iter().map(|node| node.text()).collect();
    assert_eq!(rebuilt, source);
    assert_eq!(format_syntax(&tree), bbtidy::format(source).unwrap());
    assert_eq!(lint_syntax(&tree), bbtidy::lint(source).unwrap());

    let SyntaxKind::Assignment(assignment) = tree.nodes()[1].kind() else {
        panic!("expected assignment");
    };
    assert_eq!(assignment.name(), "SUMMARY");
    assert_eq!(assignment.operator(), AssignmentOperator::Assign);
    assert!(assignment.is_exported());
    assert_eq!(
        &source[assignment.name_range().start()..assignment.name_range().end()],
        "SUMMARY"
    );

    let SyntaxKind::Directive(directive) = tree.nodes()[2].kind() else {
        panic!("expected directive");
    };
    assert_eq!(directive.keyword(), DirectiveKeyword::Inherit);
    assert!(directive.is_continued());

    let SyntaxKind::Function(function) = tree.nodes()[3].kind() else {
        panic!("expected function");
    };
    assert_eq!(function.function_kind(), FunctionKind::Python);
    assert_eq!(function.name(), Some("do_install"));
    assert!(function.is_fakeroot());
    assert_eq!(
        &source[function.body_range().start()..function.body_range().end()],
        "\n    value = \"}\" # body stays opaque\n"
    );

    let python_source = "def helper(d):\n    return d.getVar(\"FOO\")\nNEXT = \"value\"\n";
    let python_tree = parse(python_source).unwrap();
    let SyntaxKind::PythonDefinition(definition) = python_tree.nodes()[0].kind() else {
        panic!("expected Python definition");
    };
    assert_eq!(
        &python_source[definition.body_range().start()..definition.body_range().end()],
        "    return d.getVar(\"FOO\")\n"
    );
}

#[test]
fn representative_bitbake_constructs_are_lossless_and_idempotent() {
    let cases = [
        (
            "modern metadata",
            &[
                "export RDEPENDS:${PN}:class-native[doc] = \" \\\n",
                "\tpython3 \\\n",
                "\t\"\n",
                "include_all conf/distro/include/maintainers.inc\n",
                "addfragments conf/fragments OE_FRAGMENTS OE_METADATA OE_BUILTIN\n",
                "inherit_defer ${@bb.utils.contains('DISTRO_FEATURES', 'x', 'class-x', '', d)}\n",
            ].concat(),
        ),
        (
            "opaque shell and python",
            &[
                "fakeroot do_install() {\n",
                "\tcat <<-EOF > ${D}/value\n",
                "\t}\n",
                "\tEOF\n",
                "}\n",
                "python () {\n",
                "    value = '}'; # body remains opaque\n",
                "}\n",
                "def helper(d):\n",
                "    return d.getVar('FOO')\n",
            ].concat(),
        ),
        (
            "legacy and modern operators",
            &[
                "A=\"a\"\n",
                "B  :=\"b\"\n",
                "C?=\"c\"\n",
                "D??=\"d\"\n",
                "E+=\"e\"\n",
                "F=+\"f\"\n",
                "G.=\"g\"\n",
                "H=.\"h\"\n",
            ].concat(),
        ),
    ];

    for (name, source) in cases {
        let tree = parse(source).unwrap_or_else(|error| panic!("{name} did not parse: {error:?}"));
        let rebuilt: String = tree.nodes().iter().map(|node| node.text()).collect();
        assert_eq!(rebuilt, *source, "{name} was not lossless");

        let formatted = format_syntax(&tree);
        let reparsed = parse(&formatted)
            .unwrap_or_else(|error| panic!("formatted {name} did not parse: {error:?}"));
        assert_eq!(
            format_syntax(&reparsed),
            formatted,
            "{name} was not idempotent"
        );
        let _ = lint_syntax(&tree);
    }
}

#[test]
fn conformance_case_exposes_structured_nodes() {
    let tree = parse(
        "SUMMARY=\"demo\"\ninclude demo.inc\npython do_build() {\n}\ndef helper(d):\n    pass\n",
    )
    .unwrap();

    assert!(
        tree.nodes()
            .iter()
            .any(|node| matches!(node.kind(), SyntaxKind::Assignment(_)))
    );
    assert!(
        tree.nodes()
            .iter()
            .any(|node| matches!(node.kind(), SyntaxKind::Directive(_)))
    );
    assert!(
        tree.nodes()
            .iter()
            .any(|node| matches!(node.kind(), SyntaxKind::Function(_)))
    );
    assert!(
        tree.nodes()
            .iter()
            .any(|node| matches!(node.kind(), SyntaxKind::PythonDefinition(_)))
    );
}
