use bbtidy::{FormatOptions, MetadataListLayout, format_syntax_with_options, format_with_options, parse};

#[test]
fn formats_continued_assignment_header_without_changing_its_tail() {
    let input: &str = &[
        "SRC_URI  =   \" \\\n",
        "\tfile://one.patch \\\n",
        "      file://two.patch \\\n",
        "\" # keep this comment\n",
    ].concat();
    let expected: &str = &[
        "SRC_URI = \" \\\n",
        "\tfile://one.patch \\\n",
        "      file://two.patch \\\n",
        "\" # keep this comment\n",
    ].concat();

    assert_eq!(bbtidy::format(input).unwrap(), expected);
}

#[test]
fn formats_directive_separator_without_changing_arguments() {
    let input: &str = &[
        "inherit\t  autotools  pkgconfig # keep  comment spacing\n",
        "addtask    package after  do_package before do_build\n",
        "inherit_defer   ${VARNAME} \\\n",
        "\tsecond\n",
        "export   CC\n",
    ].concat();
    let expected: &str = &[
        "inherit autotools  pkgconfig # keep  comment spacing\n",
        "addtask package after  do_package before do_build\n",
        "inherit_defer ${VARNAME} \\\n",
        "\tsecond\n",
        "export CC\n",
    ].concat();

    assert_eq!(bbtidy::format(input).unwrap(), expected);
}

#[test]
fn preserves_crlf_continuations_and_directive_comments() {
    let input =
        "SRC_URI=  \" \\\r\n\tfile://one.patch \\\r\n\"\r\nrequire   example.inc # note\r\n";
    let expected =
        "SRC_URI = \" \\\r\n\tfile://one.patch \\\r\n\"\r\nrequire example.inc # note\r\n";

    assert_eq!(bbtidy::format(input).unwrap(), expected);
}

#[test]
fn lays_out_static_known_metadata_lists_when_enabled() {
    let input: &str = &[
        "SRC_URI  =  \" \\\n",
        "\tfile://one.patch \\\n",
        "      file://two.patch \\\n",
        "      \" # keep this comment\n",
        "DEPENDS= \"build-a \\\n",
        "  build-b \\\n",
        " build-c\"\n",
        "RDEPENDS:${PN} = 'runtime-a \\\n",
        "      runtime-b \\\n",
        "    '\n",
        "OTHER = \"unformatted \\\n",
        "        generic \\\n",
        "\"\n",
    ].concat();
    let expected: &str = &[
        "SRC_URI = \" \\\n",
        "    file://one.patch \\\n",
        "    file://two.patch \\\n",
        "    \" # keep this comment\n",
        "DEPENDS = \" \\\n",
        "    build-a \\\n",
        "    build-b \\\n",
        "    build-c \\\n",
        "    \"\n",
        "RDEPENDS:${PN} = ' \\\n",
        "    runtime-a \\\n",
        "    runtime-b \\\n",
        "    '\n",
        "OTHER = \"unformatted \\\n",
        "        generic \\\n",
        "\"\n",
    ].concat();
    let options = FormatOptions {
        metadata_list_layout: MetadataListLayout::OnePerLine,
        ..FormatOptions::default()
    };
    let formatted = format_syntax_with_options(&parse(input).unwrap(), &options);

    assert_eq!(formatted, expected);
    assert_eq!(
        format_syntax_with_options(&parse(&formatted).unwrap(), &options),
        formatted
    );
}

#[test]
fn metadata_list_layout_skips_dynamic_and_mixed_line_ending_values() {
    let input: &str = &[
        "SRC_URI= \" \\\n",
        "    file://${PN}.patch \\\n",
        "    file://safe.patch \\\n",
        "\"\n",
        "DEPENDS= \" \\\r\n",
        "    build-a \\\n",
        "    build-b \\\n",
        "\"\n",
    ].concat();
    let expected =
        input
            .replacen("SRC_URI=", "SRC_URI =", 1)
            .replacen("DEPENDS=", "DEPENDS =", 1);
    let options = FormatOptions {
        metadata_list_layout: MetadataListLayout::OnePerLine,
        ..FormatOptions::default()
    };

    assert_eq!(
        format_syntax_with_options(&parse(input).unwrap(), &options),
        expected
    );
}

#[test]
fn metadata_list_layout_preserves_crlf() {
    let input: &str = &[
        "SRC_URI= \" \\\r\n",
        "\tfile://one.patch \\\r\n",
        " file://two.patch \\\r\n",
        "\"\r\n",
    ].concat();
    let expected: &str = &[
        "SRC_URI = \" \\\r\n",
        "    file://one.patch \\\r\n",
        "    file://two.patch \\\r\n",
        "    \"\r\n",
    ].concat();
    let options = FormatOptions {
        metadata_list_layout: MetadataListLayout::OnePerLine,
        ..FormatOptions::default()
    };

    assert_eq!(
        format_syntax_with_options(&parse(input).unwrap(), &options),
        expected
    );
}

#[test]
fn top_level_blank_normalization_does_not_reach_function_bodies() {
    let input: &str = &[
        "inherit   base\n",
        "\n",
        "\n",
        "do_example() {\n",
        "\n",
        "\n",
        "    echo unchanged\n",
        "}\n",
        "\n",
        "\n",
        "require   example.inc\n",
    ].concat();
    let expected: &str = &[
        "inherit base\n",
        "\n",
        "do_example() {\n",
        "\n",
        "\n",
        "    echo unchanged\n",
        "}\n",
        "\n",
        "require example.inc\n",
    ].concat();

    assert_eq!(bbtidy::format(input).unwrap(), expected);
}

#[test]
fn configurable_top_level_blank_line_limit_is_idempotent() {
    let source = "A=\"a\"\n\n\nB=\"b\"\n";
    let tree = parse(source).unwrap();
    let options = FormatOptions {
        max_top_level_blank_lines: 2,
        ..FormatOptions::default()
    };
    let formatted = format_syntax_with_options(&tree, &options);

    assert_eq!(formatted, "A = \"a\"\n\n\nB = \"b\"\n");
    assert_eq!(
        format_syntax_with_options(&parse(&formatted).unwrap(), &options),
        formatted
    );
}

#[test]
fn config_wraps_static_single_line_lists_and_directives() {
    let options = FormatOptions {
        metadata_list_layout: MetadataListLayout::OnePerLine,
        ..FormatOptions::default()
    };
    let text = "DEPENDS=\"build-a build-b\"\ninherit autotools pkgconfig\n";
    let expected = "DEPENDS = \" \\\n    build-a \\\n    build-b \\\n    \"\ninherit \\\n    autotools \\\n    pkgconfig\n";
    let once = format_with_options(text, &options).unwrap();
    assert_eq!(once, expected);
    assert_eq!(format_with_options(&once, &options).unwrap(), expected);
}

#[test]
fn one_per_line_leaves_what_it_cannot_move() {
    let options = FormatOptions {
        metadata_list_layout: MetadataListLayout::OnePerLine,
        ..FormatOptions::default()
    };
    for text in [
        "DEPENDS = \"one\"\n",
        "DEPENDS = \"a ${B}\"\n",
        "OTHER = \"a b\"\n",
        "DEPENDS = \"a b\"",
        "inherit one\n",
        "inherit a ${B}\n",
        "inherit a b # note\n",
        "require a b\n",
        "inherit a \\\n  b\n",
        "inherit a b",
    ] {
        assert_eq!(format_with_options(text, &options).unwrap(), text);
    }
    assert_eq!(
        format_with_options("inherit_defer  a\tb  c \r\nSRC_URI:append=' x\ty ' # why\n", &options).unwrap(),
        "inherit_defer \\\r\n    a \\\r\n    b \\\r\n    c\r\nSRC_URI:append = ' \\\n    x \\\n    y \\\n    ' # why\n"
    );
}
