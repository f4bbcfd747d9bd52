#[test]
fn test_format_spacing() {
    let input = "VAR=\"val\"";
    let expected = "VAR = \"val\"";
    assert_eq!(bbtidy::format(input).unwrap(), expected);

    let input = "VAR  =  \"val\"";
    let expected = "VAR = \"val\"";
    assert_eq!(bbtidy::format(input).unwrap(), expected);
}

#[test]
fn test_format_spacing_insertion() {
    let input = "VAR=\"val\"";
    let expected = "VAR = \"val\"";
    assert_eq!(bbtidy::format(input).unwrap(), expected);
}

#[test]
fn test_format_all_assignment_operators() {
    let input: &str = &[
        "A=\"assign\"\n",
        "B:=\"immediate\"\n",
        "C?=\"default\"\n",
        "D??=\"weak default\"\n",
        "E+=\"append with space\"\n",
        "F=+\"prepend with space\"\n",
        "G.=\"append without space\"\n",
        "H=.\"prepend without space\"\n",
    ].concat();
    let expected: &str = &[
        "A = \"assign\"\n",
        "B := \"immediate\"\n",
        "C ?= \"default\"\n",
        "D ??= \"weak default\"\n",
        "E += \"append with space\"\n",
        "F =+ \"prepend with space\"\n",
        "G .= \"append without space\"\n",
        "H =. \"prepend without space\"\n",
    ].concat();

    assert_eq!(bbtidy::format(input).unwrap(), expected);
}

#[test]
fn test_format_modern_overrides_key_expansion_and_varflags() {
    let input: &str = &[
        "RDEPENDS:${PN}:class-native+=\"package\"\n",
        "do_fetch[network]=\"1\"\n",
        "A${B}:machine:append.=\"suffix\"\n",
        "export PATH:prepend=\"${STAGING_BINDIR_NATIVE}:\"\n",
    ].concat();
    let expected: &str = &[
        "RDEPENDS:${PN}:class-native += \"package\"\n",
        "do_fetch[network] = \"1\"\n",
        "A${B}:machine:append .= \"suffix\"\n",
        "export PATH:prepend = \"${STAGING_BINDIR_NATIVE}:\"\n",
    ].concat();

    assert_eq!(bbtidy::format(input).unwrap(), expected);
}

#[test]
fn test_format_preserves_invalid_variable_shapes() {
    let input = "FOO[flag:override]=\"unchanged\"\nFOO::append=\"unchanged\"\n";

    assert_eq!(bbtidy::format(input).unwrap(), input);
}

#[test]
fn test_format_blank_lines() {
    let input = "VAR = \"val\"\n\n\n\nVAR2 = \"val\"";
    let expected = "VAR = \"val\"\n\nVAR2 = \"val\"";
    assert_eq!(bbtidy::format(input).unwrap(), expected);
}

#[test]
fn test_format_preserves_crlf_line_endings() {
    let input = "VAR=\"val\"\r\n\r\n\r\nOTHER=\"val\"\r\n";
    let expected = "VAR = \"val\"\r\n\r\nOTHER = \"val\"\r\n";

    assert_eq!(bbtidy::format(input).unwrap(), expected);
}

#[test]
fn test_format_handles_utf8_without_panicking() {
    let input = "SUMMARY=\"Résumé de l’application\"\n";
    let expected = "SUMMARY = \"Résumé de l’application\"\n";

    assert_eq!(bbtidy::format(input).unwrap(), expected);
}

#[test]
fn test_format_preserves_unsupported_top_level_syntax() {
    let input = "include conf/distro/example.inc\n!unsupported=value\nVAR=\"formatted\"\n";
    let expected = "include conf/distro/example.inc\n!unsupported=value\nVAR = \"formatted\"\n";

    assert_eq!(bbtidy::format(input).unwrap(), expected);
}

#[test]
fn test_format_preserves_shell_function_body() {
    let input: &str = &[
        "VAR=\"value\"\n",
        "do_configure() {\n",
        "    ./configure --prefix=/usr\n",
        "    local value=unchanged\n",
        "}\n",
        "OTHER  =  \"value\"\n",
    ].concat();
    let expected: &str = &[
        "VAR = \"value\"\n",
        "do_configure() {\n",
        "    ./configure --prefix=/usr\n",
        "    local value=unchanged\n",
        "}\n",
        "OTHER = \"value\"\n",
    ].concat();

    assert_eq!(bbtidy::format(input).unwrap(), expected);
}

#[test]
fn test_format_preserves_nested_braces_in_function_body() {
    let input: &str = &[
        "do_install() {\n",
        "    helper() {\n",
        "        VALUE=unchanged\n",
        "    }\n",
        "    echo \"${VALUE}\"\n",
        "}\n",
        "VAR=\"formatted\"\n",
    ].concat();

    let formatted = bbtidy::format(input).unwrap();
    assert!(formatted.contains("        VALUE=unchanged\n"));
    assert!(formatted.contains("    echo \"${VALUE}\"\n"));
    assert!(formatted.ends_with("VAR = \"formatted\"\n"));
}

#[test]
fn test_format_preserves_quotes_inside_shell_command_substitution() {
    let input: &str = &[
        "do_compile() {\n",
        "    VALUE=\"$(printf '%s' '\"')\"\n",
        "}\n",
        "SUMMARY=\"Example\"\n",
    ].concat();
    let expected: &str = &[
        "do_compile() {\n",
        "    VALUE=\"$(printf '%s' '\"')\"\n",
        "}\n",
        "SUMMARY = \"Example\"\n",
    ].concat();

    assert_eq!(bbtidy::format(input).unwrap(), expected);
}

#[test]
fn test_format_preserves_backslash_at_end_of_shell_single_quote() {
    let input: &str = &[
        "do_install() {\n",
        "    sed -e '$a\\' -e 'VALUE := example' ${D}/Makefile\n",
        "}\n",
        "SUMMARY=\"Example\"\n",
    ].concat();
    let expected: &str = &[
        "do_install() {\n",
        "    sed -e '$a\\' -e 'VALUE := example' ${D}/Makefile\n",
        "}\n",
        "SUMMARY = \"Example\"\n",
    ].concat();

    assert_eq!(bbtidy::format(input).unwrap(), expected);
}

#[test]
fn test_format_preserves_bitbake_python_function_body() {
    let input: &str = &[
        "python do_example() {\n",
        "    values = {\"key\": \"value\"}\n",
        "    result=values[\"key\"]# } remains a comment\n",
        "}\n",
        "VAR=\"formatted\"\n",
    ].concat();

    let formatted = bbtidy::format(input).unwrap();
    assert!(formatted.contains("    result=values[\"key\"]# } remains a comment\n"));
    assert!(formatted.ends_with("VAR = \"formatted\"\n"));
}

#[test]
fn test_format_preserves_python_def_body() {
    let input: &str = &[
        "def get_value(d):\n",
        "    result=d.getVar(\"VALUE\")\n",
        "    return result\n",
        "\n",
        "VAR=\"formatted\"\n",
    ].concat();
    let expected: &str = &[
        "def get_value(d):\n",
        "    result=d.getVar(\"VALUE\")\n",
        "    return result\n",
        "\n",
        "VAR = \"formatted\"\n",
    ].concat();

    assert_eq!(bbtidy::format(input).unwrap(), expected);
}

#[test]
fn test_format_preserves_triple_quoted_python_function_body() {
    let input: &str = &[
        "python __anonymous() {\n",
        "    script = \"\"\"#!/bin/sh\n",
        "echo \"\n",
        "${VALUE}\n",
        "\"\"\"\n",
        "}\n",
        "SUMMARY=\"Example\"\n",
    ].concat();
    let expected: &str = &[
        "python __anonymous() {\n",
        "    script = \"\"\"#!/bin/sh\n",
        "echo \"\n",
        "${VALUE}\n",
        "\"\"\"\n",
        "}\n",
        "SUMMARY = \"Example\"\n",
    ].concat();

    assert_eq!(bbtidy::format(input).unwrap(), expected);
}

#[test]
fn test_format_preserves_combined_function_modifiers() {
    let input: &str = &[
        "fakeroot python do_example() {\n",
        "    first = d.getVar('FIRST')\n",
        "\n",
        "\n",
        "    second = d.getVar('SECOND')\n",
        "}\n",
        "SUMMARY=\"Example\"\n",
    ].concat();
    let expected: &str = &[
        "fakeroot python do_example() {\n",
        "    first = d.getVar('FIRST')\n",
        "\n",
        "\n",
        "    second = d.getVar('SECOND')\n",
        "}\n",
        "SUMMARY = \"Example\"\n",
    ].concat();

    assert_eq!(bbtidy::format(input).unwrap(), expected);
}

#[test]
fn test_format_preserves_continued_statement() {
    let input: &str = &[
        "SRC_URI = \" \\\n",
        "    file://one.patch \\\n",
        "    file://two.patch \\\n",
        "\"\n",
        "VAR=\"formatted\"\n",
    ].concat();

    let formatted = bbtidy::format(input).unwrap();
    assert!(formatted.starts_with("SRC_URI = \" \\\n    file://one.patch \\\n"));
    assert!(formatted.ends_with("VAR = \"formatted\"\n"));
}

#[test]
fn test_format_rejects_unclosed_function_body() {
    let input = "do_install() {\n    ./configure --prefix=/usr\n";
    let error = bbtidy::format(input).unwrap_err();

    assert_eq!(error.line(), 1);
    assert_eq!(error.message(), "function body has no closing brace");
}

#[test]
fn test_format_rejects_unclosed_top_level_quote() {
    let error = bbtidy::format("VAR = \"unterminated\n").unwrap_err();

    assert_eq!(error.line(), 1);
    assert_eq!(
        error.message(),
        "top-level assignment contains an unclosed quote"
    );
}

#[test]
fn test_format_is_idempotent() {
    let input: &str = &[
        "VAR=\"value\"\n",
        "\n",
        "\n",
        "\n",
        "do_compile() {\n",
        "    oe_runmake OPTION=value\n",
        "}\n",
        "OTHER  ?=  \"default\"\n",
    ].concat();
    let once = bbtidy::format(input).unwrap();
    let twice = bbtidy::format(&once).unwrap();

    assert_eq!(once, twice);
}
