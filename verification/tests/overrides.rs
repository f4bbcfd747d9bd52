use bbtidy::{
    OverrideOperation, parse, parse_override_key, parse_override_key_with_overrides, resolve_overrides,
    resolve_overrides_with_active,
};

#[test]
fn parses_modern_and_legacy_override_keys() {
    let modern = parse_override_key("RDEPENDS:${PN}:class-native").unwrap();
    assert_eq!(modern.base(), "RDEPENDS");
    assert_eq!(
        modern.overrides(),
        &["${PN}".to_owned(), "class-native".to_owned()]
    );
    assert!(modern.is_dynamic());
    assert!(!modern.is_legacy());

    let legacy = parse_override_key_with_overrides(
        "RDEPENDS_${PN}_class-native_append",
        &["class-native"],
    )
    .unwrap();
    assert_eq!(legacy.base(), "RDEPENDS_${PN}");
    assert_eq!(legacy.overrides(), &["class-native".to_owned()]);
    assert_eq!(legacy.operation(), OverrideOperation::Append);
    assert!(legacy.is_legacy());

    let selected =
        parse_override_key_with_overrides("A:class-native:append", &["class-native"]).unwrap();
    assert!(selected.operation_on_selected_value());

    let deferred =
        parse_override_key_with_overrides("A:append:class-native", &["class-native"]).unwrap();
    assert!(!deferred.operation_on_selected_value());

    assert!(parse_override_key("A::append").is_err());
    assert!(parse_override_key("A:append:remove").is_err());
}

#[test]
fn resolves_override_precedence_operations_key_expansion_and_legacy_names() {
    let tree = parse(&[
        "OVERRIDES = \"machine:class-native\"\n",
        "PN = \"demo\"\n",
        "A = \"base\"\n",
        "A:machine = \"machine\"\n",
        "A:class-native = \"native\"\n",
        "A:prepend:class-native = \"prefix \"\n",
        "A:append = \" suffix\"\n",
        "A:remove = \"base\"\n",
        "RDEPENDS_${PN}_class-native = \"native-dependency\"\n",
        "B = \"one\"\n",
        "B_append_class-native = \" two\"\n",
    ].concat())
    .unwrap();
    let resolved = resolve_overrides(&tree);

    assert_eq!(resolved.overrides(), &["machine", "class-native"]);
    assert_eq!(resolved.get("A"), Some("prefix native suffix"));
    assert_eq!(resolved.get("RDEPENDS_demo"), Some("native-dependency"));
    assert_eq!(resolved.get("B"), Some("one two"));
}

#[test]
fn applies_override_operations_in_bitbake_order() {
    let tree = parse(&[
        "OVERRIDES = \"machine\"\n",
        "A = \"one\"\n",
        "A:remove = \"two\"\n",
        "A:append = \" two\"\n",
        "A:prepend = \"prefix \"\n",
        "B = \"base\"\n",
        "B:machine:append = \"-machine\"\n",
        "B:append:machine = \"-deferred\"\n",
    ].concat())
    .unwrap();
    let resolved = resolve_overrides(&tree);

    assert_eq!(resolved.get("A"), Some("prefix one "));
    assert_eq!(resolved.get("B"), Some("-machine-deferred"));
}

#[test]
fn expands_static_keys_after_all_assignments_are_known() {
    let tree = parse(&[
        "A${B} = \"expanded-key\"\n",
        "B = \"2\"\n",
        "A2 = \"literal-key\"\n",
    ].concat())
    .unwrap();
    let resolved = resolve_overrides_with_active(&tree, &[]);

    assert_eq!(resolved.get("A2"), Some("expanded-key"));
}

#[test]
fn caller_can_supply_override_context_when_source_is_dynamic() {
    let tree =
        parse("A = \"base\"\nA:machine = \"machine\"\nA:append:machine = \"!\"\n").unwrap();
    let resolved = resolve_overrides_with_active(&tree, &["machine"]);
    assert_eq!(resolved.get("A"), Some("machine!"));
}

#[test]
fn public_override_parser_normalizes_modern_and_legacy_keys() {
    let modern = parse_override_key("FILES:${PN}:class-native:append").unwrap();
    assert_eq!(modern.base(), "FILES");
    assert_eq!(
        modern.overrides(),
        &["${PN}".to_owned(), "class-native".to_owned()]
    );
    assert_eq!(modern.operation(), OverrideOperation::Append);
    assert!(modern.is_dynamic());
    assert!(modern.operation_on_selected_value());

    let deferred = parse_override_key("FILES:append:class-native").unwrap();
    assert!(!deferred.operation_on_selected_value());

    let legacy =
        parse_override_key_with_overrides("RDEPENDS_${PN}_class-native_append", &["class-native"])
            .unwrap();
    assert_eq!(legacy.base(), "RDEPENDS_${PN}");
    assert_eq!(legacy.overrides(), &["class-native".to_owned()]);
    assert_eq!(legacy.operation(), OverrideOperation::Append);
    assert!(legacy.is_legacy());
}

#[test]
fn public_override_resolver_applies_precedence_and_operations() {
    let tree = parse(&[
        "OVERRIDES = \"machine:class-native\"\n",
        "PN = \"demo\"\n",
        "VALUE = \"base\"\n",
        "VALUE:machine = \"machine\"\n",
        "VALUE:class-native = \"native\"\n",
        "VALUE:prepend:class-native = \"prefix \"\n",
        "VALUE:append = \" suffix\"\n",
        "VALUE:remove = \"base\"\n",
        "RDEPENDS_${PN}_class-native = \"native-dependency\"\n",
    ].concat())
    .unwrap();

    let resolved = resolve_overrides(&tree);
    assert_eq!(resolved.overrides(), &["machine", "class-native"]);
    assert_eq!(resolved.get("VALUE"), Some("prefix native suffix"));
    assert_eq!(resolved.get("RDEPENDS_demo"), Some("native-dependency"));
}

#[test]
fn public_override_resolver_accepts_external_context() {
    let tree = parse("VALUE = \"base\"\nVALUE:machine = \"machine\"\n").unwrap();
    let resolved = resolve_overrides_with_active(&tree, &["machine"]);
    assert_eq!(resolved.get("VALUE"), Some("machine"));
}

#[test]
fn public_override_resolver_expands_static_override_context() {
    let tree = parse(
        "MACHINE = \"machine\"\nOVERRIDES = \"${MACHINE}:class-native\"\nVALUE:machine = \"native\"\n",
    )
    .unwrap();
    let resolved = resolve_overrides(&tree);

    assert_eq!(resolved.overrides(), &["machine", "class-native"]);
    assert_eq!(resolved.get("VALUE"), Some("native"));
}

#[test]
fn a_key_is_expanded_where_its_references_are_known() {
    assert!(!parse_override_key("A:${PN}").unwrap().key_expanded());
    assert!(!parse_override_key("A:b").unwrap().key_expanded());
    let mut values = bbtidy::TextMap::new();
    values.insert("PN".to_owned(), "demo".to_owned());
    let key = bbtidy::keys::parse_key("A:${PN}", &vec![], &values).unwrap();
    assert!(key.key_expanded());
    assert_eq!(key.overrides(), &["demo".to_owned()]);
    assert!(!bbtidy::keys::parse_key("A:${PV}", &vec![], &values).unwrap().key_expanded());
}
