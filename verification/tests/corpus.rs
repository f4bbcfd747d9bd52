use bbtidy::paths::path_extension;
use std::collections::BTreeSet;

const FIXTURES: [&str; 5] = [
    "conf/layer.conf",
    "classes/example.bbclass",
    "recipes-example/example/example.inc",
    "recipes-example/example/example_1.0.bb",
    "recipes-example/example/example_%.bbappend",
];

#[test]
fn corpus_covers_each_supported_bitbake_file_type() {
    let extensions: BTreeSet<String> =
        FIXTURES.iter().map(|path| path_extension(path).unwrap()).collect();

    assert_eq!(
        extensions,
        BTreeSet::from(["bb", "bbappend", "bbclass", "conf", "inc"].map(str::to_owned))
    );
}
