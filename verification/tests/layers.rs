use bbtidy::build_layers::{
    LayerFacts, check_build_directory, configuration_directories, enters_directory,
    expand_build_variables, is_bitbake_file, is_workspace_metadata_file, metadata_start,
    parse_build_layers, resolve_layers,
};
use bbtidy::{
    BuildDirFacts, BuildEnvironment, MetadataTree, PathTable, TextMap, WorkspaceFile,
    WorkspaceIndex,
};
use std::collections::BTreeSet;

fn build_facts() -> BuildDirFacts {
    BuildDirFacts {
        failure: None,
        is_directory: true,
        has_local_conf: true,
        has_bblayers_conf: true,
    }
}

fn environment() -> BuildEnvironment {
    BuildEnvironment {
        build_dir: "/work/build".to_owned(),
        variables: TextMap::new(),
        home: Some("/home/me".to_owned()),
    }
}

fn file(path: &str, source: &str) -> WorkspaceFile {
    WorkspaceFile { path: path.to_owned(), source: Some(source.to_owned()) }
}

fn present(path: &str) -> LayerFacts {
    LayerFacts { canonical: Ok(path.to_owned()), has_configuration: true }
}

#[test]
fn indexes_every_layer_and_build_configuration_from_bblayers() {
    let bblayers =
        "BBLAYERS ?= \"${TOPDIR}/../meta-first\"\nBBLAYERS:append = \"${TOPDIR}/../meta-second\"\n";
    let layers = parse_build_layers(bblayers, &environment(), 64).unwrap().unwrap();
    assert_eq!(layers, ["/work/build/../meta-first", "/work/build/../meta-second"]);
    let roots =
        resolve_layers(&layers, &vec![present("/work/meta-first"), present("/work/meta-second")])
            .unwrap();

    let files = vec![
        file("/work/build/conf/bblayers.conf", bblayers),
        file("/work/build/conf/build.inc", "BUILD_CONTEXT = \"1\"\n"),
        file("/work/build/conf/local.conf", "require build.inc\nMACHINE = \"qemux86-64\"\n"),
        file(
            "/work/meta-first/conf/layer.conf",
            "BBFILE_COLLECTIONS += \"first\"\nBBFILE_PRIORITY_first = \"5\"\nBBPATH .= \":${LAYERDIR}\"\n",
        ),
        file("/work/meta-first/recipes-example/example.bb", "inherit shared\n"),
        file("/work/meta-second/classes/shared.bbclass", "SHARED = \"1\"\n"),
        file(
            "/work/meta-second/conf/layer.conf",
            "BBFILE_COLLECTIONS += \"second\"\nBBFILE_PRIORITY_second = \"10\"\nBBPATH .= \":${LAYERDIR}\"\n",
        ),
    ];
    let build_files = files[..3].iter().map(|file| file.path.clone()).collect();
    let index = match WorkspaceIndex::from_build_dir(
        "/work/build",
        false,
        &build_facts(),
        &files,
        &build_files,
        &roots,
        PathTable::new(None),
    ) {
        Ok(index) => index,
        Err(message) => panic!("{message}"),
    };

    let indexed = index.files().iter().map(String::as_str).collect::<BTreeSet<_>>();
    for file in &files {
        assert!(indexed.contains(file.path.as_str()));
    }
    assert!(index.is_workspace_file("/work/build/conf/local.conf"));
    assert!(index.is_workspace_file("/work/meta-first/recipes-example/example.bb"));
    assert_eq!(
        index.resolve_class("shared"),
        Some("/work/meta-second/classes/shared.bbclass".to_owned())
    );
    assert_eq!(
        index.dependencies_from("/work/build/conf/local.conf")[0].to(),
        "/work/build/conf/build.inc"
    );
}

#[test]
fn rejects_dynamic_or_missing_bblayers_entries() {
    let error =
        parse_build_layers("BBLAYERS = \"${@get_layers(d)}\"\n", &environment(), 64).unwrap_err();
    assert!(error.contains("dynamic expansion"));

    let missing = LayerFacts { canonical: Err("not found".to_owned()), has_configuration: false };
    assert!(resolve_layers(&vec!["/gone".to_owned()], &vec![missing]).is_err());
    let bare = LayerFacts { canonical: Ok("/bare".to_owned()), has_configuration: false };
    assert!(resolve_layers(&vec!["/bare".to_owned()], &vec![bare]).is_err());
}

#[test]
fn rejects_symbolic_link_build_directories() {
    let facts = build_facts();
    let build_files = vec!["/work/build/conf/local.conf".to_owned()];
    match WorkspaceIndex::from_build_dir(
        "/work/build-link",
        true,
        &facts,
        &vec![],
        &build_files,
        &vec![],
        PathTable::new(None),
    ) {
        Ok(_) => panic!("a link was followed"),
        Err(error) => assert!(error.to_string().contains("symbolic link")),
    }
    let error = check_build_directory("/work/build-link", true, &facts).unwrap_err();
    assert!(error.contains("symbolic link"));
    assert!(check_build_directory("/work/build", false, &facts).is_ok());
}

#[test]
fn a_build_without_configuration_has_no_index() {
    let result = WorkspaceIndex::from_build_dir(
        "/work/build",
        false,
        &build_facts(),
        &vec![],
        &vec![],
        &vec![],
        PathTable::new(None),
    );
    match result {
        Ok(_) => panic!("an index of nothing"),
        Err(message) => assert_eq!(message, "build configuration contains no metadata files"),
    }
}

#[test]
fn variables_of_the_build_are_expanded() {
    let mut environment = environment();
    environment.variables.insert("OEROOT".to_owned(), "${TOPDIR}/../oe".to_owned());
    assert_eq!(
        expand_build_variables("${OEROOT}/meta", &environment, 8),
        Ok(Some("/work/build/../oe/meta".to_owned()))
    );
    assert_eq!(expand_build_variables("${OEROOT}/meta", &environment, 1), Ok(None));
}

#[test]
fn metadata_is_found_by_place_and_extension() {
    let configured = configuration_directories("/layer/conf/layer.conf");
    assert!(is_bitbake_file("/layer/recipes/a/a.bb", "/layer", &configured));
    assert!(is_bitbake_file("/layer/conf/machine/m.conf", "/layer", &configured));
    assert!(!is_bitbake_file("/layer/recipes/a/a/runtime.conf", "/layer", &configured));
    assert!(!is_bitbake_file("/layer/notes.txt", "/layer", &configured));
    assert!(enters_directory("/layer/recipes"));
    assert!(!enters_directory("/layer/recipes/a/files"));
    assert!(is_workspace_metadata_file(
        "/layer/classes/a.bbclass",
        "/layer",
        MetadataTree::Layer,
        &configured,
    ));
    assert_eq!(metadata_start("/work/build", MetadataTree::Build), "/work/build/conf");
    assert_eq!(metadata_start("/layer", MetadataTree::Layer), "/layer");
}
