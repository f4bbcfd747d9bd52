use bbtidy::dependencies::lookup_paths;
use bbtidy::{
    PathTable, WorkspaceClassContext, WorkspaceDependencyKind, WorkspaceFile,
    WorkspaceFileDirective, WorkspaceIndex, WorkspaceSearchScope,
};
use std::cell::RefCell;
use std::collections::{BTreeMap, BTreeSet};

struct Layer {
    root: String,
    files: RefCell<BTreeMap<String, String>>,
}

impl Layer {
    fn new(label: &str) -> Self {
        Self { root: format!("/work/{label}"), files: RefCell::new(BTreeMap::new()) }
    }

    fn write(&self, relative: &str, contents: &str) -> String {
        let path = format!("{}/{relative}", self.root);
        self.files.borrow_mut().insert(path.clone(), contents.to_owned());
        path
    }
}

fn index(layers: &[&Layer], paths: &[&String]) -> WorkspaceIndex {
    let files = paths
        .iter()
        .map(|path| WorkspaceFile {
            path: path.to_string(),
            source: layers.iter().find_map(|layer| layer.files.borrow().get(*path).cloned()),
        })
        .collect();
    WorkspaceIndex::from_paths(&files, PathTable::new(None))
}

#[test]
fn indexes_complete_layers_and_resolves_classes_and_files() {
    let layer = Layer::new("workspace-index");
    let layer_conf = layer.write("conf/layer.conf", "BBPATH .= \":${LAYERDIR}\"\n");
    let class = layer.write("classes/base.bbclass", "BASE = \"1\"\n");
    let common = layer.write("recipes-example/common.inc", "COMMON = \"1\"\n");
    let recipe = layer.write(
        "recipes-example/example.bb",
        "require common.inc\ninherit base\n",
    );

    let index = index(&[&layer], &[&layer_conf, &class, &common, &recipe]);
    let canonical_class = class.clone();
    let canonical_include = common.clone();

    assert!(index.is_complete_for(&recipe));
    assert_eq!(index.resolve_class("base"), Some(canonical_class.clone()));
    assert_eq!(index.resolve_file(&recipe, "common.inc"), Some(canonical_include.clone()));
    assert!(index.resolve_file(&recipe, "missing.inc").is_none());
}

#[test]
fn builds_static_dependency_edges_and_reports_cycle_witnesses() {
    let layer = Layer::new("workspace-dependency-graph");
    let layer_conf = layer.write("conf/layer.conf", "BBPATH .= \":${LAYERDIR}\"\n");
    let class = layer.write(
        "classes/base.bbclass",
        "require recipes-example/example/example.bb\n",
    );
    let helper = layer.write("recipes-example/example/helper.inc", "require example.bb\n");
    let required = layer.write(
        "recipes-example/example/required.inc",
        "require example.bb\n",
    );
    let shared = layer.write("shared.inc", "require recipes-example/example/example.bb\n");
    let recipe = layer.write(
        "recipes-example/example/example.bb",
        &[
            "include helper.inc\n",
            "include_all shared.inc\n",
            "require required.inc\n",
            "inherit base\n",
            "include ${DYNAMIC}\n",
        ].concat(),
    );

    let index = index(&[&layer], &[&layer_conf, &class, &helper, &required, &shared, &recipe]);

    let mut dependencies = index
        .dependencies_from(&recipe)
        .into_iter()
        .map(|dependency| {
            assert_eq!(dependency.from(), recipe.clone());
            (dependency.kind(), dependency.to().to_owned())
        })
        .collect::<Vec<_>>();
    dependencies.sort();
    assert_eq!(
        dependencies,
        vec![
            (
                WorkspaceDependencyKind::Include,
                helper.clone(),
            ),
            (
                WorkspaceDependencyKind::IncludeAll,
                shared.clone(),
            ),
            (
                WorkspaceDependencyKind::Require,
                required.clone(),
            ),
            (
                WorkspaceDependencyKind::Inherit,
                class.clone(),
            ),
        ]
    );

    let cycle = index
        .dependency_cycle(&recipe, &helper)
        .expect("helper should require its source recipe");
    assert_eq!(cycle.first(), cycle.last());
    assert_eq!(cycle.first(), Some(&recipe.clone()));
    assert_eq!(cycle.get(1), Some(&helper.clone()));
}

#[test]
fn incomplete_file_contexts_do_not_appear_complete() {
    let layer = Layer::new("workspace-incomplete");
    layer.write("conf/layer.conf", "BBPATH .= \":${LAYERDIR}\"\n");
    let recipe = layer.write("recipes-example/example.bb", "inherit base\n");
    let index = index(&[&layer], &[&recipe]);

    assert!(!index.is_complete_for(&recipe));
    assert!(index.resolve_class("base").is_none());
    assert!(index.dependencies_from(&recipe).is_empty());
}

#[test]
fn resolves_classes_by_layer_priority_and_retains_candidates() {
    let low = Layer::new("workspace-low-priority");
    let high = Layer::new("workspace-high-priority");
    let low_conf = low.write("conf/layer.conf", "BBFILE_PRIORITY_low = \"5\"\n");
    let high_conf = high.write("conf/layer.conf", "BBFILE_PRIORITY_high = \"10\"\n");
    let low_class = low.write("classes/base.bbclass", "BASE = \"low\"\n");
    let high_class = high.write("classes/base.bbclass", "BASE = \"high\"\n");
    let low_include = low.write("common.inc", "COMMON = \"low\"\n");
    let high_include = high.write("common.inc", "COMMON = \"high\"\n");
    let consumer = Layer::new("workspace-consumer");
    let consumer_conf = consumer.write("conf/layer.conf", "BBFILE_PRIORITY_consumer = \"1\"\n");
    let consumer_recipe = consumer.write("recipes-example/example.bb", "inherit base\n");

    let index = index(
        &[&low, &high, &consumer],
        &[
            &low_conf,
            &high_conf,
            &low_class,
            &high_class,
            &low_include,
            &high_include,
            &consumer_conf,
            &consumer_recipe,
        ],
    );
    let canonical_high = high_class.clone();
    let canonical_low = low_class.clone();

    assert_eq!(index.resolve_class("base"), Some(canonical_high.clone()));
    let canonical_high_include = high_include.clone();
    assert_eq!(
        index.resolve_file(&consumer_recipe, "common.inc"),
        Some(canonical_high_include.clone())
    );
    assert_eq!(
        index
            .class_candidates("base")
            .iter()
            .map(|candidate| (candidate.path(), candidate.priority()))
            .collect::<Vec<_>>(),
        vec![(canonical_high.as_str(), 10), (canonical_low.as_str(), 5)]
    );
}

#[test]
fn follows_bbpath_collection_metadata_and_include_modes() {
    let low = Layer::new("workspace-bbpath-low");
    let high = Layer::new("workspace-bbpath-high");
    let consumer = Layer::new("workspace-bbpath-consumer");
    let low_conf = low.write(
        "conf/layer.conf",
        &[
            "BBFILE_COLLECTIONS += \"low\"\n",
            "BBFILE_PATTERN_low = \"^${LAYERDIR}/\"\n",
            "BBFILE_PRIORITY_low = \"5\"\n",
            "BBPATH .= \":${LAYERDIR}\"\n",
        ].concat(),
    );
    let high_conf = high.write(
        "conf/layer.conf",
        &[
            "BBFILE_COLLECTIONS += \"high\"\n",
            "BBFILE_PATTERN_high = \"^${LAYERDIR}/\"\n",
            "BBFILE_PRIORITY_high = \"10\"\n",
            "BBPATH .= \":${LAYERDIR}\"\n",
        ].concat(),
    );
    let consumer_conf = consumer.write(
        "conf/layer.conf",
        &[
            "BBFILE_COLLECTIONS += \"consumer\"\n",
            "BBFILE_PATTERN_consumer = \"^${LAYERDIR}/\"\n",
            "BBFILE_PRIORITY_consumer = \"1\"\n",
            "BBPATH .= \":${LAYERDIR}\"\n",
        ].concat(),
    );
    let low_include = low.write("shared.inc", "ORIGIN = \"low\"\n");
    let high_include = high.write("shared.inc", "ORIGIN = \"high\"\n");
    let local_include = consumer.write("recipes-example/local.inc", "ORIGIN = \"local\"\n");
    let recipe = consumer.write("recipes-example/example.bb", "require shared.inc\n");

    let index = index(
        &[&low, &high, &consumer],
        &[
            &low_conf,
            &high_conf,
            &consumer_conf,
            &low_include,
            &high_include,
            &local_include,
            &recipe,
        ],
    );

    let require_candidates =
        index.file_candidates_for(&recipe, "shared.inc", WorkspaceFileDirective::Require);
    assert_eq!(require_candidates.len(), 2);
    assert_eq!(require_candidates[0].path(), high_include.clone());
    assert_eq!(require_candidates[0].collection(), Some("high"));
    assert_eq!(require_candidates[0].scope(), WorkspaceSearchScope::Bbpath);
    assert_eq!(require_candidates[1].priority(), 5);
    let dependencies = index.dependencies_from(&recipe);
    assert_eq!(dependencies.len(), 1);
    assert_eq!(dependencies[0].kind(), WorkspaceDependencyKind::Require);
    assert_eq!(dependencies[0].to(), high_include.clone());

    let include_all = index.include_all_candidates(&recipe, "shared.inc");
    assert_eq!(include_all.len(), 2);
    assert!(
        include_all
            .iter()
            .all(|candidate| candidate.scope() == WorkspaceSearchScope::Bbpath)
    );

    let local_candidates =
        index.file_candidates_for(&recipe, "local.inc", WorkspaceFileDirective::Include);
    assert_eq!(local_candidates.len(), 1);
    assert_eq!(local_candidates[0].path(), local_include.clone());
    assert_eq!(local_candidates[0].scope(), WorkspaceSearchScope::CurrentFile);

    let include_all_local = index.include_all_candidates(&recipe, "local.inc");
    assert!(include_all_local.is_empty());
}

#[test]
fn class_search_prefers_classes_recipe_before_classes() {
    let recipe_layer = Layer::new("workspace-class-scope-recipe");
    let global_layer = Layer::new("workspace-class-scope-global");
    let recipe_conf = recipe_layer.write("conf/layer.conf", "BBFILE_PRIORITY_recipe = \"5\"\n");
    let global_conf = global_layer.write("conf/layer.conf", "BBFILE_PRIORITY_global = \"10\"\n");
    let recipe_class = recipe_layer.write("classes-recipe/base.bbclass", "ORIGIN = \"recipe\"\n");
    let global_class = global_layer.write("classes/base.bbclass", "ORIGIN = \"global\"\n");

    let index = index(
        &[&recipe_layer, &global_layer],
        &[
            &recipe_conf,
            &global_conf,
            &recipe_class,
            &global_class,
        ],
    );

    assert_eq!(index.resolve_class("base"), Some(recipe_class.clone()));
    assert_eq!(index.class_candidates("base")[0].scope(), WorkspaceSearchScope::ClassesRecipe);
}

#[test]
fn separates_global_and_recipe_class_namespaces_and_dependencies() {
    let layer = Layer::new("workspace-global-class-scope");
    let layer_conf = layer.write(
        "conf/layer.conf",
        &[
            "BBPATH .= \":${LAYERDIR}\"\n",
            "INHERIT += \"base ${DYNAMIC}\"\n",
            "INHERIT:remove = \"removed\"\n",
            "USER_CLASSES += \"metrics\"\n",
        ].concat(),
    );
    let global_base = layer.write("classes-global/base.bbclass", "inherit helper\n");
    let global_helper = layer.write("classes-global/helper.bbclass", "require conf/layer.conf\n");
    let metrics = layer.write("classes/metrics.bbclass", "ORIGIN = \"shared\"\n");
    let removed = layer.write("classes-global/removed.bbclass", "ORIGIN = \"removed\"\n");
    let recipe_base = layer.write("classes-recipe/base.bbclass", "inherit helper\n");
    let recipe_helper = layer.write("classes-recipe/helper.bbclass", "ORIGIN = \"recipe\"\n");
    let shared_base = layer.write("classes/base.bbclass", "ORIGIN = \"shared\"\n");
    let recipe = layer.write("recipes-example/example.bb", "inherit base\n");

    let index = index(
        &[&layer],
        &[
            &layer_conf,
            &global_base,
            &global_helper,
            &metrics,
            &removed,
            &recipe_base,
            &recipe_helper,
            &shared_base,
            &recipe,
        ],
    );

    let global_candidates = index.class_candidates_for("base", WorkspaceClassContext::Global);
    assert_eq!(
        global_candidates
            .iter()
            .map(|candidate| candidate.scope())
            .collect::<Vec<_>>(),
        [
            WorkspaceSearchScope::ClassesGlobal,
            WorkspaceSearchScope::Classes
        ]
    );
    assert_eq!(global_candidates[0].path(), global_base.clone());

    let recipe_candidates = index.class_candidates_for("base", WorkspaceClassContext::Recipe);
    assert_eq!(
        recipe_candidates
            .iter()
            .map(|candidate| candidate.scope())
            .collect::<Vec<_>>(),
        [
            WorkspaceSearchScope::ClassesRecipe,
            WorkspaceSearchScope::Classes
        ]
    );
    assert_eq!(recipe_candidates[0].path(), recipe_base.clone());
    assert_eq!(index.resolve_class("base"), Some(recipe_base.clone()));
    assert_eq!(index.class_context_for_path(&layer_conf), WorkspaceClassContext::Global);
    assert_eq!(index.class_context_for_path(&global_base), WorkspaceClassContext::Global);
    assert_eq!(index.class_context_for_path(&recipe), WorkspaceClassContext::Recipe);
    assert_eq!(
        index.class_contexts_for_path(&shared_base),
        [WorkspaceClassContext::Recipe, WorkspaceClassContext::Global]
    );

    let configuration_dependencies = index
        .dependencies_from(&layer_conf)
        .into_iter()
        .map(|dependency| (dependency.kind(), dependency.to().to_owned()))
        .collect::<BTreeSet<_>>();
    assert_eq!(
        configuration_dependencies,
        BTreeSet::from([
            (
                WorkspaceDependencyKind::InheritGlobal,
                global_base.clone(),
            ),
            (
                WorkspaceDependencyKind::UserClasses,
                metrics.clone(),
            ),
        ])
    );

    let global_dependencies = index.dependencies_from(&global_base);
    assert_eq!(global_dependencies.len(), 1);
    assert_eq!(global_dependencies[0].to(), global_helper.clone());
    let global_cycle = index
        .dependency_cycle_for(&layer_conf, &global_base, WorkspaceClassContext::Global)
        .expect("the global inheritance chain should return to layer.conf");
    assert_eq!(global_cycle.first(), global_cycle.last());
    assert_eq!(global_cycle.len(), 4);

    let recipe_dependencies = index.dependencies_from(&recipe_base);
    assert_eq!(recipe_dependencies.len(), 1);
    assert_eq!(recipe_dependencies[0].to(), recipe_helper.clone());
}

#[test]
fn file_directives_look_beside_their_file_first() {
    let source = "require ../common.inc ${X}.inc # not this\ninclude /abs/other.inc\ninclude_all conf/all.inc\ninherit base\n";
    assert_eq!(
        lookup_paths("/layer/recipes/demo/demo.bb", source),
        vec!["/layer/recipes/demo/../common.inc".to_owned(), "/abs/other.inc".to_owned()]
    );
    assert!(lookup_paths("/layer/demo.bb", "do_x() {\nrequire a.inc\n").is_empty());
}

#[test]
fn an_empty_index_has_no_cycles() {
    let index = WorkspaceIndex::from_paths(&vec![], PathTable::new(None));
    assert_eq!(index.dependency_cycle("/a.bb", "/a.bb"), None);
    assert_eq!(index.dependency_cycle("/a.bb", "/b.bb"), None);
}

#[test]
fn a_file_that_depends_on_itself_is_a_cycle() {
    let layer = Layer::new("self-cycle");
    let layer_conf = layer.write("conf/layer.conf", "BBPATH .= \":${LAYERDIR}\"\n");
    let own = layer.write("recipes/own.bb", "require own.bb\n");
    let other = layer.write("recipes/other.bb", "A = \"1\"\n");
    let index = index(&[&layer], &[&layer_conf, &own, &other]);
    assert_eq!(index.dependency_cycle(&own, &own), Some(vec![own.clone(), own.clone()]));
    assert_eq!(index.dependency_cycle(&other, &other), None);
}

#[test]
fn classes_are_searched_in_the_directory_of_the_context_first() {
    let layer = Layer::new("class-search");
    let layer_conf = layer.write("conf/layer.conf", "BBPATH .= \":${LAYERDIR}\"\n");
    let shared = layer.write("classes/base.bbclass", "");
    let recipe = layer.write("classes-recipe/base.bbclass", "");
    let global = layer.write("classes-global/base.bbclass", "");
    let index = index(&[&layer], &[&layer_conf, &shared, &recipe, &global]);
    let found = index.class_candidates_for("base", WorkspaceClassContext::Recipe);
    let paths: Vec<&str> = found.iter().map(|candidate| candidate.path()).collect();
    assert_eq!(paths, [recipe.as_str(), shared.as_str()]);
    assert_eq!(found[0].scope(), WorkspaceSearchScope::ClassesRecipe);
    assert_eq!(found[1].scope(), WorkspaceSearchScope::Classes);
    assert_eq!(index.resolve_class_for("base", WorkspaceClassContext::Global), Some(global));
    for class in ["", "a/base", "a\\base", "other"] {
        assert!(index.class_candidates_for(class, WorkspaceClassContext::Global).is_empty());
        assert_eq!(index.resolve_class_for(class, WorkspaceClassContext::Global), None);
    }
}

#[test]
fn the_default_index_holds_no_files() {
    let index = WorkspaceIndex::default();
    assert!(index.files().is_empty());
    assert!(!index.is_complete_for("/a.bb"));
    assert_eq!(index.resolve_class("base"), None);
}

#[test]
fn cycles_are_reported_by_a_shortest_way() {
    let layer = Layer::new("shortest-cycle");
    let layer_conf = layer.write("conf/layer.conf", "BBPATH .= \":${LAYERDIR}\"\n");
    let from = layer.write("recipes/from.bb", "require to.inc\n");
    let to = layer.write("recipes/to.inc", "require long.inc\nrequire short.inc\n");
    let long = layer.write("recipes/long.inc", "require longer.inc\n");
    let longer = layer.write("recipes/longer.inc", "require from.bb\n");
    let short = layer.write("recipes/short.inc", "require from.bb\n");
    let index = index(&[&layer], &[&layer_conf, &from, &to, &long, &longer, &short]);
    assert_eq!(
        index.dependency_cycle(&from, &to),
        Some(vec![from.clone(), to.clone(), short.clone(), from.clone()])
    );
}
