use xcodeproj::objects::{PBXGroup, PBXNativeTarget, PBXObject, PBXProj, PBXProject, PBXSourceTree};
use xcodeproj::walk::WalkStep;

fn group(name: Option<&str>, children: &[&str]) -> PBXObject {
    PBXObject::PBXGroup(PBXGroup {
        name: name.map(|n| n.to_string()),
        path: None,
        children: children.iter().map(|c| c.to_string()).collect(),
        source_tree: PBXSourceTree::Group,
    })
}

fn target(name: &str) -> PBXObject {
    PBXObject::PBXNativeTarget(PBXNativeTarget {
        name: name.to_string(),
        product_name: format!("{}Product", name),
        product_install_path: None,
        product_type: "com.apple.product-type.application".to_string(),
    })
}

fn project(main_group: &str, targets: &[&str]) -> PBXObject {
    PBXObject::PBXProject(PBXProject {
        build_configuration_list: "CONF".to_string(),
        compatibility_version: "Xcode 3.2".to_string(),
        development_region: "en".to_string(),
        has_scanned_for_encodings: 0,
        known_regions: vec!["en".to_string(), "Base".to_string()],
        main_group: main_group.to_string(),
        product_ref_group: "PRODUCTS".to_string(),
        project_dir_path: String::new(),
        project_root: String::new(),
        targets: targets.iter().map(|t| t.to_string()).collect(),
    })
}

fn doc(root: &str, objects: Vec<(&str, PBXObject)>) -> PBXProj {
    PBXProj::new(
        1,
        46,
        root.to_string(),
        objects.into_iter().map(|(k, v)| (k.to_string(), v)).collect(),
    )
}

fn ids(steps: &[WalkStep]) -> Vec<(usize, String)> {
    steps.iter().map(|s| (s.depth, s.id.clone())).collect()
}

#[test]
fn minimal_project_with_one_group() {
    let proj = doc("ROOT", vec![("ROOT", project("MAIN", &[])), ("MAIN", group(None, &[]))]);
    assert!(proj.root_project().is_some());
    assert_eq!(proj.groups().len(), 1);
    assert_eq!(proj.targets().len(), 0);
    assert_eq!(proj.archive_version, 1);
    assert_eq!(proj.object_version, 46);
}

#[test]
fn get_finds_stored_keys_only() {
    let proj = doc("ROOT", vec![("ROOT", project("MAIN", &[])), ("MAIN", group(Some("Main"), &[]))]);
    assert!(matches!(proj.get("ROOT"), Some(PBXObject::PBXProject(_))));
    match proj.get("MAIN") {
        Some(PBXObject::PBXGroup(g)) => assert_eq!(g.name.as_deref(), Some("Main")),
        _ => panic!("expected a group"),
    }
    assert!(proj.get("NOPE").is_none());
    assert!(proj.get("").is_none());
}

#[test]
fn empty_table() {
    let proj = doc("ROOT", vec![]);
    assert!(proj.root_project().is_none());
    assert!(proj.get("ROOT").is_none());
    assert!(proj.groups().is_empty());
    assert!(proj.targets().is_empty());
    assert!(proj.walk().is_empty());
    assert!(proj.project_targets().is_empty());
}

#[test]
fn root_of_another_kind_is_not_a_project() {
    let proj = doc("ROOT", vec![("ROOT", group(None, &[]))]);
    assert!(proj.root_project().is_none());
    assert!(proj.get("ROOT").is_some());
    assert!(proj.walk().is_empty());
}

#[test]
fn missing_root_is_not_a_project() {
    let proj = doc("ROOT", vec![("OTHER", project("MAIN", &[]))]);
    assert!(proj.root_project().is_none());
}

#[test]
fn later_entry_for_a_key_wins() {
    let proj = doc(
        "ROOT",
        vec![("ROOT", project("MAIN", &[])), ("X", group(None, &[])), ("X", target("App"))],
    );
    assert!(matches!(proj.get("X"), Some(PBXObject::PBXNativeTarget(_))));
    assert_eq!(proj.groups().len(), 0);
    assert_eq!(proj.targets().len(), 1);
}

#[test]
fn dangling_child_is_skipped() {
    let proj = doc(
        "ROOT",
        vec![
            ("ROOT", project("MAIN", &[])),
            ("MAIN", group(None, &["GONE", "FILE"])),
            ("FILE", PBXObject::PBXFileReference),
        ],
    );
    assert!(proj.get("GONE").is_none());
    assert_eq!(
        ids(&proj.walk()),
        vec![(0, "MAIN".to_string()), (1, "FILE".to_string())]
    );
}

#[test]
fn unknown_kinds_are_neither_groups_nor_targets() {
    let proj = doc(
        "ROOT",
        vec![
            ("ROOT", project("MAIN", &[])),
            ("MAIN", group(None, &[])),
            ("PHASE", PBXObject::PBXSourcesBuildPhase),
            ("PROXY", PBXObject::PBXContainerItemProxy),
            ("BF", PBXObject::PBXBuildFile { file_ref: "FILE".to_string() }),
        ],
    );
    assert!(matches!(proj.get("PHASE"), Some(PBXObject::PBXSourcesBuildPhase)));
    match proj.get("BF") {
        Some(PBXObject::PBXBuildFile { file_ref }) => assert_eq!(file_ref, "FILE"),
        _ => panic!("expected a build file"),
    }
    assert_eq!(proj.groups().len(), 1);
    assert_eq!(proj.targets().len(), 0);
}

#[test]
fn groups_and_targets_in_table_order() {
    let proj = doc(
        "ROOT",
        vec![
            ("A", group(Some("A"), &[])),
            ("T1", target("One")),
            ("ROOT", project("A", &["T1"])),
            ("B", group(Some("B"), &[])),
            ("T2", target("Two")),
        ],
    );
    let names: Vec<Option<String>> = proj.groups().iter().map(|g| g.name.clone()).collect();
    assert_eq!(names, vec![Some("A".to_string()), Some("B".to_string())]);
    let targets: Vec<&str> = proj.targets().iter().map(|t| t.name.as_str()).collect();
    assert_eq!(targets, vec!["One", "Two"]);
}

#[test]
fn project_targets_are_listed_targets_only() {
    let proj = doc(
        "ROOT",
        vec![
            ("ROOT", project("MAIN", &["T2", "MISSING", "MAIN", "T1"])),
            ("MAIN", group(None, &[])),
            ("T1", target("One")),
            ("T2", target("Two")),
            ("T3", target("Three")),
        ],
    );
    assert_eq!(proj.targets().len(), 3);
    let listed: Vec<&str> = proj.project_targets().iter().map(|t| t.name.as_str()).collect();
    assert_eq!(listed, vec!["Two", "One"]);
    assert_eq!(proj.project_targets()[0].product_name, "TwoProduct");
}

#[test]
fn walk_of_nested_groups_is_pre_order() {
    let proj = doc(
        "ROOT",
        vec![
            ("ROOT", project("G1", &[])),
            ("G1", group(Some("one"), &["G2", "F1"])),
            ("G2", group(Some("two"), &["G3", "F2"])),
            ("G3", group(Some("three"), &["F3"])),
            ("F1", PBXObject::PBXFileReference),
            ("F2", PBXObject::PBXFileReference),
            ("F3", PBXObject::PBXFileReference),
        ],
    );
    assert_eq!(
        ids(&proj.walk()),
        vec![
            (0, "G1".to_string()),
            (1, "G2".to_string()),
            (2, "G3".to_string()),
            (3, "F3".to_string()),
            (2, "F2".to_string()),
            (1, "F1".to_string()),
        ]
    );
}

#[test]
fn walk_stops_on_cycles() {
    let proj = doc(
        "ROOT",
        vec![
            ("ROOT", project("A", &[])),
            ("A", group(None, &["B", "A"])),
            ("B", group(None, &["A", "C"])),
            ("C", group(None, &["C"])),
        ],
    );
    assert_eq!(
        ids(&proj.walk()),
        vec![(0, "A".to_string()), (1, "B".to_string()), (2, "C".to_string())]
    );
}

#[test]
fn walk_from_a_leaf_or_a_missing_id() {
    let proj = doc("ROOT", vec![("F", PBXObject::PBXFileReference)]);
    assert_eq!(ids(&proj.walk_from("F")), vec![(0, "F".to_string())]);
    assert!(proj.walk_from("NOPE").is_empty());
}

#[test]
fn resolve_group_filters_by_kind() {
    let proj = doc("ROOT", vec![("G", group(Some("g"), &[])), ("T", target("t"))]);
    assert_eq!(proj.resolve_group("G").unwrap().name.as_deref(), Some("g"));
    assert!(proj.resolve_group("T").is_none());
    assert!(proj.resolve_group("X").is_none());
}

#[test]
fn group_description() {
    let g = PBXGroup {
        name: Some("Sources".to_string()),
        path: Some("src".to_string()),
        children: vec![],
        source_tree: PBXSourceTree::SourceRoot,
    };
    assert_eq!(g.to_string(), "PBXGroup { name: Sources path: src sourceTree: SourceRoot }");
    let bare = PBXGroup { name: None, path: None, children: vec![], source_tree: PBXSourceTree::Group };
    assert_eq!(bare.to_string(), "PBXGroup { sourceTree: Group }");
}

#[test]
fn source_tree_names() {
    assert_eq!(PBXSourceTree::NoTree.name(), "None");
    assert_eq!(PBXSourceTree::Absolute.name(), "Absolute");
    assert_eq!(PBXSourceTree::BuildProductsDir.name(), "BuildProductsDir");
    assert_eq!(PBXSourceTree::SdkRoot.name(), "SdkRoot");
    assert_eq!(PBXSourceTree::DeveloperDir.name(), "DeveloperDir");
}
