use aorist::access::{
    contains_str, ApproveAccessSelector, RoleBinding, TApproveAccessSelector, TUniverse, Universe,
    User, UserGroup,
};
use aorist::concepts::{
    CSVEncoding, CompressedEncoding, ConceptRef, DataCompression, DerivedAsset, Encoding,
    JSONEncoding, NamedEntities, TSVEncoding,
};
use aorist::dataset::{DataSet, TemplateRef};
use aorist::dialect::{r_preferences, string_lt, sorted_insert, Bash, Dialect, Python, R};

fn cref(uuid: u128, t: &str) -> ConceptRef {
    ConceptRef { uuid, object_type: t.to_string() }
}

fn group(labels: &[(&str, &str)]) -> UserGroup {
    UserGroup {
        name: "g".to_string(),
        labels: labels.iter().map(|(k, v)| (k.to_string(), v.to_string())).collect(),
    }
}

fn selector(entries: &[(&str, &[&str])]) -> ApproveAccessSelector {
    ApproveAccessSelector {
        matchLabels: entries
            .iter()
            .map(|(k, vs)| (k.to_string(), vs.iter().map(|v| v.to_string()).collect()))
            .collect(),
    }
}

#[test]
fn selector_approves_group_with_a_matching_label() {
    let s = selector(&[("team", &["data", "ml"]), ("level", &["admin"])]);
    assert!(s.checkGroupIsAllowed(&group(&[("team", "ops"), ("level", "admin")])));
    assert!(s.checkGroupIsAllowed(&group(&[("team", "ml")])));
    assert!(!s.checkGroupIsAllowed(&group(&[("team", "ops"), ("level", "user")])));
    assert!(!s.checkGroupIsAllowed(&group(&[])));
    assert!(!s.checkGroupIsAllowed(&group(&[("other", "data")])));
}

#[test]
fn selector_last_entry_for_a_key_counts() {
    let s = selector(&[("team", &["data"]), ("team", &["ml"])]);
    assert!(!s.checkGroupIsAllowed(&group(&[("team", "data")])));
    assert!(s.checkGroupIsAllowed(&group(&[("team", "ml")])));
}

fn binding(user: &str, perms: &[&str]) -> RoleBinding {
    RoleBinding {
        user_name: user.to_string(),
        permissions: perms.iter().map(|p| p.to_string()).collect(),
    }
}

fn user(name: &str) -> User {
    User { unixname: name.to_string() }
}

#[test]
fn user_permissions_are_gathered_per_user() {
    let u = Universe {
        name: "u".to_string(),
        users: Some(vec![user("alice"), user("bob"), user("carol")]),
        role_bindings: Some(vec![
            binding("alice", &["read", "write"]),
            binding("bob", &["read"]),
            binding("alice", &["read", "admin"]),
            binding("carol", &[]),
        ]),
    };
    let m = u.get_user_permissions().unwrap();
    assert_eq!(m.len(), 2);
    let alice = m.iter().find(|(k, _)| k == "alice").unwrap();
    let mut perms = alice.1.clone();
    perms.sort();
    assert_eq!(perms, vec!["admin".to_string(), "read".to_string(), "write".to_string()]);
    let bob = m.iter().find(|(k, _)| k == "bob").unwrap();
    assert_eq!(bob.1, vec!["read".to_string()]);
    assert!(m.iter().all(|(k, _)| k != "carol"));
}

#[test]
fn unknown_user_is_an_error() {
    let u = Universe {
        name: "u".to_string(),
        users: Some(vec![user("alice")]),
        role_bindings: Some(vec![binding("alice", &["read"]), binding("dave", &["read"]), binding("erin", &["x"])]),
    };
    assert_eq!(u.get_user_permissions().unwrap_err(), "Cannot find user with name dave.");
}

#[test]
fn no_bindings_gives_no_permissions() {
    let u = Universe { name: "u".to_string(), users: Some(vec![]), role_bindings: Some(vec![]) };
    assert!(u.get_user_permissions().unwrap().is_empty());
}

#[test]
fn contains_str_finds_equal_text() {
    let v = vec!["a".to_string(), "bc".to_string()];
    assert!(contains_str(&v, &"bc".to_string()));
    assert!(!contains_str(&v, &"b".to_string()));
}

#[test]
fn encoding_extensions_headers_and_compression() {
    let csv = Encoding::CSVEncoding(CSVEncoding {
        compression: Some(DataCompression::GzipCompression(cref(5, "GzipCompression"))),
        header: Some(cref(6, "UpperSnakeCaseCSVHeader")),
        tag: None,
        uuid: None,
    });
    assert_eq!(csv.get_default_file_extension(), "csv");
    assert_eq!(csv.get_header().unwrap().uuid, 6);
    assert!(matches!(csv.get_compression(), Some(DataCompression::GzipCompression(c)) if c.uuid == 5));

    let tsv = Encoding::TSVEncoding(TSVEncoding {
        compression: DataCompression::ZipCompression(cref(7, "ZipCompression")),
        header: cref(8, "Header"),
        tag: None,
        uuid: None,
    });
    assert_eq!(tsv.get_default_file_extension(), "tsv");
    assert_eq!(tsv.get_header().unwrap().object_type, "Header");
    assert!(matches!(tsv.get_compression(), Some(DataCompression::ZipCompression(c)) if c.uuid == 7));

    let json = Encoding::JSONEncoding(JSONEncoding { tag: None, uuid: None });
    assert_eq!(json.get_default_file_extension(), "json");
    assert!(json.get_header().is_none());
    assert!(json.get_compression().is_none());

    let tiff = Encoding::GeoTiffEncoding(CompressedEncoding { compression: None, tag: None, uuid: None });
    assert_eq!(tiff.get_default_file_extension(), "tiff");
    assert_eq!(Encoding::ORCEncoding(cref(1, "ORCEncoding")).get_default_file_extension(), "orc");
    assert_eq!(Encoding::SQLiteEncoding(cref(1, "SQLiteEncoding")).get_default_file_extension(), "sqlite");
    assert_eq!(Encoding::ShapefileEncoding(cref(1, "ShapefileEncoding")).get_default_file_extension(), "shp");
}

#[test]
fn derived_asset_storage_setup_is_replaced() {
    let mut a = DerivedAsset {
        name: "features".to_string(),
        setup: cref(1, "RemoteStorageSetup"),
        schema: cref(2, "DataSchema"),
        tag: None,
        uuid: Some(3),
    };
    a.set_storage_setup(cref(4, "ComputedFromLocalData"));
    assert_eq!(a.get_storage_setup().uuid, 4);
    assert_eq!(a.get_schema().uuid, 2);
    assert_eq!(a.get_name(), "features");
    assert_eq!(a.uuid, Some(3));
}

#[test]
fn named_entities_accessors() {
    let n = NamedEntities {
        name: "ents".to_string(),
        comment: None,
        source_assets: vec![cref(1, "StaticDataTable"), cref(2, "StaticDataTable")],
        setup: cref(3, "Setup"),
        schema: cref(4, "Schema"),
        tag: None,
        uuid: None,
    };
    let srcs = n.get_source_assets();
    assert_eq!(srcs.len(), 2);
    assert_eq!(srcs[1].uuid, 2);
    assert_eq!(n.get_schema().uuid, 4);
    assert_eq!(n.get_name(), "ents");
}

#[test]
fn python_requirements_are_sorted_and_distinct() {
    let p = Python::new(vec!["pandas".to_string(), "numpy".to_string(), "pandas".to_string()]);
    assert_eq!(p.get_pip_requirements(), vec!["numpy".to_string(), "pandas".to_string()]);
    assert!(Python::new(vec![]).get_pip_requirements().is_empty());
}

#[test]
fn dialect_equality_and_copy() {
    let a = Dialect::Python(Python::new(vec!["b".to_string(), "a".to_string()]));
    let b = Dialect::Python(Python::new(vec!["a".to_string(), "b".to_string(), "a".to_string()]));
    assert!(a.equals(&b));
    assert!(!a.equals(&Dialect::Python(Python::new(vec!["a".to_string()]))));
    assert!(!a.equals(&Dialect::R(R::new())));
    assert!(Dialect::Bash(Bash::new()).equals(&Dialect::Bash(Bash::new())));
    assert!(a.duplicate().equals(&a));
}

#[test]
fn string_order_and_sorted_insert() {
    assert!(string_lt(&"ab".to_string(), &"b".to_string()));
    assert!(string_lt(&"a".to_string(), &"ab".to_string()));
    assert!(!string_lt(&"ab".to_string(), &"ab".to_string()));
    assert!(!string_lt(&"b".to_string(), &"ab".to_string()));
    let mut v = vec!["a".to_string(), "c".to_string()];
    sorted_insert(&mut v, "b".to_string());
    sorted_insert(&mut v, "c".to_string());
    assert_eq!(v, vec!["a".to_string(), "b".to_string(), "c".to_string()]);
}

fn dataset() -> DataSet {
    DataSet {
        name: "wine".to_string(),
        description: "wine quality".to_string(),
        source_path: "/data".to_string(),
        access_policies: vec![],
        datum_templates: vec![
            TemplateRef { name: "t1".to_string(), concept: cref(11, "RowStruct") },
            TemplateRef { name: "t2".to_string(), concept: cref(12, "RowStruct") },
            TemplateRef { name: "t1".to_string(), concept: cref(13, "RowStruct") },
        ],
        assets: vec![],
    }
}

#[test]
fn dataset_assets_are_kept_by_name() {
    let mut d = dataset();
    d.add_asset("red".to_string(), cref(2, "StaticDataTable"));
    d.add_asset("white".to_string(), cref(3, "StaticDataTable"));
    d.add_asset("all".to_string(), cref(1, "StaticDataTable"));
    d.add_asset("red".to_string(), cref(4, "StaticDataTable"));
    let names: Vec<String> = d.assets.iter().map(|(n, _)| n.clone()).collect();
    assert_eq!(names, vec!["all".to_string(), "red".to_string(), "white".to_string()]);
    let uuids: Vec<u128> = d.get_assets().iter().map(|a| a.uuid).collect();
    assert_eq!(uuids, vec![1, 4, 3]);
    assert_eq!(d.get_asset(&"white".to_string()).unwrap().uuid, 3);
    assert_eq!(d.get_asset(&"rose".to_string()).err().unwrap(), "Could not find asset rose in dataset wine.");
}

#[test]
fn dataset_source_assets() {
    let mut d = dataset();
    d.add_asset("red".to_string(), cref(2, "StaticDataTable"));
    d.add_asset("white".to_string(), cref(3, "StaticDataTable"));
    let src = d.get_source_assets(&vec!["white".to_string(), "red".to_string(), "white".to_string()]).unwrap();
    let names: Vec<String> = src.iter().map(|(n, _)| n.clone()).collect();
    assert_eq!(names, vec!["red".to_string(), "white".to_string()]);
    assert_eq!(
        d.get_source_assets(&vec!["red".to_string(), "rose".to_string(), "blue".to_string()]).err().unwrap(),
        "Could not find asset rose in dataset wine."
    );
}

#[test]
fn dataset_templates_by_name() {
    let d = dataset();
    assert_eq!(d.get_templates().len(), 3);
    let m = d.get_mapped_datum_templates();
    let keys: Vec<String> = m.keys().cloned().collect();
    assert_eq!(keys, vec!["t2".to_string(), "t1".to_string()]);
    let t = d.get_template_for_asset(&"t1".to_string(), &"red".to_string()).unwrap();
    assert_eq!(t.concept.uuid, 13);
    assert_eq!(
        d.get_template_for_asset(&"t9".to_string(), &"red".to_string()).err().unwrap(),
        "Could not find template for asset red in dataset wine"
    );
}

#[test]
fn r_driver_prefers_r_then_python_then_bash() {
    let p = r_preferences();
    assert_eq!(p.len(), 3);
    assert!(p[0].equals(&Dialect::R(R::new())));
    assert!(p[1].equals(&Dialect::Python(Python::new(vec![]))));
    assert!(p[2].equals(&Dialect::Bash(Bash::new())));
}

#[test]
fn users_by_unix_name() {
    let u = Universe {
        name: "u".to_string(),
        users: Some(vec![user("bob"), user("alice"), user("bob")]),
        role_bindings: None,
    };
    let m = u.get_user_unixname_map();
    let names: Vec<String> = m.iter().map(|(k, _)| k.clone()).collect();
    assert_eq!(names, vec!["bob".to_string(), "alice".to_string()]);
    assert!(m.iter().all(|(k, v)| *k == v.unixname));
}
