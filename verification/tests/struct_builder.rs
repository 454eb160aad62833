use aorist::struct_builder::{FieldInfo, StructBuilder, TypeTree};

fn path(p: &str) -> TypeTree {
    TypeTree::Path(p.to_string())
}

fn field(name: &str, constrainable: bool, default: Option<&str>, ty: TypeTree) -> FieldInfo {
    FieldInfo {
        name: name.to_string(),
        constrainable,
        py_defaults: default.map(|d| vec![Some(d.to_string())]).unwrap_or_default(),
        ty,
    }
}

fn names(v: &[(String, TypeTree)]) -> Vec<String> {
    v.iter().map(|e| e.0.clone()).collect()
}

#[test]
fn fields_are_sorted_by_the_shape_of_their_type() {
    let fields = vec![
        field("uuid", true, None, path("Uuid")),
        field("name", false, Some("x"), path("String")),
        field("schema", true, None, path("Schema")),
        field("assets", true, None, TypeTree::Vec(Box::new(path("Asset")))),
        field("tags", true, Some("none"), TypeTree::Option(Box::new(TypeTree::Vec(Box::new(path("Tag")))))),
        field("setup", true, None, TypeTree::Option(Box::new(path("Setup")))),
        field("by_name", true, None, TypeTree::Mapping(Box::new(path("String")), Box::new(path("Asset")))),
        field("tag", false, None, path("String")),
    ];
    let b = StructBuilder::new(fields);
    assert_eq!(names(&b.bare), vec!["schema".to_string()]);
    assert_eq!(names(&b.vecs), vec!["assets".to_string()]);
    assert!(matches!(&b.vecs[0].1, TypeTree::Path(p) if p == "Asset"));
    assert_eq!(names(&b.option_vecs), vec!["tags".to_string()]);
    assert!(matches!(&b.option_vecs[0].1, TypeTree::Path(p) if p == "Tag"));
    assert_eq!(names(&b.options), vec!["setup".to_string()]);
    assert_eq!(b.maps.len(), 1);
    assert_eq!(b.maps[0].0, "by_name");
    assert_eq!(
        b.fields_with_default,
        vec![("name".to_string(), "x".to_string()), ("tags".to_string(), "none".to_string())]
    );
    assert_eq!(b.unconstrainable.len(), 1);
    assert_eq!(b.unconstrainable[0].name, "name");
}

fn concept_ref(p: &str) -> TypeTree {
    TypeTree::Ref(Box::new(path(p)))
}

fn is_path(t: &TypeTree, p: &str) -> bool {
    matches!(t, TypeTree::Path(x) if x == p)
}

#[test]
fn all_types_are_the_referenced_concepts_once_each() {
    let fields = vec![
        field("schema", true, None, concept_ref("Schema")),
        field("assets", true, None, TypeTree::Vec(Box::new(concept_ref("Asset")))),
        field("setup", true, None, TypeTree::Option(Box::new(concept_ref("Setup")))),
        field("more", true, None, TypeTree::Option(Box::new(TypeTree::Vec(Box::new(concept_ref("Asset")))))),
        field("by_name", true, None, TypeTree::Mapping(Box::new(path("String")), Box::new(concept_ref("Schema")))),
        field("name", false, None, path("String")),
    ];
    let b = StructBuilder::new(fields);
    assert_eq!(names(&b.bare), vec!["schema".to_string()]);
    let types = b.get_all_types();
    assert_eq!(types.len(), 3);
    assert!(is_path(&types[0], "Schema"));
    assert!(is_path(&types[1], "Asset"));
    assert!(is_path(&types[2], "Setup"));
}
