use aorist::concept_derives::{concept_derives, get_derives, ConceptShape, MetaArg};

fn s(x: &str) -> String {
    x.to_string()
}

fn list(path: &str, items: &[&str]) -> MetaArg {
    MetaArg::List { path: s(path), items: items.iter().map(|i| s(i)).collect() }
}

#[test]
fn last_derive_and_derivative_lists_count() {
    let attrs = vec![list("derive", &["A"]), list("derivative", &["Hash"]), list("derive", &["B", "C"])];
    let (d, dv) = get_derives(&attrs);
    assert_eq!(d, vec![s("B"), s("C")]);
    assert_eq!(dv, vec![s("Hash")]);
    let (d, dv) = get_derives(&vec![]);
    assert!(d.is_empty() && dv.is_empty());
}

#[test]
fn struct_concepts_extend_the_base_derives() {
    let attrs = vec![list("derive", &["Default"]), list("derivative", &["Hash"])];
    let (d, dv) = concept_derives(&attrs, &vec![s("Extra")], &ConceptShape::Struct, false);
    assert_eq!(d, vec![s("Derivative"), s("Serialize"), s("Deserialize"), s("Clone"), s("Hash"), s("Default"), s("Extra")]);
    assert_eq!(dv, vec![s("PartialEq"), s("Debug"), s("Eq"), s("Hash")]);
    let (d, _) = concept_derives(&attrs, &vec![], &ConceptShape::Struct, true);
    assert_eq!(d, vec![s("Derivative"), s("Serialize"), s("Deserialize"), s("Clone"), s("Default")]);
}

#[test]
fn enum_concepts_take_derivatives_as_derives() {
    let attrs = vec![list("derive", &["Default"]), list("derivative", &["Ord"])];
    let (d, dv) = concept_derives(&attrs, &vec![s("Extra")], &ConceptShape::Enum, false);
    assert_eq!(
        d,
        vec![s("Debug"), s("PartialEq"), s("Serialize"), s("Deserialize"), s("Clone"), s("Hash"), s("Eq"), s("Default"), s("Extra"), s("Ord")]
    );
    assert!(dv.is_empty());
    let (d, _) = concept_derives(&vec![], &vec![], &ConceptShape::Enum, true);
    assert_eq!(d, vec![s("Debug"), s("PartialEq"), s("Serialize"), s("Deserialize"), s("Clone")]);
}
