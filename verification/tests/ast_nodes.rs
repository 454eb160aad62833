use aorist::ancestor_record::AncestorRecord;
use aorist::ast::{
    clone_ast, Attribute, BigIntLiteral, BooleanLiteral, Call, Dict, Formatted, KeywordMap, List,
    SimpleIdentifier, StringLiteral, Subscript, Tuple, AST,
};
use aorist::ast_compare::{ast_eq, asts_eq};

fn ident(name: &str) -> AST {
    AST::SimpleIdentifier(SimpleIdentifier::new_wrapped(name.to_string()))
}

fn lit(value: &str) -> AST {
    AST::StringLiteral(StringLiteral::new_wrapped(value.to_string(), false))
}

fn num(v: i64) -> AST {
    AST::BigIntLiteral(Box::new(BigIntLiteral { val: v }))
}

fn keys(m: &KeywordMap) -> Vec<String> {
    m.keys()
}

#[test]
fn pretty_sql_reindents_to_depth() {
    let s = StringLiteral::new("  SELECT a\n    FROM t\n".to_string(), true);
    assert_eq!(s.pretty_sql_value(1), "\n    SELECT a\n      FROM t\n    ");
    assert_eq!(s.pretty_sql_value(0), "\nSELECT a\n  FROM t\n");
}

#[test]
fn pretty_sql_single_line_is_kept() {
    let s = StringLiteral::new("\n   SELECT 1\n\n".to_string(), true);
    assert_eq!(s.pretty_sql_value(3), "   SELECT 1");
    assert_eq!(s.pretty_sql_value(usize::MAX), "   SELECT 1");
}

#[test]
fn string_literal_accessors() {
    let mut s = StringLiteral::new("héllo\nworld".to_string(), false);
    assert_eq!(s.value(), "héllo\nworld");
    assert_eq!(s.len(), 12);
    assert!(s.is_multiline());
    assert!(!StringLiteral::new("one line".to_string(), false).is_multiline());
    assert!(s.get_ancestors().is_none());
    s.set_ancestors(vec![AncestorRecord::new(1, "Universe".to_string(), None, 0)]);
    let anc = s.get_ancestors().unwrap();
    assert_eq!(anc.len(), 1);
    assert_eq!(anc[0].uuid, 1);
    let bare = s.clone_without_ancestors();
    assert!(bare.ancestors.is_none());
    assert_eq!(bare.value, "héllo\nworld");
    let sql = s.as_sql_string();
    assert!(sql.is_sql);
    assert!(sql.ancestors.is_some());
    assert!(s.get_direct_descendants().is_empty());
}

#[test]
fn keyword_map_moves_reinserted_key_to_end() {
    let mut m = KeywordMap::new();
    m.insert("a".to_string(), num(1));
    m.insert("b".to_string(), num(2));
    m.insert("a".to_string(), num(3));
    assert_eq!(m.len(), 2);
    assert_eq!(keys(&m), vec!["b".to_string(), "a".to_string()]);
    assert_eq!(m.find(&"a".to_string()), Some(1));
    assert_eq!(m.find(&"b".to_string()), Some(0));
    assert_eq!(m.find(&"c".to_string()), None);
    assert!(matches!(m.entry(1).1, AST::BigIntLiteral(x) if x.val == 3));
    assert!(matches!(m.get(&"a".to_string()), Some(AST::BigIntLiteral(x)) if x.val == 3));
    assert!(m.get(&"c".to_string()).is_none());
}

#[test]
fn dict_replace_elem() {
    let mut m = KeywordMap::new();
    m.insert("x".to_string(), num(1));
    m.insert("y".to_string(), num(2));
    let mut d = Dict::new_wrapped(m);
    d.replace_elem("x".to_string(), num(5));
    assert_eq!(keys(&d.elems), vec!["y".to_string(), "x".to_string()]);
    assert!(matches!(d.elems.entry(1).1, AST::BigIntLiteral(x) if x.val == 5));
}

#[test]
fn formatted_single_placeholder_is_optimized_away() {
    let mut kw = KeywordMap::new();
    kw.insert("path".to_string(), lit("/tmp/x"));
    let f = AST::Formatted(Formatted::new_wrapped(lit("{path}"), kw));
    let o = f.optimize().unwrap();
    assert!(ast_eq(&o, &lit("/tmp/x")));
}

#[test]
fn formatted_other_shapes_are_kept() {
    let mut kw = KeywordMap::new();
    kw.insert("path".to_string(), lit("/tmp/x"));
    let f = AST::Formatted(Formatted::new_wrapped(lit("dir: {path}"), kw));
    assert!(f.optimize().is_none());

    let mut two = KeywordMap::new();
    two.insert("a".to_string(), num(1));
    two.insert("b".to_string(), num(2));
    let g = AST::Formatted(Formatted::new_wrapped(lit("{a}"), two));
    assert!(g.optimize().is_none());

    assert!(ident("x").optimize().is_none());
}

#[test]
fn assignment_targets_set_store() {
    let sub = AST::Subscript(Subscript::new_wrapped(ident("d"), lit("k"), false));
    match sub.as_wrapped_assignment_target() {
        AST::Subscript(s) => {
            assert!(s.store);
            assert!(ast_eq(&s.a, &ident("d")));
        }
        _ => panic!("expected a subscript"),
    }
    let att = AST::Attribute(Attribute::new_wrapped(ident("o"), "f".to_string(), false));
    assert!(matches!(att.as_wrapped_assignment_target(), AST::Attribute(a) if a.store && a.name == "f"));
    let list = AST::List(List::new_wrapped(vec![ident("a"), ident("b")], false));
    assert!(matches!(list.as_wrapped_assignment_target(), AST::List(l) if l.store && l.elems.len() == 2));
    let tup = AST::Tuple(Tuple::new_wrapped(vec![ident("a")], false));
    assert!(matches!(tup.as_wrapped_assignment_target(), AST::Tuple(t) if t.store));
    let id = ident("v");
    assert!(ast_eq(&id.as_wrapped_assignment_target(), &id));
}

#[test]
fn structural_equality() {
    let mut kw = KeywordMap::new();
    kw.insert("k".to_string(), num(1));
    let call = AST::Call(Call::new_wrapped(ident("f"), vec![lit("a"), num(2)], kw));
    let copy = clone_ast(&call);
    assert!(ast_eq(&call, &copy));

    let mut kw2 = KeywordMap::new();
    kw2.insert("k".to_string(), num(2));
    let other = AST::Call(Call::new_wrapped(ident("f"), vec![lit("a"), num(2)], kw2));
    assert!(!ast_eq(&call, &other));

    assert!(!ast_eq(&ident("a"), &lit("a")));
    assert!(ast_eq(
        &AST::BooleanLiteral(Box::new(BooleanLiteral { val: true })),
        &AST::BooleanLiteral(Box::new(BooleanLiteral { val: true }))
    ));
    assert!(asts_eq(&vec![ident("a"), num(1)], &vec![ident("a"), num(1)]));
    assert!(!asts_eq(&vec![ident("a")], &vec![ident("a"), num(1)]));
}

#[test]
fn list_elems_and_identifier_name() {
    let l = List::new_wrapped(vec![ident("a"), num(4)], false);
    let es = l.elems();
    assert!(asts_eq(&es, &vec![ident("a"), num(4)]));
    let id = SimpleIdentifier::new_wrapped("name".to_string());
    assert_eq!(id.name(), "name");
}

#[test]
fn nested_ancestors_are_kept_and_compared() {
    let record = AncestorRecord::new(7, "StaticDataTable".to_string(), Some("t".to_string()), 0);
    let mut sub = Subscript::new_wrapped(ident("d"), lit("k"), false);
    sub.ancestors = Some(vec![record]);
    let with = AST::Subscript(sub);
    let without = AST::Subscript(Subscript::new_wrapped(ident("d"), lit("k"), false));
    assert!(!ast_eq(&with, &without));
    assert!(ast_eq(&clone_ast(&with), &with));
    match with.as_wrapped_assignment_target() {
        AST::Subscript(s) => {
            assert!(s.store);
            assert_eq!(s.ancestors.as_ref().map(|v| v.len()), Some(1));
        }
        _ => panic!("expected a subscript"),
    }
}
