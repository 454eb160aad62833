use aorist::ast::AST;
use aorist::attributes::{
    get_bigquery_coldef, get_orc_schema, get_postgres_coldef, get_presto_schema,
    get_sqlite_coldef, presto_schema_lines, psycopg2_value_json_serializable, AttributeValue,
    FloatValue, IntegerValue, LiteralValue, SqlLiteral, StringValue,
};
use aorist::extract::{extract_arg, PyValue};

fn s(x: &str) -> String {
    x.to_string()
}

#[test]
fn integer_value_parses_signed_decimals() {
    assert_eq!(IntegerValue::try_from(s("42")).unwrap().inner, 42);
    assert_eq!(IntegerValue::try_from(s("-7")).unwrap().inner, -7);
    assert_eq!(IntegerValue::try_from(s("+5")).unwrap().inner, 5);
    assert_eq!(
        IntegerValue::try_from(s("-9223372036854775808")).unwrap().inner,
        i64::MIN
    );
}

#[test]
fn integer_value_rejects_other_text() {
    assert_eq!(
        IntegerValue::try_from(s("abc")).err().unwrap(),
        "Could not parse abc as int."
    );
    assert!(IntegerValue::try_from(s("")).is_err());
    assert!(IntegerValue::try_from(s("-")).is_err());
    assert!(IntegerValue::try_from(s(" 1")).is_err());
    assert!(IntegerValue::try_from(s("9223372036854775808")).is_err());
    assert!(IntegerValue::try_from(s("1.5")).is_err());
}

#[test]
fn integer_value_as_sql() {
    assert_eq!(IntegerValue { inner: 0 }.as_sql(), "0");
    assert_eq!(IntegerValue { inner: 1234 }.as_sql(), "1234");
    assert_eq!(IntegerValue { inner: -56 }.as_sql(), "-56");
    assert_eq!(IntegerValue { inner: i64::MIN }.as_sql(), "-9223372036854775808");
    assert_eq!(IntegerValue { inner: i64::MAX }.as_sql(), "9223372036854775807");
}

#[test]
fn string_value_as_sql_is_quoted() {
    assert_eq!(StringValue::from(s("abc")).as_sql(), "\"abc\"");
    assert_eq!(StringValue::from(s("")).as_sql(), "\"\"");
}

#[test]
fn column_definitions() {
    assert_eq!(get_orc_schema(&s("a"), &s("bigint")), "a:bigint");
    assert_eq!(get_sqlite_coldef(&s("a"), &s("INTEGER")), "a INTEGER");
    assert_eq!(get_bigquery_coldef(&s("a"), &s("INT64")), "a INT64");
    assert_eq!(get_postgres_coldef(&s("a"), &s("INTEGER"), true), "a INTEGERNOT NULL");
    assert_eq!(get_postgres_coldef(&s("a"), &s("INTEGER"), false), "a INTEGER");
    assert!(psycopg2_value_json_serializable());
}

#[test]
fn presto_schema_pads_and_comments() {
    assert_eq!(get_presto_schema(&s("id"), &s("BIGINT"), &None, 5), "id    BIGINT");
    assert_eq!(
        get_presto_schema(&s("name"), &s("VARCHAR"), &Some(s("  it's  ")), 4),
        "name VARCHAR\n     COMMENT 'it\\'s'"
    );
    assert_eq!(
        get_presto_schema(&s("name"), &s("VARCHAR"), &Some(s("\u{3000}\tnote\u{a0}\n")), 4),
        "name VARCHAR\n     COMMENT 'note'"
    );
    assert_eq!(
        presto_schema_lines(&s("x"), &s("DOUBLE"), Some(s("a'b'")), 1),
        "x DOUBLE\n     COMMENT 'a\\'b\\''"
    );
}

#[test]
fn extract_scalars() {
    assert!(matches!(extract_arg(&PyValue::NoneValue), Ok(AST::NoneLiteral(_))));
    assert!(matches!(extract_arg(&PyValue::Str(s("x"))), Ok(AST::StringLiteral(l)) if l.value == "x" && !l.is_sql));
    assert!(matches!(extract_arg(&PyValue::Bool(true)), Ok(AST::BooleanLiteral(b)) if b.val));
    assert!(matches!(extract_arg(&PyValue::Int(-3)), Ok(AST::BigIntLiteral(i)) if i.val == -3));
    assert!(matches!(extract_arg(&PyValue::Type(s("int"))), Ok(AST::SimpleIdentifier(n)) if n.name == "int"));
    let f = FloatValue { sign: -1, mantissa: 3, exponent: -1 };
    assert!(matches!(extract_arg(&PyValue::Float(f)), Ok(AST::FloatLiteral(x)) if x.sign == -1 && x.mantissa == 3 && x.exponent == -1));
}

#[test]
fn extract_list_and_tuple() {
    let v = PyValue::List(vec![PyValue::Int(1), PyValue::Str(s("a"))]);
    match extract_arg(&v).unwrap() {
        AST::List(l) => {
            assert!(!l.store);
            assert_eq!(l.elems.len(), 2);
            assert!(matches!(&l.elems[0], AST::BigIntLiteral(i) if i.val == 1));
        }
        _ => panic!("expected a list"),
    }
    let t = PyValue::Tuple(vec![PyValue::Bool(false)]);
    assert!(matches!(extract_arg(&t), Ok(AST::Tuple(x)) if x.elems.len() == 1));
}

#[test]
fn extract_unsupported_value_is_an_error() {
    let msg = "Object can be either string, boolean, int, a list, a tuple, or a type";
    assert_eq!(extract_arg(&PyValue::Other).err().unwrap(), msg);
    let v = PyValue::List(vec![PyValue::Int(1), PyValue::Other, PyValue::Int(2)]);
    assert_eq!(extract_arg(&v).err().unwrap(), msg);
}

#[test]
fn extract_dict_repeated_key_moves_last() {
    let d = PyValue::Dict(vec![
        (PyValue::Str(s("a")), PyValue::Int(1)),
        (PyValue::Str(s("b")), PyValue::Int(2)),
        (PyValue::Str(s("a")), PyValue::Int(3)),
    ]);
    match extract_arg(&d).unwrap() {
        AST::Dict(x) => {
            let keys: Vec<String> = x.elems.keys();
            assert_eq!(keys, vec![s("b"), s("a")]);
            assert!(matches!(x.elems.entry(1).1, AST::BigIntLiteral(i) if i.val == 3));
        }
        _ => panic!("expected a dict"),
    }
}

#[test]
fn extract_ast_nodes() {
    let call = PyValue::AstCall {
        func: Box::new(PyValue::AstAttribute {
            value: Box::new(PyValue::AstName { id: s("pd") }),
            attr: s("read_csv"),
        }),
        args: Box::new(PyValue::List(vec![PyValue::AstConstant { value: Box::new(PyValue::Str(s("f.csv"))) }])),
        keywords: vec![(s("sep"), PyValue::Str(s(",")))],
    };
    match extract_arg(&call).unwrap() {
        AST::Call(c) => {
            assert!(matches!(&c.function, AST::Attribute(a) if a.name == "read_csv"));
            assert_eq!(c.args.len(), 1);
            assert!(matches!(&c.args[0], AST::StringLiteral(l) if l.value == "f.csv"));
            assert_eq!(c.keywords.len(), 1);
            assert_eq!(c.keywords.entry(0).0, "sep");
        }
        _ => panic!("expected a call"),
    }
    let no_args = PyValue::AstCall {
        func: Box::new(PyValue::AstName { id: s("f") }),
        args: Box::new(PyValue::NoneValue),
        keywords: vec![],
    };
    assert!(matches!(extract_arg(&no_args), Ok(AST::Call(c)) if c.args.is_empty()));
}

#[test]
fn sql_literals_become_attribute_values() {
    assert!(matches!(
        AttributeValue::read_literal(SqlLiteral::Number(s("12"))),
        Ok(LiteralValue::Value(AttributeValue::IntegerValue(v))) if v.inner == 12
    ));
    assert!(matches!(
        AttributeValue::read_literal(SqlLiteral::Number(s("1.5"))),
        Ok(LiteralValue::FloatText(t)) if t == "1.5"
    ));
    assert!(matches!(
        AttributeValue::read_literal(SqlLiteral::SingleQuotedString(s("abc"))),
        Ok(LiteralValue::Value(AttributeValue::StringValue(v))) if v.inner == "abc"
    ));
    assert_eq!(
        AttributeValue::read_literal(SqlLiteral::Number(s("1e5"))).err().unwrap(),
        "Could not parse 1e5 as int."
    );
    assert_eq!(
        AttributeValue::read_literal(SqlLiteral::OtherValue).err().unwrap(),
        "Only numbers and singlue quoted strings supported as literals"
    );
    assert_eq!(
        AttributeValue::read_literal(SqlLiteral::OtherNode).err().unwrap(),
        "Only values supported as nodes"
    );
}
