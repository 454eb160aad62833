//! Turning Python values (the arguments that programs compute) into syntax
//! trees.
use vstd::prelude::*;
use crate::ast::{
    AST, ASTView, Attribute, BigIntLiteral, BooleanLiteral, Call, Dict, FloatLiteral, KeywordMap, List,
    NoneLiteral, SimpleIdentifier, StringLiteral, Tuple, asts_view, lemma_asts_view_push,
};
use crate::attributes::FloatValue;
use crate::linked::linked_insert;
use crate::strings::string_of;

verus! {

/// A Python value, as far as it matters here: `None`, a string, a boolean,
/// an integer, a list, a float (by its parts), a tuple, a dictionary, a
/// type (by its name), a node of Python's `ast` module, or anything else.
pub enum PyValue {
    NoneValue,
    Str(String),
    Bool(bool),
    Int(i64),
    List(Vec<PyValue>),
    Float(FloatValue),
    Tuple(Vec<PyValue>),
    Dict(Vec<(PyValue, PyValue)>),
    Type(String),
    AstCall { func: Box<PyValue>, args: Box<PyValue>, keywords: Vec<(String, PyValue)> },
    AstAttribute { value: Box<PyValue>, attr: String },
    AstName { id: String },
    AstConstant { value: Box<PyValue> },
    AstOther { name: String },
    Other,
}

/// What extracting a value gives: `None` where extraction is a fatal error (an
/// `ast` node it does not know, call arguments that are not a list, a
/// dictionary key that is not a string, a dictionary or keyword value that
/// fails); otherwise the tree, or an error for a value of no supported kind
/// (an error in a part is the error of the whole).
pub open spec fn extract_spec(v: PyValue) -> Option<Result<ASTView, ()>>
    decreases v,
{
    match v {
        PyValue::NoneValue => Some(Ok(ASTView::NoneLiteral)),
        PyValue::Str(s) => Some(Ok(ASTView::StringLiteral { value: s@, is_sql: false, ancestors: None })),
        PyValue::Bool(b) => Some(Ok(ASTView::BooleanLiteral { val: b })),
        PyValue::Int(i) => Some(Ok(ASTView::BigIntLiteral { val: i })),
        PyValue::List(xs) => match extract_all(xs@) {
            None => None,
            Some(Err(e)) => Some(Err(e)),
            Some(Ok(vs)) => Some(Ok(ASTView::List { elems: vs, store: false, ancestors: None })),
        },
        PyValue::Float(f) => Some(Ok(ASTView::FloatLiteral { sign: f.sign, mantissa: f.mantissa, exponent: f.exponent })),
        PyValue::Tuple(xs) => match extract_all(xs@) {
            None => None,
            Some(Err(e)) => Some(Err(e)),
            Some(Ok(vs)) => Some(Ok(ASTView::Tuple { elems: vs, store: false, ancestors: None })),
        },
        PyValue::Dict(es) => match extract_dict(es@) {
            None => None,
            Some(m) => Some(Ok(ASTView::Dict { elems: m })),
        },
        PyValue::Type(n) => Some(Ok(ASTView::SimpleIdentifier { name: n@ })),
        PyValue::AstCall { func, args, keywords } => match extract_spec(*func) {
            None => None,
            Some(Err(e)) => Some(Err(e)),
            Some(Ok(f)) => match extract_spec(*args) {
                None => None,
                Some(Err(e)) => Some(Err(e)),
                Some(Ok(a)) => {
                    let elems = match a {
                        ASTView::List { elems, .. } => Some(elems),
                        ASTView::NoneLiteral => Some(Seq::empty()),
                        _ => None,
                    };
                    match elems {
                        None => None,
                        Some(es) => match extract_keywords(keywords@) {
                            None => None,
                            Some(kw) => Some(Ok(ASTView::Call { function: Box::new(f), args: es, keywords: kw })),
                        },
                    }
                },
            },
        },
        PyValue::AstAttribute { value, attr } => match extract_spec(*value) {
            None => None,
            Some(Err(e)) => Some(Err(e)),
            Some(Ok(x)) => Some(Ok(ASTView::Attribute { value: Box::new(x), name: attr@, store: false, ancestors: None })),
        },
        PyValue::AstName { id } => Some(Ok(ASTView::SimpleIdentifier { name: id@ })),
        PyValue::AstConstant { value } => extract_spec(*value),
        PyValue::AstOther { name } => None,
        PyValue::Other => Some(Err(())),
    }
}

/// Extracting the values in order: the first error stops (later values are
/// not looked at).
pub open spec fn extract_all(xs: Seq<PyValue>) -> Option<Result<Seq<ASTView>, ()>>
    decreases xs,
{
    if xs.len() == 0 {
        Some(Ok(Seq::empty()))
    } else {
        match extract_all(xs.drop_last()) {
            None => None,
            Some(Err(e)) => Some(Err(e)),
            Some(Ok(vs)) => match extract_spec(xs.last()) {
                None => None,
                Some(Err(e)) => Some(Err(e)),
                Some(Ok(a)) => Some(Ok(vs.push(a))),
            },
        }
    }
}

/// Extracting a dictionary: each key must be a string and each value must
/// extract; the entries are inserted in order (a repeated key moves last).
pub open spec fn extract_dict(es: Seq<(PyValue, PyValue)>) -> Option<Seq<(Seq<char>, ASTView)>>
    decreases es,
{
    if es.len() == 0 {
        Some(Seq::empty())
    } else {
        match extract_dict(es.drop_last()) {
            None => None,
            Some(m) => match (es.last().0, extract_spec(es.last().1)) {
                (PyValue::Str(k), Some(Ok(a))) => Some(linked_insert(m, k@, a)),
                _ => None,
            },
        }
    }
}

/// Extracting the keywords of a call: each value must extract; the entries
/// are inserted in order.
pub open spec fn extract_keywords(es: Seq<(String, PyValue)>) -> Option<Seq<(Seq<char>, ASTView)>>
    decreases es,
{
    if es.len() == 0 {
        Some(Seq::empty())
    } else {
        match extract_keywords(es.drop_last()) {
            None => None,
            Some(m) => match extract_spec(es.last().1) {
                Some(Ok(a)) => Some(linked_insert(m, es.last().0@, a)),
                _ => None,
            },
        }
    }
}

/// The error for a value of no supported kind.
pub open spec fn unsupported_message() -> Seq<char> {
    "Object can be either string, boolean, int, a list, a tuple, or a type"@
}

fn unsupported() -> (r: String)
    ensures
        r@ == unsupported_message(),
{
    string_of("Object can be either string, boolean, int, a list, a tuple, or a type")
}

/// When every element extracts, the elements of a list or tuple extract
/// to trees in the same order, one each: element `i` gives tree `i`.
pub proof fn lemma_elements_extract_in_order(xs: Seq<PyValue>)
    requires
        forall|i: int| 0 <= i < xs.len() ==> (#[trigger] extract_spec(xs[i])) matches Some(Ok(_)),
    ensures
        extract_all(xs) matches Some(Ok(vs)) && vs.len() == xs.len()
            && forall|i: int| 0 <= i < xs.len() ==> #[trigger] extract_spec(xs[i]) == Some(Ok::<ASTView, ()>(vs[i])),
    decreases xs.len(),
{
    if xs.len() > 0 {
        let d = xs.drop_last();
        assert forall|i: int| 0 <= i < d.len() implies (#[trigger] extract_spec(d[i])) matches Some(Ok(_)) by {
            assert(d[i] == xs[i]);
        }
        lemma_elements_extract_in_order(d);
        let vs = extract_all(d)->0->Ok_0;
        assert(extract_spec(xs[xs.len() - 1]) matches Some(Ok(_)));
        let a = extract_spec(xs.last())->0->Ok_0;
        assert(extract_all(xs) == Some(Ok::<Seq<ASTView>, ()>(vs.push(a))));
        assert forall|i: int| 0 <= i < xs.len() implies #[trigger] extract_spec(xs[i]) == Some(Ok::<ASTView, ()>(vs.push(a)[i])) by {
            if i < d.len() {
                assert(d[i] == xs[i]);
                assert(extract_spec(d[i]) == Some(Ok::<ASTView, ()>(vs[i])));
            }
        }
    }
}

/// Scalars become literals holding the same value: a boolean `b` becomes
/// the boolean literal `b`, an integer `i` the integer literal `i`, a
/// string the (non-SQL) string literal with its text, and `None` the
/// `None` literal; none of them fails.
pub proof fn lemma_scalars_extract_to_their_value(v: PyValue)
    ensures
        v matches PyValue::Bool(b) ==> extract_spec(v) == Some(Ok::<ASTView, ()>(ASTView::BooleanLiteral { val: b })),
        v matches PyValue::Int(i) ==> extract_spec(v) == Some(Ok::<ASTView, ()>(ASTView::BigIntLiteral { val: i })),
        v matches PyValue::Str(t) ==> extract_spec(v) == Some(Ok::<ASTView, ()>(ASTView::StringLiteral { value: t@, is_sql: false, ancestors: None })),
        v is NoneValue ==> extract_spec(v) == Some(Ok::<ASTView, ()>(ASTView::NoneLiteral)),
{
}

/// Turns a Python value into a tree (see `extract_spec`); the error for a
/// value of no supported kind. The inputs on which extraction is a fatal
/// error are excluded.
pub fn extract_arg(arg: &PyValue) -> (r: Result<AST, String>)
    requires
        extract_spec(*arg) is Some,
    ensures
        match extract_spec(*arg)->0 {
            Ok(t) => r matches Ok(a) && a@ == t,
            Err(_) => r matches Err(e) && e@ == unsupported_message(),
        },
        arg matches PyValue::Bool(b) ==> (r matches Ok(AST::BooleanLiteral(x)) && x.val == b),
        arg matches PyValue::Int(i) ==> (r matches Ok(AST::BigIntLiteral(x)) && x.val == i),
        arg is NoneValue ==> (r matches Ok(a) && a is NoneLiteral),
        arg matches PyValue::Str(t) ==> (r matches Ok(AST::StringLiteral(x)) && x.value@ == t@ && !x.is_sql),
    decreases arg,
{
    match arg {
        PyValue::NoneValue => Ok(AST::NoneLiteral(Box::new(NoneLiteral {}))),
        PyValue::Str(s) => Ok(AST::StringLiteral(StringLiteral::new_wrapped(s.clone(), false))),
        PyValue::Bool(b) => Ok(AST::BooleanLiteral(Box::new(BooleanLiteral { val: *b }))),
        PyValue::Int(i) => Ok(AST::BigIntLiteral(Box::new(BigIntLiteral { val: *i }))),
        PyValue::List(xs) => match extract_vec(xs) {
            Ok(v) => Ok(AST::List(List::new_wrapped(v, false))),
            Err(e) => Err(e),
        },
        PyValue::Float(f) => Ok(AST::FloatLiteral(Box::new(FloatLiteral { sign: f.sign, mantissa: f.mantissa, exponent: f.exponent }))),
        PyValue::Tuple(xs) => match extract_vec(xs) {
            Ok(v) => Ok(AST::Tuple(Tuple::new_wrapped(v, false))),
            Err(e) => Err(e),
        },
        PyValue::Dict(es) => {
            let m = extract_dict_entries(es);
            Ok(AST::Dict(Dict::new_wrapped(m)))
        },
        PyValue::Type(n) => Ok(AST::SimpleIdentifier(SimpleIdentifier::new_wrapped(n.clone()))),
        PyValue::AstCall { func, args, keywords } => {
            let f = match extract_arg(func) {
                Ok(f) => f,
                Err(e) => { return Err(e); },
            };
            let a = match extract_arg(args) {
                Ok(a) => a,
                Err(e) => { return Err(e); },
            };
            let ghost av = a@;
            let elems: Vec<AST> = match a {
                AST::List(x) => x.elems,
                _ => {
                    let v: Vec<AST> = Vec::new();
                    proof {
                        assert(asts_view(v@) =~= Seq::<ASTView>::empty());
                    }
                    v
                },
            };
            let kw = extract_keyword_entries(keywords);
            let r = AST::Call(Call::new_wrapped(f, elems, kw));
            proof {
                match av {
                    ASTView::List { elems: e, .. } => {
                        assert(asts_view(elems@) == e);
                    },
                    _ => {},
                }
            }
            Ok(r)
        },
        PyValue::AstAttribute { value, attr } => match extract_arg(value) {
            Ok(x) => Ok(AST::Attribute(Attribute::new_wrapped(x, attr.clone(), false))),
            Err(e) => Err(e),
        },
        PyValue::AstName { id } => Ok(AST::SimpleIdentifier(SimpleIdentifier::new_wrapped(id.clone()))),
        PyValue::AstConstant { value } => extract_arg(value),
        PyValue::AstOther { name } => Err(String::new()),
        PyValue::Other => Err(unsupported()),
    }
}

/// Extracts the values in order (see `extract_all`).
fn extract_vec(xs: &Vec<PyValue>) -> (r: Result<Vec<AST>, String>)
    requires
        extract_all(xs@) is Some,
    ensures
        match extract_all(xs@)->0 {
            Ok(vs) => r matches Ok(v) && asts_view(v@) == vs,
            Err(_) => r matches Err(e) && e@ == unsupported_message(),
        },
    decreases xs,
{
    let mut out: Vec<AST> = Vec::new();
    let mut i: usize = 0;
    proof {
        lemma_extract_all_prefix(xs@, xs@.len() as int);
    }
    while i < xs.len()
        invariant
            i <= xs@.len(),
            extract_all(xs@) is Some,
            forall|j: int| 0 <= j <= xs@.len() ==> #[trigger] extract_all(xs@.take(j)) is Some,
            extract_all(xs@.take(i as int)) == Some(Ok::<Seq<ASTView>, ()>(asts_view(out@))),
        decreases xs@.len() - i,
    {
        let ghost t = xs@.take(i as int + 1);
        proof {
            assert(t.drop_last() =~= xs@.take(i as int));
            assert(t.last() == xs@[i as int]);
            assert(extract_all(t) is Some);
        }
        match extract_arg(&xs[i]) {
            Ok(a) => {
                proof {
                    lemma_asts_view_push(out@, a);
                }
                out.push(a);
            },
            Err(e) => {
                proof {
                    lemma_extract_all_err(xs@, i as int + 1);
                }
                return Err(e);
            },
        }
        i = i + 1;
    }
    proof {
        assert(xs@.take(i as int) =~= xs@);
    }
    Ok(out)
}

/// Extraction of a prefix is defined wherever that of the whole is.
proof fn lemma_extract_all_prefix(xs: Seq<PyValue>, n: int)
    requires
        0 <= n <= xs.len(),
    ensures
        extract_all(xs) is Some ==> forall|j: int| 0 <= j <= n ==> #[trigger] extract_all(xs.take(j)) is Some,
    decreases n,
{
    if extract_all(xs) is Some {
        assert forall|j: int| 0 <= j <= n implies #[trigger] extract_all(xs.take(j)) is Some by {
            lemma_extract_all_prefix_one(xs, j);
        }
    }
}

proof fn lemma_extract_all_prefix_one(xs: Seq<PyValue>, j: int)
    requires
        0 <= j <= xs.len(),
        extract_all(xs) is Some,
    ensures
        extract_all(xs.take(j)) is Some,
    decreases xs.len() - j,
{
    if j < xs.len() {
        let t = xs.take(j + 1);
        lemma_extract_all_prefix_one(xs, j + 1);
        assert(t.drop_last() =~= xs.take(j));
    } else {
        assert(xs.take(j) =~= xs);
    }
}

/// An error in a prefix is the error of the whole.
proof fn lemma_extract_all_err(xs: Seq<PyValue>, j: int)
    requires
        0 <= j <= xs.len(),
        extract_all(xs.take(j)) matches Some(Err(_)),
    ensures
        extract_all(xs) matches Some(Err(_)),
    decreases xs.len() - j,
{
    if j < xs.len() {
        let t = xs.take(j + 1);
        assert(t.drop_last() =~= xs.take(j));
        lemma_extract_all_err(xs, j + 1);
    } else {
        assert(xs.take(j) =~= xs);
    }
}

/// Extracts a dictionary (see `extract_dict`).
fn extract_dict_entries(es: &Vec<(PyValue, PyValue)>) -> (r: KeywordMap)
    requires
        extract_dict(es@) is Some,
    ensures
        r.wf(),
        r.view() == extract_dict(es@)->0,
    decreases es,
{
    let mut m = KeywordMap::new();
    let mut i: usize = 0;
    proof {
        assert forall|j: int| 0 <= j <= es@.len() implies #[trigger] extract_dict(es@.take(j)) is Some by {
            lemma_extract_dict_prefix(es@, j);
        }
        assert(es@.take(0) =~= Seq::<(PyValue, PyValue)>::empty());
    }
    while i < es.len()
        invariant
            i <= es@.len(),
            m.wf(),
            forall|j: int| 0 <= j <= es@.len() ==> #[trigger] extract_dict(es@.take(j)) is Some,
            extract_dict(es@.take(i as int)) == Some(m.view()),
        decreases es@.len() - i,
    {
        let ghost t = es@.take(i as int + 1);
        proof {
            assert(t.drop_last() =~= es@.take(i as int));
            assert(t.last() == es@[i as int]);
            assert(extract_dict(t) is Some);
        }
        let key = match &es[i].0 {
            PyValue::Str(k) => k.clone(),
            _ => String::new(),
        };
        match extract_arg(&es[i].1) {
            Ok(a) => {
                m.insert(key, a);
            },
            Err(_) => {},
        }
        i = i + 1;
    }
    proof {
        assert(es@.take(i as int) =~= es@);
    }
    m
}

/// Extracts the keywords of a call (see `extract_keywords`).
fn extract_keyword_entries(es: &Vec<(String, PyValue)>) -> (r: KeywordMap)
    requires
        extract_keywords(es@) is Some,
    ensures
        r.wf(),
        r.view() == extract_keywords(es@)->0,
    decreases es,
{
    let mut m = KeywordMap::new();
    let mut i: usize = 0;
    proof {
        assert forall|j: int| 0 <= j <= es@.len() implies #[trigger] extract_keywords(es@.take(j)) is Some by {
            lemma_extract_keywords_prefix(es@, j);
        }
        assert(es@.take(0) =~= Seq::<(String, PyValue)>::empty());
    }
    while i < es.len()
        invariant
            i <= es@.len(),
            m.wf(),
            forall|j: int| 0 <= j <= es@.len() ==> #[trigger] extract_keywords(es@.take(j)) is Some,
            extract_keywords(es@.take(i as int)) == Some(m.view()),
        decreases es@.len() - i,
    {
        let ghost t = es@.take(i as int + 1);
        proof {
            assert(t.drop_last() =~= es@.take(i as int));
            assert(t.last() == es@[i as int]);
            assert(extract_keywords(t) is Some);
        }
        match extract_arg(&es[i].1) {
            Ok(a) => {
                m.insert(es[i].0.clone(), a);
            },
            Err(_) => {},
        }
        i = i + 1;
    }
    proof {
        assert(es@.take(i as int) =~= es@);
    }
    m
}

proof fn lemma_extract_dict_prefix(es: Seq<(PyValue, PyValue)>, j: int)
    requires
        0 <= j <= es.len(),
        extract_dict(es) is Some,
    ensures
        extract_dict(es.take(j)) is Some,
    decreases es.len() - j,
{
    if j < es.len() {
        let t = es.take(j + 1);
        lemma_extract_dict_prefix(es, j + 1);
        assert(t.drop_last() =~= es.take(j));
    } else {
        assert(es.take(j) =~= es);
    }
}

proof fn lemma_extract_keywords_prefix(es: Seq<(String, PyValue)>, j: int)
    requires
        0 <= j <= es.len(),
        extract_keywords(es) is Some,
    ensures
        extract_keywords(es.take(j)) is Some,
    decreases es.len() - j,
{
    if j < es.len() {
        let t = es.take(j + 1);
        lemma_extract_keywords_prefix(es, j + 1);
        assert(t.drop_last() =~= es.take(j));
    } else {
        assert(es.take(j) =~= es);
    }
}

} // verus!
