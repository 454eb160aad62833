//! Comparing syntax trees by value.
use vstd::prelude::*;
use crate::ancestor_record::{AncestorRecord, opt_string_view, records_view};
use crate::ast::{
    AST, ASTView, KeywordMap, asts_view, lemma_asts_view_index, lemma_asts_view_len, opt_records_view,
};
use crate::strings::str_eq;

verus! {

fn opt_str_eq(a: &Option<String>, b: &Option<String>) -> (r: bool)
    ensures
        r == (opt_string_view(*a) == opt_string_view(*b)),
{
    match (a, b) {
        (Some(x), Some(y)) => str_eq(x.as_str(), y.as_str()),
        (None, None) => true,
        _ => false,
    }
}

fn records_eq(a: &Vec<AncestorRecord>, b: &Vec<AncestorRecord>) -> (r: bool)
    ensures
        r == (records_view(a@) == records_view(b@)),
{
    if a.len() != b.len() {
        proof {
            assert(records_view(a@).len() != records_view(b@).len());
        }
        return false;
    }
    let mut i: usize = 0;
    while i < a.len()
        invariant
            a@.len() == b@.len(),
            i <= a@.len(),
            forall|j: int| 0 <= j < i ==> a@[j]@ == b@[j]@,
        decreases a@.len() - i,
    {
        let x = &a[i];
        let y = &b[i];
        if !(x.uuid == y.uuid && str_eq(x.object_type.as_str(), y.object_type.as_str())
            && opt_str_eq(&x.tag, &y.tag) && x.ix == y.ix) {
            proof {
                assert(records_view(a@)[i as int] != records_view(b@)[i as int]);
            }
            return false;
        }
        i = i + 1;
    }
    proof {
        assert(records_view(a@) =~= records_view(b@));
    }
    true
}

fn opt_records_eq(a: &Option<Vec<AncestorRecord>>, b: &Option<Vec<AncestorRecord>>) -> (r: bool)
    ensures
        r == (opt_records_view(*a) == opt_records_view(*b)),
{
    match (a, b) {
        (Some(x), Some(y)) => records_eq(x, y),
        (None, None) => true,
        _ => false,
    }
}

/// Whether two sequences of trees are equal by value.
pub fn asts_eq(a: &Vec<AST>, b: &Vec<AST>) -> (r: bool)
    ensures
        r == (asts_view(a@) == asts_view(b@)),
    decreases asts_view(a@),
{
    proof {
        lemma_asts_view_len(a@);
        lemma_asts_view_len(b@);
    }
    if a.len() != b.len() {
        return false;
    }
    let mut i: usize = 0;
    while i < a.len()
        invariant
            a@.len() == b@.len(),
            asts_view(a@).len() == a@.len(),
            asts_view(b@).len() == b@.len(),
            i <= a@.len(),
            forall|j: int| 0 <= j < i ==> asts_view(a@)[j] == asts_view(b@)[j],
        decreases a@.len() - i,
    {
        proof {
            lemma_asts_view_index(a@, i as int);
            lemma_asts_view_index(b@, i as int);
            assert(decreases_to!(asts_view(a@) => asts_view(a@)[i as int]));
        }
        if !ast_eq(&a[i], &b[i]) {
            return false;
        }
        i = i + 1;
    }
    proof {
        assert(asts_view(a@) =~= asts_view(b@));
    }
    true
}

/// Whether two keyword maps hold equal entries in the same order.
pub fn keywords_eq(a: &KeywordMap, b: &KeywordMap) -> (r: bool)
    ensures
        r == (a.view() == b.view()),
    decreases a.view(),
{
    let n = a.len();
    if n != b.len() {
        return false;
    }
    let mut i: usize = 0;
    while i < n
        invariant
            n == a.view().len(),
            n == b.view().len(),
            i <= n,
            forall|j: int| 0 <= j < i ==> a.view()[j] == b.view()[j],
        decreases n - i,
    {
        let (ka, va) = a.entry(i);
        let (kb, vb) = b.entry(i);
        proof {
            assert(decreases_to!(a.view() => a.view()[i as int]));
            assert(decreases_to!(a.view()[i as int] => a.view()[i as int].1));
        }
        if !(str_eq(ka.as_str(), kb.as_str()) && ast_eq(va, vb)) {
            return false;
        }
        i = i + 1;
    }
    proof {
        assert(a.view() =~= b.view());
    }
    true
}

/// Whether two trees are equal by value.
pub fn ast_eq(a: &AST, b: &AST) -> (r: bool)
    ensures
        r == (a@ == b@),
    decreases a@,
{
    match (a, b) {
        (AST::StringLiteral(x), AST::StringLiteral(y)) => str_eq(x.value.as_str(), y.value.as_str())
            && x.is_sql == y.is_sql && opt_records_eq(&x.ancestors, &y.ancestors),
        (AST::SimpleIdentifier(x), AST::SimpleIdentifier(y)) => str_eq(x.name.as_str(), y.name.as_str()),
        (AST::Subscript(x), AST::Subscript(y)) => {
            proof {
                let va = ASTView::Subscript { a: Box::new(x.a@), b: Box::new(x.b@), store: x.store, ancestors: opt_records_view(x.ancestors) };
                assert(a@ == va);
                assert(decreases_to!(va => va->Subscript_a));
                assert(decreases_to!(va => va->Subscript_b));
            }
            ast_eq(&x.a, &y.a) && ast_eq(&x.b, &y.b) && x.store == y.store && opt_records_eq(&x.ancestors, &y.ancestors)
        },
        (AST::Formatted(x), AST::Formatted(y)) => {
            proof {
                let va = ASTView::Formatted { fmt: Box::new(x.fmt@), keywords: x.keywords.view() };
                assert(a@ == va);
                assert(decreases_to!(va => va->fmt));
                assert(decreases_to!(va => va->Formatted_keywords));
            }
            ast_eq(&x.fmt, &y.fmt) && keywords_eq(&x.keywords, &y.keywords)
        },
        (AST::Call(x), AST::Call(y)) => {
            proof {
                let va = ASTView::Call { function: Box::new(x.function@), args: asts_view(x.args@), keywords: x.keywords.view() };
                assert(a@ == va);
                assert(decreases_to!(va => va->function));
                assert(decreases_to!(va => va->args));
                assert(decreases_to!(va => va->Call_keywords));
            }
            ast_eq(&x.function, &y.function) && asts_eq(&x.args, &y.args) && keywords_eq(&x.keywords, &y.keywords)
        },
        (AST::Attribute(x), AST::Attribute(y)) => {
            proof {
                let va = ASTView::Attribute { value: Box::new(x.value@), name: x.name@, store: x.store, ancestors: opt_records_view(x.ancestors) };
                assert(a@ == va);
                assert(decreases_to!(va => va->Attribute_value));
            }
            ast_eq(&x.value, &y.value) && str_eq(x.name.as_str(), y.name.as_str()) && x.store == y.store
                && opt_records_eq(&x.ancestors, &y.ancestors)
        },
        (AST::List(x), AST::List(y)) => {
            proof {
                let va = ASTView::List { elems: asts_view(x.elems@), store: x.store, ancestors: opt_records_view(x.ancestors) };
                assert(a@ == va);
                assert(decreases_to!(va => va->List_elems));
            }
            asts_eq(&x.elems, &y.elems) && x.store == y.store && opt_records_eq(&x.ancestors, &y.ancestors)
        },
        (AST::Dict(x), AST::Dict(y)) => {
            proof {
                let va = ASTView::Dict { elems: x.elems.view() };
                assert(a@ == va);
                assert(decreases_to!(va => va->Dict_elems));
            }
            keywords_eq(&x.elems, &y.elems)
        },
        (AST::Tuple(x), AST::Tuple(y)) => {
            proof {
                let va = ASTView::Tuple { elems: asts_view(x.elems@), store: x.store, ancestors: opt_records_view(x.ancestors) };
                assert(a@ == va);
                assert(decreases_to!(va => va->Tuple_elems));
            }
            asts_eq(&x.elems, &y.elems) && x.store == y.store && opt_records_eq(&x.ancestors, &y.ancestors)
        },
        (AST::BooleanLiteral(x), AST::BooleanLiteral(y)) => x.val == y.val,
        (AST::BigIntLiteral(x), AST::BigIntLiteral(y)) => x.val == y.val,
        (AST::FloatLiteral(x), AST::FloatLiteral(y)) => x.sign == y.sign && x.mantissa == y.mantissa
            && x.exponent == y.exponent,
        (AST::NoneLiteral(_), AST::NoneLiteral(_)) => true,
        (AST::Expression(x), AST::Expression(y)) => {
            proof {
                let va = ASTView::Expression { inner: Box::new(x.inner@) };
                assert(a@ == va);
                assert(decreases_to!(va => va->Expression_inner));
            }
            ast_eq(&x.inner, &y.inner)
        },
        (AST::Assignment(x), AST::Assignment(y)) => {
            proof {
                let va = ASTView::Assignment { target: Box::new(x.target@), call: Box::new(x.call@) };
                assert(a@ == va);
                assert(decreases_to!(va => va->Assignment_target));
                assert(decreases_to!(va => va->call));
            }
            ast_eq(&x.target, &y.target) && ast_eq(&x.call, &y.call)
        },
        (AST::ForLoop(x), AST::ForLoop(y)) => {
            proof {
                let va = ASTView::ForLoop { target: Box::new(x.target@), iter: Box::new(x.iter@), body: asts_view(x.body@) };
                assert(a@ == va);
                assert(decreases_to!(va => va->ForLoop_target));
                assert(decreases_to!(va => va->iter));
                assert(decreases_to!(va => va->body));
            }
            ast_eq(&x.target, &y.target) && ast_eq(&x.iter, &y.iter) && asts_eq(&x.body, &y.body)
        },
        (AST::ImportNode(x), AST::ImportNode(y)) => {
            proof {
                let va = ASTView::ImportNode { inner: Box::new(x.inner@) };
                assert(a@ == va);
                assert(decreases_to!(va => va->ImportNode_inner));
            }
            ast_eq(&x.inner, &y.inner)
        },
        (AST::Add(_), AST::Add(_)) => true,
        (AST::BinOp(x), AST::BinOp(y)) => {
            proof {
                let va = ASTView::BinOp { left: Box::new(x.left@), op: Box::new(x.op@), right: Box::new(x.right@) };
                assert(a@ == va);
                assert(decreases_to!(va => va->left));
                assert(decreases_to!(va => va->op));
                assert(decreases_to!(va => va->right));
            }
            ast_eq(&x.left, &y.left) && ast_eq(&x.op, &y.op) && ast_eq(&x.right, &y.right)
        },
        _ => {
            proof {
                assert(a@ != b@) by {
                    match (a, b) {
                        (AST::StringLiteral(_), _) => {},
                        _ => {},
                    }
                }
            }
            false
        },
    }
}

} // verus!
