//! The syntax tree of the code that the library generates (for Python and R
//! targets), as plain values.
use vstd::prelude::*;
use crate::ancestor_record::{AncestorRecord, AncestorRecordView, records_view};
use linked_hash_map::LinkedHashMap;
use crate::linked::{key_index, keys_unique_in, lemma_linked_insert, linked_insert};

verus! {

/// An ordered map from keyword names to syntax trees, held in a
/// `linked_hash_map::LinkedHashMap`: keys are unique and keep the order in
/// which they were first inserted, except that inserting an existing key
/// moves it to the end. The trees it holds hold such maps in turn, a
/// recursion that Verus refuses for a declared outside type; so the map
/// lives in this opaque struct, and `keyword_items` names its contents.
#[verifier::external_body]
pub struct KeywordMap {
    entries: LinkedHashMap<String, AST>,
}

/// A string constant. SQL strings are re-indented when rendered.
pub struct StringLiteral {
    pub value: String,
    pub is_sql: bool,
    pub ancestors: Option<Vec<AncestorRecord>>,
}

/// A bare name.
pub struct SimpleIdentifier {
    pub name: String,
}

/// `a[b]`.
pub struct Subscript {
    pub a: AST,
    pub b: AST,
    pub store: bool,
    pub ancestors: Option<Vec<AncestorRecord>>,
}

/// A format string filled in with keyword values.
pub struct Formatted {
    pub fmt: AST,
    pub keywords: KeywordMap,
}

/// A call with positional and keyword arguments.
pub struct Call {
    pub function: AST,
    pub args: Vec<AST>,
    pub keywords: KeywordMap,
}

/// `value.name`.
pub struct Attribute {
    pub value: AST,
    pub name: String,
    pub store: bool,
    pub ancestors: Option<Vec<AncestorRecord>>,
}

/// A list display.
pub struct List {
    pub elems: Vec<AST>,
    pub store: bool,
    pub ancestors: Option<Vec<AncestorRecord>>,
}

/// A dictionary display with string keys.
pub struct Dict {
    pub elems: KeywordMap,
}

/// A tuple display.
pub struct Tuple {
    pub elems: Vec<AST>,
    pub store: bool,
    pub ancestors: Option<Vec<AncestorRecord>>,
}

/// `True` / `False`.
pub struct BooleanLiteral {
    pub val: bool,
}

/// An integer constant.
pub struct BigIntLiteral {
    pub val: i64,
}

/// A floating point constant, held as the sign, mantissa and exponent of
/// its binary decomposition.
pub struct FloatLiteral {
    pub sign: i8,
    pub mantissa: u64,
    pub exponent: i16,
}

/// The null constant.
pub struct NoneLiteral {}

/// An expression used as a statement.
pub struct Expression {
    pub inner: AST,
}

/// `target = call`.
pub struct Assignment {
    pub target: AST,
    pub call: AST,
}

/// `for target in iter: body`.
pub struct ForLoop {
    pub target: AST,
    pub iter: AST,
    pub body: Vec<AST>,
}

/// An import of a module.
pub struct ImportNode {
    pub inner: AST,
}

/// The addition operator.
pub struct Add {}

/// `left op right`.
pub struct BinOp {
    pub left: AST,
    pub op: AST,
    pub right: AST,
}

/// A node of the syntax tree.
pub enum AST {
    StringLiteral(Box<StringLiteral>),
    SimpleIdentifier(Box<SimpleIdentifier>),
    Subscript(Box<Subscript>),
    Formatted(Box<Formatted>),
    Call(Box<Call>),
    Attribute(Box<Attribute>),
    List(Box<List>),
    Dict(Box<Dict>),
    Tuple(Box<Tuple>),
    BooleanLiteral(Box<BooleanLiteral>),
    BigIntLiteral(Box<BigIntLiteral>),
    FloatLiteral(Box<FloatLiteral>),
    NoneLiteral(Box<NoneLiteral>),
    Expression(Box<Expression>),
    Assignment(Box<Assignment>),
    ForLoop(Box<ForLoop>),
    ImportNode(Box<ImportNode>),
    Add(Box<Add>),
    BinOp(Box<BinOp>),
}

/// The abstract value of a syntax tree.
#[allow(inconsistent_fields)]
pub enum ASTView {
    StringLiteral { value: Seq<char>, is_sql: bool, ancestors: Option<Seq<AncestorRecordView>> },
    SimpleIdentifier { name: Seq<char> },
    Subscript { a: Box<ASTView>, b: Box<ASTView>, store: bool, ancestors: Option<Seq<AncestorRecordView>> },
    Formatted { fmt: Box<ASTView>, keywords: Seq<(Seq<char>, ASTView)> },
    Call { function: Box<ASTView>, args: Seq<ASTView>, keywords: Seq<(Seq<char>, ASTView)> },
    Attribute { value: Box<ASTView>, name: Seq<char>, store: bool, ancestors: Option<Seq<AncestorRecordView>> },
    List { elems: Seq<ASTView>, store: bool, ancestors: Option<Seq<AncestorRecordView>> },
    Dict { elems: Seq<(Seq<char>, ASTView)> },
    Tuple { elems: Seq<ASTView>, store: bool, ancestors: Option<Seq<AncestorRecordView>> },
    BooleanLiteral { val: bool },
    BigIntLiteral { val: i64 },
    FloatLiteral { sign: i8, mantissa: u64, exponent: i16 },
    NoneLiteral,
    Expression { inner: Box<ASTView> },
    Assignment { target: Box<ASTView>, call: Box<ASTView> },
    ForLoop { target: Box<ASTView>, iter: Box<ASTView>, body: Seq<ASTView> },
    ImportNode { inner: Box<ASTView> },
    Add,
    BinOp { left: Box<ASTView>, op: Box<ASTView>, right: Box<ASTView> },
}

pub open spec fn opt_records_view(o: Option<Vec<AncestorRecord>>) -> Option<Seq<AncestorRecordView>> {
    match o {
        Some(v) => Some(records_view(v@)),
        None => None,
    }
}

/// The views of a sequence of trees.
pub open spec fn asts_view(s: Seq<AST>) -> Seq<ASTView>
    decreases s,
{
    if s.len() == 0 {
        Seq::empty()
    } else {
        asts_view(s.drop_last()).push(ast_view(s.last()))
    }
}

/// The abstract value of a tree.
pub open spec fn ast_view(t: AST) -> ASTView
    decreases t,
{
    match t {
        AST::StringLiteral(x) => ASTView::StringLiteral {
            value: x.value@,
            is_sql: x.is_sql,
            ancestors: opt_records_view(x.ancestors),
        },
        AST::SimpleIdentifier(x) => ASTView::SimpleIdentifier { name: x.name@ },
        AST::Subscript(x) => ASTView::Subscript {
            a: Box::new(ast_view(x.a)),
            b: Box::new(ast_view(x.b)),
            store: x.store,
            ancestors: opt_records_view(x.ancestors),
        },
        AST::Formatted(x) => ASTView::Formatted {
            fmt: Box::new(ast_view(x.fmt)),
            keywords: keyword_items(x.keywords),
        },
        AST::Call(x) => ASTView::Call {
            function: Box::new(ast_view(x.function)),
            args: asts_view(x.args@),
            keywords: keyword_items(x.keywords),
        },
        AST::Attribute(x) => ASTView::Attribute {
            value: Box::new(ast_view(x.value)),
            name: x.name@,
            store: x.store,
            ancestors: opt_records_view(x.ancestors),
        },
        AST::List(x) => ASTView::List { elems: asts_view(x.elems@), store: x.store, ancestors: opt_records_view(x.ancestors) },
        AST::Dict(x) => ASTView::Dict { elems: keyword_items(x.elems) },
        AST::Tuple(x) => ASTView::Tuple { elems: asts_view(x.elems@), store: x.store, ancestors: opt_records_view(x.ancestors) },
        AST::BooleanLiteral(x) => ASTView::BooleanLiteral { val: x.val },
        AST::BigIntLiteral(x) => ASTView::BigIntLiteral { val: x.val },
        AST::FloatLiteral(x) => ASTView::FloatLiteral {
            sign: x.sign,
            mantissa: x.mantissa,
            exponent: x.exponent,
        },
        AST::NoneLiteral(_) => ASTView::NoneLiteral,
        AST::Expression(x) => ASTView::Expression { inner: Box::new(ast_view(x.inner)) },
        AST::Assignment(x) => ASTView::Assignment {
            target: Box::new(ast_view(x.target)),
            call: Box::new(ast_view(x.call)),
        },
        AST::ForLoop(x) => ASTView::ForLoop {
            target: Box::new(ast_view(x.target)),
            iter: Box::new(ast_view(x.iter)),
            body: asts_view(x.body@),
        },
        AST::ImportNode(x) => ASTView::ImportNode { inner: Box::new(ast_view(x.inner)) },
        AST::Add(_) => ASTView::Add,
        AST::BinOp(x) => ASTView::BinOp {
            left: Box::new(ast_view(x.left)),
            op: Box::new(ast_view(x.op)),
            right: Box::new(ast_view(x.right)),
        },
    }
}

impl View for AST {
    type V = ASTView;

    open spec fn view(&self) -> ASTView {
        ast_view(*self)
    }
}

pub(crate) fn clone_records(v: &Vec<AncestorRecord>) -> (r: Vec<AncestorRecord>)
    ensures
        r@.len() == v@.len(),
        forall|i: int| 0 <= i < v@.len() ==> #[trigger] r@[i]@ == v@[i]@,
{
    let mut r: Vec<AncestorRecord> = Vec::new();
    let mut i: usize = 0;
    while i < v.len()
        invariant
            i <= v@.len(),
            r@.len() == i,
            forall|j: int| 0 <= j < i ==> #[trigger] r@[j]@ == v@[j]@,
        decreases v@.len() - i,
    {
        r.push(v[i].clone());
        i = i + 1;
    }
    r
}

} // verus!

verus! {

pub proof fn lemma_asts_view_push(s: Seq<AST>, x: AST)
    ensures
        asts_view(s.push(x)) == asts_view(s).push(ast_view(x)),
{
    assert(s.push(x).drop_last() =~= s);
}

pub proof fn lemma_asts_view_len(s: Seq<AST>)
    ensures
        asts_view(s).len() == s.len(),
    decreases s.len(),
{
    if s.len() > 0 {
        lemma_asts_view_len(s.drop_last());
    }
}

pub proof fn lemma_asts_view_index(s: Seq<AST>, i: int)
    requires
        0 <= i < s.len(),
    ensures
        asts_view(s).len() == s.len(),
        asts_view(s)[i] == ast_view(s[i]),
    decreases s.len(),
{
    lemma_asts_view_len(s);
    if i < s.len() - 1 {
        lemma_asts_view_index(s.drop_last(), i);
    }
}

fn clone_opt_records(o: &Option<Vec<AncestorRecord>>) -> (r: Option<Vec<AncestorRecord>>)
    ensures
        opt_records_view(r) == opt_records_view(*o),
{
    match o {
        Some(v) => {
            let c = clone_records(v);
            proof {
                assert(records_view(c@) =~= records_view(v@));
            }
            Some(c)
        },
        None => None,
    }
}

/// A copy of a sequence of trees.
pub fn clone_asts(v: &Vec<AST>) -> (r: Vec<AST>)
    ensures
        asts_view(r@) == asts_view(v@),
    decreases v,
{
    let mut r: Vec<AST> = Vec::new();
    let mut i: usize = 0;
    while i < v.len()
        invariant
            i <= v@.len(),
            asts_view(r@) == asts_view(v@.take(i as int)),
        decreases v@.len() - i,
    {
        let c = clone_ast(&v[i]);
        proof {
            lemma_asts_view_push(r@, c);
            lemma_asts_view_push(v@.take(i as int), v@[i as int]);
            assert(v@.take(i as int).push(v@[i as int]) =~= v@.take(i as int + 1));
        }
        r.push(c);
        i = i + 1;
    }
    proof {
        assert(v@.take(i as int) =~= v@);
    }
    r
}

/// A copy of a tree.
pub fn clone_ast(t: &AST) -> (r: AST)
    ensures
        r@ == t@,
    decreases t,
{
    match t {
        AST::StringLiteral(x) => AST::StringLiteral(
            Box::new(
                StringLiteral {
                    value: x.value.clone(),
                    is_sql: x.is_sql,
                    ancestors: clone_opt_records(&x.ancestors),
                },
            ),
        ),
        AST::SimpleIdentifier(x) => AST::SimpleIdentifier(
            Box::new(SimpleIdentifier { name: x.name.clone() }),
        ),
        AST::Subscript(x) => AST::Subscript(
            Box::new(
                Subscript {
                    a: clone_ast(&x.a),
                    b: clone_ast(&x.b),
                    store: x.store,
                    ancestors: clone_opt_records(&x.ancestors),
                },
            ),
        ),
        AST::Formatted(x) => AST::Formatted(
            Box::new(
                Formatted {
                    fmt: clone_ast(&x.fmt),
                    keywords: clone_keywords(&x.keywords),
                },
            ),
        ),
        AST::Call(x) => AST::Call(
            Box::new(
                Call {
                    function: clone_ast(&x.function),
                    args: clone_asts(&x.args),
                    keywords: clone_keywords(&x.keywords),
                },
            ),
        ),
        AST::Attribute(x) => AST::Attribute(
            Box::new(
                Attribute {
                    value: clone_ast(&x.value),
                    name: x.name.clone(),
                    store: x.store,
                    ancestors: clone_opt_records(&x.ancestors),
                },
            ),
        ),
        AST::List(x) => AST::List(
            Box::new(
                List {
                    elems: clone_asts(&x.elems),
                    store: x.store,
                    ancestors: clone_opt_records(&x.ancestors),
                },
            ),
        ),
        AST::Dict(x) => AST::Dict(
            Box::new(Dict { elems: clone_keywords(&x.elems) }),
        ),
        AST::Tuple(x) => AST::Tuple(
            Box::new(
                Tuple {
                    elems: clone_asts(&x.elems),
                    store: x.store,
                    ancestors: clone_opt_records(&x.ancestors),
                },
            ),
        ),
        AST::BooleanLiteral(x) => AST::BooleanLiteral(Box::new(BooleanLiteral { val: x.val })),
        AST::BigIntLiteral(x) => AST::BigIntLiteral(Box::new(BigIntLiteral { val: x.val })),
        AST::FloatLiteral(x) => AST::FloatLiteral(
            Box::new(FloatLiteral { sign: x.sign, mantissa: x.mantissa, exponent: x.exponent }),
        ),
        AST::NoneLiteral(_) => AST::NoneLiteral(Box::new(NoneLiteral {  })),
        AST::Expression(x) => AST::Expression(Box::new(Expression { inner: clone_ast(&x.inner) })),
        AST::Assignment(x) => AST::Assignment(
            Box::new(Assignment { target: clone_ast(&x.target), call: clone_ast(&x.call) }),
        ),
        AST::ForLoop(x) => AST::ForLoop(
            Box::new(
                ForLoop {
                    target: clone_ast(&x.target),
                    iter: clone_ast(&x.iter),
                    body: clone_asts(&x.body),
                },
            ),
        ),
        AST::ImportNode(x) => AST::ImportNode(Box::new(ImportNode { inner: clone_ast(&x.inner) })),
        AST::Add(_) => AST::Add(Box::new(Add {  })),
        AST::BinOp(x) => AST::BinOp(
            Box::new(
                BinOp {
                    left: clone_ast(&x.left),
                    op: clone_ast(&x.op),
                    right: clone_ast(&x.right),
                },
            ),
        ),
    }
}

} // verus!

verus! {

/// The entries of a keyword map, by value, in the map's order.
pub uninterp spec fn keyword_items(m: KeywordMap) -> Seq<(Seq<char>, ASTView)>;

/// `LinkedHashMap::new`: an empty map.
#[verifier::external_body]
fn kw_new() -> (r: KeywordMap)
    ensures
        keyword_items(r) == Seq::<(Seq<char>, ASTView)>::empty(),
{
    KeywordMap { entries: LinkedHashMap::new() }
}

/// `LinkedHashMap::insert`: a new key goes last; an existing key takes the
/// new value and moves last (its old value is dropped).
#[verifier::external_body]
fn kw_put(m: &mut KeywordMap, key: String, value: AST)
    requires
        keys_unique_in(keyword_items(*old(m))),
    ensures
        keyword_items(*final(m)) == linked_insert(keyword_items(*old(m)), key@, value@),
{
    m.entries.insert(key, value);
}

/// `LinkedHashMap::len`.
#[verifier::external_body]
fn kw_len(m: &KeywordMap) -> (r: usize)
    ensures
        r == keyword_items(*m).len(),
{
    m.entries.len()
}

/// The entry at position `i` in the map's order (`LinkedHashMap::iter`).
#[verifier::external_body]
fn kw_entry(m: &KeywordMap, i: usize) -> (r: (&String, &AST))
    requires
        i < keyword_items(*m).len(),
    ensures
        (r.0@, r.1@) == keyword_items(*m)[i as int],
{
    m.entries.iter().nth(i).unwrap()
}

/// `LinkedHashMap::clone`: the same entries in the same order, each key
/// and tree cloned (trees by `AST::clone`, which keeps their value).
#[verifier::external_body]
fn kw_clone(m: &KeywordMap) -> (r: KeywordMap)
    ensures
        keyword_items(r) == keyword_items(*m),
{
    KeywordMap { entries: m.entries.clone() }
}

impl Clone for AST {
    fn clone(&self) -> (r: Self)
        ensures
            r@ == self@,
    {
        clone_ast(self)
    }
}

/// A copy of a keyword map.
pub fn clone_keywords(m: &KeywordMap) -> (r: KeywordMap)
    ensures
        r.view() == m.view(),
{
    kw_clone(m)
}

impl KeywordMap {
    /// The entries, in order, by value.
    pub open spec fn view(&self) -> Seq<(Seq<char>, ASTView)> {
        keyword_items(*self)
    }

    pub open spec fn wf(&self) -> bool {
        keys_unique_in(self.view())
    }

    pub fn new() -> (r: Self)
        ensures
            r.wf(),
            r.view() == Seq::<(Seq<char>, ASTView)>::empty(),
    {
        kw_new()
    }

    pub fn len(&self) -> (r: usize)
        ensures
            r == self.view().len(),
    {
        kw_len(self)
    }

    /// The key and tree at position `i`.
    pub fn entry(&self, i: usize) -> (r: (&String, &AST))
        requires
            i < self.view().len(),
        ensures
            (r.0@, r.1@) == self.view()[i as int],
    {
        kw_entry(self, i)
    }

    /// The keys, in order.
    pub fn keys(&self) -> (r: Vec<String>)
        ensures
            r@.len() == self.view().len(),
            forall|i: int| 0 <= i < r@.len() ==> #[trigger] r@[i]@ == self.view()[i].0,
    {
        let n = kw_len(self);
        let mut r: Vec<String> = Vec::new();
        let mut i: usize = 0;
        while i < n
            invariant
                n == self.view().len(),
                i <= n,
                r@.len() == i,
                forall|j: int| 0 <= j < i ==> #[trigger] r@[j]@ == self.view()[j].0,
            decreases n - i,
        {
            let (k, _) = kw_entry(self, i);
            r.push(k.clone());
            i = i + 1;
        }
        r
    }

    /// The position of `key`, if present.
    pub fn find(&self, key: &String) -> (r: Option<usize>)
        requires
            self.wf(),
        ensures
            match r {
                Some(j) => key_index(self.view(), key@) == Some(j as int) && j < self.view().len(),
                None => key_index(self.view(), key@) is None,
            },
    {
        let n = kw_len(self);
        let mut i: usize = 0;
        while i < n
            invariant
                i <= n,
                n == self.view().len(),
                self.wf(),
                forall|j: int| 0 <= j < i ==> #[trigger] self.view()[j].0 != key@,
            decreases n - i,
        {
            let (k, _) = kw_entry(self, i);
            if *k == *key {
                proof {
                    let s = self.view();
                    assert(exists|j: int| 0 <= j < s.len() && s[j].0 == key@) by {
                        assert(s[i as int].0 == key@);
                    }
                    let c = choose|j: int| 0 <= j < s.len() && s[j].0 == key@;
                    assert(c == i);
                }
                return Some(i);
            }
            i = i + 1;
        }
        proof {
            let s = self.view();
            assert(!(exists|j: int| 0 <= j < s.len() && s[j].0 == key@));
        }
        None
    }

    /// The tree under `key`, if present.
    pub fn get(&self, key: &String) -> (r: Option<&AST>)
        requires
            self.wf(),
        ensures
            match key_index(self.view(), key@) {
                Some(j) => r matches Some(t) && t@ == self.view()[j].1,
                None => r is None,
            },
    {
        match self.find(key) {
            Some(j) => {
                let (_, t) = kw_entry(self, j);
                Some(t)
            },
            None => None,
        }
    }

    /// Inserts `key => value` (an existing entry for `key` is moved to the end
    /// and takes the new value).
    pub fn insert(&mut self, key: String, value: AST)
        requires
            old(self).wf(),
        ensures
            final(self).wf(),
            final(self).view() == linked_insert(old(self).view(), key@, value@),
    {
        proof {
            lemma_linked_insert(self.view(), key@, value@, key@);
        }
        kw_put(self, key, value);
    }
}

} // verus!

verus! {

/// The pieces of a text between newline characters, as `str::split('\n')`
/// yields them (empty pieces included).
pub open spec fn split_lines(s: Seq<char>) -> Seq<Seq<char>>
    decreases s.len(),
{
    if s.len() == 0 {
        seq![Seq::<char>::empty()]
    } else {
        let p = split_lines(s.drop_last());
        if s.last() == '\n' {
            p.push(Seq::empty())
        } else {
            p.update(p.len() - 1, p.last().push(s.last()))
        }
    }
}

/// The non-empty members of a sequence of lines, in order.
pub open spec fn nonempty_lines(ls: Seq<Seq<char>>) -> Seq<Seq<char>>
    decreases ls.len(),
{
    if ls.len() == 0 {
        Seq::empty()
    } else {
        let r = nonempty_lines(ls.drop_last());
        if ls.last().len() > 0 {
            r.push(ls.last())
        } else {
            r
        }
    }
}

/// The number of spaces that open a line.
pub open spec fn leading_spaces(x: Seq<char>) -> nat
    decreases x.len(),
{
    if x.len() == 0 || x[0] != ' ' {
        0
    } else {
        1 + leading_spaces(x.drop_first())
    }
}

/// The least number of opening spaces among non-empty lines.
pub open spec fn min_leading_spaces(ls: Seq<Seq<char>>) -> nat
    decreases ls.len(),
{
    if ls.len() <= 1 {
        if ls.len() == 0 {
            0
        } else {
            leading_spaces(ls[0])
        }
    } else {
        let a = min_leading_spaces(ls.drop_last());
        let b = leading_spaces(ls.last());
        if a <= b {
            a
        } else {
            b
        }
    }
}

/// `n` space characters.
pub open spec fn spaces(n: nat) -> Seq<char> {
    Seq::new(n, |i: int| ' ')
}

/// Each line with its first `m` characters cut and `offset` put in front,
/// joined by newlines.
pub open spec fn reindent(ls: Seq<Seq<char>>, m: nat, offset: Seq<char>) -> Seq<char>
    decreases ls.len(),
{
    if ls.len() == 0 {
        Seq::empty()
    } else if ls.len() == 1 {
        offset + ls[0].skip(m as int)
    } else {
        reindent(ls.drop_last(), m, offset) + seq!['\n'] + offset + ls.last().skip(m as int)
    }
}

/// How an SQL string is laid out in generated code at nesting depth `depth`:
/// a single non-empty line is kept as it is; several are stripped of their
/// common opening spaces, indented by four spaces per level, and framed by
/// newlines (the closing newline followed by the indentation).
pub open spec fn pretty_sql(value: Seq<char>, depth: nat) -> Seq<char> {
    let ls = nonempty_lines(split_lines(value));
    if ls.len() == 1 {
        ls[0]
    } else {
        let offset = spaces(4 * depth);
        seq!['\n'] + reindent(ls, min_leading_spaces(ls), offset) + seq!['\n'] + offset
    }
}

proof fn lemma_split_lines_nonempty(s: Seq<char>)
    ensures
        split_lines(s).len() >= 1,
    decreases s.len(),
{
    if s.len() > 0 {
        lemma_split_lines_nonempty(s.drop_last());
    }
}

/// The non-empty lines of a text.
fn nonempty_lines_of(cs: &Vec<char>) -> (r: Vec<Vec<char>>)
    ensures
        r@.len() == nonempty_lines(split_lines(cs@)).len(),
        forall|i: int| 0 <= i < r@.len() ==> #[trigger] r@[i]@ == nonempty_lines(split_lines(cs@))[i],
{
    let mut out: Vec<Vec<char>> = Vec::new();
    let mut cur: Vec<char> = Vec::new();
    let mut i: usize = 0;
    while i < cs.len()
        invariant
            i <= cs@.len(),
            ({
                let p = split_lines(cs@.take(i as int));
                &&& p.len() >= 1
                &&& cur@ == p.last()
                &&& out@.len() == nonempty_lines(p.drop_last()).len()
                &&& forall|j: int| 0 <= j < out@.len() ==> #[trigger] out@[j]@ == nonempty_lines(p.drop_last())[j]
            }),
        decreases cs@.len() - i,
    {
        let c = cs[i];
        let ghost p = split_lines(cs@.take(i as int));
        proof {
            assert(cs@.take(i as int + 1).drop_last() =~= cs@.take(i as int));
            lemma_split_lines_nonempty(cs@.take(i as int));
        }
        if c == '\n' {
            if cur.len() > 0 {
                out.push(cur);
            }
            cur = Vec::new();
            proof {
                let q = split_lines(cs@.take(i as int + 1));
                assert(q == p.push(Seq::empty()));
                assert(q.drop_last() =~= p);
                assert(p =~= p.drop_last().push(p.last()));
                assert(cur@ =~= q.last());
            }
        } else {
            cur.push(c);
            proof {
                let q = split_lines(cs@.take(i as int + 1));
                assert(q == p.update(p.len() - 1, p.last().push(c)));
                assert(q.drop_last() =~= p.drop_last());
            }
        }
        i = i + 1;
    }
    proof {
        let p = split_lines(cs@.take(i as int));
        assert(cs@.take(i as int) =~= cs@);
        assert(p =~= p.drop_last().push(p.last()));
    }
    if cur.len() > 0 {
        out.push(cur);
    }
    out
}

fn leading_spaces_of(x: &Vec<char>) -> (r: usize)
    ensures
        r == leading_spaces(x@),
        r <= x@.len(),
        forall|j: int| 0 <= j < r ==> x@[j] == ' ',
{
    let mut i: usize = 0;
    proof {
        assert(x@.skip(0) =~= x@);
    }
    while i < x.len() && x[i] == ' '
        invariant
            i <= x@.len(),
            forall|j: int| 0 <= j < i ==> x@[j] == ' ',
            leading_spaces(x@) == i + leading_spaces(x@.skip(i as int)),
        decreases x@.len() - i,
    {
        proof {
            assert(x@.skip(i as int).drop_first() =~= x@.skip(i as int + 1));
        }
        i = i + 1;
    }
    i
}

} // verus!

verus! {

proof fn lemma_leading_spaces_le(x: Seq<char>)
    ensures
        leading_spaces(x) <= x.len(),
    decreases x.len(),
{
    if x.len() > 0 && x[0] == ' ' {
        lemma_leading_spaces_le(x.drop_first());
    }
}

proof fn lemma_min_leading_le(ls: Seq<Seq<char>>, i: int)
    requires
        0 <= i < ls.len(),
    ensures
        min_leading_spaces(ls) <= leading_spaces(ls[i]),
    decreases ls.len(),
{
    if ls.len() > 1 {
        if i < ls.len() - 1 {
            lemma_min_leading_le(ls.drop_last(), i);
        }
    }
}

fn push_all_from(out: &mut Vec<char>, line: &Vec<char>, m: usize)
    requires
        m <= line@.len(),
    ensures
        final(out)@ == old(out)@ + line@.skip(m as int),
{
    let mut k: usize = m;
    while k < line.len()
        invariant
            m <= k <= line@.len(),
            out@ == old(out)@ + line@.subrange(m as int, k as int),
        decreases line@.len() - k,
    {
        out.push(line[k]);
        k = k + 1;
        proof {
            assert(out@ =~= old(out)@ + line@.subrange(m as int, k as int));
        }
    }
    proof {
        assert(line@.subrange(m as int, k as int) =~= line@.skip(m as int));
    }
}

fn push_spaces(out: &mut Vec<char>, n: usize)
    ensures
        final(out)@ == old(out)@ + spaces(n as nat),
{
    let mut k: usize = 0;
    while k < n
        invariant
            k <= n,
            out@ == old(out)@ + spaces(k as nat),
        decreases n - k,
    {
        out.push(' ');
        k = k + 1;
        proof {
            assert(out@ =~= old(out)@ + spaces(k as nat));
        }
    }
}

impl StringLiteral {
    /// Lays an SQL string out for the given nesting depth (see
    /// `pretty_sql`). A string without any non-empty line and a non-SQL
    /// string are fatal errors; those are excluded. The offset of a string
    /// of several lines must fit in memory.
    pub fn pretty_sql_value(&self, depth: usize) -> (r: String)
        requires
            self.is_sql,
            nonempty_lines(split_lines(self.value@)).len() > 0,
            nonempty_lines(split_lines(self.value@)).len() > 1 ==> 4 * depth <= usize::MAX,
        ensures
            r@ == pretty_sql(self.value@, depth as nat),
    {
        let cs = crate::strings::chars_of(self.value.as_str());
        let lines = nonempty_lines_of(&cs);
        let ghost ls = nonempty_lines(split_lines(self.value@));
        proof {
            assert(lines@.len() == ls.len());
        }
        if lines.len() == 1 {
            return crate::strings::string_from_chars(&lines[0]);
        }
        let mut m: usize = leading_spaces_of(&lines[0]);
        let mut i: usize = 1;
        proof {
            assert(ls.take(1).len() == 1);
            assert(ls.take(1)[0] == ls[0]);
        }
        while i < lines.len()
            invariant
                1 <= i <= lines@.len(),
                lines@.len() == ls.len(),
                forall|j: int| 0 <= j < lines@.len() ==> #[trigger] lines@[j]@ == ls[j],
                m == min_leading_spaces(ls.take(i as int)),
            decreases lines@.len() - i,
        {
            let l = leading_spaces_of(&lines[i]);
            proof {
                assert(ls.take(i as int + 1).drop_last() =~= ls.take(i as int));
                assert(ls.take(i as int + 1).last() == ls[i as int]);
            }
            if l < m {
                m = l;
            }
            i = i + 1;
        }
        proof {
            assert(ls.take(i as int) =~= ls);
        }
        let offset_len: usize = 4 * depth;
        let mut out: Vec<char> = Vec::new();
        out.push('\n');
        let mut i: usize = 0;
        while i < lines.len()
            invariant
                i <= lines@.len(),
                lines@.len() == ls.len(),
                ls.len() > 1,
                offset_len == 4 * depth,
                forall|j: int| 0 <= j < lines@.len() ==> #[trigger] lines@[j]@ == ls[j],
                m == min_leading_spaces(ls),
                out@ == seq!['\n'] + reindent(ls.take(i as int), m as nat, spaces(offset_len as nat)),
            decreases lines@.len() - i,
        {
            proof {
                lemma_min_leading_le(ls, i as int);
                lemma_leading_spaces_le(ls[i as int]);
                assert(ls.take(i as int + 1).drop_last() =~= ls.take(i as int));
                assert(ls.take(i as int + 1).last() == ls[i as int]);
            }
            if i > 0 {
                out.push('\n');
            }
            push_spaces(&mut out, offset_len);
            push_all_from(&mut out, &lines[i], m);
            i = i + 1;
            proof {
                let t = ls.take(i as int);
                if i == 1 {
                    assert(t.len() == 1 && t[0] == ls[0]);
                    assert(ls.take(0).len() == 0);
                }
                assert(out@ =~= seq!['\n'] + reindent(t, m as nat, spaces(offset_len as nat)));
            }
        }
        out.push('\n');
        push_spaces(&mut out, offset_len);
        proof {
            assert(ls.take(i as int) =~= ls);
            assert(out@ =~= pretty_sql(self.value@, depth as nat));
        }
        crate::strings::string_from_chars(&out)
    }
}

} // verus!

verus! {

impl StringLiteral {
    /// A string constant. An SQL string may not be empty.
    pub fn new(value: String, is_sql: bool) -> (r: Self)
        requires
            value@.len() > 0 || !is_sql,
        ensures
            r.value == value,
            r.is_sql == is_sql,
            r.ancestors is None,
    {
        StringLiteral { value, is_sql, ancestors: None }
    }

    /// A boxed string constant, ready to be placed in a tree.
    pub fn new_wrapped(value: String, is_sql: bool) -> (r: Box<Self>)
        requires
            value@.len() > 0 || !is_sql,
        ensures
            r.value == value,
            r.is_sql == is_sql,
            r.ancestors is None,
    {
        Box::new(Self::new(value, is_sql))
    }

    /// Records the ancestors of the constant; they may be set only once.
    pub fn set_ancestors(&mut self, ancestors: Vec<AncestorRecord>)
        requires
            old(self).ancestors is None,
        ensures
            final(self).value == old(self).value,
            final(self).is_sql == old(self).is_sql,
            final(self).ancestors == Some(ancestors),
    {
        self.ancestors = Some(ancestors);
    }

    pub fn get_ancestors(&self) -> (r: Option<Vec<AncestorRecord>>)
        ensures
            opt_records_view(r) == opt_records_view(self.ancestors),
    {
        clone_opt_records(&self.ancestors)
    }

    /// The same constant without ancestors.
    pub fn clone_without_ancestors(&self) -> (r: Self)
        ensures
            r.value@ == self.value@,
            r.is_sql == self.is_sql,
            r.ancestors is None,
    {
        StringLiteral { value: self.value.clone(), is_sql: self.is_sql, ancestors: None }
    }

    /// The same constant, marked as SQL.
    pub fn as_sql_string(&self) -> (r: Self)
        ensures
            r.value@ == self.value@,
            r.is_sql,
            opt_records_view(r.ancestors) == opt_records_view(self.ancestors),
    {
        StringLiteral {
            value: self.value.clone(),
            is_sql: true,
            ancestors: clone_opt_records(&self.ancestors),
        }
    }

    pub fn value(&self) -> (r: String)
        ensures
            r@ == self.value@,
    {
        self.value.clone()
    }

    /// The length of the constant in bytes of UTF-8.
    pub fn len(&self) -> (r: usize)
        ensures
            r == vstd::utf8::encode_utf8(self.value@).len() as usize,
    {
        self.value.as_str().len()
    }

    /// Whether the constant spans several lines.
    pub fn is_multiline(&self) -> (r: bool)
        ensures
            r == self.value@.contains('\n'),
    {
        let cs = crate::strings::chars_of(self.value.as_str());
        let mut i: usize = 0;
        while i < cs.len()
            invariant
                i <= cs@.len(),
                cs@ == self.value@,
                forall|j: int| 0 <= j < i ==> cs@[j] != '\n',
            decreases cs@.len() - i,
        {
            if cs[i] == '\n' {
                return true;
            }
            i = i + 1;
        }
        false
    }

    /// A constant has no children.
    pub fn get_direct_descendants(&self) -> (r: Vec<AST>)
        ensures
            r@.len() == 0,
    {
        Vec::new()
    }

    /// A constant has nothing to optimize.
    pub fn optimize_fields(&self) {
    }
}

impl SimpleIdentifier {
    pub fn new_wrapped(name: String) -> (r: Box<Self>)
        ensures
            r.name == name,
    {
        Box::new(SimpleIdentifier { name })
    }

    pub fn name(&self) -> (r: String)
        ensures
            r@ == self.name@,
    {
        self.name.clone()
    }
}

impl Subscript {
    pub fn new_wrapped(a: AST, b: AST, store: bool) -> (r: Box<Self>)
        ensures
            r.a == a,
            r.b == b,
            r.store == store,
            r.ancestors is None,
    {
        Box::new(Subscript { a, b, store, ancestors: None })
    }

    /// The same subscript, as the target of an assignment.
    pub fn as_assignment_target(&self) -> (r: Self)
        ensures
            r.a@ == self.a@,
            r.b@ == self.b@,
            r.store,
            opt_records_view(r.ancestors) == opt_records_view(self.ancestors),
    {
        Subscript {
            a: clone_ast(&self.a),
            b: clone_ast(&self.b),
            store: true,
            ancestors: clone_opt_records(&self.ancestors),
        }
    }
}

impl Attribute {
    pub fn new_wrapped(value: AST, name: String, store: bool) -> (r: Box<Self>)
        ensures
            r.value == value,
            r.name == name,
            r.store == store,
            r.ancestors is None,
    {
        Box::new(Attribute { value, name, store, ancestors: None })
    }

    /// The same attribute access, as the target of an assignment.
    pub fn as_assignment_target(&self) -> (r: Self)
        ensures
            r.value@ == self.value@,
            r.name@ == self.name@,
            r.store,
            opt_records_view(r.ancestors) == opt_records_view(self.ancestors),
    {
        Attribute {
            value: clone_ast(&self.value),
            name: self.name.clone(),
            store: true,
            ancestors: clone_opt_records(&self.ancestors),
        }
    }
}

impl List {
    pub fn new_wrapped(elems: Vec<AST>, store: bool) -> (r: Box<Self>)
        ensures
            r.elems == elems,
            r.store == store,
            r.ancestors is None,
    {
        Box::new(List { elems, store, ancestors: None })
    }

    pub fn elems(&self) -> (r: Vec<AST>)
        ensures
            asts_view(r@) == asts_view(self.elems@),
    {
        clone_asts(&self.elems)
    }

    /// The same list, as the target of an assignment.
    pub fn as_assignment_target(&self) -> (r: Self)
        ensures
            asts_view(r.elems@) == asts_view(self.elems@),
            r.store,
            opt_records_view(r.ancestors) == opt_records_view(self.ancestors),
    {
        List {
            elems: clone_asts(&self.elems),
            store: true,
            ancestors: clone_opt_records(&self.ancestors),
        }
    }
}

impl Tuple {
    pub fn new_wrapped(elems: Vec<AST>, store: bool) -> (r: Box<Self>)
        ensures
            r.elems == elems,
            r.store == store,
            r.ancestors is None,
    {
        Box::new(Tuple { elems, store, ancestors: None })
    }

    /// The same tuple, as the target of an assignment.
    pub fn as_assignment_target(&self) -> (r: Self)
        ensures
            asts_view(r.elems@) == asts_view(self.elems@),
            r.store,
            opt_records_view(r.ancestors) == opt_records_view(self.ancestors),
    {
        Tuple {
            elems: clone_asts(&self.elems),
            store: true,
            ancestors: clone_opt_records(&self.ancestors),
        }
    }
}

impl Dict {
    pub fn new_wrapped(elems: KeywordMap) -> (r: Box<Self>)
        ensures
            r.elems == elems,
    {
        Box::new(Dict { elems })
    }

    /// Sets the value of `key` (an existing entry for `key` moves to the
    /// end, as in a `LinkedHashMap`).
    pub fn replace_elem(&mut self, key: String, elem: AST)
        requires
            old(self).elems.wf(),
        ensures
            final(self).elems.wf(),
            final(self).elems.view() == linked_insert(old(self).elems.view(), key@, elem@),
    {
        self.elems.insert(key, elem);
    }
}

impl Call {
    pub fn new_wrapped(function: AST, args: Vec<AST>, keywords: KeywordMap) -> (r: Box<Self>)
        ensures
            r.function == function,
            r.args == args,
            r.keywords == keywords,
    {
        Box::new(Call { function, args, keywords })
    }
}

impl Formatted {
    pub fn new_wrapped(fmt: AST, keywords: KeywordMap) -> (r: Box<Self>)
        ensures
            r.fmt == fmt,
            r.keywords == keywords,
    {
        Box::new(Formatted { fmt, keywords })
    }
}

/// What `Formatted::optimize` makes of a format node: a format string that
/// is exactly `{k}` filled with the single keyword `k` is that keyword's value.
pub open spec fn formatted_optimized(fmt: ASTView, keywords: Seq<(Seq<char>, ASTView)>) -> Option<
    ASTView,
> {
    if keywords.len() == 1 && (fmt matches ASTView::StringLiteral { value, .. } && value == seq![
        '{',
    ] + keywords[0].0 + seq!['}']) {
        Some(keywords[0].1)
    } else {
        None
    }
}

impl Formatted {
    /// Replaces `"{k}".format(k=v)` by `v`; `None` when the node is of any
    /// other shape.
    pub fn optimize(&self) -> (r: Option<AST>)
        ensures
            match r {
                Some(t) => formatted_optimized(self.fmt@, self.keywords.view()) == Some(t@),
                None => formatted_optimized(self.fmt@, self.keywords.view()) is None,
            },
    {
        if self.keywords.len() == 1 {
            if let AST::StringLiteral(lit) = &self.fmt {
                let (key, value) = self.keywords.entry(0);
                let mut expected = crate::strings::string_of("{");
                expected.append(key.as_str());
                expected.append("}");
                proof {
                    reveal_strlit("{");
                    reveal_strlit("}");
                }
                let same = lit.value == expected;
                proof {
                    let kv = self.keywords.view();
                    assert(self.fmt@ == ASTView::StringLiteral {
                        value: lit.value@,
                        is_sql: lit.is_sql,
                        ancestors: opt_records_view(lit.ancestors),
                    });
                    assert(kv[0].0 == key@);
                    assert(expected@ == seq!['{'] + kv[0].0 + seq!['}']);
                }
                if same {
                    return Some(clone_ast(value));
                }
                return None;
            }
        }
        None
    }
}

/// Whether a tree can be the target of an assignment.
pub open spec fn is_assignment_target(t: ASTView) -> bool {
    t is Subscript || t is Attribute || t is List || t is Tuple || t is SimpleIdentifier
}

/// The target form of an assignable tree: the same tree, ancestors
/// included, with its store flag set (an identifier stays as it is).
pub open spec fn assignment_target_view(t: ASTView) -> ASTView {
    match t {
        ASTView::Subscript { a, b, ancestors, .. } => ASTView::Subscript { a, b, store: true, ancestors },
        ASTView::Attribute { value, name, ancestors, .. } => ASTView::Attribute { value, name, store: true, ancestors },
        ASTView::List { elems, ancestors, .. } => ASTView::List { elems, store: true, ancestors },
        ASTView::Tuple { elems, ancestors, .. } => ASTView::Tuple { elems, store: true, ancestors },
        _ => t,
    }
}

impl AST {
    /// The optimized form of a format node; `None` for any other node.
    pub fn optimize(&self) -> (r: Option<AST>)
        ensures
            match r {
                Some(t) => (self@ matches ASTView::Formatted { fmt, keywords }
                    && formatted_optimized(*fmt, keywords) == Some(t@)),
                None => !(self@ matches ASTView::Formatted { fmt, keywords }
                    && formatted_optimized(*fmt, keywords) is Some),
            },
    {
        match self {
            AST::Formatted(f) => f.optimize(),
            _ => None,
        }
    }

    /// The tree as the target of an assignment. A tree that cannot be
    /// assigned to is a fatal error; that input is excluded.
    pub fn as_wrapped_assignment_target(&self) -> (r: AST)
        requires
            is_assignment_target(self@),
        ensures
            r@ == assignment_target_view(self@),
    {
        match self {
            AST::Subscript(x) => AST::Subscript(Box::new(x.as_assignment_target())),
            AST::Attribute(x) => AST::Attribute(Box::new(x.as_assignment_target())),
            AST::List(x) => AST::List(Box::new(x.as_assignment_target())),
            AST::Tuple(x) => AST::Tuple(Box::new(x.as_assignment_target())),
            _ => clone_ast(self),
        }
    }
}

} // verus!
