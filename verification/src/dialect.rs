//! The languages in which the code that satisfies a constraint can be
//! written, and sorted sets of names (the pip requirements of Python code).
use vstd::prelude::*;

verus! {

/// Lexicographic order of texts by code point: the order of Rust's `String`.
pub open spec fn text_lt(a: Seq<char>, b: Seq<char>) -> bool
    decreases a.len(),
{
    if a.len() == 0 {
        b.len() > 0
    } else if b.len() == 0 {
        false
    } else if (a[0] as int) < (b[0] as int) {
        true
    } else if a[0] == b[0] {
        text_lt(a.drop_first(), b.drop_first())
    } else {
        false
    }
}

pub proof fn lemma_text_lt_irreflexive(a: Seq<char>)
    ensures
        !text_lt(a, a),
    decreases a.len(),
{
    if a.len() > 0 {
        lemma_text_lt_irreflexive(a.drop_first());
    }
}

pub proof fn lemma_text_lt_total(a: Seq<char>, b: Seq<char>)
    ensures
        a == b || text_lt(a, b) || text_lt(b, a),
        !(text_lt(a, b) && text_lt(b, a)),
    decreases a.len(),
{
    if a.len() > 0 && b.len() > 0 {
        lemma_text_lt_total(a.drop_first(), b.drop_first());
        if a[0] == b[0] && a.drop_first() == b.drop_first() {
            assert(a =~= seq![a[0]] + a.drop_first());
            assert(b =~= seq![b[0]] + b.drop_first());
        }
    } else if a.len() == 0 && b.len() == 0 {
        assert(a =~= b);
    }
}

pub proof fn lemma_text_lt_transitive(a: Seq<char>, b: Seq<char>, c: Seq<char>)
    requires
        text_lt(a, b),
        text_lt(b, c),
    ensures
        text_lt(a, c),
    decreases a.len(),
{
    if a.len() > 0 && b.len() > 0 && c.len() > 0 {
        if a[0] == b[0] && b[0] == c[0] {
            lemma_text_lt_transitive(a.drop_first(), b.drop_first(), c.drop_first());
        }
    }
}

/// Whether a sequence of texts is strictly increasing (hence free of
/// repeats).
pub open spec fn strictly_sorted(s: Seq<Seq<char>>) -> bool {
    forall|i: int, j: int| 0 <= i < j < s.len() ==> text_lt(s[i], s[j])
}

/// The texts of a vector of strings.
pub open spec fn texts(v: Seq<String>) -> Seq<Seq<char>> {
    v.map_values(|s: String| s@)
}

/// Two strictly increasing sequences holding the same texts are equal.
pub proof fn lemma_sorted_unique(a: Seq<Seq<char>>, b: Seq<Seq<char>>)
    requires
        strictly_sorted(a),
        strictly_sorted(b),
        a.to_set() == b.to_set(),
    ensures
        a == b,
    decreases a.len() + b.len(),
{
    if a.len() == 0 {
        if b.len() > 0 {
            assert(b.to_set().contains(b[0]));
            assert(!a.to_set().contains(b[0]));
        }
        assert(a =~= b);
    } else if b.len() == 0 {
        assert(a.to_set().contains(a[0]));
        assert(!b.to_set().contains(a[0]));
    } else {
        // the largest members agree
        let la = a.last();
        let lb = b.last();
        assert(a.to_set().contains(la));
        assert(b.to_set().contains(lb));
        let ia = choose|i: int| 0 <= i < a.len() && a[i] == lb;
        let ib = choose|i: int| 0 <= i < b.len() && b[i] == la;
        if la != lb {
            lemma_text_lt_total(la, lb);
            if text_lt(la, lb) {
                if ia < a.len() - 1 {
                    lemma_text_lt_total(a[ia], la);
                } else {
                    lemma_text_lt_irreflexive(la);
                }
            } else {
                if ib < b.len() - 1 {
                    lemma_text_lt_total(b[ib], lb);
                } else {
                    lemma_text_lt_irreflexive(lb);
                }
            }
        }
        let a2 = a.drop_last();
        let b2 = b.drop_last();
        assert forall|x: Seq<char>| a2.to_set().contains(x) <==> b2.to_set().contains(x) by {
            if a2.to_set().contains(x) {
                let i = choose|i: int| 0 <= i < a2.len() && a2[i] == x;
                assert(a[i] == x);
                assert(b.to_set().contains(x));
                let j = choose|j: int| 0 <= j < b.len() && b[j] == x;
                if j == b.len() - 1 {
                    lemma_text_lt_irreflexive(x);
                }
                assert(b2[j] == x);
            }
            if b2.to_set().contains(x) {
                let j = choose|j: int| 0 <= j < b2.len() && b2[j] == x;
                assert(b[j] == x);
                assert(a.to_set().contains(x));
                let i = choose|i: int| 0 <= i < a.len() && a[i] == x;
                if i == a.len() - 1 {
                    lemma_text_lt_irreflexive(x);
                }
                assert(a2[i] == x);
            }
        }
        assert(a2.to_set() =~= b2.to_set());
        lemma_sorted_unique(a2, b2);
        assert(a =~= a2.push(la));
        assert(b =~= b2.push(lb));
    }
}

/// Whether `a` precedes `b` in the order of Rust's `String`.
pub fn string_lt(a: &String, b: &String) -> (r: bool)
    ensures
        r == text_lt(a@, b@),
{
    let x = crate::strings::chars_of(a.as_str());
    let y = crate::strings::chars_of(b.as_str());
    let mut i: usize = 0;
    proof {
        assert(a@.skip(0) =~= a@);
        assert(b@.skip(0) =~= b@);
    }
    while i < x.len() && i < y.len() && x[i] == y[i]
        invariant
            i <= x@.len(),
            i <= y@.len(),
            x@ == a@,
            y@ == b@,
            forall|j: int| 0 <= j < i ==> x@[j] == y@[j],
            text_lt(a@, b@) == text_lt(a@.skip(i as int), b@.skip(i as int)),
        decreases x@.len() - i,
    {
        proof {
            assert(a@.skip(i as int).drop_first() =~= a@.skip(i as int + 1));
            assert(b@.skip(i as int).drop_first() =~= b@.skip(i as int + 1));
        }
        i = i + 1;
    }
    if i == x.len() {
        i < y.len()
    } else if i == y.len() {
        false
    } else {
        x[i] < y[i]
    }
}

/// Adds a text to a strictly increasing vector of strings, keeping it so.
pub fn sorted_insert(v: &mut Vec<String>, x: String)
    requires
        strictly_sorted(texts(old(v)@)),
    ensures
        strictly_sorted(texts(final(v)@)),
        texts(final(v)@).to_set() == texts(old(v)@).to_set().insert(x@),
{
    let mut p: usize = 0;
    while p < v.len() && string_lt(&v[p], &x)
        invariant
            p <= v@.len(),
            strictly_sorted(texts(v@)),
            forall|j: int| 0 <= j < p ==> text_lt(#[trigger] texts(v@)[j], x@),
        decreases v@.len() - p,
    {
        p = p + 1;
    }
    let ghost s0 = texts(v@);
    if p < v.len() && v[p] == x {
        proof {
            assert(s0[p as int] == x@);
            assert(s0.to_set().insert(x@) =~= s0.to_set());
        }
        return;
    }
    proof {
        if p < v@.len() {
            lemma_text_lt_total(s0[p as int], x@);
        }
    }
    v.insert(p, x);
    proof {
        let s1 = texts(v@);
        assert(s1 =~= s0.insert(p as int, x@));
        assert forall|i: int, j: int| 0 <= i < j < s1.len() implies text_lt(s1[i], s1[j]) by {
            if i < p && j == p {
            } else if i < p && j > p {
                assert(s1[j] == s0[j - 1]);
            } else if i == p && j > p {
                assert(s1[j] == s0[j - 1]);
                if j - 1 > p {
                    lemma_text_lt_transitive(x@, s0[p as int], s0[j - 1]);
                }
            } else if i > p {
                assert(s1[i] == s0[i - 1] && s1[j] == s0[j - 1]);
            } else {
                assert(s1[i] == s0[i] && s1[j] == s0[j]);
            }
        }
        assert(s1.to_set() =~= s0.to_set().insert(x@)) by {
            assert forall|y: Seq<char>| s1.to_set().contains(y) implies s0.to_set().insert(
                x@,
            ).contains(y) by {
                let k = choose|k: int| 0 <= k < s1.len() && s1[k] == y;
                if k < p {
                    assert(s0[k] == y);
                } else if k > p {
                    assert(s0[k - 1] == y);
                }
            }
            assert forall|y: Seq<char>| s0.to_set().insert(x@).contains(y) implies s1.to_set().contains(
                y,
            ) by {
                if y == x@ {
                    assert(s1[p as int] == y);
                } else {
                    let k = choose|k: int| 0 <= k < s0.len() && s0[k] == y;
                    if k < p {
                        assert(s1[k] == y);
                    } else {
                        assert(s1[k + 1] == y);
                    }
                }
            }
        }
    }
}

} // verus!

verus! {

/// Python code, with the pip packages it requires (a sorted set).
pub struct Python {
    pip_requirements: Vec<String>,
}

/// R code.
pub struct R {}

/// Bash code.
pub struct Bash {}

/// Presto SQL.
pub struct Presto {}

/// The language of the code that satisfies a constraint.
pub enum Dialect {
    Python(Python),
    R(R),
    Bash(Bash),
    Presto(Presto),
}

/// The abstract value of a dialect; a Python dialect is known by the set of
/// its requirements, listed in increasing order.
pub enum DialectView {
    Python(Seq<Seq<char>>),
    R,
    Bash,
    Presto,
}

impl Python {
    #[verifier::type_invariant]
    spec fn requirements_sorted(&self) -> bool {
        strictly_sorted(texts(self.pip_requirements@))
    }

    /// The requirements, in increasing order.
    pub closed spec fn requirements(&self) -> Seq<Seq<char>> {
        texts(self.pip_requirements@)
    }

    /// Python code that needs the given pip packages (repeats and order do
    /// not matter).
    pub fn new(pip_requirements: Vec<String>) -> (r: Self)
        ensures
            strictly_sorted(r.requirements()),
            r.requirements().to_set() == texts(pip_requirements@).to_set(),
    {
        let mut reqs: Vec<String> = Vec::new();
        let mut i: usize = 0;
        proof {
            assert(texts(reqs@).to_set() =~= texts(pip_requirements@.take(0)).to_set());
        }
        while i < pip_requirements.len()
            invariant
                i <= pip_requirements@.len(),
                strictly_sorted(texts(reqs@)),
                texts(reqs@).to_set() == texts(pip_requirements@.take(i as int)).to_set(),
            decreases pip_requirements@.len() - i,
        {
            sorted_insert(&mut reqs, pip_requirements[i].clone());
            proof {
                assert(texts(pip_requirements@.take(i as int + 1)) =~= texts(
                    pip_requirements@.take(i as int),
                ).push(pip_requirements@[i as int]@));
                texts(pip_requirements@.take(i as int)).lemma_push_to_set_commute(
                    pip_requirements@[i as int]@,
                );
            }
            i = i + 1;
        }
        proof {
            assert(pip_requirements@.take(i as int) =~= pip_requirements@);
        }
        Python { pip_requirements: reqs }
    }

    /// The pip packages, in increasing order.
    pub fn get_pip_requirements(&self) -> (r: Vec<String>)
        ensures
            texts(r@) == self.requirements(),
            strictly_sorted(texts(r@)),
    {
        proof {
            use_type_invariant(self);
        }
        let r = clone_strings(&self.pip_requirements);
        r
    }
}

/// A copy of a vector of strings.
pub fn clone_strings(v: &Vec<String>) -> (r: Vec<String>)
    ensures
        texts(r@) == texts(v@),
{
    let mut r: Vec<String> = Vec::new();
    let mut i: usize = 0;
    while i < v.len()
        invariant
            i <= v@.len(),
            r@.len() == i,
            texts(r@) == texts(v@.take(i as int)),
        decreases v@.len() - i,
    {
        let c = v[i].clone();
        proof {
            assert(c@ == v@[i as int]@);
        }
        let ghost r0 = r@;
        r.push(c);
        i = i + 1;
        proof {
            assert(texts(r@).len() == texts(v@.take(i as int)).len());
            assert forall|j: int| 0 <= j < i implies texts(r@)[j] == texts(v@.take(i as int))[j] by {
                if j < i - 1 {
                    assert(texts(r0)[j] == texts(v@.take(i - 1))[j]);
                }
            }
            assert(texts(r@) =~= texts(v@.take(i as int)));
        }
    }
    proof {
        assert(v@.take(i as int) =~= v@);
    }
    r
}

impl R {
    pub fn new() -> (r: Self) {
        R {  }
    }
}

impl Bash {
    pub fn new() -> (r: Self) {
        Bash {  }
    }
}

impl Presto {
    pub fn new() -> (r: Self) {
        Presto {  }
    }
}

/// The dialects that the R driver prefers, in order: R, Python (with no
/// pip requirements), Bash.
pub fn r_preferences() -> (r: Vec<Dialect>)
    ensures
        r@.len() == 3,
        r@[0]@ == DialectView::R,
        r@[1]@ == DialectView::Python(Seq::empty()),
        r@[2]@ == DialectView::Bash,
{
    let p = Python::new(Vec::new());
    proof {
        assert(texts(Seq::<String>::empty()).to_set() =~= Set::<Seq<char>>::empty());
        if p.requirements().len() > 0 {
            assert(p.requirements().to_set().contains(p.requirements()[0]));
        }
        assert(p.requirements() =~= Seq::<Seq<char>>::empty());
    }
    let mut r: Vec<Dialect> = Vec::new();
    r.push(Dialect::R(R::new()));
    r.push(Dialect::Python(p));
    r.push(Dialect::Bash(Bash::new()));
    r
}

impl View for Dialect {
    type V = DialectView;

    open spec fn view(&self) -> DialectView {
        match self {
            Dialect::Python(p) => DialectView::Python(p.requirements()),
            Dialect::R(_) => DialectView::R,
            Dialect::Bash(_) => DialectView::Bash,
            Dialect::Presto(_) => DialectView::Presto,
        }
    }
}

impl Dialect {
    /// A copy of the dialect.
    pub fn duplicate(&self) -> (r: Dialect)
        ensures
            r@ == self@,
    {
        match self {
            Dialect::Python(p) => {
                proof {
                    use_type_invariant(p);
                }
                Dialect::Python(Python { pip_requirements: clone_strings(&p.pip_requirements) })
            },
            Dialect::R(_) => Dialect::R(R {  }),
            Dialect::Bash(_) => Dialect::Bash(Bash {  }),
            Dialect::Presto(_) => Dialect::Presto(Presto {  }),
        }
    }

    /// Whether two dialects are equal (for Python, with the same
    /// requirements).
    pub fn equals(&self, other: &Dialect) -> (r: bool)
        ensures
            r == (self@ == other@),
    {
        match (self, other) {
            (Dialect::Python(a), Dialect::Python(b)) => {
                let n = a.pip_requirements.len();
                if n != b.pip_requirements.len() {
                    proof {
                        assert(texts(a.pip_requirements@).len() != texts(b.pip_requirements@).len());
                    }
                    return false;
                }
                let mut i: usize = 0;
                while i < n
                    invariant
                        n == a.pip_requirements@.len(),
                        n == b.pip_requirements@.len(),
                        i <= n,
                        self@ == DialectView::Python(texts(a.pip_requirements@)),
                        other@ == DialectView::Python(texts(b.pip_requirements@)),
                        forall|j: int| 0 <= j < i ==> a.pip_requirements@[j]@ == b.pip_requirements@[j]@,
                    decreases n - i,
                {
                    if a.pip_requirements[i] != b.pip_requirements[i] {
                        proof {
                            assert(texts(a.pip_requirements@)[i as int] != texts(b.pip_requirements@)[i as int]);
                            assert(texts(a.pip_requirements@) != texts(b.pip_requirements@));
                        }
                        return false;
                    }
                    i = i + 1;
                }
                proof {
                    assert(texts(a.pip_requirements@) =~= texts(b.pip_requirements@));
                }
                true
            },
            (Dialect::R(_), Dialect::R(_)) => true,
            (Dialect::Bash(_), Dialect::Bash(_)) => true,
            (Dialect::Presto(_), Dialect::Presto(_)) => true,
            _ => false,
        }
    }
}

/// Python dialects with the same requirements, given in any order and with
/// any repeats, are equal.
pub proof fn lemma_python_dialect_set_determined(a: Dialect, b: Dialect)
    requires
        a matches Dialect::Python(pa),
        b matches Dialect::Python(pb),
        strictly_sorted(a@->Python_0),
        strictly_sorted(b@->Python_0),
        a@->Python_0.to_set() == b@->Python_0.to_set(),
    ensures
        a@ == b@,
{
    lemma_sorted_unique(a@->Python_0, b@->Python_0);
}

} // verus!
