use vstd::prelude::*;

verus! {

/// Whether the key of every entry occurs once.
pub open spec fn keys_unique(s: Seq<(String, String)>) -> bool {
    forall|i: int, j: int|
        0 <= i < s.len() && 0 <= j < s.len() && i != j ==> s[i].0@ != s[j].0@
}

/// Whether some entry of `s` has the key `k`.
pub open spec fn has_key(s: Seq<(String, String)>, k: Seq<char>) -> bool {
    exists|i: int| 0 <= i < s.len() && s[i].0@ == k
}

/// The bindings held by a sequence of entries with unique keys.
pub open spec fn entries_map(s: Seq<(String, String)>) -> Map<Seq<char>, Seq<char>> {
    Map::new(
        |k: Seq<char>| has_key(s, k),
        |k: Seq<char>| s[choose|i: int| 0 <= i < s.len() && s[i].0@ == k].1@,
    )
}

/// Two contexts agree on every key that both bind.
pub open spec fn compatible(a: Map<Seq<char>, Seq<char>>, b: Map<Seq<char>, Seq<char>>) -> bool {
    forall|k: Seq<char>| a.contains_key(k) && b.contains_key(k) ==> a[k] == b[k]
}

proof fn lemma_entries_map_index(s: Seq<(String, String)>, i: int)
    requires
        keys_unique(s),
        0 <= i < s.len(),
    ensures
        entries_map(s).contains_key(s[i].0@),
        entries_map(s)[s[i].0@] == s[i].1@,
{
    let k = s[i].0@;
    assert(has_key(s, k));
    let j = choose|j: int| 0 <= j < s.len() && s[j].0@ == k;
    assert(j == i);
}

proof fn lemma_entries_map_push(s: Seq<(String, String)>, e: (String, String))
    requires
        keys_unique(s),
        !has_key(s, e.0@),
    ensures
        keys_unique(s.push(e)),
        entries_map(s.push(e)) == entries_map(s).insert(e.0@, e.1@),
{
    let t = s.push(e);
    assert(keys_unique(t)) by {
        assert forall|i: int, j: int|
            0 <= i < t.len() && 0 <= j < t.len() && i != j implies t[i].0@ != t[j].0@ by {
            if i == s.len() as int {
                assert(t[j] == s[j]);
            } else if j == s.len() as int {
                assert(t[i] == s[i]);
            } else {
                assert(t[i] == s[i] && t[j] == s[j]);
            }
        }
    }
    let m1 = entries_map(t);
    let m2 = entries_map(s).insert(e.0@, e.1@);
    assert forall|k: Seq<char>| m1.contains_key(k) <==> m2.contains_key(k) by {
        if has_key(t, k) {
            let i = choose|i: int| 0 <= i < t.len() && t[i].0@ == k;
            if i < s.len() {
                assert(t[i] == s[i]);
                assert(has_key(s, k));
            }
        }
        if has_key(s, k) {
            let i = choose|i: int| 0 <= i < s.len() && s[i].0@ == k;
            assert(t[i] == s[i]);
            assert(has_key(t, k));
        }
        if k == e.0@ {
            assert(t[s.len() as int] == e);
            assert(has_key(t, k));
        }
    }
    assert forall|k: Seq<char>| m1.contains_key(k) implies m1[k] == m2[k] by {
        let i = choose|i: int| 0 <= i < t.len() && t[i].0@ == k;
        lemma_entries_map_index(t, i);
        if i < s.len() {
            assert(t[i] == s[i]);
            lemma_entries_map_index(s, i);
        } else {
            assert(t[i] == e);
        }
    }
    assert(m1 =~= m2);
}

/// A key/value store of string bindings. It accumulates the contexts of the
/// dependencies of a constraint as they are satisfied. No key is bound twice.
pub struct Context {
    inner: Vec<(String, String)>,
}

impl View for Context {
    type V = Map<Seq<char>, Seq<char>>;

    closed spec fn view(&self) -> Map<Seq<char>, Seq<char>> {
        entries_map(self.inner@)
    }
}

impl Context {
    /// The representation invariant: every key is bound at most once.
    pub closed spec fn wf(&self) -> bool {
        keys_unique(self.inner@)
    }

    /// An empty context.
    pub fn new() -> (r: Self)
        ensures
            r.wf(),
            r@ == Map::<Seq<char>, Seq<char>>::empty(),
    {
        let r = Context { inner: Vec::new() };
        assert(r@ =~= Map::<Seq<char>, Seq<char>>::empty());
        r
    }

    /// Looks up the value bound to `key`.
    pub fn get(&self, key: &String) -> (r: Option<&String>)
        requires
            self.wf(),
        ensures
            match r {
                Some(v) => self@.contains_key(key@) && self@[key@] == v@,
                None => !self@.contains_key(key@),
            },
    {
        let mut i: usize = 0;
        while i < self.inner.len()
            invariant
                i <= self.inner@.len(),
                keys_unique(self.inner@),
                forall|j: int| 0 <= j < i ==> self.inner@[j].0@ != key@,
            decreases self.inner@.len() - i,
        {
            if self.inner[i].0 == *key {
                proof {
                    lemma_entries_map_index(self.inner@, i as int);
                }
                return Some(&self.inner[i].1);
            }
            i = i + 1;
        }
        None
    }

    /// Binds `key` to `value`, where `key` is not bound yet.
    pub fn bind(&mut self, key: String, value: String)
        requires
            old(self).wf(),
            !old(self)@.contains_key(key@),
        ensures
            final(self).wf(),
            final(self)@ == old(self)@.insert(key@, value@),
    {
        proof {
            lemma_entries_map_push(self.inner@, (key, value));
        }
        self.inner.push((key, value));
    }

    /// A copy of this context: the same bindings.
    pub fn duplicate(&self) -> (r: Self)
        requires
            self.wf(),
        ensures
            r.wf(),
            r@ == self@,
    {
        let mut r = Context::new();
        r.insert(self);
        assert(r@ =~= self@);
        r
    }

    /// Adds every binding of `other` to this context. A key bound in both
    /// must carry the same value in both (the caller's obligation; binding a
    /// key to two values is an error of the program that builds contexts).
    pub fn insert(&mut self, other: &Self)
        requires
            old(self).wf(),
            other.wf(),
            compatible(old(self)@, other@),
        ensures
            final(self).wf(),
            final(self)@ == old(self)@.union_prefer_right(other@),
    {
        let ghost start = self@;
        let mut i: usize = 0;
        while i < other.inner.len()
            invariant
                self.wf(),
                other.wf(),
                i <= other.inner@.len(),
                compatible(start, other@),
                self@ == start.union_prefer_right(entries_map(other.inner@.take(i as int))),
            decreases other.inner@.len() - i,
        {
            let ghost before = self@;
            proof {
                lemma_entries_map_index(other.inner@, i as int);
                assert(other.inner@.take(i as int + 1) == other.inner@.take(i as int).push(
                    other.inner@[i as int],
                ));
                assert(keys_unique(other.inner@.take(i as int))) by {
                    assert forall|a: int, b: int|
                        0 <= a < i && 0 <= b < i && a != b implies other.inner@.take(
                        i as int,
                    )[a].0@ != other.inner@.take(i as int)[b].0@ by {
                        assert(other.inner@.take(i as int)[a] == other.inner@[a]);
                        assert(other.inner@.take(i as int)[b] == other.inner@[b]);
                    }
                }
                assert(!has_key(other.inner@.take(i as int), other.inner@[i as int].0@)) by {
                    if has_key(other.inner@.take(i as int), other.inner@[i as int].0@) {
                        let j = choose|j: int|
                            0 <= j < i && other.inner@.take(i as int)[j].0@
                                == other.inner@[i as int].0@;
                        assert(other.inner@.take(i as int)[j] == other.inner@[j]);
                    }
                }
                lemma_entries_map_push(other.inner@.take(i as int), other.inner@[i as int]);
            }
            let k = &other.inner[i].0;
            let v = &other.inner[i].1;
            match self.get(k) {
                Some(_existing) => {
                    proof {
                        if start.contains_key(k@) {
                            assert(start[k@] == other@[k@]);
                        }
                    }
                },
                None => {
                    self.bind(k.clone(), v.clone());
                },
            }
            i = i + 1;
            proof {
                assert(self@ =~= start.union_prefer_right(
                    entries_map(other.inner@.take(i as int)),
                ));
            }
        }
        proof {
            assert(other.inner@.take(i as int) == other.inner@);
        }
    }
}

} // verus!
