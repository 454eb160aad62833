//! Where each concept stands in the universe: the family tree of each
//! concept (the concepts above and below it, by type), the concepts of each
//! type, and which constraints a new constraint may depend on.
use vstd::prelude::*;
use crate::ancestor_record::{AncestorRecord, AncestorRecordView, TaskId, opt_string_view, records_view};
use crate::access::strs_view;
use crate::blocks::without;
use crate::builders::BuilderInfo;
use crate::constraint_state::{Concept, ConstraintInfo, ConstraintState, fresh_state};
use crate::ast::clone_records;
use crate::linked::{generated_add, generated_get, generated_items, generated_new, name_set_insert, name_set_items};
use linked_hash_map::LinkedHashMap;
use linked_hash_set::LinkedHashSet;
use std::collections::hash_map::RandomState;
use crate::strings::str_eq;

verus! {

/// `u` belongs, under type `t`, to the family tree of `k`: `u` is `k`
/// itself, an ancestor of `k`, or a concept of which `k` is an ancestor.
pub open spec fn family_member(anc: Seq<(TaskId, Vec<AncestorRecord>)>, k: (u128, Seq<char>), t: Seq<char>, u: u128) -> bool {
    exists|i: int| 0 <= i < anc.len() && #[trigger] family_member_at(anc[i], k, t, u)
}

/// Entry `e` of the ancestors puts `u` under type `t` in the family tree of
/// `k`.
pub open spec fn family_member_at(e: (TaskId, Vec<AncestorRecord>), k: (u128, Seq<char>), t: Seq<char>, u: u128) -> bool {
    ||| (e.0@ == k && exists|m: int| 0 <= m < e.1@.len() && (#[trigger] e.1@[m]).object_type@ == t && e.1@[m].uuid == u)
    ||| (exists|m: int| 0 <= m < e.1@.len() && (#[trigger] e.1@[m]).uuid == k.0 && e.1@[m].object_type@ == k.1 && e.0@.1 == t && e.0@.0 == u)
    ||| (e.0@ == k && k.1 == t && k.0 == u)
}

/// Family trees are symmetric: when `u` (of type `t`) is in the family tree
/// of `k`, then `k` is in the family tree of `u`, under its own type.
pub proof fn lemma_family_member_symmetric(anc: Seq<(TaskId, Vec<AncestorRecord>)>, k: (u128, Seq<char>), t: Seq<char>, u: u128)
    requires
        family_member(anc, k, t, u),
    ensures
        family_member(anc, (u, t), k.1, k.0),
{
    let i = choose|i: int| 0 <= i < anc.len() && #[trigger] family_member_at(anc[i], k, t, u);
    let e = anc[i];
    if e.0@ == k && exists|m: int| 0 <= m < e.1@.len() && (#[trigger] e.1@[m]).object_type@ == t && e.1@[m].uuid == u {
        let m = choose|m: int| 0 <= m < e.1@.len() && (#[trigger] e.1@[m]).object_type@ == t && e.1@[m].uuid == u;
        assert(family_member_at(e, (u, t), k.1, k.0));
    } else if exists|m: int| 0 <= m < e.1@.len() && (#[trigger] e.1@[m]).uuid == k.0 && e.1@[m].object_type@ == k.1 && e.0@.1 == t && e.0@.0 == u {
        let m = choose|m: int| 0 <= m < e.1@.len() && (#[trigger] e.1@[m]).uuid == k.0 && e.1@[m].object_type@ == k.1 && e.0@.1 == t && e.0@.0 == u;
        assert(family_member_at(e, (u, t), k.1, k.0));
    } else {
        assert(family_member_at(e, (u, t), k.1, k.0));
    }
}

/// The family trees hold `u` under type `t` for `k`.
pub open spec fn tree_has(v: Seq<(TaskId, Vec<(String, Vec<u128>)>)>, k: (u128, Seq<char>), t: Seq<char>, u: u128) -> bool {
    exists|i: int, j: int| 0 <= i < v.len() && 0 <= j < v[i].1@.len() && v[i].0@ == k && (#[trigger] v[i].1@[j]).0@ == t
        && v[i].1@[j].1@.contains(u)
}

/// Each concept occurs once, and each type once in its tree.
pub open spec fn trees_wf(v: Seq<(TaskId, Vec<(String, Vec<u128>)>)>) -> bool {
    &&& forall|i: int, j: int| 0 <= i < v.len() && 0 <= j < v.len() && i != j ==> v[i].0@ != v[j].0@
    &&& forall|i: int, a: int, b: int| 0 <= i < v.len() && 0 <= a < v[i].1@.len() && 0 <= b < v[i].1@.len() && a != b
        ==> v[i].1@[a].0@ != v[i].1@[b].0@
}

fn find_tree(v: &Vec<(TaskId, Vec<(String, Vec<u128>)>)>, k: &TaskId) -> (r: Option<usize>)
    ensures
        match r {
            Some(i) => i < v@.len() && v@[i as int].0@ == k@,
            None => forall|i: int| 0 <= i < v@.len() ==> v@[i].0@ != k@,
        },
{
    let mut i: usize = 0;
    while i < v.len()
        invariant
            i <= v@.len(),
            forall|j: int| 0 <= j < i ==> v@[j].0@ != k@,
        decreases v@.len() - i,
    {
        if v[i].0.same_as(k) {
            return Some(i);
        }
        i = i + 1;
    }
    None
}

/// Adds `u` under type `t` to the family tree of `k`.
fn tree_insert(v: &mut Vec<(TaskId, Vec<(String, Vec<u128>)>)>, k: &TaskId, t: &String, u: u128)
    requires
        trees_wf(old(v)@),
    ensures
        trees_wf(final(v)@),
        forall|k2: (u128, Seq<char>), t2: Seq<char>, u2: u128| tree_has(final(v)@, k2, t2, u2)
            <==> (tree_has(old(v)@, k2, t2, u2) || (k2 == k@ && t2 == t@ && u2 == u)),
{
    let ghost v0 = v@;
    let idx = match find_tree(v, k) {
        Some(i) => i,
        None => {
            v.push((k.clone(), Vec::new()));
            proof {
                assert forall|k2: (u128, Seq<char>), t2: Seq<char>, u2: u128| tree_has(v@, k2, t2, u2) <==> tree_has(v0, k2, t2, u2) by {
                    if tree_has(v@, k2, t2, u2) {
                        let (i, j) = choose|i: int, j: int| 0 <= i < v@.len() && 0 <= j < v@[i].1@.len() && v@[i].0@ == k2 && (#[trigger] v@[i].1@[j]).0@ == t2 && v@[i].1@[j].1@.contains(u2);
                        assert(v@[i] == v0[i]);
                    }
                    if tree_has(v0, k2, t2, u2) {
                        let (i, j) = choose|i: int, j: int| 0 <= i < v0.len() && 0 <= j < v0[i].1@.len() && v0[i].0@ == k2 && (#[trigger] v0[i].1@[j]).0@ == t2 && v0[i].1@[j].1@.contains(u2);
                        assert(v@[i] == v0[i]);
                    }
                }
            }
            v.len() - 1
        },
    };
    let ghost v1 = v@;
    let (key, mut types) = v.remove(idx);
    let mut j: usize = 0;
    while j < types.len() && !str_eq(types[j].0.as_str(), t.as_str())
        invariant
            j <= types@.len(),
            forall|q: int| 0 <= q < j ==> types@[q].0@ != t@,
        decreases types@.len() - j,
    {
        j = j + 1;
    }
    let ghost ty0 = types@;
    if j == types.len() {
        types.push((t.clone(), Vec::new()));
    }
    let ghost ty1 = types@;
    let (tn, mut us) = types.remove(j);
    let mut present = false;
    let mut q: usize = 0;
    while q < us.len()
        invariant
            q <= us@.len(),
            present == us@.take(q as int).contains(u),
        decreases us@.len() - q,
    {
        proof {
            let a = us@.take(q as int);
            let b = us@.take(q as int + 1);
            assert(b =~= a.push(us@[q as int]));
            assert(b.contains(u) == (a.contains(u) || us@[q as int] == u)) by {
                if b.contains(u) {
                    let w = choose|w: int| 0 <= w < b.len() && b[w] == u;
                    if w < a.len() {
                        assert(a[w] == u);
                    }
                }
                if a.contains(u) {
                    let w = choose|w: int| 0 <= w < a.len() && a[w] == u;
                    assert(b[w] == u);
                }
                if us@[q as int] == u {
                    assert(b[q as int] == u);
                }
            }
        }
        if us[q] == u {
            present = true;
        }
        q = q + 1;
    }
    proof {
        assert(us@.take(q as int) =~= us@);
    }
    let ghost us0 = us@;
    if !present {
        us.push(u);
    }
    proof {
        if present {
            assert(us0.contains(u));
        } else {
            assert(us@[us@.len() - 1] == u);
        }
        assert(us@.contains(u));
        assert forall|x: u128| us@.contains(x) <==> us0.contains(x) || x == u by {
            if us@.contains(x) && !us0.contains(x) {
                let w = choose|w: int| 0 <= w < us@.len() && us@[w] == x;
                if w < us0.len() {
                    assert(us0[w] == x);
                }
            }
            if us0.contains(x) {
                let w = choose|w: int| 0 <= w < us0.len() && us0[w] == x;
                assert(us@[w] == x);
            }
        }
    }
    types.insert(j, (tn, us));
    v.insert(idx, (key, types));
    proof {
        let vf = v@;
        assert(vf[idx as int].0@ == k@);
        assert(forall|i: int| 0 <= i < vf.len() && i != idx ==> vf[i] == v1[i]);
        assert(forall|a: int| 0 <= a < ty1.len() && a != j ==> vf[idx as int].1@[a] == ty1[a]);
        assert(vf[idx as int].1@[j as int].0@ == t@);
        assert(trees_wf(vf)) by {
            assert forall|i: int, a: int, b: int| 0 <= i < vf.len() && 0 <= a < vf[i].1@.len() && 0 <= b < vf[i].1@.len() && a != b
                implies vf[i].1@[a].0@ != vf[i].1@[b].0@ by {
                if i == idx {
                    if a < ty0.len() && b < ty0.len() {
                        assert(vf[i].1@[a].0@ == ty0[a].0@ && vf[i].1@[b].0@ == ty0[b].0@);
                        assert(v1[idx as int].1@[a] == ty0[a] && v1[idx as int].1@[b] == ty0[b]);
                    }
                } else {
                    assert(vf[i] == v1[i]);
                }
            }
        }
        assert forall|k2: (u128, Seq<char>), t2: Seq<char>, u2: u128| tree_has(vf, k2, t2, u2)
            <==> (tree_has(v0, k2, t2, u2) || (k2 == k@ && t2 == t@ && u2 == u)) by {
            assert(tree_has(v1, k2, t2, u2) == tree_has(v0, k2, t2, u2));
            if tree_has(vf, k2, t2, u2) {
                let (i, a) = choose|i: int, a: int| 0 <= i < vf.len() && 0 <= a < vf[i].1@.len() && vf[i].0@ == k2 && (#[trigger] vf[i].1@[a]).0@ == t2 && vf[i].1@[a].1@.contains(u2);
                if i != idx {
                    assert(v1[i] == vf[i]);
                } else if a != j {
                    assert(vf[i].1@[a] == ty1[a]);
                    assert(v1[idx as int].1@[a] == ty1[a] || a >= ty0.len());
                    if a < ty0.len() {
                        assert(ty1[a] == ty0[a]);
                    }
                } else if !(u2 == u) {
                    assert(us0.contains(u2));
                    if j < ty0.len() {
                        assert(ty0[j as int] == ty1[j as int]);
                        assert(v1[idx as int].1@[j as int].1@.contains(u2));
                    }
                }
            }
            if tree_has(v1, k2, t2, u2) {
                let (i, a) = choose|i: int, a: int| 0 <= i < v1.len() && 0 <= a < v1[i].1@.len() && v1[i].0@ == k2 && (#[trigger] v1[i].1@[a]).0@ == t2 && v1[i].1@[a].1@.contains(u2);
                if i != idx {
                    assert(vf[i] == v1[i]);
                } else if a != j {
                    assert(vf[i].1@[a] == ty1[a]);
                } else {
                    assert(us0.contains(u2));
                    assert(vf[i].1@[a].1@.contains(u2));
                }
            }
            if k2 == k@ && t2 == t@ && u2 == u {
                assert(vf[idx as int].1@[j as int].1@.contains(u));
            }
        }
    }
}

/// The family members given by the first `i` entries.
pub open spec fn members_before(anc: Seq<(TaskId, Vec<AncestorRecord>)>, i: int, k: (u128, Seq<char>), t: Seq<char>, u: u128) -> bool {
    exists|p: int| 0 <= p < i && #[trigger] family_member_at(anc[p], k, t, u)
}

/// The family tree of each concept: for each concept with ancestors, its
/// ancestors (by type) and itself go into its tree, and it goes into the
/// tree of each of its ancestors, under its type (see `family_member`).
pub fn generate_family_trees(ancestors: &Vec<(TaskId, Vec<AncestorRecord>)>) -> (r: Vec<(TaskId, Vec<(String, Vec<u128>)>)>)
    ensures
        trees_wf(r@),
        forall|k: (u128, Seq<char>), t: Seq<char>, u: u128| tree_has(r@, k, t, u) <==> family_member(ancestors@, k, t, u),
{
    let ghost anc = ancestors@;
    let mut trees: Vec<(TaskId, Vec<(String, Vec<u128>)>)> = Vec::new();
    let mut i: usize = 0;
    while i < ancestors.len()
        invariant
            anc == ancestors@,
            i <= anc.len(),
            trees_wf(trees@),
            forall|k: (u128, Seq<char>), t: Seq<char>, u: u128| tree_has(trees@, k, t, u) <==> members_before(anc, i as int, k, t, u),
        decreases anc.len() - i,
    {
        let key = &ancestors[i].0;
        let recs = &ancestors[i].1;
        let ghost e = anc[i as int];
        let mut m: usize = 0;
        while m < recs.len()
            invariant
                anc == ancestors@,
                i < anc.len(),
                e == anc[i as int],
                *key == e.0,
                *recs == e.1,
                m <= recs@.len(),
                trees_wf(trees@),
                forall|k: (u128, Seq<char>), t: Seq<char>, u: u128| tree_has(trees@, k, t, u) <==> (members_before(anc, i as int, k, t, u)
                    || (e.0@ == k && exists|q: int| 0 <= q < m && (#[trigger] e.1@[q]).object_type@ == t && e.1@[q].uuid == u)),
            decreases recs@.len() - m,
        {
            tree_insert(&mut trees, key, &recs[m].object_type, recs[m].uuid);
            m = m + 1;
        }
        let mut m2: usize = 0;
        while m2 < recs.len()
            invariant
                anc == ancestors@,
                i < anc.len(),
                e == anc[i as int],
                *key == e.0,
                *recs == e.1,
                m2 <= recs@.len(),
                trees_wf(trees@),
                forall|k: (u128, Seq<char>), t: Seq<char>, u: u128| tree_has(trees@, k, t, u) <==> (members_before(anc, i as int, k, t, u)
                    || (e.0@ == k && exists|q: int| 0 <= q < e.1@.len() && (#[trigger] e.1@[q]).object_type@ == t && e.1@[q].uuid == u)
                    || (exists|q: int| 0 <= q < m2 && (#[trigger] e.1@[q]).uuid == k.0 && e.1@[q].object_type@ == k.1 && e.0@.1 == t && e.0@.0 == u)),
            decreases recs@.len() - m2,
        {
            let rk = recs[m2].get_key();
            tree_insert(&mut trees, &rk, &key.object_type, key.uuid);
            m2 = m2 + 1;
        }
        tree_insert(&mut trees, key, &key.object_type, key.uuid);
        proof {
            assert forall|k: (u128, Seq<char>), t: Seq<char>, u: u128| tree_has(trees@, k, t, u) <==> members_before(anc, i + 1, k, t, u) by {
                if members_before(anc, i + 1, k, t, u) {
                    let p = choose|p: int| 0 <= p < i + 1 && #[trigger] family_member_at(anc[p], k, t, u);
                    if p < i {
                        assert(members_before(anc, i as int, k, t, u));
                    }
                }
                if members_before(anc, i as int, k, t, u) {
                    let p = choose|p: int| 0 <= p < i && #[trigger] family_member_at(anc[p], k, t, u);
                    assert(0 <= p < i + 1);
                }
                if tree_has(trees@, k, t, u) && !members_before(anc, i as int, k, t, u) {
                    assert(family_member_at(anc[i as int], k, t, u));
                }
            }
        }
        i = i + 1;
    }
    proof {
        assert forall|k: (u128, Seq<char>), t: Seq<char>, u: u128| members_before(anc, i as int, k, t, u) == family_member(anc, k, t, u) by {}
    }
    trees
}

/// The concepts of `s` of type `t`, in order.
pub open spec fn with_type(s: Seq<Concept>, t: Seq<char>) -> Seq<Concept>
    decreases s.len(),
{
    if s.len() == 0 {
        s
    } else {
        let r = with_type(s.drop_last(), t);
        if s.last().object_type@ == t {
            r.push(s.last())
        } else {
            r
        }
    }
}

/// Some group holds type `t`.
pub open spec fn has_group(groups: Seq<(String, Vec<Concept>)>, t: Seq<char>) -> bool {
    exists|i: int| 0 <= i < groups.len() && groups[i].0@ == t
}

/// The concepts grouped by type: one entry per type that occurs, holding
/// the concepts of that type in order. The types come in the order of
/// their first concept.
pub fn get_concept_map_by_object_type(concepts: Vec<Concept>) -> (r: Vec<(String, Vec<Concept>)>)
    ensures
        forall|i: int, j: int| 0 <= i < r@.len() && 0 <= j < r@.len() && i != j ==> r@[i].0@ != r@[j].0@,
        forall|i: int| 0 <= i < r@.len() ==> (#[trigger] r@[i]).1@ == with_type(concepts@, r@[i].0@) && r@[i].1@.len() > 0,
        forall|k: int| 0 <= k < concepts@.len() ==> has_group(r@, (#[trigger] concepts@[k]).object_type@),
{
    let ghost s0 = concepts@;
    let mut groups: Vec<(String, Vec<Concept>)> = Vec::new();
    let mut src = concepts;
    let ghost mut n: int = 0;
    while src.len() > 0
        invariant
            0 <= n <= s0.len(),
            src@ == s0.skip(n),
            forall|i: int, j: int| 0 <= i < groups@.len() && 0 <= j < groups@.len() && i != j ==> groups@[i].0@ != groups@[j].0@,
            forall|i: int| 0 <= i < groups@.len() ==> (#[trigger] groups@[i]).1@ == with_type(s0.take(n), groups@[i].0@) && groups@[i].1@.len() > 0,
            forall|k: int| 0 <= k < n ==> has_group(groups@, (#[trigger] s0[k]).object_type@),
        decreases src@.len(),
    {
        let c = src.remove(0);
        proof {
            assert(c == s0[n]);
            assert(s0.take(n + 1).drop_last() =~= s0.take(n));
            assert(s0.take(n + 1).last() == s0[n]);
        }
        let mut p: usize = 0;
        while p < groups.len() && !str_eq(groups[p].0.as_str(), c.object_type.as_str())
            invariant
                p <= groups@.len(),
                forall|q: int| 0 <= q < p ==> groups@[q].0@ != c.object_type@,
            decreases groups@.len() - p,
        {
            p = p + 1;
        }
        let ghost g0 = groups@;
        if p == groups.len() {
            proof {
                assert(with_type(s0.take(n), c.object_type@) =~= Seq::<Concept>::empty()) by {
                    lemma_with_type_absent(s0.take(n), c.object_type@);
                    assert forall|k: int| 0 <= k < s0.take(n).len() implies (#[trigger] s0.take(n)[k]).object_type@ != c.object_type@ by {
                        assert(s0.take(n)[k] == s0[k]);
                        assert(has_group(g0, s0[k].object_type@));
                        let i = choose|i: int| 0 <= i < g0.len() && g0[i].0@ == s0[k].object_type@;
                    }
                }
            }
            let mut v: Vec<Concept> = Vec::new();
            let t = c.object_type.clone();
            v.push(c);
            groups.push((t, v));
            proof {
                assert forall|i: int| 0 <= i < groups@.len() implies (#[trigger] groups@[i]).1@ == with_type(s0.take(n + 1), groups@[i].0@) && groups@[i].1@.len() > 0 by {
                    if i < g0.len() {
                        assert(groups@[i] == g0[i]);
                        assert(g0[i].0@ != s0[n].object_type@);
                    } else {
                        assert(groups@[i].1@ =~= Seq::<Concept>::empty().push(s0[n]));
                    }
                }
                assert forall|k: int| 0 <= k < n + 1 implies has_group(groups@, (#[trigger] s0[k]).object_type@) by {
                    if k < n {
                        assert(has_group(g0, s0[k].object_type@));
                        let i = choose|i: int| 0 <= i < g0.len() && g0[i].0@ == s0[k].object_type@;
                        assert(groups@[i] == g0[i]);
                    } else {
                        assert(groups@[g0.len() as int].0@ == s0[k].object_type@);
                    }
                }
            }
        } else {
            let (t, mut v) = groups.remove(p);
            v.push(c);
            groups.insert(p, (t, v));
            proof {
                assert forall|i: int| 0 <= i < groups@.len() implies (#[trigger] groups@[i]).1@ == with_type(s0.take(n + 1), groups@[i].0@) && groups@[i].1@.len() > 0 by {
                    if i != p {
                        assert(groups@[i] == g0[i]);
                        assert(g0[i].0@ != g0[p as int].0@);
                    }
                }
                assert forall|k: int| 0 <= k < n + 1 implies has_group(groups@, (#[trigger] s0[k]).object_type@) by {
                    if k < n {
                        assert(has_group(g0, s0[k].object_type@));
                        let i = choose|i: int| 0 <= i < g0.len() && g0[i].0@ == s0[k].object_type@;
                        assert(groups@[i].0@ == g0[i].0@);
                    } else {
                        assert(groups@[p as int].0@ == s0[k].object_type@);
                    }
                }
            }
        }
        proof {
            n = n + 1;
            assert(src@ =~= s0.skip(n));
        }
    }
    proof {
        assert(s0.take(n) =~= s0);
        assert forall|k: int| 0 <= k < s0.len() implies has_group(groups@, (#[trigger] s0[k]).object_type@) by {
            assert(0 <= k < n);
        }
    }
    groups
}

proof fn lemma_with_type_absent(s: Seq<Concept>, t: Seq<char>)
    requires
        forall|k: int| 0 <= k < s.len() ==> (#[trigger] s[k]).object_type@ != t,
    ensures
        with_type(s, t) == Seq::<Concept>::empty(),
    decreases s.len(),
{
    if s.len() > 0 {
        assert forall|k: int| 0 <= k < s.drop_last().len() implies (#[trigger] s.drop_last()[k]).object_type@ != t by {
            assert(s.drop_last()[k] == s[k]);
        }
        lemma_with_type_absent(s.drop_last(), t);
        assert(s[s.len() - 1] == s.last());
    }
}

/// A generated constraint, by value: the id of its root concept, its UUID,
/// and the UUIDs of the constraints it may depend on.
pub type GenView = ((u128, Seq<char>), u128, Seq<u128>);

pub open spec fn gen_entries_view(es: Seq<(TaskId, u128, Vec<u128>)>) -> Seq<GenView> {
    es.map_values(|e: (TaskId, u128, Vec<u128>)| (e.0@, e.1, e.2@))
}

/// The position of the first entry named `name`.
pub open spec fn lookup_from<K, V>(s: Seq<(K, V)>, name: K, i: int) -> Option<int>
    decreases s.len() - i,
{
    if i < 0 || i >= s.len() {
        None
    } else if s[i].0 == name {
        Some(i)
    } else {
        lookup_from(s, name, i + 1)
    }
}

/// The UUIDs of type `t` in a family tree (none when the type is absent).
pub open spec fn tree_uuids(ft: Seq<(Seq<char>, Seq<u128>)>, t: Seq<char>) -> Seq<u128> {
    match lookup_from(ft, t, 0) {
        Some(i) => ft[i].1,
        None => Seq::empty(),
    }
}

/// A family tree, by value.
pub open spec fn tree_view(ft: Seq<(String, Vec<u128>)>) -> Seq<(Seq<char>, Seq<u128>)> {
    ft.map_values(|e: (String, Vec<u128>)| (e.0@, e.1@))
}

/// A constraint rooted at `rk` may be depended on: its root is in the
/// family tree, or among the other concepts required.
pub open spec fn keeps(ft: Seq<(Seq<char>, Seq<u128>)>, others: Seq<u128>, rk: (u128, Seq<char>)) -> bool {
    tree_uuids(ft, rk.1).contains(rk.0) || others.contains(rk.0)
}

/// The UUIDs of the generated constraints that may be depended on, in order.
pub open spec fn kept_uuids(es: Seq<GenView>, ft: Seq<(Seq<char>, Seq<u128>)>, others: Seq<u128>) -> Seq<u128>
    decreases es.len(),
{
    if es.len() == 0 {
        Seq::empty()
    } else {
        let r = kept_uuids(es.drop_last(), ft, others);
        if keeps(ft, others, es.last().0) {
            r.push(es.last().1)
        } else {
            r
        }
    }
}

/// The constraints a new constraint may depend on: for each required name
/// in order, the generated constraints of that name that it may depend on.
pub open spec fn potential_children(
    required: Seq<Seq<char>>,
    gv: Seq<(Seq<char>, Seq<GenView>)>,
    ft: Seq<(Seq<char>, Seq<u128>)>,
    others: Seq<u128>,
) -> Seq<u128>
    decreases required.len(),
{
    if required.len() == 0 {
        Seq::empty()
    } else {
        potential_children(required.drop_last(), gv, ft, others) + match lookup_from(gv, required.last(), 0) {
            Some(i) => kept_uuids(gv[i].1, ft, others),
            None => Seq::empty(),
        }
    }
}

pub proof fn lemma_lookup_from<K, V>(s: Seq<(K, V)>, name: K, i: int)
    requires
        0 <= i <= s.len(),
    ensures
        match lookup_from(s, name, i) {
            Some(p) => i <= p < s.len() && s[p].0 == name && forall|q: int| i <= q < p ==> (#[trigger] s[q]).0 != name,
            None => forall|q: int| i <= q < s.len() ==> (#[trigger] s[q]).0 != name,
        },
    decreases s.len() - i,
{
    if i < s.len() {
        lemma_lookup_from(s, name, i + 1);
    }
}

fn find_type(ft: &Vec<(String, Vec<u128>)>, t: &String) -> (r: Option<usize>)
    ensures
        match r {
            Some(i) => lookup_from(tree_view(ft@), t@, 0) == Some(i as int),
            None => lookup_from(tree_view(ft@), t@, 0) is None,
        },
{
    let ghost v = tree_view(ft@);
    let mut i: usize = 0;
    while i < ft.len()
        invariant
            i <= ft@.len(),
            v == tree_view(ft@),
            lookup_from(v, t@, 0) == lookup_from(v, t@, i as int),
        decreases ft@.len() - i,
    {
        if str_eq(ft[i].0.as_str(), t.as_str()) {
            return Some(i);
        }
        i = i + 1;
    }
    None
}

fn contains_u128(v: &Vec<u128>, x: u128) -> (r: bool)
    ensures
        r == v@.contains(x),
{
    let mut i: usize = 0;
    while i < v.len()
        invariant
            i <= v@.len(),
            forall|j: int| 0 <= j < i ==> v@[j] != x,
        decreases v@.len() - i,
    {
        if v[i] == x {
            return true;
        }
        i = i + 1;
    }
    false
}

/// The constraints that a new constraint on a root with family tree `ft`
/// may depend on (see `potential_children`); `others` are the other
/// concepts the constraint requires.
pub fn get_potential_children(
    required: &Vec<String>,
    generated: &LinkedHashMap<String, LinkedHashMap<(u128, String), (u128, Vec<u128>), RandomState>, RandomState>,
    ft: &Vec<(String, Vec<u128>)>,
    others: &Vec<u128>,
) -> (r: Vec<u128>)
    ensures
        r@ == potential_children(strs_view(required@), generated_items(*generated), tree_view(ft@), others@),
{
    let ghost rv = strs_view(required@);
    let ghost gv = generated_items(*generated);
    let ghost fv = tree_view(ft@);
    let mut out: Vec<u128> = Vec::new();
    let mut i: usize = 0;
    while i < required.len()
        invariant
            rv == strs_view(required@),
            gv == generated_items(*generated),
            fv == tree_view(ft@),
            i <= required@.len(),
            out@ == potential_children(rv.take(i as int), gv, fv, others@),
        decreases required@.len() - i,
    {
        proof {
            assert(rv.take(i as int + 1).drop_last() =~= rv.take(i as int));
            assert(rv.take(i as int + 1).last() == required@[i as int]@);
        }
        let ghost o0 = out@;
        match generated_get(generated, &required[i]) {
            Some(es) => {
                let ghost ev = gen_entries_view(es@);
                let mut j: usize = 0;
                while j < es.len()
                    invariant
                        fv == tree_view(ft@),
                        ev == gen_entries_view(es@),
                        j <= es@.len(),
                        out@ == o0 + kept_uuids(ev.take(j as int), fv, others@),
                    decreases es@.len() - j,
                {
                    proof {
                        assert(ev.take(j as int + 1).drop_last() =~= ev.take(j as int));
                        assert(ev.take(j as int + 1).last() == ev[j as int]);
                    }
                    let rk = &es[j].0;
                    let keep = match find_type(ft, &rk.object_type) {
                        Some(ti) => {
                            proof {
                                lemma_lookup_from(fv, rk.object_type@, 0);
                            }
                            contains_u128(&ft[ti].1, rk.uuid)
                        },
                        None => false,
                    } || contains_u128(others, rk.uuid);
                    proof {
                        assert(keep == keeps(fv, others@, ev[j as int].0));
                    }
                    if keep {
                        out.push(es[j].1);
                        proof {
                            assert(out@ =~= o0 + kept_uuids(ev.take(j as int), fv, others@).push(ev[j as int].1));
                        }
                    }
                    j = j + 1;
                }
                proof {
                    assert(ev.take(j as int) =~= ev);
                }
            },
            None => {
                proof {
                    assert(out@ =~= o0 + Seq::<u128>::empty());
                }
            },
        }
        i = i + 1;
    }
    proof {
        assert(rv.take(i as int) =~= rv);
    }
    out
}

/// Some family tree belongs to `k`.
pub open spec fn has_tree(trees: Seq<(TaskId, Vec<(String, Vec<u128>)>)>, k: (u128, Seq<char>)) -> bool {
    exists|i: int| 0 <= i < trees.len() && trees[i].0@ == k
}

/// Every root has a family tree.
pub open spec fn all_have_trees(roots: Seq<Concept>, trees: Seq<(TaskId, Vec<(String, Vec<u128>)>)>) -> bool {
    forall|q: int| 0 <= q < roots.len() ==> has_tree(trees, concept_key(#[trigger] roots[q]))
}

/// The generated constraints with `e` added under `name` (a new name goes
/// last).
pub open spec fn gen_add(gv: Seq<(Seq<char>, Seq<GenView>)>, name: Seq<char>, e: GenView) -> Seq<(Seq<char>, Seq<GenView>)> {
    match lookup_from(gv, name, 0) {
        Some(i) => gv.update(i, (name, gv[i].1.push(e))),
        None => gv.push((name, seq![e])),
    }
}

/// The concepts of type `t` (none when the type is absent).
pub open spec fn roots_of(by_type: Seq<(String, Vec<Concept>)>, t: Seq<char>) -> Seq<Concept> {
    let v = by_type.map_values(|e: (String, Vec<Concept>)| (e.0@, e.1@));
    match lookup_from(v, t, 0) {
        Some(i) => v[i].1,
        None => Seq::empty(),
    }
}

/// The id of a concept.
pub open spec fn concept_key(c: Concept) -> (u128, Seq<char>) {
    (c.uuid, c.object_type@)
}

/// The family tree of the concept `k`.
pub open spec fn tree_of(trees: Seq<(TaskId, Vec<(String, Vec<u128>)>)>, k: (u128, Seq<char>)) -> Seq<(Seq<char>, Seq<u128>)> {
    tree_view(trees[choose|i: int| 0 <= i < trees.len() && trees[i].0@ == k].1@)
}

/// The generated constraints after the first `k` roots: each root that the
/// builder adds gets a constraint (with its UUID from `uuids`) that may
/// depend on the constraints named in `required` that lie in the root's
/// family tree or on the other concepts it requires.
pub open spec fn attach_fold(
    gv: Seq<(Seq<char>, Seq<GenView>)>,
    name: Seq<char>,
    required: Seq<Seq<char>>,
    roots: Seq<Concept>,
    decisions: Seq<(bool, Vec<u128>)>,
    uuids: Seq<u128>,
    trees: Seq<(TaskId, Vec<(String, Vec<u128>)>)>,
    k: int,
) -> Seq<(Seq<char>, Seq<GenView>)>
    decreases k,
{
    if k <= 0 {
        gv
    } else {
        let prev = attach_fold(gv, name, required, roots, decisions, uuids, trees, k - 1);
        let rk = concept_key(roots[k - 1]);
        if decisions[k - 1].0 {
            gen_add(prev, name, (rk, uuids[k - 1], potential_children(required, prev, tree_of(trees, rk), decisions[k - 1].1@)))
        } else {
            prev
        }
    }
}

/// The UUIDs of the constraints that were built (zero where a build failed).
pub open spec fn built_uuids(builds: Seq<Result<u128, String>>) -> Seq<u128> {
    builds.map_values(|b: Result<u128, String>| match b {
        Ok(u) => u,
        Err(_) => 0u128,
    })
}

/// The first of the first `k` roots that the builder adds whose constraint
/// could not be built.
pub open spec fn first_failed_build(decisions: Seq<(bool, Vec<u128>)>, builds: Seq<Result<u128, String>>, k: int) -> Option<int>
    decreases k,
{
    if k <= 0 {
        None
    } else {
        match first_failed_build(decisions, builds, k - 1) {
            Some(q) => Some(q),
            None => if decisions[k - 1].0 && builds[k - 1] is Err {
                Some(k - 1)
            } else {
                None
            },
        }
    }
}

/// `r` is what attaching gives when the builds are `builds` over `n` roots:
/// the error of the first failed build (see `first_failed_build`), if any.
pub open spec fn attach_result(r: Result<(), String>, decisions: Seq<(bool, Vec<u128>)>, builds: Seq<Result<u128, String>>, n: int) -> bool {
    match first_failed_build(decisions, builds, n) {
        None => r is Ok,
        Some(q) => r is Err && builds[q] == Err::<u128, String>(r->Err_0),
    }
}

/// No root from position `k` on that the builder adds has a constraint
/// under `name` yet.
pub open spec fn not_generated_yet(
    gv: Seq<(Seq<char>, Seq<GenView>)>,
    name: Seq<char>,
    roots: Seq<Concept>,
    decisions: Seq<(bool, Vec<u128>)>,
    k: int,
) -> bool {
    forall|q: int, i: int, m: int| k <= q < decisions.len() && decisions[q].0 && 0 <= i < gv.len()
        && gv[i].0 == name && 0 <= m < gv[i].1.len()
        ==> (#[trigger] gv[i].1[m]).0 != concept_key(#[trigger] roots[q])
}

proof fn lemma_not_generated_yet_step(
    gv: Seq<(Seq<char>, Seq<GenView>)>,
    name: Seq<char>,
    roots: Seq<Concept>,
    decisions: Seq<(bool, Vec<u128>)>,
    k: int,
    e: GenView,
)
    requires
        0 <= k < decisions.len(),
        not_generated_yet(gv, name, roots, decisions, k),
        e.0 == concept_key(roots[k]),
        forall|k1: int, k2: int| 0 <= k1 < k2 < decisions.len() && decisions[k1].0 && decisions[k2].0
            ==> concept_key(roots[k1]) != concept_key(roots[k2]),
        decisions[k].0,
    ensures
        not_generated_yet(gen_add(gv, name, e), name, roots, decisions, k + 1),
{
    let g2 = gen_add(gv, name, e);
    lemma_lookup_from(gv, name, 0);
    assert forall|q: int, i: int, m: int| k + 1 <= q < decisions.len() && decisions[q].0 && 0 <= i < g2.len()
        && g2[i].0 == name && 0 <= m < g2[i].1.len()
        implies (#[trigger] g2[i].1[m]).0 != concept_key(#[trigger] roots[q]) by {
        match lookup_from(gv, name, 0) {
            Some(j) => {
                if i == j {
                    if m < gv[j].1.len() {
                        assert(g2[i].1[m] == gv[j].1[m]);
                    } else {
                        assert(g2[i].1[m] == e);
                    }
                } else {
                    assert(g2[i] == gv[i]);
                }
            },
            None => {
                if i < gv.len() {
                    assert(g2[i] == gv[i]);
                } else {
                    assert(g2[i].1[m] == e);
                }
            },
        }
    }
}

/// No two generated entries share a name.
pub open spec fn gen_names_unique(gv: Seq<(Seq<char>, Seq<GenView>)>) -> bool {
    forall|i: int, j: int| 0 <= i < gv.len() && 0 <= j < gv.len() && i != j ==> gv[i].0 != gv[j].0
}

fn find_group(by_type: &Vec<(String, Vec<Concept>)>, t: &String) -> (r: Option<usize>)
    ensures
        match r {
            Some(i) => i < by_type@.len() && roots_of(by_type@, t@) == by_type@[i as int].1@,
            None => roots_of(by_type@, t@) == Seq::<Concept>::empty(),
        },
{
    let ghost v = by_type@.map_values(|e: (String, Vec<Concept>)| (e.0@, e.1@));
    let mut i: usize = 0;
    while i < by_type.len()
        invariant
            i <= by_type@.len(),
            v == by_type@.map_values(|e: (String, Vec<Concept>)| (e.0@, e.1@)),
            lookup_from(v, t@, 0) == lookup_from(v, t@, i as int),
        decreases by_type@.len() - i,
    {
        if str_eq(by_type[i].0.as_str(), t.as_str()) {
            proof {
                lemma_lookup_from(v, t@, 0);
            }
            return Some(i);
        }
        i = i + 1;
    }
    None
}

/// No constraint generated yet: the map that `attach_constraints` starts
/// from.
pub fn new_generated() -> (r: LinkedHashMap<String, LinkedHashMap<(u128, String), (u128, Vec<u128>), RandomState>, RandomState>)
    ensures
        generated_items(r) == Seq::<(Seq<char>, Seq<GenView>)>::empty(),
{
    generated_new()
}

/// Attaches the constraint of a builder to the concepts of its root type:
/// each such concept (in order) that the builder adds, as `decisions` says,
/// gets the constraint that was built for it (`builds`, its UUID), which
/// may depend on the generated constraints it requires that lie in the
/// concept's family tree or on the other concepts it requires (see
/// `attach_fold`). The builder's name then counts as visited (moved last).
/// Where a build failed, its error is returned at once: the constraints of
/// the concepts before it stay attached, and the name is not visited. A
/// concept without a family tree, a concept that would get the constraint
/// twice, and a required constraint not visited yet are fatal errors; those
/// inputs are excluded.
pub fn attach_constraints(
    builder: &BuilderInfo,
    root_type: &String,
    by_object_type: &Vec<(String, Vec<Concept>)>,
    family_trees: &Vec<(TaskId, Vec<(String, Vec<u128>)>)>,
    decisions: &Vec<(bool, Vec<u128>)>,
    builds: &Vec<Result<u128, String>>,
    generated: &mut LinkedHashMap<String, LinkedHashMap<(u128, String), (u128, Vec<u128>), RandomState>, RandomState>,
    visited: &mut LinkedHashSet<String, RandomState>,
) -> (r: Result<(), String>)
    requires
        decisions@.len() == roots_of(by_object_type@, root_type@).len(),
        builds@.len() == roots_of(by_object_type@, root_type@).len(),
        all_have_trees(roots_of(by_object_type@, root_type@), family_trees@),
        forall|k1: int, k2: int| 0 <= k1 < k2 < decisions@.len() && decisions@[k1].0 && decisions@[k2].0
            ==> concept_key(roots_of(by_object_type@, root_type@)[k1]) != concept_key(roots_of(by_object_type@, root_type@)[k2]),
        not_generated_yet(generated_items(*old(generated)), builder.name@, roots_of(by_object_type@, root_type@), decisions@, 0),
        forall|m: int| 0 <= m < builder.required@.len() ==> name_set_items(*old(visited)).contains(#[trigger] builder.required@[m]@),
        gen_names_unique(generated_items(*old(generated))),
        trees_wf(family_trees@),
    ensures
        gen_names_unique(generated_items(*final(generated))),
        attach_result(r, decisions@, builds@, roots_of(by_object_type@, root_type@).len() as int),
        generated_items(*final(generated)) == attach_fold(
            generated_items(*old(generated)),
            builder.name@,
            strs_view(builder.required@),
            roots_of(by_object_type@, root_type@),
            decisions@,
            built_uuids(builds@),
            family_trees@,
            match first_failed_build(decisions@, builds@, roots_of(by_object_type@, root_type@).len() as int) {
                Some(q) => q,
                None => roots_of(by_object_type@, root_type@).len() as int,
            },
        ),
        name_set_items(*final(visited)) == if r is Ok {
            without(name_set_items(*old(visited)), builder.name@).push(builder.name@)
        } else {
            name_set_items(*old(visited))
        },
{
    let ghost g0 = generated_items(*generated);
    let ghost roots = roots_of(by_object_type@, root_type@);
    let empty: Vec<Concept> = Vec::new();
    let rs: &Vec<Concept> = match find_group(by_object_type, root_type) {
        Some(i) => &by_object_type[i].1,
        None => &empty,
    };
    let mut k: usize = 0;
    while k < rs.len()
        invariant
            rs@ == roots,
            k <= rs@.len(),
            decisions@.len() == roots.len(),
            builds@.len() == roots.len(),
            all_have_trees(roots, family_trees@),
            gen_names_unique(generated_items(*generated)),
            trees_wf(family_trees@),
            first_failed_build(decisions@, builds@, k as int) is None,
            name_set_items(*visited) == name_set_items(*old(visited)),
            g0 == generated_items(*old(generated)),
            roots == roots_of(by_object_type@, root_type@),
            generated_items(*generated) == attach_fold(g0, builder.name@, strs_view(builder.required@), roots, decisions@, built_uuids(builds@), family_trees@, k as int),
            not_generated_yet(generated_items(*generated), builder.name@, roots, decisions@, k as int),
            forall|k1: int, k2: int| 0 <= k1 < k2 < decisions@.len() && decisions@[k1].0 && decisions@[k2].0
                ==> concept_key(roots[k1]) != concept_key(roots[k2]),
        decreases rs@.len() - k,
    {
        let root = &rs[k];
        let rk = TaskId::new(root.uuid, root.object_type.clone());
        proof {
            assert(rk@ == concept_key(roots[k as int]));
        }
        let ti = match find_tree(family_trees, &rk) {
            Some(x) => x,
            None => {
                proof {
                    assert(has_tree(family_trees@, concept_key(roots[k as int])));
                }
                return Ok(());
            },
        };
        if decisions[k].0 {
            let uuid = match &builds[k] {
                Ok(u) => *u,
                Err(e) => {
                    let err = e.clone();
                    proof {
                        assert(builds@[k as int] == Err::<u128, String>(err));
                        assert(first_failed_build(decisions@, builds@, k as int) is None);
                        assert(first_failed_build(decisions@, builds@, k + 1) == Some(k as int));
                        lemma_first_failed_build_stays(decisions@, builds@, k + 1, roots.len() as int);
                        assert(first_failed_build(decisions@, builds@, roots.len() as int) == Some(k as int));
                        assert(generated_items(*generated) == attach_fold(g0, builder.name@, strs_view(builder.required@), roots, decisions@, built_uuids(builds@), family_trees@, k as int));
                    }
                    return Err(err);
                },
            };
            proof {
                assert(built_uuids(builds@)[k as int] == uuid);
            }
            let ghost prev = generated_items(*generated);
            let pot = get_potential_children(&builder.required, generated, &family_trees[ti].1, &decisions[k].1);
            proof {
                let c = choose|i: int| 0 <= i < family_trees@.len() && family_trees@[i].0@ == rk@;
                assert(family_trees@[c].0@ == family_trees@[ti as int].0@);
                assert(c == ti);
            }
            proof {
                match lookup_from(prev, builder.name@, 0) {
                    Some(i) => {
                        assert forall|m: int| 0 <= m < prev[i].1.len() implies (#[trigger] prev[i].1[m]).0 != (root.uuid, root.object_type@) by {
                            lemma_lookup_from(prev, builder.name@, 0);
                        }
                    },
                    None => {},
                }
            }
            generated_add(generated, &builder.name, (root.uuid, root.object_type.clone()), (uuid, pot));
            proof {
                lemma_not_generated_yet_step(prev, builder.name@, roots, decisions@, k as int,
                    ((root.uuid, root.object_type@), built_uuids(builds@)[k as int], potential_children(strs_view(builder.required@), prev, tree_of(family_trees@, concept_key(roots[k as int])), decisions@[k as int].1@)));
            }
        }
        k = k + 1;
    }
    name_set_insert(visited, builder.name.clone());
    Ok(())
}

/// Once a build has failed among the first `k` roots, it stays the first
/// failure among the first `n`.
proof fn lemma_first_failed_build_stays(decisions: Seq<(bool, Vec<u128>)>, builds: Seq<Result<u128, String>>, k: int, n: int)
    requires
        first_failed_build(decisions, builds, k) is Some,
        k <= n,
    ensures
        first_failed_build(decisions, builds, n) == first_failed_build(decisions, builds, k),
    decreases n - k,
{
    if k < n {
        lemma_first_failed_build_stays(decisions, builds, k, n - 1);
    }
}

/// The record of a concept as one of its own ancestors' children: its
/// UUID, type, tag and index among its parent's children.
pub open spec fn record_of(c: Concept) -> AncestorRecordView {
    AncestorRecordView { uuid: c.uuid, object_type: c.object_type@, tag: opt_string_view(c.tag), ix: c.index_as_child as nat }
}

/// The ids of the children of a concept.
pub open spec fn children_ids(c: Concept) -> Seq<(u128, Seq<char>)> {
    c.children@.map_values(|t: TaskId| t@)
}

/// The position of the concept with id `k`.
pub open spec fn concept_at(cs: Seq<Concept>, k: (u128, Seq<char>)) -> Option<int> {
    if exists|i: int| 0 <= i < cs.len() && concept_key(cs[i]) == k {
        Some(choose|i: int| 0 <= i < cs.len() && concept_key(cs[i]) == k)
    } else {
        None
    }
}

/// No two concepts share an id.
pub open spec fn concept_keys_unique(cs: Seq<Concept>) -> bool {
    forall|i: int, j: int| 0 <= i < cs.len() && 0 <= j < cs.len() && i != j ==> concept_key(cs[i]) != concept_key(cs[j])
}

/// The ancestors recorded so far, by value: each concept (once) with its
/// ancestors.
pub type AncView = Seq<((u128, Seq<char>), Seq<AncestorRecordView>)>;

pub open spec fn anc_view(a: Seq<(TaskId, Vec<AncestorRecord>)>) -> AncView {
    a.map_values(|e: (TaskId, Vec<AncestorRecord>)| (e.0@, records_view(e.1@)))
}

/// The ancestors recorded for `k` (none when absent).
pub open spec fn anc_get(a: AncView, k: (u128, Seq<char>)) -> Seq<AncestorRecordView> {
    match lookup_from(a, k, 0) {
        Some(i) => a[i].1,
        None => Seq::empty(),
    }
}

/// The ancestors with `k`'s replaced by `v` (or added last).
pub open spec fn anc_put(a: AncView, k: (u128, Seq<char>), v: Seq<AncestorRecordView>) -> AncView {
    match lookup_from(a, k, 0) {
        Some(i) => a.update(i, (k, v)),
        None => a.push((k, v)),
    }
}

/// The state of the walk down the universe: the records of the next level,
/// the ancestors so far, and whether no concept was missing.
pub struct AncState {
    pub frontier: Seq<AncestorRecordView>,
    pub anc: AncView,
    pub ok: bool,
}

/// Visits the children `kids` of a concept whose ancestors are `parent_anc`:
/// each joins the next level, and its ancestors are the parent's and its
/// own record.
pub open spec fn add_children(cs: Seq<Concept>, kids: Seq<(u128, Seq<char>)>, parent_anc: Seq<AncestorRecordView>, st: AncState) -> AncState
    decreases kids.len(),
{
    if kids.len() == 0 {
        st
    } else {
        let next = match concept_at(cs, kids[0]) {
            None => AncState { ok: false, ..st },
            Some(i) => {
                let t = record_of(cs[i]);
                AncState { frontier: st.frontier.push(t), anc: anc_put(st.anc, kids[0], parent_anc.push(t)), ok: st.ok }
            },
        };
        add_children(cs, kids.drop_first(), parent_anc, next)
    }
}

/// Visits the records of a level in order, building the next level.
pub open spec fn visit_level(cs: Seq<Concept>, level: Seq<AncestorRecordView>, st: AncState) -> AncState
    decreases level.len(),
{
    if level.len() == 0 {
        st
    } else {
        let key = (level[0].uuid, level[0].object_type);
        let next = match concept_at(cs, key) {
            None => AncState { ok: false, ..st },
            Some(i) => add_children(cs, children_ids(cs[i]), anc_get(st.anc, key), st),
        };
        visit_level(cs, level.drop_first(), next)
    }
}

/// At most `fuel` levels of the walk.
pub open spec fn walk(cs: Seq<Concept>, st: AncState, fuel: nat) -> AncState
    decreases fuel,
{
    if fuel == 0 || st.frontier.len() == 0 {
        st
    } else {
        walk(cs, visit_level(cs, st.frontier, AncState { frontier: Seq::empty(), ..st }), (fuel - 1) as nat)
    }
}

/// The start of the walk: the universe is the first level, and its own
/// ancestors are itself, untagged and at index 0.
pub open spec fn walk_start(universe: Concept) -> AncState {
    AncState {
        frontier: seq![record_of(universe)],
        anc: seq![(concept_key(universe), seq![AncestorRecordView { uuid: universe.uuid, object_type: universe.object_type@, tag: None, ix: 0 }])],
        ok: true,
    }
}

/// The walk ends within `fuel` levels without a missing concept.
pub open spec fn walk_ends(cs: Seq<Concept>, universe: Concept, fuel: nat) -> bool {
    walk(cs, walk_start(universe), fuel).frontier.len() == 0 && walk(cs, walk_start(universe), fuel).ok
}

proof fn lemma_add_children_mono(cs: Seq<Concept>, kids: Seq<(u128, Seq<char>)>, pa: Seq<AncestorRecordView>, st: AncState)
    requires
        !st.ok,
    ensures
        !add_children(cs, kids, pa, st).ok,
    decreases kids.len(),
{
    if kids.len() > 0 {
        let next = match concept_at(cs, kids[0]) {
            None => AncState { ok: false, ..st },
            Some(i) => {
                let t = record_of(cs[i]);
                AncState { frontier: st.frontier.push(t), anc: anc_put(st.anc, kids[0], pa.push(t)), ok: st.ok }
            },
        };
        lemma_add_children_mono(cs, kids.drop_first(), pa, next);
    }
}

proof fn lemma_visit_level_mono(cs: Seq<Concept>, level: Seq<AncestorRecordView>, st: AncState)
    requires
        !st.ok,
    ensures
        !visit_level(cs, level, st).ok,
    decreases level.len(),
{
    if level.len() > 0 {
        let key = (level[0].uuid, level[0].object_type);
        let next = match concept_at(cs, key) {
            None => AncState { ok: false, ..st },
            Some(i) => add_children(cs, children_ids(cs[i]), anc_get(st.anc, key), st),
        };
        if let Some(i) = concept_at(cs, key) {
            lemma_add_children_mono(cs, children_ids(cs[i]), anc_get(st.anc, key), st);
        }
        lemma_visit_level_mono(cs, level.drop_first(), next);
    }
}

proof fn lemma_walk_mono(cs: Seq<Concept>, st: AncState, fuel: nat)
    requires
        !st.ok,
    ensures
        !walk(cs, st, fuel).ok,
    decreases fuel,
{
    if fuel > 0 && st.frontier.len() > 0 {
        let st1 = AncState { frontier: Seq::empty(), ..st };
        lemma_visit_level_mono(cs, st.frontier, st1);
        lemma_walk_mono(cs, visit_level(cs, st.frontier, st1), (fuel - 1) as nat);
    }
}

/// An entry of the ancestors runs from the universe down to its concept: it
/// is not empty, its first record is the universe and its last record is
/// the concept of the entry.
pub open spec fn runs_from_universe(e: ((u128, Seq<char>), Seq<AncestorRecordView>), universe: Concept) -> bool {
    &&& e.1.len() > 0
    &&& e.1[0].uuid == universe.uuid
    &&& e.1[0].object_type == universe.object_type@
    &&& e.1.last().uuid == e.0.0
    &&& e.1.last().object_type == e.0.1
}

/// The key of a record.
pub open spec fn record_key(r: AncestorRecordView) -> (u128, Seq<char>) {
    (r.uuid, r.object_type)
}

/// What the walk keeps: every entry runs from the universe, and every
/// record of the next level has an entry.
pub open spec fn walk_inv(st: AncState, universe: Concept) -> bool {
    &&& forall|i: int| 0 <= i < st.anc.len() ==> runs_from_universe(#[trigger] st.anc[i], universe)
    &&& forall|j: int| 0 <= j < st.frontier.len() ==> lookup_from(st.anc, record_key(#[trigger] st.frontier[j]), 0) is Some
}

proof fn lemma_anc_put(a: AncView, k: (u128, Seq<char>), v: Seq<AncestorRecordView>, universe: Concept)
    requires
        forall|i: int| 0 <= i < a.len() ==> runs_from_universe(#[trigger] a[i], universe),
        runs_from_universe((k, v), universe),
    ensures
        forall|i: int| 0 <= i < anc_put(a, k, v).len() ==> runs_from_universe(#[trigger] anc_put(a, k, v)[i], universe),
        forall|x: (u128, Seq<char>)| lookup_from(a, x, 0) is Some ==> #[trigger] lookup_from(anc_put(a, k, v), x, 0) is Some,
        lookup_from(anc_put(a, k, v), k, 0) is Some,
{
    lemma_lookup_from(a, k, 0);
    let b = anc_put(a, k, v);
    lemma_lookup_from(b, k, 0);
    match lookup_from(a, k, 0) {
        Some(p) => {
            assert(b == a.update(p, (k, v)));
            assert forall|i: int| 0 <= i < b.len() implies runs_from_universe(#[trigger] b[i], universe) by {
                if i != p {
                    assert(b[i] == a[i]);
                }
            }
            assert(b[p].0 == k);
            assert forall|x: (u128, Seq<char>)| lookup_from(a, x, 0) is Some implies #[trigger] lookup_from(b, x, 0) is Some by {
                lemma_lookup_from(a, x, 0);
                lemma_lookup_from(b, x, 0);
                let q = lookup_from(a, x, 0)->0;
                assert(b[q].0 == x);
            }
        },
        None => {
            assert(b == a.push((k, v)));
            assert forall|i: int| 0 <= i < b.len() implies runs_from_universe(#[trigger] b[i], universe) by {
                if i < a.len() {
                    assert(b[i] == a[i]);
                }
            }
            assert(b[a.len() as int].0 == k);
            assert forall|x: (u128, Seq<char>)| lookup_from(a, x, 0) is Some implies #[trigger] lookup_from(b, x, 0) is Some by {
                lemma_lookup_from(a, x, 0);
                lemma_lookup_from(b, x, 0);
                let q = lookup_from(a, x, 0)->0;
                assert(b[q].0 == x);
            }
        },
    }
}

proof fn lemma_add_children_inv(cs: Seq<Concept>, kids: Seq<(u128, Seq<char>)>, pa: Seq<AncestorRecordView>, st: AncState, universe: Concept)
    requires
        walk_inv(st, universe),
        pa.len() > 0,
        pa[0].uuid == universe.uuid,
        pa[0].object_type == universe.object_type@,
    ensures
        walk_inv(add_children(cs, kids, pa, st), universe),
        forall|x: (u128, Seq<char>)| lookup_from(st.anc, x, 0) is Some ==> #[trigger] lookup_from(add_children(cs, kids, pa, st).anc, x, 0) is Some,
    decreases kids.len(),
{
    if kids.len() > 0 {
        let next = match concept_at(cs, kids[0]) {
            None => AncState { ok: false, ..st },
            Some(i) => {
                let t = record_of(cs[i]);
                AncState { frontier: st.frontier.push(t), anc: anc_put(st.anc, kids[0], pa.push(t)), ok: st.ok }
            },
        };
        match concept_at(cs, kids[0]) {
            None => {},
            Some(i) => {
                let t = record_of(cs[i]);
                assert(concept_key(cs[i]) == kids[0]);
                let v = pa.push(t);
                assert(v[0] == pa[0]);
                assert(runs_from_universe((kids[0], v), universe));
                lemma_anc_put(st.anc, kids[0], v, universe);
                assert forall|j: int| 0 <= j < next.frontier.len() implies lookup_from(next.anc, record_key(#[trigger] next.frontier[j]), 0) is Some by {
                    if j < st.frontier.len() {
                        assert(next.frontier[j] == st.frontier[j]);
                    } else {
                        assert(record_key(next.frontier[j]) == kids[0]);
                    }
                }
            },
        }
        lemma_add_children_inv(cs, kids.drop_first(), pa, next, universe);
    }
}

proof fn lemma_visit_level_inv(cs: Seq<Concept>, level: Seq<AncestorRecordView>, st: AncState, universe: Concept)
    requires
        walk_inv(st, universe),
        forall|j: int| 0 <= j < level.len() ==> lookup_from(st.anc, record_key(#[trigger] level[j]), 0) is Some,
    ensures
        walk_inv(visit_level(cs, level, st), universe),
    decreases level.len(),
{
    if level.len() > 0 {
        let key = (level[0].uuid, level[0].object_type);
        let next = match concept_at(cs, key) {
            None => AncState { ok: false, ..st },
            Some(i) => add_children(cs, children_ids(cs[i]), anc_get(st.anc, key), st),
        };
        assert(record_key(level[0]) == key);
        lemma_lookup_from(st.anc, key, 0);
        let p = lookup_from(st.anc, key, 0)->0;
        assert(anc_get(st.anc, key) == st.anc[p].1);
        assert(runs_from_universe(st.anc[p], universe));
        if let Some(i) = concept_at(cs, key) {
            lemma_add_children_inv(cs, children_ids(cs[i]), anc_get(st.anc, key), st, universe);
        }
        assert forall|j: int| 0 <= j < level.drop_first().len() implies lookup_from(next.anc, record_key(#[trigger] level.drop_first()[j]), 0) is Some by {
            assert(level.drop_first()[j] == level[j + 1]);
            assert(lookup_from(st.anc, record_key(level[j + 1]), 0) is Some);
        }
        lemma_visit_level_inv(cs, level.drop_first(), next, universe);
    }
}

proof fn lemma_walk_inv(cs: Seq<Concept>, st: AncState, fuel: nat, universe: Concept)
    requires
        walk_inv(st, universe),
    ensures
        walk_inv(walk(cs, st, fuel), universe),
    decreases fuel,
{
    if fuel > 0 && st.frontier.len() > 0 {
        let st1 = AncState { frontier: Seq::empty(), ..st };
        lemma_visit_level_inv(cs, st.frontier, st1, universe);
        lemma_walk_inv(cs, visit_level(cs, st.frontier, st1), (fuel - 1) as nat, universe);
    }
}

/// The ancestors of every concept that the walk down the universe reaches
/// run from the universe to the concept itself: the list is not empty, its
/// first record is the universe and its last record is the concept.
pub proof fn lemma_ancestors_from_universe(cs: Seq<Concept>, universe: Concept, fuel: nat)
    ensures
        forall|i: int| 0 <= i < walk(cs, walk_start(universe), fuel).anc.len()
            ==> runs_from_universe(#[trigger] walk(cs, walk_start(universe), fuel).anc[i], universe),
{
    let st = walk_start(universe);
    assert(st.anc[0].1.last() == st.anc[0].1[0]);
    assert(lookup_from(st.anc, concept_key(universe), 0) == Some(0int));
    assert(record_key(st.frontier[0]) == concept_key(universe));
    assert(walk_inv(st, universe));
    lemma_walk_inv(cs, st, fuel, universe);
}

fn find_concept(cs: &Vec<Concept>, k: &TaskId) -> (r: Option<usize>)
    requires
        concept_keys_unique(cs@),
    ensures
        match r {
            Some(i) => concept_at(cs@, k@) == Some(i as int),
            None => concept_at(cs@, k@) is None,
        },
{
    let mut i: usize = 0;
    while i < cs.len()
        invariant
            i <= cs@.len(),
            concept_keys_unique(cs@),
            forall|j: int| 0 <= j < i ==> concept_key(cs@[j]) != k@,
        decreases cs@.len() - i,
    {
        if cs[i].uuid == k.uuid && str_eq(cs[i].object_type.as_str(), k.object_type.as_str()) {
            proof {
                assert(concept_key(cs@[i as int]) == k@);
                let c = choose|c: int| 0 <= c < cs@.len() && concept_key(cs@[c]) == k@;
                assert(c == i);
            }
            return Some(i);
        }
        i = i + 1;
    }
    None
}

fn find_anc(a: &Vec<(TaskId, Vec<AncestorRecord>)>, k: &TaskId) -> (r: Option<usize>)
    ensures
        match r {
            Some(i) => lookup_from(anc_view(a@), k@, 0) == Some(i as int),
            None => lookup_from(anc_view(a@), k@, 0) is None,
        },
{
    let ghost v = anc_view(a@);
    let mut i: usize = 0;
    while i < a.len()
        invariant
            i <= a@.len(),
            v == anc_view(a@),
            lookup_from(v, k@, 0) == lookup_from(v, k@, i as int),
        decreases a@.len() - i,
    {
        if a[i].0.same_as(k) {
            return Some(i);
        }
        i = i + 1;
    }
    None
}

fn clone_recs(v: &Vec<AncestorRecord>) -> (r: Vec<AncestorRecord>)
    ensures
        records_view(r@) == records_view(v@),
{
    let mut r: Vec<AncestorRecord> = Vec::new();
    let mut i: usize = 0;
    while i < v.len()
        invariant
            i <= v@.len(),
            records_view(r@) == records_view(v@.take(i as int)),
        decreases v@.len() - i,
    {
        let ghost r0 = r@;
        r.push(v[i].clone());
        i = i + 1;
        proof {
            assert(records_view(r@) =~= records_view(r0).push(v@[i - 1]@));
            assert(records_view(v@.take(i as int)) =~= records_view(v@.take(i - 1)).push(v@[i - 1]@));
        }
    }
    proof {
        assert(v@.take(i as int) =~= v@);
    }
    r
}

/// Replaces the ancestors of `k` (or adds them last).
fn put_anc(a: &mut Vec<(TaskId, Vec<AncestorRecord>)>, k: TaskId, v: Vec<AncestorRecord>)
    ensures
        anc_view(final(a)@) == anc_put(anc_view(old(a)@), k@, records_view(v@)),
{
    let ghost a0 = anc_view(a@);
    proof {
        lemma_lookup_from(a0, k@, 0);
    }
    match find_anc(a, &k) {
        Some(i) => {
            a.set(i, (k, v));
            proof {
                assert(anc_view(a@) =~= a0.update(i as int, (k@, records_view(v@))));
            }
        },
        None => {
            a.push((k, v));
            proof {
                assert(anc_view(a@) =~= a0.push((k@, records_view(v@))));
            }
        },
    }
}

fn record_for(c: &Concept) -> (r: AncestorRecord)
    ensures
        r@ == record_of(*c),
{
    let tag = match &c.tag {
        Some(t) => Some(t.clone()),
        None => None,
    };
    AncestorRecord::new(c.uuid, c.object_type.clone(), tag, c.index_as_child)
}

/// The ancestors of every concept: the universe's are itself (untagged,
/// at index 0); walking down level by level, each child's are its parent's
/// followed by its own record, a later visit replacing an earlier one (see
/// `walk`). A missing concept is a fatal error, and concepts that form a
/// cycle would be walked forever; the requirements exclude both.
pub fn compute_all_ancestors(universe: &Concept, concepts: &Vec<Concept>) -> (r: Vec<(TaskId, Vec<AncestorRecord>)>)
    requires
        concept_keys_unique(concepts@),
        exists|fuel: nat| walk_ends(concepts@, *universe, fuel),
    ensures
        anc_view(r@) == walk(concepts@, walk_start(*universe), choose|fuel: nat| walk_ends(concepts@, *universe, fuel)).anc,
{
    let ghost cs = concepts@;
    let ghost fuel = choose|fuel: nat| walk_ends(cs, *universe, fuel);
    let ghost result = walk(cs, walk_start(*universe), fuel);
    let mut frontier: Vec<AncestorRecord> = Vec::new();
    frontier.push(record_for(universe));
    let mut anc: Vec<(TaskId, Vec<AncestorRecord>)> = Vec::new();
    let mut own: Vec<AncestorRecord> = Vec::new();
    own.push(AncestorRecord::new(universe.uuid, universe.object_type.clone(), None, 0));
    anc.push((TaskId::new(universe.uuid, universe.object_type.clone()), own));
    let ghost mut steps: nat = 0;
    proof {
        assert(records_view(frontier@) =~= seq![record_of(*universe)]);
        let ov = AncestorRecordView { uuid: universe.uuid, object_type: universe.object_type@, tag: None, ix: 0 };
        assert(anc@[0].1@[0]@ == ov);
        assert(records_view(anc@[0].1@) =~= seq![ov]);
        assert(anc_view(anc@) =~= walk_start(*universe).anc);
    }
    while frontier.len() > 0
        invariant
            cs == concepts@,
            concept_keys_unique(cs),
            walk_ends(cs, *universe, fuel),
            result == walk(cs, walk_start(*universe), fuel),
            steps <= fuel,
            result == walk(cs, AncState { frontier: records_view(frontier@), anc: anc_view(anc@), ok: true }, (fuel - steps) as nat),
        decreases fuel - steps,
    {
        let ghost cur = AncState { frontier: records_view(frontier@), anc: anc_view(anc@), ok: true };
        let ghost fv = records_view(frontier@);
        proof {
            if fuel - steps == 0 {
                assert(result == cur);
            }
            assert(fv.skip(0) =~= fv);
        }
        let mut next: Vec<AncestorRecord> = Vec::new();
        proof {
            assert(records_view(next@) =~= Seq::<AncestorRecordView>::empty());
            assert(result == walk(cs, visit_level(cs, fv, AncState { frontier: Seq::empty(), ..cur }), (fuel - steps - 1) as nat));
        }
        let mut c: usize = 0;
        while c < frontier.len()
            invariant
                cs == concepts@,
                concept_keys_unique(cs),
                fv == records_view(frontier@),
                c <= frontier@.len(),
                fuel - steps > 0,
                result.ok,
                result == walk(cs, visit_level(cs, fv.skip(c as int), AncState { frontier: records_view(next@), anc: anc_view(anc@), ok: true }), (fuel - steps - 1) as nat),
            decreases frontier@.len() - c,
        {
            let ghost sc = AncState { frontier: records_view(next@), anc: anc_view(anc@), ok: true };
            let key = frontier[c].get_key();
            proof {
                assert(fv.skip(c as int)[0] == frontier@[c as int]@);
                assert(fv.skip(c as int).drop_first() =~= fv.skip(c as int + 1));
                assert(key@ == (fv.skip(c as int)[0].uuid, fv.skip(c as int)[0].object_type));
            }
            let ci = match find_concept(concepts, &key) {
                Some(x) => x,
                None => {
                    proof {
                        lemma_visit_level_mono(cs, fv.skip(c as int + 1), AncState { ok: false, ..sc });
                        lemma_walk_mono(cs, visit_level(cs, fv.skip(c as int + 1), AncState { ok: false, ..sc }), (fuel - steps - 1) as nat);
                    }
                    return Vec::new();
                },
            };
            let pa = match find_anc(&anc, &key) {
                Some(ai) => {
                    proof {
                        lemma_lookup_from(anc_view(anc@), key@, 0);
                    }
                    clone_recs(&anc[ai].1)
                },
                None => Vec::new(),
            };
            let ghost pav = records_view(pa@);
            proof {
                assert(pav == anc_get(sc.anc, key@)) by {
                    if lookup_from(sc.anc, key@, 0) is None {
                        assert(records_view(pa@) =~= Seq::<AncestorRecordView>::empty());
                    }
                }
            }
            let kids = &concepts[ci].children;
            let ghost kv = children_ids(cs[ci as int]);
            proof {
                assert(kv.skip(0) =~= kv);
            }
            let mut g: usize = 0;
            while g < kids.len()
                invariant
                    cs == concepts@,
                    concept_keys_unique(cs),
                    kv == kids@.map_values(|t: TaskId| t@),
                    pav == records_view(pa@),
                    g <= kids@.len(),
                    fuel - steps > 0,
                    result.ok,
                    result == walk(cs, visit_level(cs, fv.skip(c as int + 1), add_children(cs, kv.skip(g as int), pav, AncState { frontier: records_view(next@), anc: anc_view(anc@), ok: true })), (fuel - steps - 1) as nat),
                decreases kids@.len() - g,
            {
                let ghost sg = AncState { frontier: records_view(next@), anc: anc_view(anc@), ok: true };
                let kid = &kids[g];
                proof {
                    assert(kv.skip(g as int)[0] == kid@);
                    assert(kv.skip(g as int).drop_first() =~= kv.skip(g as int + 1));
                }
                let gi = match find_concept(concepts, kid) {
                    Some(x) => x,
                    None => {
                        proof {
                            lemma_add_children_mono(cs, kv.skip(g as int + 1), pav, AncState { ok: false, ..sg });
                            let bad = add_children(cs, kv.skip(g as int + 1), pav, AncState { ok: false, ..sg });
                            lemma_visit_level_mono(cs, fv.skip(c as int + 1), bad);
                            lemma_walk_mono(cs, visit_level(cs, fv.skip(c as int + 1), bad), (fuel - steps - 1) as nat);
                        }
                        return Vec::new();
                    },
                };
                let t = record_for(&concepts[gi]);
                let ghost n0 = next@;
                next.push(t.clone());
                let mut pa2 = clone_recs(&pa);
                let ghost p0 = pa2@;
                pa2.push(t);
                proof {
                    assert(records_view(next@) =~= records_view(n0).push(record_of(cs[gi as int])));
                    assert(records_view(pa2@) =~= pav.push(record_of(cs[gi as int])));
                }
                put_anc(&mut anc, kid.clone(), pa2);
                g = g + 1;
            }
            proof {
                assert(kv.skip(g as int).len() == 0);
            }
            c = c + 1;
        }
        proof {
            assert(fv.skip(c as int).len() == 0);
        }
        frontier = next;
        proof {
            steps = steps + 1;
        }
    }
    proof {
        assert(result == AncState { frontier: records_view(frontier@), anc: anc_view(anc@), ok: true });
    }
    anc
}

/// The key of the root concept of a constraint.
pub open spec fn root_key(c: ConstraintInfo) -> (u128, Seq<char>) {
    (c.root_uuid, c.root_type@)
}

/// The fresh state of each constraint, in order: the root concept and its
/// ancestors are looked up by the constraint's root (a missing one is a
/// fatal error; those inputs are excluded).
pub fn generate_constraint_states_map(
    constraints: &Vec<ConstraintInfo>,
    concepts: &Vec<Concept>,
    ancestors: &Vec<(TaskId, Vec<AncestorRecord>)>,
) -> (r: Vec<ConstraintState>)
    requires
        concept_keys_unique(concepts@),
        forall|i: int| 0 <= i < constraints@.len() ==> concept_at(concepts@, root_key(#[trigger] constraints@[i])) is Some
            && lookup_from(anc_view(ancestors@), root_key(constraints@[i]), 0) is Some,
    ensures
        r@.len() == constraints@.len(),
        forall|i: int| 0 <= i < r@.len() ==> fresh_state(
            #[trigger] r@[i],
            constraints@[i],
            concepts@[concept_at(concepts@, root_key(constraints@[i]))->0],
            anc_get(anc_view(ancestors@), root_key(constraints@[i])),
        ),
{
    let mut out: Vec<ConstraintState> = Vec::new();
    let mut i: usize = 0;
    while i < constraints.len()
        invariant
            i <= constraints@.len(),
            out@.len() == i,
            concept_keys_unique(concepts@),
            forall|k: int| 0 <= k < constraints@.len() ==> concept_at(concepts@, root_key(#[trigger] constraints@[k])) is Some
                && lookup_from(anc_view(ancestors@), root_key(constraints@[k]), 0) is Some,
            forall|k: int| 0 <= k < i ==> fresh_state(
                #[trigger] out@[k],
                constraints@[k],
                concepts@[concept_at(concepts@, root_key(constraints@[k]))->0],
                anc_get(anc_view(ancestors@), root_key(constraints@[k])),
            ),
        decreases constraints@.len() - i,
    {
        let c = &constraints[i];
        let key = TaskId::new(c.root_uuid, c.root_type.clone());
        proof {
            assert(key@ == root_key(constraints@[i as int]));
        }
        let ci = find_concept(concepts, &key);
        let ai = find_anc(ancestors, &key);
        match (ci, ai) {
            (Some(ci), Some(ai)) => {
                proof {
                    lemma_lookup_from(anc_view(ancestors@), key@, 0);
                }
                let records = clone_records(&ancestors[ai].1);
                proof {
                    assert(records_view(records@) =~= records_view(ancestors@[ai as int].1@));
                    assert(anc_view(ancestors@)[ai as int].1 == records_view(ancestors@[ai as int].1@));
                }
                let st = ConstraintState::new(c, &concepts[ci], records);
                out.push(st);
            },
            _ => {
                return out;
            },
        }
        i = i + 1;
    }
    out
}

} // verus!

verus! {

/// What `attach_constraints` needs to attach the constraint of builder `b`
/// to the concepts of `root_type`, given the constraints generated so far
/// (`g`) and the names visited so far.
pub open spec fn attach_ready(
    b: BuilderInfo,
    root_type: Seq<char>,
    by_object_type: Seq<(String, Vec<Concept>)>,
    family_trees: Seq<(TaskId, Vec<(String, Vec<u128>)>)>,
    decisions: Seq<(bool, Vec<u128>)>,
    builds: Seq<Result<u128, String>>,
    g: Seq<(Seq<char>, Seq<GenView>)>,
    visited: Seq<Seq<char>>,
) -> bool {
    let roots = roots_of(by_object_type, root_type);
    &&& decisions.len() == roots.len()
    &&& builds.len() == roots.len()
    &&& all_have_trees(roots, family_trees)
    &&& forall|k1: int, k2: int| 0 <= k1 < k2 < decisions.len() && decisions[k1].0 && decisions[k2].0
        ==> concept_key(roots[k1]) != concept_key(roots[k2])
    &&& not_generated_yet(g, b.name@, roots, decisions, 0)
    &&& forall|m: int| 0 <= m < b.required@.len() ==> visited.contains(#[trigger] b.required@[m]@)
}

/// The constraints generated once the first `p` builders are attached (see
/// `attach_fold`), starting from `g0`, with the UUIDs of the constraints
/// built for each.
pub open spec fn generated_after(
    g0: Seq<(Seq<char>, Seq<GenView>)>,
    builders: Seq<BuilderInfo>,
    root_types: Seq<String>,
    by_object_type: Seq<(String, Vec<Concept>)>,
    family_trees: Seq<(TaskId, Vec<(String, Vec<u128>)>)>,
    decisions: Seq<Vec<(bool, Vec<u128>)>>,
    builds: Seq<Vec<Result<u128, String>>>,
    p: int,
) -> Seq<(Seq<char>, Seq<GenView>)>
    decreases p,
{
    if p <= 0 {
        g0
    } else {
        let prev = generated_after(g0, builders, root_types, by_object_type, family_trees, decisions, builds, p - 1);
        let b = builders[p - 1];
        let roots = roots_of(by_object_type, root_types[p - 1]@);
        attach_fold(prev, b.name@, strs_view(b.required@), roots, decisions[p - 1]@, built_uuids(builds[p - 1]@), family_trees, roots.len() as int)
    }
}

/// The names visited once the first `p` builders are attached, starting
/// from `v0`: each builder's name moves last.
pub open spec fn visited_after(v0: Seq<Seq<char>>, builders: Seq<BuilderInfo>, p: int) -> Seq<Seq<char>>
    decreases p,
{
    if p <= 0 {
        v0
    } else {
        without(visited_after(v0, builders, p - 1), builders[p - 1].name@).push(builders[p - 1].name@)
    }
}

/// The first of the first `p` builders whose attaching fails: one of the
/// constraints built for it failed (see `first_failed_build`).
pub open spec fn first_failed_builder(
    root_types: Seq<String>,
    by_object_type: Seq<(String, Vec<Concept>)>,
    decisions: Seq<Vec<(bool, Vec<u128>)>>,
    builds: Seq<Vec<Result<u128, String>>>,
    p: int,
) -> Option<int>
    decreases p,
{
    if p <= 0 {
        None
    } else {
        match first_failed_builder(root_types, by_object_type, decisions, builds, p - 1) {
            Some(b) => Some(b),
            None => if first_failed_build(decisions[p - 1]@, builds[p - 1]@, roots_of(by_object_type, root_types[p - 1]@).len() as int) is Some {
                Some(p - 1)
            } else {
                None
            },
        }
    }
}

proof fn lemma_first_failed_builder_stays(
    root_types: Seq<String>,
    by_object_type: Seq<(String, Vec<Concept>)>,
    decisions: Seq<Vec<(bool, Vec<u128>)>>,
    builds: Seq<Vec<Result<u128, String>>>,
    p: int,
    n: int,
)
    requires
        first_failed_builder(root_types, by_object_type, decisions, builds, p) is Some,
        p <= n,
    ensures
        first_failed_builder(root_types, by_object_type, decisions, builds, n)
            == first_failed_builder(root_types, by_object_type, decisions, builds, p),
    decreases n - p,
{
    if p < n {
        lemma_first_failed_builder_stays(root_types, by_object_type, decisions, builds, p, n - 1);
    }
}

/// Attaches the constraints of the builders in order (see
/// `attach_constraints`), builder `p` to the concepts of `root_types[p]`
/// with its decisions and the constraints built for it. The first failed
/// build (see `first_failed_builder`) ends the run with its error; the
/// builders before it stay attached, and what its own builder attached
/// before the failure too. The inputs on which attaching a builder is a
/// fatal error are excluded: each builder must be ready (see
/// `attach_ready`) given what the builders before it generated and visited.
pub fn attach_all_constraints(
    builders: &Vec<BuilderInfo>,
    root_types: &Vec<String>,
    by_object_type: &Vec<(String, Vec<Concept>)>,
    family_trees: &Vec<(TaskId, Vec<(String, Vec<u128>)>)>,
    decisions: &Vec<Vec<(bool, Vec<u128>)>>,
    builds: &Vec<Vec<Result<u128, String>>>,
    generated: &mut LinkedHashMap<String, LinkedHashMap<(u128, String), (u128, Vec<u128>), RandomState>, RandomState>,
    visited: &mut LinkedHashSet<String, RandomState>,
) -> (r: Result<(), String>)
    requires
        root_types@.len() == builders@.len(),
        decisions@.len() == builders@.len(),
        builds@.len() == builders@.len(),
        gen_names_unique(generated_items(*old(generated))),
        trees_wf(family_trees@),
        forall|p: int| 0 <= p < builders@.len() ==> attach_ready(
            #[trigger] builders@[p],
            root_types@[p]@,
            by_object_type@,
            family_trees@,
            decisions@[p]@,
            builds@[p]@,
            generated_after(generated_items(*old(generated)), builders@, root_types@, by_object_type@, family_trees@, decisions@, builds@, p),
            visited_after(name_set_items(*old(visited)), builders@, p),
        ),
    ensures
        gen_names_unique(generated_items(*final(generated))),
        match first_failed_builder(root_types@, by_object_type@, decisions@, builds@, builders@.len() as int) {
            None => {
                &&& r is Ok
                &&& generated_items(*final(generated)) == generated_after(
                    generated_items(*old(generated)), builders@, root_types@, by_object_type@, family_trees@, decisions@, builds@,
                    builders@.len() as int)
                &&& name_set_items(*final(visited)) == visited_after(name_set_items(*old(visited)), builders@, builders@.len() as int)
            },
            Some(b) => {
                let roots = roots_of(by_object_type@, root_types@[b]@);
                &&& attach_result(r, decisions@[b]@, builds@[b]@, roots.len() as int)
                &&& generated_items(*final(generated)) == attach_fold(
                    generated_after(
                        generated_items(*old(generated)), builders@, root_types@, by_object_type@, family_trees@, decisions@, builds@, b),
                    builders@[b].name@,
                    strs_view(builders@[b].required@),
                    roots,
                    decisions@[b]@,
                    built_uuids(builds@[b]@),
                    family_trees@,
                    first_failed_build(decisions@[b]@, builds@[b]@, roots.len() as int)->0,
                )
                &&& name_set_items(*final(visited)) == visited_after(name_set_items(*old(visited)), builders@, b)
            },
        },
{
    let ghost g0 = generated_items(*generated);
    let ghost v0 = name_set_items(*visited);
    let mut p: usize = 0;
    while p < builders.len()
        invariant
            p <= builders@.len(),
            root_types@.len() == builders@.len(),
            decisions@.len() == builders@.len(),
            builds@.len() == builders@.len(),
            trees_wf(family_trees@),
            gen_names_unique(generated_items(*generated)),
            generated_items(*generated) == generated_after(g0, builders@, root_types@, by_object_type@, family_trees@, decisions@, builds@, p as int),
            name_set_items(*visited) == visited_after(v0, builders@, p as int),
            first_failed_builder(root_types@, by_object_type@, decisions@, builds@, p as int) is None,
            g0 == generated_items(*old(generated)),
            v0 == name_set_items(*old(visited)),
            forall|q: int| 0 <= q < builders@.len() ==> attach_ready(
                #[trigger] builders@[q],
                root_types@[q]@,
                by_object_type@,
                family_trees@,
                decisions@[q]@,
                builds@[q]@,
                generated_after(g0, builders@, root_types@, by_object_type@, family_trees@, decisions@, builds@, q),
                visited_after(v0, builders@, q),
            ),
        decreases builders@.len() - p,
    {
        proof {
            assert(attach_ready(
                builders@[p as int],
                root_types@[p as int]@,
                by_object_type@,
                family_trees@,
                decisions@[p as int]@,
                builds@[p as int]@,
                generated_after(g0, builders@, root_types@, by_object_type@, family_trees@, decisions@, builds@, p as int),
                visited_after(v0, builders@, p as int),
            ));
        }
        let r = attach_constraints(
            &builders[p],
            &root_types[p],
            by_object_type,
            family_trees,
            &decisions[p],
            &builds[p],
            generated,
            visited,
        );
        proof {
            let roots = roots_of(by_object_type@, root_types@[p as int]@);
            if first_failed_build(decisions@[p as int]@, builds@[p as int]@, roots.len() as int) is Some {
                assert(first_failed_builder(root_types@, by_object_type@, decisions@, builds@, p + 1) == Some(p as int));
                lemma_first_failed_builder_stays(root_types@, by_object_type@, decisions@, builds@, p + 1, builders@.len() as int);
            }
        }
        if let Err(e) = r {
            return Err(e);
        }
        p = p + 1;
    }
    Ok(())
}

} // verus!
