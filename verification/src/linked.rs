//! Collections that remember the order of insertion: what inserting into a
//! `linked_hash_map::LinkedHashMap` does to its entries, and the sets
//! (`linked_hash_set::LinkedHashSet`) of the pending dependencies of a
//! constraint (ids: a UUID and a type name) and of the names of the topline
//! constraints. Their contents are named here, and each method the library
//! calls has a contract over them.
use vstd::prelude::*;
use linked_hash_set::LinkedHashSet;
use linked_hash_map::LinkedHashMap;
use crate::dataset::{TemplateRef, TemplateView};
use std::collections::hash_map::RandomState;
use crate::access::strs_view;
use crate::blocks::without;
use crate::task_graph::{IdView, retain_ids};
use crate::ancestor_record::TaskId;
use crate::ancestry::{GenView, gen_add, gen_entries_view, gen_names_unique, lookup_from};

verus! {

/// Whether no key occurs twice among entries.
pub open spec fn keys_unique_in<V>(s: Seq<(Seq<char>, V)>) -> bool {
    forall|i: int, j: int| 0 <= i < s.len() && 0 <= j < s.len() && i != j ==> s[i].0 != s[j].0
}

/// The position of key `k` among entries, if it occurs.
pub open spec fn key_index<V>(s: Seq<(Seq<char>, V)>, k: Seq<char>) -> Option<int> {
    if exists|i: int| 0 <= i < s.len() && s[i].0 == k {
        Some(choose|i: int| 0 <= i < s.len() && s[i].0 == k)
    } else {
        None
    }
}

/// Entries after inserting `k => v` as a `LinkedHashMap` does: an existing
/// entry for `k` is dropped from its place and the new entry goes to the
/// end.
pub open spec fn linked_insert<V>(s: Seq<(Seq<char>, V)>, k: Seq<char>, v: V) -> Seq<(Seq<char>, V)> {
    match key_index(s, k) {
        Some(j) => s.remove(j).push((k, v)),
        None => s.push((k, v)),
    }
}

/// Inserting into entries keeps keys unique, puts the new entry
/// last, so that looking the key up gives the value inserted, and leaves
/// the entry of any other key as it was.
pub proof fn lemma_linked_insert<V>(s: Seq<(Seq<char>, V)>, key: Seq<char>, value: V, other: Seq<char>)
    requires
        keys_unique_in(s),
    ensures
        keys_unique_in(linked_insert(s, key, value)),
        key_index(linked_insert(s, key, value), key) == Some(linked_insert(s, key, value).len() - 1),
        linked_insert(s, key, value).last() == (key, value),
        other != key ==> match key_index(s, other) {
            None => key_index(linked_insert(s, key, value), other) is None,
            Some(j) => key_index(linked_insert(s, key, value), other) matches Some(j2) && linked_insert(s, key, value)[j2] == s[j],
        },
{
    let s0 = s;
    let found = key_index(s0, key);
    let r = linked_insert(s0, key, value);
    assert(keys_unique_in(r)) by {
        assert forall|a: int, b: int|
            0 <= a < r.len() && 0 <= b < r.len() && a != b implies r[a].0 != r[b].0 by {
            match found {
                Some(j) => {
                    let t = s0.remove(j);
                    if a < r.len() - 1 && b < r.len() - 1 {
                        assert(r[a] == t[a] && r[b] == t[b]);
                        let aa = if a < j { a } else { a + 1 };
                        let bb = if b < j { b } else { b + 1 };
                        assert(t[a] == s0[aa] && t[b] == s0[bb]);
                    } else if a == r.len() - 1 {
                        assert(r[b] == t[b]);
                        let bb = if b < j { b } else { b + 1 };
                        assert(t[b] == s0[bb]);
                        assert(s0[j].0 == key);
                    } else {
                        assert(r[a] == t[a]);
                        let aa = if a < j { a } else { a + 1 };
                        assert(t[a] == s0[aa]);
                        assert(s0[j].0 == key);
                    }
                },
                None => {
                    if a < r.len() - 1 && b < r.len() - 1 {
                        assert(r[a] == s0[a] && r[b] == s0[b]);
                    } else if a == r.len() - 1 {
                        assert(r[b] == s0[b]);
                    } else {
                        assert(r[a] == s0[a]);
                    }
                },
            }
        }
    }
    let n = r.len() - 1;
    assert(r[n] == (key, value));
    assert(exists|i: int| 0 <= i < r.len() && r[i].0 == key);
    let c = choose|i: int| 0 <= i < r.len() && r[i].0 == key;
    assert(c == n);
    if other != key {
        match key_index(s0, other) {
            None => {
                if exists|i: int| 0 <= i < r.len() && r[i].0 == other {
                    let i = choose|i: int| 0 <= i < r.len() && r[i].0 == other;
                    match found {
                        Some(j) => {
                            let jj = if i < j { i } else { i + 1 };
                            assert(r[i] == s0.remove(j)[i]);
                            assert(s0[jj].0 == other);
                        },
                        None => {
                            assert(r[i] == s0[i]);
                        },
                    }
                }
            },
            Some(j0) => {
                assert(s0[j0].0 == other);
                let j2 = match found {
                    Some(j) => if j0 < j { j0 } else { j0 - 1 },
                    None => j0,
                };
                match found {
                    Some(j) => {
                        assert(j0 != j);
                        assert(r[j2] == s0.remove(j)[j2]);
                    },
                    None => {},
                }
                assert(r[j2] == s0[j0]);
                assert(exists|i: int| 0 <= i < r.len() && r[i].0 == other);
                let c2 = choose|i: int| 0 <= i < r.len() && r[i].0 == other;
                assert(c2 == j2);
            },
        }
    }
}


#[verifier::external_type_specification]
#[verifier::external_body]
#[verifier::reject_recursive_types(T)]
#[verifier::reject_recursive_types(S)]
pub struct ExLinkedHashSet<T, S>(LinkedHashSet<T, S>);

/// The ids that a set holds, by value, in the set's order (oldest first).
pub uninterp spec fn id_set_items(s: LinkedHashSet<(u128, String), RandomState>) -> Seq<(u128, Seq<char>)>;

/// An id by value.
pub open spec fn id_pair_view(x: (u128, String)) -> IdView {
    (x.0, x.1@)
}

/// `LinkedHashSet::new`: an empty set.
#[verifier::external_body]
pub(crate) fn id_set_new() -> (r: LinkedHashSet<(u128, String), RandomState>)
    ensures
        id_set_items(r) == Seq::<IdView>::empty(),
{
    LinkedHashSet::new()
}

/// `LinkedHashSet::insert`: the value goes last; when an equal value was
/// there, that one leaves its place (the underlying `LinkedHashMap::insert`
/// moves an existing entry to the back). The result tells whether the
/// value was absent.
#[verifier::external_body]
pub(crate) fn id_set_insert(s: &mut LinkedHashSet<(u128, String), RandomState>, x: (u128, String)) -> (r: bool)
    ensures
        r == !id_set_items(*old(s)).contains(id_pair_view(x)),
        id_set_items(*final(s)) == retain_ids(id_set_items(*old(s)), set![id_pair_view(x)]).push(id_pair_view(x)),
{
    s.insert(x)
}

/// `LinkedHashSet::remove`: the value equal to `x` leaves the set, the
/// others keep their order. The result tells whether it was there.
#[verifier::external_body]
pub(crate) fn id_set_remove(s: &mut LinkedHashSet<(u128, String), RandomState>, x: &(u128, String)) -> (r: bool)
    ensures
        r == id_set_items(*old(s)).contains(id_pair_view(*x)),
        id_set_items(*final(s)) == retain_ids(id_set_items(*old(s)), set![id_pair_view(*x)]),
{
    s.remove(x)
}

/// `LinkedHashSet::contains`.
#[verifier::external_body]
pub(crate) fn id_set_contains(s: &LinkedHashSet<(u128, String), RandomState>, x: &(u128, String)) -> (r: bool)
    ensures
        r == id_set_items(*s).contains(id_pair_view(*x)),
{
    s.contains(x)
}

/// `LinkedHashSet::len`.
#[verifier::external_body]
pub(crate) fn id_set_len(s: &LinkedHashSet<(u128, String), RandomState>) -> (r: usize)
    ensures
        r == id_set_items(*s).len(),
{
    s.len()
}

/// `LinkedHashSet::front`: the oldest value, if any.
#[verifier::external_body]
pub(crate) fn id_set_front(s: &LinkedHashSet<(u128, String), RandomState>) -> (r: Option<&(u128, String)>)
    ensures
        match r {
            Some(x) => id_set_items(*s).len() > 0 && id_pair_view(*x) == id_set_items(*s)[0],
            None => id_set_items(*s).len() == 0,
        },
{
    s.front()
}

#[verifier::external_type_specification]
#[verifier::external_body]
#[verifier::reject_recursive_types(K)]
#[verifier::reject_recursive_types(V)]
#[verifier::reject_recursive_types(S)]
pub struct ExLinkedHashMap<K, V, S>(LinkedHashMap<K, V, S>);

/// The entries of a map from template names to templates, by value, in the
/// map's order.
pub uninterp spec fn template_map_items(m: LinkedHashMap<String, TemplateRef, RandomState>) -> Seq<(Seq<char>, TemplateView)>;

/// `LinkedHashMap::new`: an empty map.
#[verifier::external_body]
pub(crate) fn template_map_new() -> (r: LinkedHashMap<String, TemplateRef, RandomState>)
    ensures
        template_map_items(r) == Seq::<(Seq<char>, TemplateView)>::empty(),
{
    LinkedHashMap::new()
}

/// `LinkedHashMap::insert`: a new key goes last; an existing key takes the
/// new value and moves last (its old value is dropped).
#[verifier::external_body]
pub(crate) fn template_map_insert(m: &mut LinkedHashMap<String, TemplateRef, RandomState>, key: String, value: TemplateRef)
    requires
        keys_unique_in(template_map_items(*old(m))),
    ensures
        template_map_items(*final(m)) == linked_insert(template_map_items(*old(m)), key@, value@),
{
    m.insert(key, value);
}

/// `LinkedHashMap::get`: the value under `key`, if any.
#[verifier::external_body]
pub(crate) fn template_map_get<'a>(m: &'a LinkedHashMap<String, TemplateRef, RandomState>, key: &String) -> (r: Option<&'a TemplateRef>)
    requires
        keys_unique_in(template_map_items(*m)),
    ensures
        match key_index(template_map_items(*m), key@) {
            Some(j) => r matches Some(t) && t@ == template_map_items(*m)[j].1,
            None => r is None,
        },
{
    m.get(key)
}

/// The names that a set holds, by value, in the set's order.
pub uninterp spec fn name_set_items(s: LinkedHashSet<String, RandomState>) -> Seq<Seq<char>>;

/// `LinkedHashSet::new`: an empty set of names.
#[verifier::external_body]
pub(crate) fn name_set_new() -> (r: LinkedHashSet<String, RandomState>)
    ensures
        name_set_items(r) == Seq::<Seq<char>>::empty(),
{
    LinkedHashSet::new()
}

/// `LinkedHashSet::len`.
#[verifier::external_body]
pub(crate) fn name_set_len(s: &LinkedHashSet<String, RandomState>) -> (r: usize)
    ensures
        r == name_set_items(*s).len(),
{
    s.len()
}

/// `LinkedHashSet::remove`: the name leaves the set, the others keep their
/// order. The result tells whether it was there.
#[verifier::external_body]
pub(crate) fn name_set_remove(s: &mut LinkedHashSet<String, RandomState>, x: &String) -> (r: bool)
    ensures
        r == name_set_items(*old(s)).contains(x@),
        name_set_items(*final(s)) == without(name_set_items(*old(s)), x@),
{
    s.remove(x)
}

/// `LinkedHashSet::insert`: the name goes last; when it was there, it
/// leaves its place. The result tells whether it was absent.
#[verifier::external_body]
pub(crate) fn name_set_insert(s: &mut LinkedHashSet<String, RandomState>, x: String) -> (r: bool)
    ensures
        r == !name_set_items(*old(s)).contains(x@),
        name_set_items(*final(s)) == without(name_set_items(*old(s)), x@).push(x@),
{
    s.insert(x)
}

/// The names of a set in its order (`LinkedHashSet::iter`, each name cloned).
#[verifier::external_body]
pub(crate) fn name_set_to_vec(s: &LinkedHashSet<String, RandomState>) -> (r: Vec<String>)
    ensures
        strs_view(r@) == name_set_items(*s),
{
    s.iter().cloned().collect()
}

/// The generated constraints, by value: for each constraint name, in the
/// map's order, the constraints generated under it, in the inner map's
/// order, each by the id of its root (the inner key), its UUID and the
/// UUIDs of the constraints it may depend on (the inner value).
pub uninterp spec fn generated_items(g: LinkedHashMap<String, LinkedHashMap<(u128, String), (u128, Vec<u128>), RandomState>, RandomState>) -> Seq<(Seq<char>, Seq<GenView>)>;

/// `LinkedHashMap::new`: no generated constraints.
#[verifier::external_body]
pub(crate) fn generated_new() -> (r: LinkedHashMap<String, LinkedHashMap<(u128, String), (u128, Vec<u128>), RandomState>, RandomState>)
    ensures
        generated_items(r) == Seq::<(Seq<char>, Seq<GenView>)>::empty(),
{
    LinkedHashMap::new()
}

/// `LinkedHashMap::get` of a constraint name, with the entries of the inner
/// map found copied out in its order (each root id as a `TaskId`). A map
/// holds each key once, so the entry found is the only one of that name.
#[verifier::external_body]
pub(crate) fn generated_get(g: &LinkedHashMap<String, LinkedHashMap<(u128, String), (u128, Vec<u128>), RandomState>, RandomState>, name: &String) -> (r: Option<Vec<(TaskId, u128, Vec<u128>)>>)
    ensures
        match lookup_from(generated_items(*g), name@, 0) {
            Some(i) => r matches Some(v) && gen_entries_view(v@) == generated_items(*g)[i].1,
            None => r is None,
        },
{
    g.get(name).map(|m| m.iter().map(|(k, v)| (TaskId::new(k.0, k.1.clone()), v.0, v.1.clone())).collect())
}

/// `LinkedHashMap::entry(name).or_insert(LinkedHashMap::new())` and then
/// `insert` of a root id that is not in the inner map yet: a new name goes
/// last (an existing one keeps its place), and the new entry goes last in
/// the inner map (see `gen_add`). A map holds each key once.
#[verifier::external_body]
pub(crate) fn generated_add(g: &mut LinkedHashMap<String, LinkedHashMap<(u128, String), (u128, Vec<u128>), RandomState>, RandomState>, name: &String, key: (u128, String), value: (u128, Vec<u128>))
    requires
        match lookup_from(generated_items(*old(g)), name@, 0) {
            Some(i) => forall|m: int| 0 <= m < generated_items(*old(g))[i].1.len()
                ==> (#[trigger] generated_items(*old(g))[i].1[m]).0 != (key.0, key.1@),
            None => true,
        },
    ensures
        gen_names_unique(generated_items(*final(g))),
        generated_items(*final(g)) == gen_add(generated_items(*old(g)), name@, ((key.0, key.1@), value.0, value.1@)),
{
    g.entry(name.clone()).or_insert(LinkedHashMap::new()).insert(key, value);
}

} // verus!
